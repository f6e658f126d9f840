use lmc_emulator::tokenizer::{
    generate_binary, generate_instructions, generate_tokenized_instructions, AssemblyError,
    BinaryError,
};

#[test]
fn input_output_program_assembles_and_encodes() {
    let words = generate_tokenized_instructions("INP\nOUT\nHLT").unwrap();
    assert_eq!(words, vec![901, 902, 0]);
    let binary = generate_binary(words).unwrap();
    assert_eq!(binary, b"901902000".to_vec());
}

#[test]
fn labels_resolve_to_statement_slots() {
    let source = "loop LDA one\n ADD count\n STA count\n OUT\n HLT\n count DAT 0\n one DAT 1";
    let words = generate_tokenized_instructions(source).unwrap();
    assert_eq!(words, vec![506, 105, 305, 902, 0, 0, 1]);
    assert_eq!(words[1] - 100, 5);
    assert_eq!(words[0] - 500, 6);
}

#[test]
fn blank_and_comment_lines_take_no_slot() {
    let source = "// counter\n\n   \nstart BRA end // jump ahead\n\n// gap\nDAT 3\nend BRA start\n";
    let words = generate_tokenized_instructions(source).unwrap();
    assert_eq!(words, vec![602, 3, 600]);
}

#[test]
fn backward_and_forward_labels() {
    let source = "top INP\nBRZ done\nBRA top\ndone HLT";
    let words = generate_tokenized_instructions(source).unwrap();
    assert_eq!(words, vec![901, 703, 600, 0]);
}

#[test]
fn dat_reserves_one_slot_each() {
    let words = generate_tokenized_instructions("DAT\nDAT 7\nHLT").unwrap();
    assert_eq!(words, vec![0, 7, 0]);
    let labelled = generate_tokenized_instructions("x DAT\ny DAT 7\nLDA y").unwrap();
    assert_eq!(labelled, vec![0, 7, 501]);
}

#[test]
fn mnemonics_ignore_case() {
    let words = generate_tokenized_instructions("inp\nOut\nsta 42\nhLt").unwrap();
    assert_eq!(words, vec![901, 902, 342, 0]);
}

#[test]
fn numeric_operands() {
    let words = generate_tokenized_instructions("ADD 0\nSUB 99\nBRP 12\nLDA 7 extra").unwrap();
    assert_eq!(words, vec![100, 299, 812, 507]);
}

#[test]
fn tabs_and_carriage_returns_separate_words() {
    let words = generate_tokenized_instructions("a\tLDA\t5\r\nOUT\r\n").unwrap();
    assert_eq!(words, vec![505, 902]);
}

#[test]
fn unknown_instruction_is_reported_with_its_line() {
    assert_eq!(
        generate_tokenized_instructions("INP\n\nfoo bar 3\nHLT"),
        Err(AssemblyError::UnknownInstruction(2))
    );
    assert_eq!(
        generate_tokenized_instructions("lonely"),
        Err(AssemblyError::UnknownInstruction(0))
    );
}

#[test]
fn missing_operand_is_reported() {
    assert_eq!(
        generate_tokenized_instructions("INP\nADD\n"),
        Err(AssemblyError::MissingOperand(1))
    );
}

#[test]
fn invalid_operands_are_reported() {
    assert_eq!(
        generate_tokenized_instructions("LDA nowhere"),
        Err(AssemblyError::InvalidOperand(0))
    );
    assert_eq!(
        generate_tokenized_instructions("HLT\nBRA 100"),
        Err(AssemblyError::InvalidOperand(1))
    );
    assert_eq!(
        generate_tokenized_instructions("DAT 1000"),
        Err(AssemblyError::InvalidOperand(0))
    );
    assert_eq!(
        generate_tokenized_instructions("DAT -5"),
        Err(AssemblyError::InvalidOperand(0))
    );
}

#[test]
fn duplicate_label_is_reported() {
    assert_eq!(
        generate_tokenized_instructions("x DAT 1\nHLT\nx DAT 2"),
        Err(AssemblyError::DuplicateLabel(2))
    );
}

#[test]
fn label_beyond_slot_ninety_nine_is_invalid() {
    let mut source = String::new();
    for _ in 0..100 {
        source.push_str("HLT\n");
    }
    source.push_str("far DAT 1\nLDA far\n");
    assert_eq!(
        generate_tokenized_instructions(&source),
        Err(AssemblyError::InvalidOperand(101))
    );
}

#[test]
fn empty_source_assembles_to_nothing() {
    assert_eq!(generate_tokenized_instructions(""), Ok(vec![]));
    assert_eq!(generate_tokenized_instructions("\n  \n// only a comment\n"), Ok(vec![]));
}

#[test]
fn binary_pads_to_three_digits() {
    assert_eq!(generate_binary(vec![901, 300]).unwrap(), b"901300".to_vec());
    assert_eq!(generate_binary(vec![7, 42, 0]).unwrap(), b"007042000".to_vec());
    assert_eq!(generate_binary(vec![]).unwrap(), Vec::<u8>::new());
}

#[test]
fn binary_rejects_words_out_of_range() {
    assert_eq!(generate_binary(vec![1000]), Err(BinaryError::WordOutOfRange));
    assert_eq!(generate_binary(vec![5, -1]), Err(BinaryError::WordOutOfRange));
}

#[test]
fn binary_decodes_in_three_byte_chunks() {
    assert_eq!(generate_instructions(b"901902000").unwrap(), vec![901, 902, 0]);
    assert_eq!(generate_instructions(b"007999").unwrap(), vec![7, 999]);
    assert_eq!(generate_instructions(b"").unwrap(), Vec::<i64>::new());
}

#[test]
fn binary_decode_errors() {
    assert_eq!(generate_instructions(b"9019"), Err(BinaryError::MalformedLength));
    assert_eq!(generate_instructions(b"90a902"), Err(BinaryError::InvalidDigit));
}

#[test]
fn assembled_program_round_trips_through_binary() {
    let source = "start INP\nSTA keep\nLDA keep\nOUT\nBRP start\nHLT\nkeep DAT 999";
    let words = generate_tokenized_instructions(source).unwrap();
    let binary = generate_binary(words.clone()).unwrap();
    assert_eq!(binary.len(), 3 * words.len());
    assert_eq!(generate_instructions(&binary).unwrap(), words);
}
