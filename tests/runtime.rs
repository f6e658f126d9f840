use lmc_emulator::memory::{LoadError, Memory, MemoryError};
use lmc_emulator::runtime::{execute, Fault, Status, Vm};
use lmc_emulator::tokenizer::generate_tokenized_instructions;

fn run_source(source: &str, inputs: Vec<i64>) -> Vm {
    let words = generate_tokenized_instructions(source).unwrap();
    execute(&words, inputs, 1000).unwrap()
}

#[test]
fn echo_program_outputs_its_input() {
    let vm = run_source("INP\nOUT\nHLT", vec![42]);
    assert_eq!(vm.outputs, vec![42]);
    assert_eq!(vm.status, Status::Halted);
}

#[test]
fn counter_program_outputs_one() {
    let source = "loop LDA one\n ADD count\n STA count\n OUT\n HLT\n count DAT 0\n one DAT 1";
    let vm = run_source(source, vec![]);
    assert_eq!(vm.outputs, vec![1]);
    assert_eq!(vm.status, Status::Halted);
    assert_eq!(vm.memory.read(5), Ok(1));
}

#[test]
fn branch_out_of_memory_faults() {
    let mut memory = Memory::with_capacity(10);
    memory.load(&vec![650]).unwrap();
    let mut vm = Vm::new(memory, vec![]);
    vm.step();
    assert_eq!(vm.status, Status::Faulted(Fault::AddressOutOfBounds));
    assert_eq!(vm.pc, 0);
    vm.step();
    assert_eq!(vm.status, Status::Faulted(Fault::AddressOutOfBounds));
}

#[test]
fn load_then_output_yields_slot_value() {
    let vm = run_source("LDA x\nOUT\nHLT\nx DAT 314", vec![]);
    assert_eq!(vm.outputs, vec![314]);
}

#[test]
fn store_then_load_keeps_accumulator() {
    let vm = run_source("INP\nSTA x\nLDA zero\nLDA x\nOUT\nHLT\nx DAT\nzero DAT", vec![77]);
    assert_eq!(vm.outputs, vec![77]);
}

#[test]
fn add_then_sub_restores_accumulator() {
    let vm = run_source("INP\nADD x\nOUT\nSUB x\nOUT\nHLT\nx DAT 25", vec![10]);
    assert_eq!(vm.outputs, vec![35, 10]);
}

#[test]
fn halt_stops_before_later_instructions() {
    let vm = run_source("LDA x\nHLT\nOUT\nOUT\nx DAT 5", vec![]);
    assert_eq!(vm.outputs, Vec::<i64>::new());
    assert_eq!(vm.status, Status::Halted);
    assert_eq!(vm.pc, 2);
}

#[test]
fn branch_if_zero_taken_and_not_taken() {
    let source = "INP\nBRZ zero\nLDA one\nOUT\nHLT\nzero OUT\nHLT\none DAT 1";
    assert_eq!(run_source(source, vec![0]).outputs, vec![0]);
    assert_eq!(run_source(source, vec![3]).outputs, vec![1]);
}

#[test]
fn branch_if_positive_taken_and_not_taken() {
    let source = "INP\nBRP pos\nLDA neg\nOUT\nHLT\npos OUT\nHLT\nneg DAT 9";
    assert_eq!(run_source(source, vec![0]).outputs, vec![0]);
    assert_eq!(run_source(source, vec![5]).outputs, vec![5]);
    assert_eq!(run_source(source, vec![-4]).outputs, vec![9]);
}

#[test]
fn subtraction_below_zero_goes_negative() {
    let vm = run_source("LDA a\nSUB b\nOUT\nBRP done\nOUT\ndone HLT\na DAT 3\nb DAT 5", vec![]);
    assert_eq!(vm.outputs, vec![-2, -2]);
}

#[test]
fn arithmetic_saturates_at_word_range() {
    let vm = run_source("LDA a\nADD a\nOUT\nSUB a\nSUB a\nSUB a\nSUB a\nOUT\nHLT\na DAT 600", vec![]);
    assert_eq!(vm.outputs, vec![999, -999]);
    let clamped = run_source("INP\nOUT\nINP\nOUT\nHLT", vec![5000, -5000]);
    assert_eq!(clamped.outputs, vec![999, -999]);
}

#[test]
fn input_exhaustion_faults() {
    let vm = run_source("INP\nINP\nHLT", vec![1]);
    assert_eq!(vm.status, Status::Faulted(Fault::InputExhausted));
    assert_eq!(vm.pc, 1);
    assert_eq!(vm.accumulator, 1);
}

#[test]
fn unused_opcode_class_faults() {
    let vm = execute(&vec![450, 0], vec![], 10).unwrap();
    assert_eq!(vm.status, Status::Faulted(Fault::InvalidInstruction));
    let small = execute(&vec![42], vec![], 10).unwrap();
    assert_eq!(small.status, Status::Faulted(Fault::InvalidInstruction));
    let nine = execute(&vec![903], vec![], 10).unwrap();
    assert_eq!(nine.status, Status::Faulted(Fault::InvalidInstruction));
}

#[test]
fn running_off_the_end_faults() {
    let mut memory = Memory::with_capacity(2);
    memory.load(&vec![902, 902]).unwrap();
    let mut vm = Vm::new(memory, vec![]);
    vm.run(10);
    assert_eq!(vm.outputs, vec![0, 0]);
    assert_eq!(vm.status, Status::Faulted(Fault::AddressOutOfBounds));
    assert_eq!(vm.pc, 2);
}

#[test]
fn storing_zero_over_next_instruction_halts() {
    let vm = run_source("STA next\nnext OUT\nOUT\nHLT", vec![]);
    assert_eq!(vm.status, Status::Halted);
    assert_eq!(vm.outputs, Vec::<i64>::new());
}

#[test]
fn data_word_zero_only_halts_when_fetched() {
    let vm = run_source("LDA z\nADD one\nOUT\nHLT\nz DAT 0\none DAT 1", vec![]);
    assert_eq!(vm.outputs, vec![1]);
}

#[test]
fn step_budget_bounds_an_endless_loop() {
    let vm = run_source("top BRA top", vec![]);
    assert_eq!(vm.status, Status::Running);
    assert_eq!(vm.pc, 0);
}

#[test]
fn memory_starts_zeroed_and_bounds_accesses() {
    let mut memory = Memory::new();
    assert_eq!(memory.len(), 100);
    assert_eq!(memory.read(99), Ok(0));
    assert_eq!(memory.read(100), Err(MemoryError::OutOfBounds));
    assert_eq!(memory.write(100, 1), Err(MemoryError::OutOfBounds));
    assert_eq!(memory.write(3, 1000), Err(MemoryError::ValueOutOfRange));
    assert_eq!(memory.write(3, -12), Ok(()));
    assert_eq!(memory.read(3), Ok(-12));
}

#[test]
fn load_fills_low_slots_and_checks_size() {
    let mut memory = Memory::with_capacity(3);
    memory.write(2, 9).unwrap();
    assert_eq!(memory.load(&vec![1, 2, 3, 4]), Err(LoadError::ProgramTooLong));
    assert_eq!(memory.load(&vec![1, 1000]), Err(LoadError::WordOutOfRange));
    assert_eq!(memory.read(0), Ok(0));
    assert_eq!(memory.load(&vec![5, 6]), Ok(()));
    assert_eq!(memory.read(0), Ok(5));
    assert_eq!(memory.read(1), Ok(6));
    assert_eq!(memory.read(2), Ok(9));
    let too_long = vec![0; 101];
    assert!(matches!(execute(&too_long, vec![], 1), Err(LoadError::ProgramTooLong)));
}
