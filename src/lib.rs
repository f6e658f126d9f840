pub mod machine;
pub mod memory;
pub mod runtime;
pub mod tokenizer;
