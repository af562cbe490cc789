pub mod interpreter;
pub mod options;
pub mod vm;
