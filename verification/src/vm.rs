pub mod append_array;
pub mod memory;
pub mod pointer;
