use vstd::prelude::*;

verus! {

/// The run configuration chosen on the command line: whether program output
/// is rendered as decimal numbers instead of characters, and which program
/// files to run.
pub struct Options {
    pub output_number: bool,
    pub input_files: Vec<String>,
}

impl Options {
    /// The default configuration: character output, no input files yet.
    pub fn new() -> (o: Options)
        ensures
            o.output_number == false,
            o.input_files@.len() == 0,
    {
        Options { output_number: false, input_files: Vec::new() }
    }
}

} // verus!
