use vstd::prelude::*;

verus! {

/// The command line as the program reads it: one or two paths to data
/// sources or count documents.
pub struct Cli {
    pub src: Vec<String>,
}

impl Cli {
    pub fn new(src: Vec<String>) -> (c: Cli)
        ensures
            c.src@ == src@,
    {
        Cli { src }
    }
}

} // verus!
