use vstd::prelude::*;

verus! {

/// What the tool is asked to do.
#[derive(Debug)]
pub enum Commands {
    /// Pull the content of a shared folder, given its address.
    Pull { url: String },
    /// Bring a pulled folder up to date; the folder that holds the metadata
    /// file, or the current one.
    Sync { path: Option<String> },
}

/// The command line: the number of threads for downloads, and the command.
#[derive(Debug)]
pub struct Cli {
    pub threads: usize,
    pub command: Commands,
}

} // verus!
