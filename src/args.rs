//! The requests a command line can make of the library.
use vstd::prelude::*;

verus! {

/// One request on a file.
#[derive(Debug, PartialEq, Eq)]
pub enum Commands {
    /// Hide a message in a new chunk of the given type.
    Encode(EncodeArgs),
    /// Read the message in the first chunk of the given type.
    Decode(DecodeArgs),
    /// Delete the first chunk of the given type.
    Remove(RemoveArgs),
    /// List the chunks of the file.
    Print(PrintArgs),
}

/// A file and what to do with it.
#[derive(Debug, PartialEq, Eq)]
pub struct Opt {
    pub input: String,
    pub commands: Commands,
}

#[derive(Debug, PartialEq, Eq)]
pub struct EncodeArgs {
    pub message: String,
    pub chunk_type: String,
}

#[derive(Debug, PartialEq, Eq)]
pub struct DecodeArgs {
    pub chunk_type: String,
}

#[derive(Debug, PartialEq, Eq)]
pub struct RemoveArgs {
    pub chunk_type: String,
}

#[derive(Debug, PartialEq, Eq)]
pub struct PrintArgs {}

} // verus!
