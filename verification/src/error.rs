use vstd::prelude::*;

verus! {

/// The ways in which encoding or decoding can fail.
#[derive(Debug, Clone, Copy, PartialEq, Eq, Structural)]
pub enum HuffmanError {
    /// Encoding was asked for an input of zero bytes, or decoding for a
    /// frequency table without entries: there is no tree to build.
    EmptyInput,
    /// The header text is not a list of `byte:count` pairs, or its counts
    /// together exceed what the machine can address.
    MalformedHeader,
    /// An input byte has no entry in the code table.
    Encoding,
}

} // verus!
