//! The container format's two offset sizes.

use vstd::prelude::*;

verus! {

/// The two flavours of the container format, which differ in the size of
/// the words and offsets stored in a section.
#[derive(Debug, Clone, Copy, PartialEq, Eq, Structural)]
pub enum Format {
    /// Words and offsets are stored in 8 bytes.
    Dwarf64,
    /// Words and offsets are stored in 4 bytes.
    Dwarf32,
}

impl Format {
    /// The number of bytes that a word or offset of this format occupies.
    pub open spec fn spec_word_size(self) -> u8 {
        match self {
            Format::Dwarf32 => 4,
            Format::Dwarf64 => 8,
        }
    }

    /// The number of bytes that a word or offset of this format occupies.
    #[verifier::when_used_as_spec(spec_word_size)]
    pub fn word_size(self) -> (size: u8)
        ensures
            size == self.spec_word_size(),
    {
        match self {
            Format::Dwarf32 => 4,
            Format::Dwarf64 => 8,
        }
    }
}

} // verus!
