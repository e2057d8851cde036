use vstd::prelude::*;

verus! {

/// A condition that ends the processing of a file: the file is corrupt, or of
/// a kind that is not supported.
#[derive(PartialEq, Eq, Structural, Clone, Copy, Debug)]
pub enum Fatal {
    /// The file is not as long as its header says.
    LengthMismatch,
    /// The schema is not 2, 3 or 4, or the offset width does not go with it.
    InvalidFormat,
    /// A table declares a record width other than the one its schema has.
    EntrySize,
    /// A table declares a maximal string length other than the one its schema has.
    StringLength,
    /// A table's font family differs from the one of the file.
    FontFamily,
    /// A table holds fewer or more entries than its kind allows.
    EntryCount,
    /// A product record's flags are out of range.
    InvalidFlags,
    /// Mode numbers do not come in sequence.
    ModeSequence,
    /// A number that must fit one byte does not.
    ValueTooLarge,
    /// An offset is zero where a table or a string must be.
    EmptySlot,
    /// Two entries of one table have the same key.
    DuplicateKey,
    /// Bytes were asked for beyond the end of the file.
    OutOfBounds,
    /// Bytes were read as two different kinds of content.
    RegionMismatch,
    /// A schema-2 file has no table of keypad strings.
    MissingKeypadStrs,
    /// The character maps have no entry for a code.
    MissingCharacter,
    /// A mode number is none of 0 to 4.
    UnknownMode,
    /// The highest codepoint of a font lies below its lowest, or the two
    /// span more codepoints than a count of 16 bits holds.
    CodepointRange,
}

} // verus!
