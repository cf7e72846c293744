use vstd::prelude::*;

verus! {

/// The closed taxonomy of decode failures. Every variant carries the byte
/// offset at which the problem was detected.
#[derive(Copy, Clone, Debug, PartialEq, Eq, Structural)]
pub enum DecodeError {
    /// The buffer ended before a required field could be read: `needed` bytes
    /// were wanted at `offset`, but only `available` remained.
    Truncated { offset: usize, needed: usize, available: usize },
    /// The fixed four-byte preamble was not the expected constant.
    BadPreamble { offset: usize },
    /// The codec id is not in the recognised set; the IO block layout cannot
    /// be determined for unknown codecs, so decoding stops rather than guess.
    UnsupportedCodec { offset: usize, id: u8 },
    /// The sum of the four IO bucket counts disagrees with the declared total
    /// IO element count. `offset` is the start of the IO block.
    CountMismatch { offset: usize, expected: u32, actual: u32 },
    /// The trailing record count does not echo the count declared in the
    /// header.
    RecordCountMismatch { offset: usize, declared: u8, trailing: u8 },
    /// The payload checksum did not match its recomputation. Only wire
    /// variants that carry a checksum can report this; the variant supported
    /// here has none, so the decoder never produces it.
    ChecksumMismatch { offset: usize, expected: u32, actual: u32 },
}

/// Failures of hex-string decoding.
#[derive(Copy, Clone, Debug, PartialEq, Eq, Structural)]
pub enum HexError {
    /// The string's byte length is odd, so it cannot split into digit pairs.
    OddLength,
    /// The byte at `offset` is not an ASCII hexadecimal digit.
    InvalidDigit { offset: usize },
}

} // verus!
