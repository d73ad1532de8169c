//! The compression level selector and its mapping to a codec intensity.

use vstd::prelude::*;

verus! {

/// The compression level to use when compressing files (0-9).
///
/// Each named preset maps to a fixed codec intensity; `Custom(n)` asks for
/// `n` directly. A `Custom` value above 9 is clamped to 9 by [`CompressionLevel::value`]:
/// the codec is never handed an out-of-range intensity.
#[derive(Debug, Clone, PartialEq, Eq, Structural)]
pub enum CompressionLevel {
    /// No compression (0): the stream is stored, not deflated.
    NoCompression,
    /// Fast compression (1).
    Fast,
    /// Default compression (6).
    Default,
    /// Maximum compression (9).
    Maximum,
    /// Custom compression level; meaningful values are 0-9, larger ones clamp to 9.
    Custom(u32),
}

/// The codec intensity a level selects: NoCompression maps to 0, Fast to 1, Default
/// to 6, Maximum to 9, and Custom(n) to n clamped to at most 9.
pub open spec fn spec_level_value(level: CompressionLevel) -> u32 {
    match level {
        CompressionLevel::NoCompression => 0u32,
        CompressionLevel::Fast => 1u32,
        CompressionLevel::Default => 6u32,
        CompressionLevel::Maximum => 9u32,
        CompressionLevel::Custom(n) => if n <= 9 {
            n
        } else {
            9u32
        },
    }
}

impl CompressionLevel {
    /// The numeric codec intensity this level selects, always within 0-9.
    pub fn value(&self) -> (r: u32)
        ensures
            r == spec_level_value(*self),
            r <= 9,
    {
        match self {
            CompressionLevel::NoCompression => 0,
            CompressionLevel::Fast => 1,
            CompressionLevel::Default => 6,
            CompressionLevel::Maximum => 9,
            CompressionLevel::Custom(n) => if *n <= 9 {
                *n
            } else {
                9
            },
        }
    }
}

impl From<CompressionLevel> for u32 {
    /// The numeric codec intensity, as [`spec_level_value`] maps it.
    fn from(level: CompressionLevel) -> (r: u32)
        ensures
            r == spec_level_value(level),
    {
        level.value()
    }
}

impl vstd::std_specs::convert::FromSpecImpl<CompressionLevel> for u32 {
    open spec fn obeys_from_spec() -> bool {
        true
    }

    open spec fn from_spec(level: CompressionLevel) -> u32 {
        spec_level_value(level)
    }
}

} // verus!
