//! Which decoder opens a track's file, and what follows when one fails.
//!
//! The caller opens the file with the decoder named here; on a failure it
//! asks for the next one, and a failure with none left is the track's decode
//! error.

use vstd::prelude::*;
use crate::text::{ends_with, has_suffix, lower_of, lowercase};

verus! {

/// A decode strategy.
#[derive(Clone, Copy, Debug, PartialEq, Eq, Structural)]
pub enum Codec {
    /// The specialised Opus-in-Ogg decoder.
    Opus,
    /// The general-purpose decoder.
    General,
}

/// A lower-cased path whose extension names an Opus container.
pub open spec fn opus_extension(lowered: Seq<char>) -> bool {
    has_suffix(lowered, ".opus"@) || has_suffix(lowered, ".webm"@)
}

pub open spec fn first_codec(lowered: Seq<char>) -> Codec {
    if opus_extension(lowered) {
        Codec::Opus
    } else {
        Codec::General
    }
}

/// Whether a lower-cased path ends in `.opus` or `.webm`.
pub fn has_opus_extension(lowered: &str) -> (r: bool)
    ensures
        r == opus_extension(lowered@),
{
    ends_with(lowered, ".opus") || ends_with(lowered, ".webm")
}

/// The decoder to try first on a file: the Opus one where the extension,
/// in any case, says Opus or WebM; else the general one.
pub fn first_decoder(path: &str) -> (r: Codec)
    ensures
        r == first_codec(lower_of(path@)),
{
    let lowered = lowercase(path);
    if has_opus_extension(lowered.as_str()) {
        Codec::Opus
    } else {
        Codec::General
    }
}

/// The decoder to try after `failed` reported an error: the general one
/// stands behind the Opus one, and nothing stands behind the general one.
pub fn decoder_after(failed: Codec) -> (r: Option<Codec>)
    ensures
        r == (match failed {
            Codec::Opus => Some(Codec::General),
            Codec::General => None::<Codec>,
        }),
{
    match failed {
        Codec::Opus => Some(Codec::General),
        Codec::General => None,
    }
}

} // verus!
