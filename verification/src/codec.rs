//! The codecs a track can carry, each naming itself as RFC 6381 asks of a
//! `codecs` parameter.

use vstd::prelude::*;

use crate::charseq::{decimal, push_decimal, string_of};

verus! {

/// A codec of a track.
pub trait Codec {
    /// The codec's name in an RFC 6381 `codecs` parameter.
    fn rfc6381(&self) -> String;
}

/// The RFC 6381 name of AAC with the given audio object type.
pub open spec fn aac_name(profile: u8) -> Seq<char> {
    seq!['m', 'p', '4', 'a', '.', '4', '0', '.'] + decimal(profile as nat)
}

/// Advanced Audio Coding, told apart by its MPEG-4 audio object type.
#[derive(Debug, Clone, PartialEq, Eq)]
pub struct AacCodec {
    /// The audio object type (2 for AAC-LC).
    pub profile: u8,
}

/// What the `esds` of an `mp4a` sample entry says of its codec: the audio object
/// type in its decoder-specific configuration, where it carries one.
#[derive(Debug, Clone, Copy, PartialEq, Eq)]
pub struct Mp4aConfig {
    pub object_type: Option<u8>,
}

impl AacCodec {
    /// The AAC codec an `mp4a` sample entry describes: the object type its `esds`
    /// carries, or `None` where it carries no decoder-specific configuration to
    /// read one from.
    pub fn new(codec: &Mp4aConfig) -> (r: Option<Self>)
        ensures
            r == match codec.object_type {
                Some(profile) => Some(AacCodec { profile }),
                None => None,
            },
    {
        match codec.object_type {
            Some(profile) => Some(AacCodec { profile }),
            None => None,
        }
    }
}

impl Codec for AacCodec {
    /// `mp4a.40.` followed by the audio object type in decimal.
    fn rfc6381(&self) -> (name: String)
        ensures
            name@ == aac_name(self.profile),
    {
        let mut chars: Vec<char> = vec!['m', 'p', '4', 'a', '.', '4', '0', '.'];
        push_decimal(&mut chars, self.profile as u64);
        string_of(chars.as_slice())
    }
}

/// WebVTT carried in ISO BMFF (ISO/IEC 14496-30).
#[derive(Debug, Clone, Copy, PartialEq, Eq)]
pub struct WvttCodec;

impl Codec for WvttCodec {
    /// Always `wvtt`.
    fn rfc6381(&self) -> (name: String)
        ensures
            name@ == seq!['w', 'v', 't', 't'],
    {
        let chars: Vec<char> = vec!['w', 'v', 't', 't'];
        string_of(chars.as_slice())
    }
}

} // verus!
