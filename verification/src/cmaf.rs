//! The index of a CMAF track: where each media segment lies in the source, and
//! the byte range a segment's start time resolves to.

use vstd::prelude::*;

verus! {

/// The bytes `[start, end)` of a source.
#[derive(Debug, Clone, Copy, PartialEq, Eq)]
pub struct ByteRange {
    pub start: u64,
    pub end: u64,
}

/// One media segment: `size` bytes from `offset`, lasting `duration` in the
/// track's timescale.
#[derive(Debug, Clone, Copy, PartialEq, Eq)]
pub struct Segment {
    pub offset: u64,
    pub size: u64,
    pub duration: u64,
}

/// A video codec and the parameters its sample entry declares.
#[derive(Debug, Clone, Copy, PartialEq, Eq)]
pub enum VideoCodec {
    /// H.264, with the profile, constraint flags and level of its `avcC`.
    Avc { profile: u8, constraints: u8, level: u8 },
}

/// What a video track holds.
#[derive(Debug, Clone, Copy, PartialEq, Eq)]
pub struct VideoStream {
    pub codec: VideoCodec,
    pub width: u32,
    pub height: u32,
    /// Frames per second, as a numerator and a denominator.
    pub frame_rate: (u32, u32),
}

/// The elementary stream a track carries.
#[derive(Debug, Clone, Copy, PartialEq, Eq)]
pub enum Stream {
    Video(VideoStream),
}

/// What probing a CMAF track finds: its timing, where its initialization data and
/// segments lie, and what it carries.
#[derive(Debug, Clone, PartialEq, Eq)]
pub struct CmafHeader {
    pub timescale: u32,
    pub duration: u64,
    pub bandwidth: u64,
    /// When the first segment starts, in the track's timescale.
    pub earliest_presentation_time: u64,
    pub init_range: ByteRange,
    pub segments: Vec<Segment>,
    pub stream: Stream,
}

/// The byte range of the first of `segments` that starts at `time`, the first
/// starting at `t` and each following one when the one before ends.
pub open spec fn range_starting_at(segments: Seq<Segment>, t: int, time: u64) -> Option<ByteRange>
    decreases segments.len(),
{
    if segments.len() == 0 {
        None
    } else if t == time {
        Some(ByteRange { start: segments[0].offset, end: (segments[0].offset + segments[0].size) as u64 })
    } else {
        range_starting_at(segments.drop_first(), t + segments[0].duration, time)
    }
}

/// Looking for `time` from `t` on counts nothing past `u64::MAX`: the running
/// start of each segment passed over fits, as does the end of the one found.
pub open spec fn fits_until(segments: Seq<Segment>, t: int, time: u64) -> bool
    decreases segments.len(),
{
    if segments.len() == 0 {
        true
    } else if t == time {
        segments[0].offset + segments[0].size <= u64::MAX
    } else {
        t + segments[0].duration <= u64::MAX && fits_until(
            segments.drop_first(),
            t + segments[0].duration,
            time,
        )
    }
}

/// Whether looking for the segment starting at `time` in `header` stays within
/// `u64`: what [`segment_range`] asks of its caller.
pub fn fits_until_time(header: &CmafHeader, time: u64) -> (b: bool)
    ensures
        b == fits_until(header.segments@, header.earliest_presentation_time as int, time),
{
    let segments = &header.segments;
    let mut t = header.earliest_presentation_time;
    let mut i: usize = 0;
    proof {
        assert(segments@.skip(0) =~= segments@);
    }
    while i < segments.len()
        invariant
            segments@ == header.segments@,
            i <= segments@.len(),
            fits_until(segments@, header.earliest_presentation_time as int, time) == fits_until(
                segments@.skip(i as int),
                t as int,
                time,
            ),
        decreases segments@.len() - i,
    {
        let ghost rest = segments@.skip(i as int);
        proof {
            assert(rest[0] == segments@[i as int]);
            assert(rest.drop_first() =~= segments@.skip(i + 1));
        }
        let segment = segments[i];
        proof {
            assert(rest.len() > 0);
            assert(segment == rest[0]);
        }
        if t == time {
            proof {
                assert(fits_until(rest, t as int, time) == (rest[0].offset + rest[0].size <= u64::MAX));
            }
            return segment.size <= u64::MAX - segment.offset;
        }
        if segment.duration > u64::MAX - t {
            proof {
                assert(!(t + rest[0].duration <= u64::MAX));
            }
            return false;
        }
        t = t + segment.duration;
        i = i + 1;
    }
    true
}

/// The `[offset, offset + size)` byte range of the segment whose start time is
/// `time`, the segments starting one after the other from the earliest
/// presentation time; `None` if no segment starts at `time`.
pub fn segment_range(header: &CmafHeader, time: u64) -> (r: Option<ByteRange>)
    requires
        fits_until(header.segments@, header.earliest_presentation_time as int, time),
    ensures
        r == range_starting_at(header.segments@, header.earliest_presentation_time as int, time),
{
    let segments = &header.segments;
    let mut t = header.earliest_presentation_time;
    let mut i: usize = 0;
    proof {
        assert(segments@.skip(0) =~= segments@);
    }
    while i < segments.len()
        invariant
            i <= segments@.len(),
            segments@ == header.segments@,
            fits_until(segments@.skip(i as int), t as int, time),
            range_starting_at(segments@, header.earliest_presentation_time as int, time)
                == range_starting_at(segments@.skip(i as int), t as int, time),
        decreases segments@.len() - i,
    {
        let seg = segments[i];
        proof {
            assert(segments@.skip(i as int)[0] == seg);
            assert(segments@.skip(i as int).drop_first() =~= segments@.skip(i + 1));
        }
        if t == time {
            let found = ByteRange { start: seg.offset, end: seg.offset + seg.size };
            proof {
                assert(range_starting_at(segments@.skip(i as int), t as int, time) == Some(found));
            }
            return Some(found);
        }
        t = t + seg.duration;
        i = i + 1;
    }
    None
}

} // verus!
