//! Media segments as a packager builds them: a base decode time and the samples
//! that follow it.

use vstd::prelude::*;

use crate::muxer::{
    append, box_fits, box_of, brands_body, encode_mdat, encode_moof, encode_styp, mdat_kind, moof_bytes,
    styp_kind,
};

verus! {

/// One sample: how long it lasts, in the track's timescale, and what it carries.
#[derive(Debug, Clone, PartialEq, Eq)]
pub struct Sample<P> {
    duration: u32,
    payload: P,
}

impl<P> View for Sample<P> {
    type V = (u32, P);

    closed spec fn view(&self) -> (u32, P) {
        (self.duration, self.payload)
    }
}

impl<P> Sample<P> {
    /// A sample lasting `duration` and carrying `payload`.
    pub fn new(duration: u32, payload: P) -> (s: Self)
        ensures
            s@ == (duration, payload),
    {
        Sample { duration, payload }
    }

    /// How long the sample lasts.
    pub fn duration(&self) -> (d: u32)
        ensures
            d == self@.0,
    {
        self.duration
    }

    /// What the sample carries.
    pub fn payload(&self) -> (p: &P)
        ensures
            *p == self@.1,
    {
        &self.payload
    }
}

/// The samples of a media segment, by view.
pub open spec fn sample_views<P>(samples: Seq<Sample<P>>) -> Seq<(u32, P)> {
    samples.map_values(|s: Sample<P>| s@)
}

/// The sum of the durations of `samples`.
pub open spec fn total_duration<P>(samples: Seq<(u32, P)>) -> int
    decreases samples.len(),
{
    if samples.len() == 0 {
        0
    } else {
        total_duration(samples.drop_last()) + samples.last().0
    }
}

/// The samples of a segment, decoded from `base_decode_time` on.
#[derive(Debug, Clone, PartialEq, Eq)]
pub struct MediaSegment<P> {
    base_decode_time: u64,
    samples: Vec<Sample<P>>,
}

impl<P> View for MediaSegment<P> {
    type V = (u64, Seq<(u32, P)>);

    closed spec fn view(&self) -> (u64, Seq<(u32, P)>) {
        (self.base_decode_time, sample_views(self.samples@))
    }
}

impl<P> MediaSegment<P> {
    /// A segment whose `samples` are decoded from `base_decode_time` on.
    pub fn new(base_decode_time: u64, samples: Vec<Sample<P>>) -> (m: Self)
        ensures
            m@ == (base_decode_time, sample_views(samples@)),
    {
        MediaSegment { base_decode_time, samples }
    }

    /// When the first sample is decoded, in the track's timescale.
    pub fn base_decode_time(&self) -> (t: u64)
        ensures
            t == self@.0,
    {
        self.base_decode_time
    }

    /// How long the segment lasts: the sum of its samples' durations, which the
    /// caller guarantees to fit in a `u64`.
    pub fn duration(&self) -> (d: u64)
        requires
            total_duration(self@.1) <= u64::MAX,
        ensures
            d == total_duration(self@.1),
    {
        let ghost all = self@.1;
        let mut total: u64 = 0;
        for i in 0..self.samples.len()
            invariant
                all == sample_views(self.samples@),
                total_duration(all) <= u64::MAX,
                total == total_duration(all.take(i as int)),
        {
            proof {
                assert(all.take(i + 1).drop_last() =~= all.take(i as int));
                lemma_total_prefix(all, i + 1);
            }
            total = total + self.samples[i].duration as u64;
        }
        proof {
            assert(all.take(self.samples.len() as int) =~= all);
        }
        total
    }

    /// The samples, in decoding order.
    pub fn samples(&self) -> (s: &[Sample<P>])
        ensures
            sample_views(s@) == self@.1,
    {
        self.samples.as_slice()
    }
}

proof fn lemma_total_prefix<P>(samples: Seq<(u32, P)>, i: int)
    requires
        0 <= i <= samples.len(),
    ensures
        total_duration(samples.take(i)) <= total_duration(samples),
    decreases samples.len() - i,
{
    if i < samples.len() {
        lemma_total_prefix(samples, i + 1);
        assert(samples.take(i + 1).drop_last() =~= samples.take(i));
    } else {
        assert(samples.take(i) =~= samples);
    }
}


/// What stops a packager from writing media.
#[derive(Debug)]
pub enum PackageError {
    InvalidTrackId,
    InvalidTimescale,
    Empty,
    /// A sample's payload is over `u32::MAX` bytes, more than a run can declare.
    SampleTooLarge,
    /// The `moof` runs past the `i32` data offset that points past it.
    MediaSegmentTooLarge,
    DurationOverflow,
    TooManyMediaSegments,
    /// A box fails to encode.
    Atom(mp4_atom::Error),
}

/// The `styp` a format opens each media segment with.
#[derive(Debug, Clone, PartialEq, Eq)]
pub struct SegmentType {
    pub major_brand: [u8; 4],
    pub minor_version: u32,
    pub compatible_brands: Vec<[u8; 4]>,
}

/// The bytes of that `styp`.
pub open spec fn segment_type_bytes(t: SegmentType) -> Seq<u8> {
    box_of(styp_kind(), brands_body(t.major_brand@, t.minor_version, t.compatible_brands@))
}

/// The written samples, back to back.
pub open spec fn concat_payloads(payloads: Seq<Vec<u8>>) -> Seq<u8>
    decreases payloads.len(),
{
    if payloads.len() == 0 {
        Seq::empty()
    } else {
        concat_payloads(payloads.drop_last()) + payloads.last()@
    }
}

/// Each sample's duration and the size of its written payload.
pub open spec fn run_entries<P>(samples: Seq<(u32, P)>, payloads: Seq<Vec<u8>>) -> Seq<(u32, u32)> {
    Seq::new(samples.len(), |i: int| (samples[i].0, payloads[i]@.len() as u32))
}

/// Some written payload is over `u32::MAX` bytes.
pub open spec fn payload_too_large(payloads: Seq<Vec<u8>>) -> bool {
    exists|i: int| 0 <= i < payloads.len() && (#[trigger] payloads[i])@.len() > u32::MAX
}

/// Where the samples start, counted from the `moof`: past the `moof`, which the
/// offset does not lengthen, and the eight bytes of the `mdat` header.
pub open spec fn segment_data_offset(sequence_number: u32, track_id: u32, base: u64, entries: Seq<(u32, u32)>) -> int {
    moof_bytes(sequence_number, track_id, true, base, entries, 0).len() + 8int
}

/// The segment's `moof`: track `track_id`, offsets counted from the `moof`, one
/// run of `entries` whose data starts `data_offset` bytes past the `moof`'s start.
pub open spec fn segment_moof(sequence_number: u32, track_id: u32, base: u64, entries: Seq<(u32, u32)>, data_offset: i32) -> Seq<u8> {
    moof_bytes(sequence_number, track_id, true, base, entries, data_offset)
}

/// The segment can be written: no payload outgrows a run's size field, the
/// `styp` and the `mdat` fit their 32-bit sizes, and both encodings of the
/// `moof` fit, with a data offset that fits an `i32`.
pub open spec fn segment_encodes(
    segment_type: SegmentType,
    payloads: Seq<Vec<u8>>,
    sequence_number: u32,
    track_id: u32,
    base: u64,
    entries: Seq<(u32, u32)>,
) -> bool {
    let offset = segment_data_offset(sequence_number, track_id, base, entries);
    &&& !payload_too_large(payloads)
    &&& box_fits(brands_body(segment_type.major_brand@, segment_type.minor_version, segment_type.compatible_brands@))
    &&& segment_moof(sequence_number, track_id, base, entries, 0).len() <= u32::MAX
    &&& offset <= i32::MAX
    &&& segment_moof(sequence_number, track_id, base, entries, offset as i32).len() <= u32::MAX
    &&& box_fits(concat_payloads(payloads))
}

impl<P> MediaSegment<P> {
    /// Writes the segment as `styp` · `moof` · `mdat`: `payloads` are its samples
    /// as the format writes them, one per sample, and the `moof`'s single run
    /// gives each sample's duration and written size, with a data offset, counted
    /// from the `moof` (the base of track `track_id`), to the first sample.
    pub fn serialize(&self, segment_type: &SegmentType, payloads: &[Vec<u8>], track_id: u32, sequence_number: u32) -> (r: Result<Vec<u8>, PackageError>)
        requires
            payloads@.len() == self@.1.len(),
        ensures
            (r matches Err(PackageError::SampleTooLarge)) <==> payload_too_large(payloads@),
            r is Ok <==> segment_encodes(*segment_type, payloads@, sequence_number, track_id, self@.0, run_entries(self@.1, payloads@)),
            r matches Ok(b) ==> b@ == segment_type_bytes(*segment_type) + segment_moof(
                sequence_number,
                track_id,
                self@.0,
                run_entries(self@.1, payloads@),
                segment_data_offset(sequence_number, track_id, self@.0, run_entries(self@.1, payloads@)) as i32,
            ) + box_of(mdat_kind(), concat_payloads(payloads@)),
            r matches Err(PackageError::MediaSegmentTooLarge) ==> segment_data_offset(
                sequence_number,
                track_id,
                self@.0,
                run_entries(self@.1, payloads@),
            ) > i32::MAX,
    {
        let ghost samples = self@.1;
        let mut data: Vec<u8> = Vec::new();
        let mut entries: Vec<(u32, u32)> = Vec::new();
        for i in 0..payloads.len()
            invariant
                samples == self@.1,
                samples == sample_views(self.samples@),
                payloads@.len() == samples.len(),
                data@ == concat_payloads(payloads@.take(i as int)),
                entries@ == run_entries(samples.take(i as int), payloads@.take(i as int)),
                forall|k: int| 0 <= k < i ==> (#[trigger] payloads@[k])@.len() <= u32::MAX,
        {
            if payloads[i].len() > 4294967295 {
                proof {
                    assert(payloads@[i as int]@.len() > u32::MAX);
                }
                return Err(PackageError::SampleTooLarge);
            }
            let size = payloads[i].len() as u32;
            let duration = self.samples[i].duration;
            let ghost before = data@;
            append(&mut data, payloads[i].as_slice());
            entries.push((duration, size));
            proof {
                assert(payloads@.take(i + 1).drop_last() =~= payloads@.take(i as int));
                assert(payloads@.take(i + 1).last() == payloads@[i as int]);
                assert(entries@ =~= run_entries(samples.take(i + 1), payloads@.take(i + 1)));
            }
        }
        proof {
            assert(payloads@.take(payloads@.len() as int) =~= payloads@);
            assert(samples.take(samples.len() as int) =~= samples);
            assert(!payload_too_large(payloads@));
        }
        let mut bytes = match encode_styp(
            segment_type.major_brand,
            segment_type.minor_version,
            segment_type.compatible_brands.as_slice(),
        ) {
            Ok(b) => b,
            Err(e) => return Err(PackageError::Atom(e)),
        };
        let measured = match encode_moof(sequence_number, track_id, true, self.base_decode_time, entries.as_slice(), 0) {
            Ok(b) => b,
            Err(e) => return Err(PackageError::Atom(e)),
        };
        if measured.len() > 2147483639 {
            return Err(PackageError::MediaSegmentTooLarge);
        }
        let data_offset = (measured.len() + 8) as i32;
        let mut moof = match encode_moof(sequence_number, track_id, true, self.base_decode_time, entries.as_slice(), data_offset) {
            Ok(b) => b,
            Err(e) => return Err(PackageError::Atom(e)),
        };
        let mut mdat = match encode_mdat(data) {
            Ok(b) => b,
            Err(e) => return Err(PackageError::Atom(e)),
        };
        bytes.append(&mut moof);
        bytes.append(&mut mdat);
        Ok(bytes)
    }
}


} // verus!
