//! Packing fragments of a subtitle into a fragmented CMAF `wvtt` track
//! (ISO/IEC 14496-30): `ftyp` · `moov` · `sidx` · one `styp` · `moof` · `mdat` per
//! fragment.
//!
//! Each sample is written as one `vttc` per cue on screen over it, carrying its
//! text in a `payl`, or as a single `vtte` where no cue is. The track declares no
//! language (`und`): that belongs to the transport. Its timescale is 1000, so
//! milliseconds map 1:1 onto media time, and it is track 1.

use vstd::prelude::*;

use mp4_atom::{
    Codec, Dinf, Dref, DrefEntry, Encode, FourCC, Ftyp, Hdlr, Mdat, Mdhd, Minf, Moof, Mfhd, Mvex,
    Mvhd, Nmhd, PlainText, SegmentReference, Sidx, Stbl, Stco, Stsd, Styp, Tfdt, Tfhd, Tkhd, Traf,
    Trex, Trun, TrunEntry, TrunSamples, Url, VttC, Wvtt,
};

use crate::demuxer::{payl_kind, vttc_kind};
use crate::fragmenter::{samples_view, Fragment, FragmentView, Sample, SampleView};
use crate::subtitle::CueView;

verus! {

/// What stops fragments from being written out as a track.
#[derive(Debug)]
pub enum PackError {
    /// The fragments run to time 0: the track would have nothing to index.
    Empty,
    /// A size or count does not fit the field the format keeps it in: a sample
    /// or fragment over `u32::MAX` bytes, a `moof` whose data offset exceeds
    /// `i32::MAX`, or more fragments than a `u32` sequence number counts.
    TooLarge,
    /// A box fails to encode.
    Atom(mp4_atom::Error),
}

/// `n` as four big-endian bytes.
pub open spec fn be32(n: u32) -> Seq<u8> {
    seq![(n / 16777216) as u8, ((n / 65536) % 256) as u8, ((n / 256) % 256) as u8, (n % 256) as u8]
}

/// A box: its size, header included, as four big-endian bytes, then its kind,
/// then its body.
pub open spec fn box_of(kind: Seq<u8>, body: Seq<u8>) -> Seq<u8> {
    be32((body.len() + 8) as u32) + kind + body
}

/// A box with this body has a size a 32-bit header holds.
pub open spec fn box_fits(body: Seq<u8>) -> bool {
    body.len() + 8 <= u32::MAX
}

/// The four-character code of a `vtte` box.
pub open spec fn vtte_kind() -> Seq<u8> {
    seq![0x76u8, 0x74u8, 0x74u8, 0x65u8]
}

/// The four-character code of an `mdat` box.
pub open spec fn mdat_kind() -> Seq<u8> {
    seq![0x6du8, 0x64u8, 0x61u8, 0x74u8]
}

/// The `vttc` box of a cue: a `payl` carrying its text as UTF-8.
pub open spec fn cue_box(text: Seq<char>) -> Seq<u8> {
    box_of(vttc_kind(), box_of(payl_kind(), vstd::utf8::encode_utf8(text)))
}

/// The `vttc` boxes of `cues`, back to back.
pub open spec fn cue_boxes(cues: Seq<CueView>) -> Seq<u8>
    decreases cues.len(),
{
    if cues.len() == 0 {
        Seq::empty()
    } else {
        cue_boxes(cues.drop_last()) + cue_box(cues.last().text)
    }
}

/// The bytes of a sample: a `vttc` per cue on screen, or a lone empty `vtte`.
pub open spec fn sample_bytes_of(s: SampleView) -> Seq<u8> {
    if s.cues.len() == 0 {
        box_of(vtte_kind(), Seq::empty())
    } else {
        cue_boxes(s.cues)
    }
}

/// Every cue box of the sample has a size a 32-bit header holds.
pub open spec fn sample_fits(s: SampleView) -> bool {
    forall|i: int| 0 <= i < s.cues.len() ==> vstd::utf8::encode_utf8(#[trigger] s.cues[i].text).len() + 16 <= u32::MAX
}

#[verifier::external_body]
fn too_large(kind: [u8; 4]) -> mp4_atom::Error {
    mp4_atom::Error::TooLarge(FourCC::new(&kind))
}

/// `more` appended to `out`.
pub(crate) fn append(out: &mut Vec<u8>, more: &[u8])
    ensures
        final(out)@ == old(out)@ + more@,
{
    for i in 0..more.len()
        invariant
            out@ == old(out)@ + more@.take(i as int),
    {
        out.push(more[i]);
        proof {
            assert(more@.take(i + 1) =~= more@.take(i as int).push(more@[i as int]));
        }
    }
    proof {
        assert(more@.take(more@.len() as int) =~= more@);
    }
}

/// Writes a box of `kind` around `body`, whose size a 32-bit header must hold.
fn write_box(out: &mut Vec<u8>, kind: [u8; 4], body: &[u8])
    requires
        box_fits(body@),
    ensures
        final(out)@ == old(out)@ + box_of(kind@, body@),
{
    let size = (body.len() + 8) as u32;
    out.push((size / 16777216) as u8);
    out.push(((size / 65536) % 256) as u8);
    out.push(((size / 256) % 256) as u8);
    out.push((size % 256) as u8);
    out.push(kind[0]);
    out.push(kind[1]);
    out.push(kind[2]);
    out.push(kind[3]);
    let ghost head = out@;
    append(out, body);
    proof {
        assert(kind@ =~= seq![kind[0], kind[1], kind[2], kind[3]]);
        assert(head =~= old(out)@ + be32(size) + kind@);
        assert(out@ =~= old(out)@ + box_of(kind@, body@));
    }
}

/// Writes the cues on screen over a sample, each a `vttc` carrying its text in
/// a `payl`; an interval showing nothing is a lone `vtte`. A cue whose box
/// outgrows a 32-bit size fails as mp4-atom's encoder does.
pub fn sample_bytes(sample: &Sample) -> (r: Result<Vec<u8>, PackError>)
    ensures
        r is Ok <==> sample_fits(sample@),
        r matches Ok(b) ==> b@ == sample_bytes_of(sample@),
        r matches Err(e) ==> e is Atom,
{
    let mut out: Vec<u8> = Vec::new();
    if sample.cues.len() == 0 {
        write_box(&mut out, [0x76, 0x74, 0x74, 0x65], &[]);
        proof {
            assert(out@ =~= sample_bytes_of(sample@));
        }
        return Ok(out);
    }
    let ghost cues = sample@.cues;
    for i in 0..sample.cues.len()
        invariant
            cues == sample@.cues,
            cues.len() == sample.cues@.len(),
            cues.len() > 0,
            out@ == cue_boxes(cues.take(i as int)),
            forall|k: int| 0 <= k < i ==> vstd::utf8::encode_utf8(#[trigger] cues[k].text).len() + 16 <= u32::MAX,
    {
        let text = sample.cues[i].text.as_str().as_bytes();
        proof {
            assert(cues[i as int].text == sample.cues@[i as int].text@);
        }
        if text.len() > 4294967279 {
            proof {
                assert(!sample_fits(sample@)) by {
                    assert(vstd::utf8::encode_utf8(cues[i as int].text).len() + 16 > u32::MAX);
                }
            }
            if text.len() > 4294967287 {
                return Err(PackError::Atom(too_large([0x70, 0x61, 0x79, 0x6c])));
            }
            return Err(PackError::Atom(too_large([0x76, 0x74, 0x74, 0x63])));
        }
        let mut payl: Vec<u8> = Vec::new();
        write_box(&mut payl, [0x70, 0x61, 0x79, 0x6c], text);
        write_box(&mut out, [0x76, 0x74, 0x74, 0x63], payl.as_slice());
        proof {
            assert(payl_kind() =~= seq![0x70u8, 0x61u8, 0x79u8, 0x6cu8]);
            assert(vttc_kind() =~= seq![0x76u8, 0x74u8, 0x74u8, 0x63u8]);
            assert(cues.take(i + 1).drop_last() =~= cues.take(i as int));
            assert(cues.take(i + 1).last() == cues[i as int]);
        }
    }
    proof {
        assert(cues.take(cues.len() as int) =~= cues);
    }
    Ok(out)
}


/// The brands of `brands`, four bytes each, back to back.
pub open spec fn brand_bytes(brands: Seq<[u8; 4]>) -> Seq<u8>
    decreases brands.len(),
{
    if brands.len() == 0 {
        Seq::empty()
    } else {
        brand_bytes(brands.drop_last()) + brands.last()@
    }
}

proof fn lemma_brand_bytes_len(brands: Seq<[u8; 4]>)
    ensures
        brand_bytes(brands).len() == 4 * brands.len(),
    decreases brands.len(),
{
    if brands.len() > 0 {
        lemma_brand_bytes_len(brands.drop_last());
    }
}

/// The body of an `ftyp` or `styp`: the major brand, the minor version, then the
/// compatible brands.
pub open spec fn brands_body(major: Seq<u8>, minor: u32, brands: Seq<[u8; 4]>) -> Seq<u8> {
    major + be32(minor) + brand_bytes(brands)
}

/// The four-character code of an `ftyp` box.
pub open spec fn ftyp_kind() -> Seq<u8> {
    seq![0x66u8, 0x74u8, 0x79u8, 0x70u8]
}

/// The four-character code of a `styp` box.
pub open spec fn styp_kind() -> Seq<u8> {
    seq![0x73u8, 0x74u8, 0x79u8, 0x70u8]
}

/// Encodes an `ftyp` with mp4-atom. Claimed, as `Ftyp::encode_body` and
/// `encode_atom` show: the box is the major brand, the minor version and the
/// brands, behind a 32-bit size and `ftyp`; it fails exactly when that size
/// outgrows 32 bits.
#[verifier::external_body]
fn encode_ftyp(major: [u8; 4], minor: u32, brands: &[[u8; 4]]) -> (r: Result<Vec<u8>, mp4_atom::Error>)
    ensures
        r is Ok <==> box_fits(brands_body(major@, minor, brands@)),
        r matches Ok(b) ==> b@ == box_of(ftyp_kind(), brands_body(major@, minor, brands@)),
{
    let compatible_brands = brands.iter().map(|b| FourCC::new(b)).collect();
    let mut bytes = Vec::new();
    Ftyp { major_brand: FourCC::new(&major), minor_version: minor, compatible_brands }.encode(&mut bytes)?;
    Ok(bytes)
}

/// Encodes a `styp` with mp4-atom. Claimed, as `Styp::encode_body` and
/// `encode_atom` show: the box is the major brand, the minor version and the
/// brands, behind a 32-bit size and `styp`; it fails exactly when that size
/// outgrows 32 bits.
#[verifier::external_body]
pub(crate) fn encode_styp(major: [u8; 4], minor: u32, brands: &[[u8; 4]]) -> (r: Result<Vec<u8>, mp4_atom::Error>)
    ensures
        r is Ok <==> box_fits(brands_body(major@, minor, brands@)),
        r matches Ok(b) ==> b@ == box_of(styp_kind(), brands_body(major@, minor, brands@)),
{
    let compatible_brands = brands.iter().map(|b| FourCC::new(b)).collect();
    let mut bytes = Vec::new();
    Styp { major_brand: FourCC::new(&major), minor_version: minor, compatible_brands }.encode(&mut bytes)?;
    Ok(bytes)
}

/// Encodes an `mdat` with mp4-atom. Claimed, as `Mdat::encode_body` and
/// `encode_atom` show: the box is the data behind a 32-bit size and `mdat`; it
/// fails exactly when that size outgrows 32 bits.
#[verifier::external_body]
pub(crate) fn encode_mdat(data: Vec<u8>) -> (r: Result<Vec<u8>, mp4_atom::Error>)
    ensures
        r is Ok <==> box_fits(data@),
        r matches Ok(b) ==> b@ == box_of(mdat_kind(), data@),
{
    let mut bytes = Vec::new();
    Mdat { data }.encode(&mut bytes)?;
    Ok(bytes)
}

/// What mp4-atom encodes for the `moof` of one track fragment: its sequence
/// number, the track, whether the track's data offsets count from the `moof`,
/// the base decode time, one run with the data offset and each sample's
/// duration and size.
pub uninterp spec fn moof_bytes(
    sequence: u32,
    track_id: u32,
    base_is_moof: bool,
    base_time: u64,
    entries: Seq<(u32, u32)>,
    data_offset: i32,
) -> Seq<u8>;

/// Encodes such a `moof` with mp4-atom; a result it gives is [`moof_bytes`] of
/// the arguments. Claimed, as `encode_atom` and the `moof`, `traf` and `trun`
/// encoders show: it fails exactly when a box outgrows a 32-bit size, which
/// happens first, if at all, to the `moof` around the others.
#[verifier::external_body]
pub(crate) fn encode_moof(sequence: u32, track_id: u32, base_is_moof: bool, base_time: u64, entries: &[(u32, u32)], data_offset: i32) -> (r: Result<Vec<u8>, mp4_atom::Error>)
    ensures
        r is Ok <==> moof_bytes(sequence, track_id, base_is_moof, base_time, entries@, data_offset).len() <= u32::MAX,
        r matches Ok(b) ==> b@ == moof_bytes(sequence, track_id, base_is_moof, base_time, entries@, data_offset),
{
    let samples = TrunSamples::Explicit(entries.iter().map(|&(d, s)| TrunEntry { duration: Some(d), size: Some(s), ..TrunEntry::default() }).collect());
    let tfhd = Tfhd { track_id, default_base_is_moof: base_is_moof, ..Tfhd::default() };
    let traf = Traf { tfhd, tfdt: Some(Tfdt { base_media_decode_time: base_time }), trun: vec![Trun { data_offset: Some(data_offset), samples }], ..Traf::default() };
    let mut bytes = Vec::new();
    Moof { mfhd: Mfhd { sequence_number: sequence }, traf: vec![traf] }.encode(&mut bytes)?;
    Ok(bytes)
}

/// The major brand of a fragment's `styp`: `msdh`.
pub open spec fn styp_major() -> Seq<u8> {
    seq![0x6du8, 0x73u8, 0x64u8, 0x68u8]
}

/// The compatible brands of a fragment's `styp`: `msdh`, `msix`, `cmfs`.
pub open spec fn styp_brands() -> Seq<[u8; 4]> {
    seq![[0x6du8, 0x73u8, 0x64u8, 0x68u8], [0x6du8, 0x73u8, 0x69u8, 0x78u8], [0x63u8, 0x6du8, 0x66u8, 0x73u8]]
}

/// A fragment's `styp`.
pub open spec fn styp_bytes() -> Seq<u8> {
    box_of(styp_kind(), brands_body(styp_major(), 0, styp_brands()))
}

/// The samples' bytes, back to back: what a fragment's `mdat` holds.
pub open spec fn sample_data(samples: Seq<SampleView>) -> Seq<u8>
    decreases samples.len(),
{
    if samples.len() == 0 {
        Seq::empty()
    } else {
        sample_data(samples.drop_last()) + sample_bytes_of(samples.last())
    }
}

/// Each sample's duration and size, as a fragment's run lists them.
pub open spec fn trun_entries(samples: Seq<SampleView>) -> Seq<(u32, u32)> {
    Seq::new(samples.len(), |i: int| ((samples[i].end - samples[i].start) as u32, sample_bytes_of(samples[i]).len() as u32))
}

/// Every sample can be written and its size fits the run's 32-bit field.
pub open spec fn samples_fit(samples: Seq<SampleView>) -> bool {
    forall|i: int| 0 <= i < samples.len() ==> sample_fits(#[trigger] samples[i]) && sample_bytes_of(samples[i]).len() <= u32::MAX
}

/// The `moof` of fragment `f` with sequence number `sequence` and data offset
/// `data_offset`: track 1, offsets counted from the `moof`.
pub open spec fn fragment_moof(sequence: u32, f: FragmentView, data_offset: i32) -> Seq<u8> {
    moof_bytes(sequence, 1, true, f.start as u64, trun_entries(f.samples), data_offset)
}

/// Where the samples start, counted from the `moof`: past the `moof`, which the
/// offset does not lengthen, and the eight bytes of the `mdat` header.
pub open spec fn data_offset_of(sequence: u32, f: FragmentView) -> int {
    fragment_moof(sequence, f, 0).len() + 8int
}

/// The bytes of the fragment numbered `index` (from 0) of a track: `styp`, then
/// the `moof` with sequence number `index + 1`, then the `mdat` of its samples.
pub open spec fn fragment_bytes_of(index: int, f: FragmentView) -> Seq<u8> {
    let sequence = (index + 1) as u32;
    styp_bytes() + fragment_moof(sequence, f, data_offset_of(sequence, f) as i32) + box_of(mdat_kind(), sample_data(f.samples))
}

/// Fragment `index` can be written: its number fits a `u32`, every sample and
/// the `mdat` fit their sizes, and both encodings of the `moof` fit, with a data
/// offset that fits an `i32`.
pub open spec fn fragment_encodes(index: int, f: FragmentView) -> bool {
    let sequence = (index + 1) as u32;
    &&& index + 1 <= u32::MAX
    &&& samples_fit(f.samples)
    &&& box_fits(sample_data(f.samples))
    &&& fragment_moof(sequence, f, 0).len() <= u32::MAX
    &&& data_offset_of(sequence, f) <= i32::MAX
    &&& fragment_moof(sequence, f, data_offset_of(sequence, f) as i32).len() <= u32::MAX
}

/// Every sample of `samples` starts no later than it ends.
pub open spec fn ordered_samples(samples: Seq<SampleView>) -> bool {
    forall|i: int| 0 <= i < samples.len() ==> (#[trigger] samples[i]).start <= samples[i].end
}

proof fn lemma_styp_fits()
    ensures
        box_fits(brands_body(styp_major(), 0, styp_brands())),
{
    lemma_brand_bytes_len(styp_brands());
}

/// Writes one fragment, numbered `index` within its track: `styp`, a `moof` whose
/// run lists each sample's duration and size, and the `mdat` holding them. It
/// fails exactly where a size or offset outgrows its field.
pub fn encode_fragment(index: usize, fragment: &Fragment) -> (r: Result<Vec<u8>, PackError>)
    requires
        ordered_samples(fragment@.samples),
    ensures
        r is Ok <==> fragment_encodes(index as int, fragment@),
        r matches Ok(b) ==> b@ == fragment_bytes_of(index as int, fragment@),
        r matches Err(e) ==> !(e is Empty),
{
    let ghost samples = fragment@.samples;
    let mut data: Vec<u8> = Vec::new();
    let mut entries: Vec<(u32, u32)> = Vec::new();
    for i in 0..fragment.samples.len()
        invariant
            samples == fragment@.samples,
            samples.len() == fragment.samples@.len(),
            ordered_samples(samples),
            data@ == sample_data(samples.take(i as int)),
            entries@ == trun_entries(samples.take(i as int)),
            forall|k: int| 0 <= k < i ==> sample_fits(#[trigger] samples[k]) && sample_bytes_of(samples[k]).len() <= u32::MAX,
    {
        let sample = &fragment.samples[i];
        proof {
            assert(samples[i as int] == sample@);
        }
        let bytes = match sample_bytes(sample) {
            Ok(b) => b,
            Err(e) => return Err(e),
        };
        if bytes.len() > 4294967295 {
            return Err(PackError::TooLarge);
        }
        let size = bytes.len() as u32;
        let duration = sample.duration();
        let mut more = bytes;
        data.append(&mut more);
        entries.push((duration, size));
        proof {
            assert(samples.take(i + 1).drop_last() =~= samples.take(i as int));
            assert(samples.take(i + 1).last() == samples[i as int]);
            assert(entries@ =~= trun_entries(samples.take(i + 1)));
        }
    }
    proof {
        assert(samples.take(samples.len() as int) =~= samples);
    }
    if index >= 4294967295 {
        return Err(PackError::TooLarge);
    }
    let sequence = (index + 1) as u32;
    let brands: [[u8; 4]; 3] = [[0x6d, 0x73, 0x64, 0x68], [0x6d, 0x73, 0x69, 0x78], [0x63, 0x6d, 0x66, 0x73]];
    proof {
        assert(brands@ =~= styp_brands());
        assert([0x6du8, 0x73u8, 0x64u8, 0x68u8]@ =~= styp_major());
        lemma_styp_fits();
    }
    let mut bytes = match encode_styp([0x6d, 0x73, 0x64, 0x68], 0, brands.as_slice()) {
        Ok(b) => b,
        Err(e) => return Err(PackError::Atom(e)),
    };
    let start = fragment.start as u64;
    let measured = match encode_moof(sequence, 1, true, start, entries.as_slice(), 0) {
        Ok(b) => b,
        Err(e) => return Err(PackError::Atom(e)),
    };
    if measured.len() > 2147483639 {
        return Err(PackError::TooLarge);
    }
    let data_offset = (measured.len() + 8) as i32;
    let mut moof = match encode_moof(sequence, 1, true, start, entries.as_slice(), data_offset) {
        Ok(b) => b,
        Err(e) => return Err(PackError::Atom(e)),
    };
    let mut mdat = match encode_mdat(data) {
        Ok(b) => b,
        Err(e) => return Err(PackError::Atom(e)),
    };
    bytes.append(&mut moof);
    bytes.append(&mut mdat);
    Ok(bytes)
}

/// What a track header (`moov`) declares of a single-track text presentation.
#[derive(Debug, Clone)]
pub struct TrackHeader {
    /// Ticks per second of the movie and of the media.
    pub timescale: u32,
    /// The duration declared in the movie, track and media headers.
    pub duration: u64,
    pub track_id: u32,
    pub next_track_id: u32,
    /// When the movie, track and media were created and last modified.
    pub creation_time: u64,
    pub modification_time: u64,
    /// The preferred playback rate and volume, whole numbers.
    pub rate: u16,
    pub volume: u8,
    /// Whether the track is enabled and used in the presentation.
    pub enabled: bool,
    pub in_movie: bool,
    /// The media language, an ISO 639-2 code.
    pub language: String,
    /// The handler type of the media.
    pub handler: [u8; 4],
    /// The handler's name.
    pub name: String,
    /// Whether the media information carries a null media header.
    pub null_media_header: bool,
    /// Where the media lives; empty for the file itself.
    pub location: String,
    /// Which data reference the `wvtt` sample entry uses, counted from 1.
    pub data_reference: u16,
    /// The WebVTT configuration the `wvtt` sample entry carries.
    pub config: String,
    /// Whether the sample table carries an empty chunk offset box.
    pub chunk_offsets: bool,
    /// The sample description fragments default to, counted from 1.
    pub sample_description: u32,
}

/// What a track header declares.
pub struct TrackHeaderView {
    pub timescale: u32,
    pub duration: u64,
    pub track_id: u32,
    pub next_track_id: u32,
    pub creation_time: u64,
    pub modification_time: u64,
    pub rate: u16,
    pub volume: u8,
    pub enabled: bool,
    pub in_movie: bool,
    pub language: Seq<char>,
    pub handler: Seq<u8>,
    pub name: Seq<char>,
    pub null_media_header: bool,
    pub location: Seq<char>,
    pub data_reference: u16,
    pub config: Seq<char>,
    pub chunk_offsets: bool,
    pub sample_description: u32,
}

impl View for TrackHeader {
    type V = TrackHeaderView;

    open spec fn view(&self) -> TrackHeaderView {
        TrackHeaderView {
            timescale: self.timescale,
            duration: self.duration,
            track_id: self.track_id,
            next_track_id: self.next_track_id,
            creation_time: self.creation_time,
            modification_time: self.modification_time,
            rate: self.rate,
            volume: self.volume,
            enabled: self.enabled,
            in_movie: self.in_movie,
            language: self.language@,
            handler: self.handler@,
            name: self.name@,
            null_media_header: self.null_media_header,
            location: self.location@,
            data_reference: self.data_reference,
            config: self.config@,
            chunk_offsets: self.chunk_offsets,
            sample_description: self.sample_description,
        }
    }
}

/// The header of the text track packing writes: timescale 1000, `duration` in
/// the movie, track and media headers, track 1 of a movie whose next track would
/// be 2, created at time 0, rate and volume 1, enabled and in the movie,
/// language `und`, handler `text` named `dyndo`, a null media header, media in
/// the file itself, one `wvtt` entry on data reference 1 configured as
/// `WEBVTT\n`, an empty chunk offset box, and fragments defaulting to sample
/// description 1.
pub open spec fn text_header_of(duration: u64) -> TrackHeaderView {
    TrackHeaderView {
        timescale: 1000,
        duration,
        track_id: 1,
        next_track_id: 2,
        creation_time: 0,
        modification_time: 0,
        rate: 1,
        volume: 1,
        enabled: true,
        in_movie: true,
        language: "und"@,
        handler: seq![0x74u8, 0x65u8, 0x78u8, 0x74u8],
        name: "dyndo"@,
        null_media_header: true,
        location: Seq::empty(),
        data_reference: 1,
        config: "WEBVTT\n"@,
        chunk_offsets: true,
        sample_description: 1,
    }
}

/// The header of a packed text track lasting `duration` milliseconds.
pub fn text_track_header(duration: u64) -> (h: TrackHeader)
    ensures
        h@ == text_header_of(duration),
{
    let handler: [u8; 4] = [0x74, 0x65, 0x78, 0x74];
    let location = String::new();
    let h = TrackHeader {
        timescale: 1000,
        duration,
        track_id: 1,
        next_track_id: 2,
        creation_time: 0,
        modification_time: 0,
        rate: 1,
        volume: 1,
        enabled: true,
        in_movie: true,
        language: "und".to_owned(),
        handler,
        name: "dyndo".to_owned(),
        null_media_header: true,
        location,
        data_reference: 1,
        config: "WEBVTT\n".to_owned(),
        chunk_offsets: true,
        sample_description: 1,
    };
    proof {
        assert(handler@ =~= seq![0x74u8, 0x65u8, 0x78u8, 0x74u8]);
        assert(h.location@ =~= Seq::<char>::empty());
    }
    h
}

/// What mp4-atom encodes for an `mvhd` with these fields and the default matrix.
pub uninterp spec fn mvhd_bytes(creation: u64, modification: u64, timescale: u32, duration: u64, rate: u16, volume: u8, next_track_id: u32) -> Seq<u8>;

/// Encodes such an `mvhd` with mp4-atom. Claimed, as `Mvhd::encode_body_ext`
/// and `encode_atom` show: the result is [`mvhd_bytes`] of the arguments, and it
/// fails exactly when that outgrows a 32-bit size.
#[verifier::external_body]
fn encode_mvhd(creation: u64, modification: u64, timescale: u32, duration: u64, rate: u16, volume: u8, next_track_id: u32) -> (r: Result<Vec<u8>, mp4_atom::Error>)
    ensures
        r is Ok <==> mvhd_bytes(creation, modification, timescale, duration, rate, volume, next_track_id).len() <= u32::MAX,
        r matches Ok(b) ==> b@ == mvhd_bytes(creation, modification, timescale, duration, rate, volume, next_track_id),
{
    let (rate, volume, matrix) = (rate.into(), volume.into(), Default::default());
    let mvhd = Mvhd { creation_time: creation, modification_time: modification, timescale, duration, rate, volume, matrix, next_track_id };
    let mut bytes = Vec::new();
    mvhd.encode(&mut bytes)?;
    Ok(bytes)
}

/// What mp4-atom encodes for a `tkhd` with these fields and defaults elsewhere.
pub uninterp spec fn tkhd_bytes(creation: u64, modification: u64, track_id: u32, duration: u64, enabled: bool, in_movie: bool) -> Seq<u8>;

/// Encodes such a `tkhd` with mp4-atom. Claimed, as `Tkhd::encode_body_ext` and
/// `encode_atom` show: the result is [`tkhd_bytes`] of the arguments, and it
/// fails exactly when that outgrows a 32-bit size.
#[verifier::external_body]
fn encode_tkhd(creation: u64, modification: u64, track_id: u32, duration: u64, enabled: bool, in_movie: bool) -> (r: Result<Vec<u8>, mp4_atom::Error>)
    ensures
        r is Ok <==> tkhd_bytes(creation, modification, track_id, duration, enabled, in_movie).len() <= u32::MAX,
        r matches Ok(b) ==> b@ == tkhd_bytes(creation, modification, track_id, duration, enabled, in_movie),
{
    let tkhd = Tkhd { creation_time: creation, modification_time: modification, track_id, duration, enabled, in_movie, ..Tkhd::default() };
    let mut bytes = Vec::new();
    tkhd.encode(&mut bytes)?;
    Ok(bytes)
}

/// What mp4-atom encodes for an `mdhd` with these fields.
pub uninterp spec fn mdhd_bytes(creation: u64, modification: u64, timescale: u32, duration: u64, language: Seq<char>) -> Seq<u8>;

/// Encodes such an `mdhd` with mp4-atom. Claimed, as `Mdhd::encode_body_ext`
/// and `encode_atom` show: the result is [`mdhd_bytes`] of the arguments, and it
/// fails exactly when that outgrows a 32-bit size.
#[verifier::external_body]
fn encode_mdhd(creation: u64, modification: u64, timescale: u32, duration: u64, language: &str) -> (r: Result<Vec<u8>, mp4_atom::Error>)
    ensures
        r is Ok <==> mdhd_bytes(creation, modification, timescale, duration, language@).len() <= u32::MAX,
        r matches Ok(b) ==> b@ == mdhd_bytes(creation, modification, timescale, duration, language@),
{
    let language = language.to_string();
    let mdhd = Mdhd { creation_time: creation, modification_time: modification, timescale, duration, language };
    let mut bytes = Vec::new();
    mdhd.encode(&mut bytes)?;
    Ok(bytes)
}

/// What mp4-atom encodes for an `hdlr` of this handler type and name.
pub uninterp spec fn hdlr_bytes(handler: Seq<u8>, name: Seq<char>) -> Seq<u8>;

/// Encodes such an `hdlr` with mp4-atom. Claimed, as `Hdlr::encode_body_ext` and
/// `encode_atom` show: the result is [`hdlr_bytes`] of the arguments, and it
/// fails exactly when that outgrows a 32-bit size.
#[verifier::external_body]
fn encode_hdlr(handler: [u8; 4], name: &str) -> (r: Result<Vec<u8>, mp4_atom::Error>)
    ensures
        r is Ok <==> hdlr_bytes(handler@, name@).len() <= u32::MAX,
        r matches Ok(b) ==> b@ == hdlr_bytes(handler@, name@),
{
    let mut bytes = Vec::new();
    Hdlr { handler: FourCC::new(&handler), name: name.to_string() }.encode(&mut bytes)?;
    Ok(bytes)
}

/// What mp4-atom encodes for the `minf` of a WebVTT track: a null media header
/// where `null_media_header` holds, a `dinf` whose `dref` holds one `url ` at
/// `location`, and an `stbl` whose `stsd` holds one `wvtt` entry on data
/// reference `data_reference` configured as `config`, with an empty `stco` where
/// `chunk_offsets` holds.
pub uninterp spec fn minf_bytes(null_media_header: bool, location: Seq<char>, data_reference: u16, config: Seq<char>, chunk_offsets: bool) -> Seq<u8>;

/// Encodes such a `minf` with mp4-atom. Claimed, as the `minf`, `dinf`, `dref`,
/// `stbl` and `stsd` encoders and `encode_atom` show: the result is
/// [`minf_bytes`] of the arguments, and it fails exactly when that outgrows a
/// 32-bit size, which happens first, if at all, to the `minf` around the others.
#[verifier::external_body]
fn encode_minf(null_media_header: bool, location: &str, data_reference: u16, config: &str, chunk_offsets: bool) -> (r: Result<Vec<u8>, mp4_atom::Error>)
    ensures
        r is Ok <==> minf_bytes(null_media_header, location@, data_reference, config@, chunk_offsets).len() <= u32::MAX,
        r matches Ok(b) ==> b@ == minf_bytes(null_media_header, location@, data_reference, config@, chunk_offsets),
{
    let wvtt = Codec::Wvtt(Wvtt { plaintext: PlainText { data_reference_index: data_reference }, config: VttC { config: config.to_string() }, label: None, btrt: None });
    let stbl = Stbl { stsd: Stsd { codecs: vec![wvtt] }, stco: chunk_offsets.then_some(Stco::default()), ..Stbl::default() };
    let dinf = Dinf { dref: Dref { entries: vec![DrefEntry::Url(Url { location: location.to_string() })] } };
    let mut bytes = Vec::new();
    Minf { nmhd: null_media_header.then_some(Nmhd {}), dinf, stbl, ..Minf::default() }.encode(&mut bytes)?;
    Ok(bytes)
}

/// What mp4-atom encodes for an `mvex` holding one `trex`: the track and the
/// sample description its fragments default to.
pub uninterp spec fn mvex_bytes(track_id: u32, sample_description: u32) -> Seq<u8>;

/// Encodes such an `mvex` with mp4-atom. Claimed, as the `mvex` and `trex`
/// encoders and `encode_atom` show: the result is [`mvex_bytes`] of the
/// arguments, and it fails exactly when that outgrows a 32-bit size.
#[verifier::external_body]
fn encode_mvex(track_id: u32, sample_description: u32) -> (r: Result<Vec<u8>, mp4_atom::Error>)
    ensures
        r is Ok <==> mvex_bytes(track_id, sample_description).len() <= u32::MAX,
        r matches Ok(b) ==> b@ == mvex_bytes(track_id, sample_description),
{
    let trex = Trex { track_id, default_sample_description_index: sample_description, ..Trex::default() };
    let mut bytes = Vec::new();
    Mvex { mehd: None, trex: vec![trex] }.encode(&mut bytes)?;
    Ok(bytes)
}

/// The four-character codes of the `moov`, `trak` and `mdia` containers.
pub open spec fn moov_kind() -> Seq<u8> {
    seq![0x6du8, 0x6fu8, 0x6fu8, 0x76u8]
}

pub open spec fn trak_kind() -> Seq<u8> {
    seq![0x74u8, 0x72u8, 0x61u8, 0x6bu8]
}

pub open spec fn mdia_kind() -> Seq<u8> {
    seq![0x6du8, 0x64u8, 0x69u8, 0x61u8]
}

/// The children of the `mdia`: media header, handler, media information.
pub open spec fn mdia_body(h: TrackHeaderView) -> Seq<u8> {
    mdhd_bytes(h.creation_time, h.modification_time, h.timescale, h.duration, h.language)
        + hdlr_bytes(h.handler, h.name)
        + minf_bytes(h.null_media_header, h.location, h.data_reference, h.config, h.chunk_offsets)
}

/// The children of the `trak`: track header, then media.
pub open spec fn trak_body(h: TrackHeaderView) -> Seq<u8> {
    tkhd_bytes(h.creation_time, h.modification_time, h.track_id, h.duration, h.enabled, h.in_movie)
        + box_of(mdia_kind(), mdia_body(h))
}

/// The children of the `moov`: movie header, movie extends, then the track, in
/// the order mp4-atom's `Moov` writes them.
pub open spec fn moov_body(h: TrackHeaderView) -> Seq<u8> {
    mvhd_bytes(h.creation_time, h.modification_time, h.timescale, h.duration, h.rate, h.volume, h.next_track_id)
        + mvex_bytes(h.track_id, h.sample_description) + box_of(trak_kind(), trak_body(h))
}

/// The `moov` of a single-track presentation with header `h`.
pub open spec fn moov_bytes_of(h: TrackHeaderView) -> Seq<u8> {
    box_of(moov_kind(), moov_body(h))
}

/// Concatenates `a` and `b`.
fn join(mut a: Vec<u8>, mut b: Vec<u8>) -> (r: Vec<u8>)
    ensures
        r@ == a@ + b@,
{
    a.append(&mut b);
    a
}

/// Writes the `moov` of a single-track presentation with header `h`: movie
/// header, movie extends, and a track of track header and media (media header,
/// handler, media information). It fails exactly when the `moov` outgrows a
/// 32-bit size.
pub fn encode_track_header(h: &TrackHeader) -> (r: Result<Vec<u8>, mp4_atom::Error>)
    ensures
        r is Ok <==> box_fits(moov_body(h@)),
        r matches Ok(b) ==> b@ == moov_bytes_of(h@),
{
    let mdhd = encode_mdhd(h.creation_time, h.modification_time, h.timescale, h.duration, h.language.as_str())?;
    let hdlr = encode_hdlr(h.handler, h.name.as_str())?;
    let minf = encode_minf(h.null_media_header, h.location.as_str(), h.data_reference, h.config.as_str(), h.chunk_offsets)?;
    let body = join(join(mdhd, hdlr), minf);
    if !(body.len() <= 4294967287) {
        return Err(too_large([0x6d, 0x64, 0x69, 0x61]));
    }
    let mut mdia: Vec<u8> = Vec::new();
    write_box(&mut mdia, [0x6d, 0x64, 0x69, 0x61], body.as_slice());
    let tkhd = encode_tkhd(h.creation_time, h.modification_time, h.track_id, h.duration, h.enabled, h.in_movie)?;
    let body = join(tkhd, mdia);
    if !(body.len() <= 4294967287) {
        return Err(too_large([0x74, 0x72, 0x61, 0x6b]));
    }
    let mut trak: Vec<u8> = Vec::new();
    write_box(&mut trak, [0x74, 0x72, 0x61, 0x6b], body.as_slice());
    let mvhd = encode_mvhd(h.creation_time, h.modification_time, h.timescale, h.duration, h.rate, h.volume, h.next_track_id)?;
    let mvex = encode_mvex(h.track_id, h.sample_description)?;
    let body = join(join(mvhd, mvex), trak);
    if !(body.len() <= 4294967287) {
        return Err(too_large([0x6d, 0x6f, 0x6f, 0x76]));
    }
    let mut moov: Vec<u8> = Vec::new();
    write_box(&mut moov, [0x6d, 0x6f, 0x6f, 0x76], body.as_slice());
    proof {
        assert([0x6du8, 0x6fu8, 0x6fu8, 0x76u8]@ =~= moov_kind());
        assert([0x74u8, 0x72u8, 0x61u8, 0x6bu8]@ =~= trak_kind());
        assert([0x6du8, 0x64u8, 0x69u8, 0x61u8]@ =~= mdia_kind());
    }
    Ok(moov)
}

/// One entry of a `sidx`: how large a referenced fragment is, how long it lasts,
/// and how it may be entered.
#[derive(Debug, Clone, Copy, PartialEq, Eq)]
pub struct SidxReference {
    /// Whether it references another index rather than media.
    pub reference_type: bool,
    pub referenced_size: u32,
    pub subsegment_duration: u32,
    pub starts_with_sap: bool,
    pub sap_type: u8,
    pub sap_delta_time: u32,
}

/// What mp4-atom encodes for a `sidx` with these fields.
pub uninterp spec fn sidx_bytes(reference_id: u32, timescale: u32, earliest: u64, first_offset: u64, references: Seq<SidxReference>) -> Seq<u8>;

/// A `sidx` entry mp4-atom can write: its size fits 31 bits, its access point
/// type 3 bits and its delta time 28 bits.
pub open spec fn reference_fits(r: SidxReference) -> bool {
    r.referenced_size <= 0x7fff_ffff && r.sap_type <= 7 && r.sap_delta_time <= 0x0fff_ffff
}

/// Encodes such a `sidx` with mp4-atom; a result it gives is [`sidx_bytes`] of
/// the arguments. Claimed, as `Sidx::encode_body_ext` shows: it fails exactly
/// when there are more than 65,535 entries (the count is 16 bits) or an entry
/// does not fit its fields; a `sidx` within those bounds is far below a 32-bit
/// size.
#[verifier::external_body]
fn encode_sidx(reference_id: u32, timescale: u32, earliest: u64, first_offset: u64, references: &[SidxReference]) -> (r: Result<Vec<u8>, mp4_atom::Error>)
    ensures
        r is Ok <==> references@.len() <= 65535 && forall|i: int| 0 <= i < references@.len() ==> reference_fits(#[trigger] references@[i]),
        r matches Ok(b) ==> b@ == sidx_bytes(reference_id, timescale, earliest, first_offset, references@),
{
    let references = references.iter().map(|r| SegmentReference { reference_type: r.reference_type, referenced_size: r.referenced_size, subsegment_duration: r.subsegment_duration, starts_with_sap: r.starts_with_sap, sap_type: r.sap_type, sap_delta_time: r.sap_delta_time }).collect();
    let mut bytes = Vec::new();
    Sidx { reference_id, timescale, earliest_presentation_time: earliest, first_offset, references }.encode(&mut bytes)?;
    Ok(bytes)
}

/// The major brand of a packed track's `ftyp`: `iso6`.
pub open spec fn ftyp_major() -> Seq<u8> {
    seq![0x69u8, 0x73u8, 0x6fu8, 0x36u8]
}

/// The compatible brands of a packed track's `ftyp`: `iso6`, `cmfc`, `cmft`.
pub open spec fn ftyp_brands() -> Seq<[u8; 4]> {
    seq![[0x69u8, 0x73u8, 0x6fu8, 0x36u8], [0x63u8, 0x6du8, 0x66u8, 0x63u8], [0x63u8, 0x6du8, 0x66u8, 0x74u8]]
}

/// A packed track's `ftyp`.
pub open spec fn ftyp_bytes() -> Seq<u8> {
    box_of(ftyp_kind(), brands_body(ftyp_major(), 0, ftyp_brands()))
}

/// Where the fragments run to: the end of the last one, or 0 for none.
pub open spec fn track_end(fragments: Seq<FragmentView>) -> u32 {
    if fragments.len() == 0 {
        0
    } else {
        fragments.last().end
    }
}

/// The views of a list of fragments.
pub open spec fn fragment_views(fragments: Seq<Fragment>) -> Seq<FragmentView> {
    fragments.map_values(|f: Fragment| f@)
}

/// The `sidx` entry of the fragment numbered `index`: media of its size and
/// duration, every one starting with a random access point of type 1.
pub open spec fn reference_of(index: int, f: FragmentView) -> SidxReference {
    SidxReference {
        reference_type: false,
        referenced_size: fragment_bytes_of(index, f).len() as u32,
        subsegment_duration: (f.end - f.start) as u32,
        starts_with_sap: true,
        sap_type: 1,
        sap_delta_time: 0,
    }
}

/// The `sidx` entries of `fragments`, in order.
pub open spec fn references_of(fragments: Seq<FragmentView>) -> Seq<SidxReference> {
    Seq::new(fragments.len(), |i: int| reference_of(i, fragments[i]))
}

/// The bytes of the first `n` fragments, back to back.
pub open spec fn fragments_bytes(fragments: Seq<FragmentView>, n: int) -> Seq<u8>
    decreases n,
{
    if n <= 0 {
        Seq::empty()
    } else {
        fragments_bytes(fragments, n - 1) + fragment_bytes_of(n - 1, fragments[n - 1])
    }
}

/// A packed track: `ftyp`, the text track's `moov` lasting to the end of the
/// last fragment, a `sidx` indexing every fragment (track 1, timescale 1000,
/// from time 0 right after itself), then the fragments.
pub open spec fn pack_bytes_of(fragments: Seq<FragmentView>) -> Seq<u8> {
    ftyp_bytes() + moov_bytes_of(text_header_of(track_end(fragments) as u64))
        + sidx_bytes(1, 1000, 0, 0, references_of(fragments)) + fragments_bytes(fragments, fragments.len() as int)
}

/// The fragments can be packed: they run past time 0, number at most 65,535 (a
/// `sidx` counts them in 16 bits), each can be written and is under 2³¹ bytes,
/// and the track's `moov` fits a 32-bit size.
pub open spec fn packs(fragments: Seq<FragmentView>) -> bool {
    &&& track_end(fragments) != 0
    &&& fragments.len() <= 65535
    &&& forall|i: int| 0 <= i < fragments.len() ==> fragment_encodes(i, #[trigger] fragments[i])
        && fragment_bytes_of(i, fragments[i]).len() <= 0x7fff_ffff
    &&& box_fits(moov_body(text_header_of(track_end(fragments) as u64)))
}

/// Every fragment, and every sample in it, starts no later than it ends.
pub open spec fn ordered_fragments(fragments: Seq<FragmentView>) -> bool {
    forall|i: int| 0 <= i < fragments.len() ==> (#[trigger] fragments[i]).start <= fragments[i].end
        && ordered_samples(fragments[i].samples)
}

proof fn lemma_ftyp_fits()
    ensures
        box_fits(brands_body(ftyp_major(), 0, ftyp_brands())),
{
    lemma_brand_bytes_len(ftyp_brands());
}

/// Packs fragments of a subtitle into a single fragmented `wvtt` track. The
/// `sidx` ahead of the fragments gives each one's size and duration, so a reader
/// can index the whole track from its head. The track runs to the end of the
/// last fragment; fragments that run to time 0 leave nothing to index and are
/// refused as [`PackError::Empty`]. It succeeds exactly on fragments that can be
/// packed.
pub fn pack(fragments: &[Fragment]) -> (r: Result<Vec<u8>, PackError>)
    requires
        ordered_fragments(fragment_views(fragments@)),
    ensures
        (r matches Err(PackError::Empty)) <==> track_end(fragment_views(fragments@)) == 0,
        r is Ok <==> packs(fragment_views(fragments@)),
        r matches Ok(b) ==> b@ == pack_bytes_of(fragment_views(fragments@)),
{
    let ghost views = fragment_views(fragments@);
    let end = if fragments.len() == 0 { 0 } else { fragments[fragments.len() - 1].end };
    if end == 0 {
        return Err(PackError::Empty);
    }
    let mut encoded: Vec<u8> = Vec::new();
    let mut references: Vec<SidxReference> = Vec::new();
    for i in 0..fragments.len()
        invariant
            views == fragment_views(fragments@),
            views.len() == fragments@.len(),
            track_end(views) != 0,
            track_end(views) == end,
            ordered_fragments(views),
            encoded@ == fragments_bytes(views, i as int),
            references@ == references_of(views.take(i as int)),
            forall|k: int| 0 <= k < i ==> fragment_encodes(k, #[trigger] views[k])
                && fragment_bytes_of(k, views[k]).len() <= 0x7fff_ffff,
    {
        let fragment = &fragments[i];
        proof {
            assert(views[i as int] == fragment@);
        }
        let mut bytes = match encode_fragment(i, fragment) {
            Ok(b) => b,
            Err(e) => return Err(e),
        };
        if bytes.len() > 0x7fff_ffff {
            return Err(PackError::TooLarge);
        }
        references.push(SidxReference {
            reference_type: false,
            referenced_size: bytes.len() as u32,
            subsegment_duration: fragment.duration(),
            starts_with_sap: true,
            sap_type: 1,
            sap_delta_time: 0,
        });
        let ghost written = bytes@;
        encoded.append(&mut bytes);
        proof {
            assert(written == fragment_bytes_of(i as int, views[i as int]));
            assert(fragments_bytes(views, i + 1) == fragments_bytes(views, i as int) + fragment_bytes_of(i as int, views[i as int]));
            let next = views.take(i + 1);
            assert forall|k: int| 0 <= k < i + 1 implies #[trigger] references@[k] == reference_of(k, next[k]) by {
                if k < i {
                    assert(next[k] == views.take(i as int)[k]);
                } else {
                    assert(next[k] == views[i as int]);
                }
            }
            assert(references@ =~= references_of(next));
        }
    }
    proof {
        assert(views.take(views.len() as int) =~= views);
        assert forall|k: int| 0 <= k < references@.len() implies reference_fits(#[trigger] references@[k]) by {
            assert(references@[k] == reference_of(k, views[k]));
        }
    }
    let brands: [[u8; 4]; 3] = [[0x69, 0x73, 0x6f, 0x36], [0x63, 0x6d, 0x66, 0x63], [0x63, 0x6d, 0x66, 0x74]];
    proof {
        assert(brands@ =~= ftyp_brands());
        assert([0x69u8, 0x73u8, 0x6fu8, 0x36u8]@ =~= ftyp_major());
        lemma_ftyp_fits();
    }
    let mut track = match encode_ftyp([0x69, 0x73, 0x6f, 0x36], 0, brands.as_slice()) {
        Ok(b) => b,
        Err(e) => return Err(PackError::Atom(e)),
    };
    let header = text_track_header(end as u64);
    let mut moov = match encode_track_header(&header) {
        Ok(b) => b,
        Err(e) => return Err(PackError::Atom(e)),
    };
    let mut sidx = match encode_sidx(1, 1000, 0, 0, references.as_slice()) {
        Ok(b) => b,
        Err(e) => return Err(PackError::Atom(e)),
    };
    track.append(&mut moov);
    track.append(&mut sidx);
    track.append(&mut encoded);
    Ok(track)
}

} // verus!
