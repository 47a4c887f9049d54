//! Reading a served segment of a CMAF `wvtt` track back into its cues.
//!
//! A segment is one or more `styp` · `moof` · `mdat` triples. Each `moof` lists,
//! per track fragment, a base decode time and the duration and size of every
//! sample; the `mdat` that follows holds the samples back to back, each a run of
//! cue boxes: a `vttc` per cue on screen, carrying its text in a `payl`.

use vstd::prelude::*;

use mp4_atom::{Any, DecodeMaybe};

use crate::fragmenter::{
    all_samples, fragments_view, indices_view, read_samples, samples_view, Fragment, FragmentView,
    Sample, SampleView,
};
use crate::subtitle::{cues_view, sort_by_span, sort_cues, Cue, CueView, Subtitle};

verus! {

broadcast use vstd::utf8::encode_utf8_decode_utf8;

#[verifier::external_type_specification]
#[verifier::external_body]
pub struct ExAtomError(mp4_atom::Error);

/// What stops a served segment from being read back.
#[derive(Debug)]
pub enum UnpackError {
    /// A fragment carries no base decode time.
    MissingBaseTime,
    /// A fragment carries no sample durations or sizes.
    MissingSampleTiming,
    /// Sample data overruns the fragment.
    SampleOutOfRange,
    /// A fragment header and its sample data do not pair up.
    UnpairedFragment,
    /// A time does not fit in the milliseconds a cue counts.
    TimeOverflow(u64),
    /// A box fails to decode.
    Atom(mp4_atom::Error),
}

/// What stopped a segment from being read back, by kind.
pub enum UnpackErrorView {
    MissingBaseTime,
    MissingSampleTiming,
    SampleOutOfRange,
    UnpairedFragment,
    TimeOverflow(u64),
    Atom,
}

impl View for UnpackError {
    type V = UnpackErrorView;

    open spec fn view(&self) -> UnpackErrorView {
        match self {
            UnpackError::MissingBaseTime => UnpackErrorView::MissingBaseTime,
            UnpackError::MissingSampleTiming => UnpackErrorView::MissingSampleTiming,
            UnpackError::SampleOutOfRange => UnpackErrorView::SampleOutOfRange,
            UnpackError::UnpairedFragment => UnpackErrorView::UnpairedFragment,
            UnpackError::TimeOverflow(t) => UnpackErrorView::TimeOverflow(*t),
            UnpackError::Atom(_) => UnpackErrorView::Atom,
        }
    }
}

/// One track fragment of a `moof`: its base decode time, and the duration and
/// size each of its samples declares, across all its runs.
pub struct TrackRun {
    pub base_time: Option<u64>,
    pub entries: Vec<(Option<u32>, Option<u32>)>,
}

/// What a track fragment is.
pub struct TrackRunView {
    pub base_time: Option<u64>,
    pub entries: Seq<(Option<u32>, Option<u32>)>,
}

impl View for TrackRun {
    type V = TrackRunView;

    open spec fn view(&self) -> TrackRunView {
        TrackRunView { base_time: self.base_time, entries: self.entries@ }
    }
}

/// The views of the track fragments of a `moof`.
pub open spec fn runs_view(runs: Seq<TrackRun>) -> Seq<TrackRunView> {
    runs.map_values(|r: TrackRun| r@)
}

/// A box as far as reading a segment needs it.
pub enum SegmentBox {
    /// A `moof`, by its track fragments.
    Header(Vec<TrackRun>),
    /// An `mdat`, by its data.
    Data(Vec<u8>),
    /// A box mp4-atom does not model, by its four-character code and body.
    Unknown([u8; 4], Vec<u8>),
    /// Any other box, by its four-character code.
    Other([u8; 4]),
}

/// What a box is.
pub enum SegmentBoxView {
    Header(Seq<TrackRunView>),
    Data(Seq<u8>),
    Unknown(Seq<u8>, Seq<u8>),
    Other(Seq<u8>),
}

impl View for SegmentBox {
    type V = SegmentBoxView;

    open spec fn view(&self) -> SegmentBoxView {
        match self {
            SegmentBox::Header(runs) => SegmentBoxView::Header(runs_view(runs@)),
            SegmentBox::Data(data) => SegmentBoxView::Data(data@),
            SegmentBox::Unknown(kind, body) => SegmentBoxView::Unknown(kind@, body@),
            SegmentBox::Other(kind) => SegmentBoxView::Other(kind@),
        }
    }
}

/// What decoding the box at the head of some bytes gives: an error, too few
/// bytes for a whole box, or the box and how many bytes it took.
pub enum BoxDecoding {
    Failed,
    Incomplete,
    Decoded(SegmentBoxView, nat),
}

/// What mp4-atom decodes from the head of `bytes`.
pub uninterp spec fn decoded_box(bytes: Seq<u8>) -> BoxDecoding;

/// Decodes the box at the head of `bytes` with `mp4_atom::Any::decode_maybe`
/// and reads what a segment needs out of it, with how many of those bytes are
/// left after it. Claimed: the outcome is [`decoded_box`] of those bytes, and a
/// decoded box takes at least one byte and no more than there are (its header
/// alone takes eight).
#[verifier::external_body]
fn decode_box(bytes: &[u8]) -> (r: Result<Option<(SegmentBox, usize)>, mp4_atom::Error>)
    ensures
        r is Err ==> decoded_box(bytes@) is Failed,
        r matches Ok(None) ==> decoded_box(bytes@) is Incomplete,
        r matches Ok(Some((b, left))) ==> decoded_box(bytes@) == BoxDecoding::Decoded(b@, (bytes@.len() - left) as nat)
            && left < bytes@.len(),
{
    let mut rest = bytes;
    let Some(any) = Any::decode_maybe(&mut rest)? else { return Ok(None) };
    let found = match any {
        Any::Moof(moof) => SegmentBox::Header(moof.traf.into_iter().map(|t| TrackRun {
            base_time: t.tfdt.map(|d| d.base_media_decode_time),
            entries: t.trun.iter().flat_map(|r| &r.samples).map(|e| (e.duration, e.size)).collect(),
        }).collect()),
        Any::Mdat(mdat) => SegmentBox::Data(mdat.data),
        Any::Unknown(kind, body) => SegmentBox::Unknown(kind.into(), body),
        other => SegmentBox::Other(other.kind().into()),
    };
    Ok(Some((found, rest.len())))
}

/// Reads `bytes` as UTF-8 with `std::str::from_utf8`. Claimed, as its
/// documentation says: it succeeds exactly when the bytes are valid UTF-8, and
/// then the text is encoded as those very bytes; the error is described in the
/// words of its `Display`, which are not claimed.
#[verifier::external_body]
fn utf8_text(bytes: &[u8]) -> (r: Result<&str, String>)
    ensures
        r is Ok <==> vstd::utf8::valid_utf8(bytes@),
        r matches Ok(text) ==> vstd::utf8::encode_utf8(text@) == bytes@,
{
    std::str::from_utf8(bytes).map_err(|error| error.to_string())
}

/// The error mp4-atom reports for a box of the wrong kind, as `mp4_atom::Error::UnexpectedBox`
/// with the kind found.
#[verifier::external_body]
fn unexpected_box(kind: [u8; 4]) -> mp4_atom::Error {
    mp4_atom::Error::UnexpectedBox(kind.into())
}

/// The error mp4-atom reports for a box that runs past its bytes, as
/// `mp4_atom::Error::OutOfBounds`.
#[verifier::external_body]
fn out_of_bounds() -> mp4_atom::Error {
    mp4_atom::Error::OutOfBounds
}

/// The error mp4-atom reports for text that is not UTF-8, as
/// `mp4_atom::Error::InvalidString` with the given description.
#[verifier::external_body]
fn invalid_string(description: String) -> mp4_atom::Error {
    mp4_atom::Error::InvalidString(description)
}

/// The four-character code of a `vttc` box.
pub open spec fn vttc_kind() -> Seq<u8> {
    seq![0x76u8, 0x74u8, 0x74u8, 0x63u8]
}

/// The four-character code of a `payl` box.
pub open spec fn payl_kind() -> Seq<u8> {
    seq![0x70u8, 0x61u8, 0x79u8, 0x6cu8]
}

fn is_kind(kind: &[u8; 4], a: u8, b: u8, c: u8, d: u8) -> (same: bool)
    ensures
        same == (kind@ == seq![a, b, c, d]),
{
    let same = kind[0] == a && kind[1] == b && kind[2] == c && kind[3] == d;
    proof {
        if same {
            assert(kind@ =~= seq![a, b, c, d]);
        } else if kind@ == seq![a, b, c, d] {
            assert(kind@[0] == a && kind@[1] == b && kind@[2] == c && kind@[3] == d);
        }
    }
    same
}

/// The text the body of a `vttc` carries: its leading box must be a whole
/// `payl` holding UTF-8.
pub open spec fn payl_text_of(body: Seq<u8>) -> Option<Seq<char>> {
    match decoded_box(body) {
        BoxDecoding::Decoded(SegmentBoxView::Unknown(kind, text), _) => if kind == payl_kind()
            && vstd::utf8::valid_utf8(text) {
            Some(vstd::utf8::decode_utf8(text))
        } else {
            None
        },
        _ => None,
    }
}

fn payl_text(body: &[u8]) -> (r: Result<String, UnpackError>)
    ensures
        payl_text_of(body@) matches Some(t) ==> (r matches Ok(s) && s@ == t),
        payl_text_of(body@) is None ==> r matches Err(UnpackError::Atom(_)),
{
    proof {
        assert(body@.subrange(0, body@.len() as int) =~= body@);
    }
    match decode_box(vstd::slice::slice_subrange(body, 0, body.len())) {
        Err(error) => Err(UnpackError::Atom(error)),
        Ok(None) => Err(UnpackError::Atom(out_of_bounds())),
        Ok(Some((SegmentBox::Unknown(kind, text), _))) => {
            if !is_kind(&kind, 0x70, 0x61, 0x79, 0x6c) {
                return Err(UnpackError::Atom(unexpected_box(kind)));
            }
            match utf8_text(text.as_slice()) {
                Ok(s) => Ok(s.to_owned()),
                Err(description) => Err(UnpackError::Atom(invalid_string(description))),
            }
        },
        Ok(Some((SegmentBox::Header(_), _))) => Err(UnpackError::Atom(unexpected_box([0x6d, 0x6f, 0x6f, 0x66]))),
        Ok(Some((SegmentBox::Data(_), _))) => Err(UnpackError::Atom(unexpected_box([0x6d, 0x64, 0x61, 0x74]))),
        Ok(Some((SegmentBox::Other(kind), _))) => Err(UnpackError::Atom(unexpected_box(kind))),
    }
}

/// The texts the cue boxes of `sample[from..]` carry, one per `vttc`; other
/// boxes are passed over, and reading stops where no whole box is left.
pub open spec fn payloads_from(sample: Seq<u8>, from: int) -> Result<Seq<Seq<char>>, UnpackErrorView>
    decreases sample.len() - from,
{
    if from < 0 || from > sample.len() {
        Ok(Seq::empty())
    } else {
        match decoded_box(sample.subrange(from, sample.len() as int)) {
            BoxDecoding::Failed => Err(UnpackErrorView::Atom),
            BoxDecoding::Incomplete => Ok(Seq::empty()),
            BoxDecoding::Decoded(b, n) => if 0 < n <= sample.len() - from {
                match b {
                    SegmentBoxView::Unknown(kind, body) => if kind == vttc_kind() {
                        match payl_text_of(body) {
                            None => Err(UnpackErrorView::Atom),
                            Some(text) => match payloads_from(sample, from + n) {
                                Ok(rest) => Ok(seq![text] + rest),
                                Err(e) => Err(e),
                            },
                        }
                    } else {
                        payloads_from(sample, from + n)
                    },
                    _ => payloads_from(sample, from + n),
                }
            } else {
                Ok(Seq::empty())
            },
        }
    }
}

/// `done` followed by what `rest` yields, or the error it stops at.
pub open spec fn after<A>(done: Seq<A>, rest: Result<Seq<A>, UnpackErrorView>) -> Result<
    Seq<A>,
    UnpackErrorView,
> {
    match rest {
        Ok(more) => Ok(done + more),
        Err(e) => Err(e),
    }
}

/// The view of a list of texts.
pub open spec fn strings_view(texts: Seq<String>) -> Seq<Seq<char>> {
    texts.map_values(|t: String| t@)
}

/// The cue texts of the sample `data[from..to]`.
fn payloads(data: &[u8], from: usize, to: usize) -> (r: Result<Vec<String>, UnpackError>)
    requires
        from <= to <= data@.len(),
    ensures
        match payloads_from(data@.subrange(from as int, to as int), 0) {
            Ok(texts) => r matches Ok(v) && strings_view(v@) == texts,
            Err(e) => r matches Err(err) && err@ == e,
        },
{
    let ghost sample = data@.subrange(from as int, to as int);
    let mut texts: Vec<String> = Vec::new();
    let mut at = from;
    while at <= to
        invariant
            from <= at <= to <= data@.len(),
            sample == data@.subrange(from as int, to as int),
            payloads_from(sample, 0) == after(strings_view(texts@), payloads_from(sample, at - from)),
        decreases to - at,
    {
        proof {
            assert(sample.subrange(at - from, sample.len() as int) =~= data@.subrange(at as int, to as int));
        }
        match decode_box(vstd::slice::slice_subrange(data, at, to)) {
            Err(error) => return Err(UnpackError::Atom(error)),
            Ok(None) => {
                proof {
                    assert(strings_view(texts@) + Seq::<Seq<char>>::empty() =~= strings_view(texts@));
                }
                return Ok(texts);
            },
            Ok(Some((found, left))) => {
                let n = to - at - left;
                if let SegmentBox::Unknown(kind, body) = found {
                    if is_kind(&kind, 0x76, 0x74, 0x74, 0x63) {
                        let text = match payl_text(body.as_slice()) {
                            Ok(text) => text,
                            Err(error) => return Err(error),
                        };
                        let ghost before = strings_view(texts@);
                        texts.push(text);
                        proof {
                            assert(strings_view(texts@) =~= before.push(text@));
                            let rest = payloads_from(sample, at - from + n);
                            match rest {
                                Ok(more) => {
                                    assert(before + (seq![text@] + more) =~= strings_view(texts@) + more);
                                },
                                Err(_) => {},
                            }
                        }
                    }
                }
                at = at + n;
            },
        }
    }
    proof {
        assert(false);
    }
    Ok(texts)
}

/// `time`, counted in ticks of `timescale` per second, in whole milliseconds.
pub open spec fn millis(time: u64, timescale: u32) -> int {
    time * 1000 / (timescale as int)
}

/// `time` in the milliseconds a cue counts, or the overflow it runs into.
fn milliseconds(time: u64, timescale: u32) -> (r: Result<u32, UnpackError>)
    requires
        timescale > 0,
    ensures
        millis(time, timescale) <= u32::MAX ==> (r matches Ok(ms) && ms == millis(time, timescale)),
        millis(time, timescale) > u32::MAX ==> (r matches Err(UnpackError::TimeOverflow(t)) && t == time),
{
    let scaled: u128 = (time as u128) * 1000;
    let ms: u128 = scaled / (timescale as u128);
    if ms > u32::MAX as u128 {
        Err(UnpackError::TimeOverflow(time))
    } else {
        Ok(ms as u32)
    }
}

/// The cues of a sample spanning `[start, end)` that carries `texts`.
pub open spec fn cues_of(texts: Seq<Seq<char>>, start: u32, end: u32) -> Seq<CueView> {
    texts.map_values(|t: Seq<char>| CueView { start, end, text: t })
}

/// The samples the entries of a track fragment from `entries` on describe,
/// running from `time` and cut from `data` at `offset`, or the first thing
/// wrong with them: a missing duration or size, data running out, or a time
/// past what a cue counts.
pub open spec fn run_samples(
    entries: Seq<(Option<u32>, Option<u32>)>,
    data: Seq<u8>,
    time: u64,
    offset: int,
    timescale: u32,
) -> Result<Seq<SampleView>, UnpackErrorView>
    decreases entries.len(),
{
    if entries.len() == 0 {
        Ok(Seq::empty())
    } else {
        match entries[0] {
            (Some(duration), Some(size)) => {
                let end = offset + size;
                let next = time + duration;
                if end > usize::MAX || end > data.len() || offset < 0 {
                    Err(UnpackErrorView::SampleOutOfRange)
                } else if next > u64::MAX {
                    Err(UnpackErrorView::TimeOverflow(time))
                } else if millis(time, timescale) > u32::MAX {
                    Err(UnpackErrorView::TimeOverflow(time))
                } else if millis(next as u64, timescale) > u32::MAX {
                    Err(UnpackErrorView::TimeOverflow(next as u64))
                } else {
                    let start = millis(time, timescale) as u32;
                    let stop = millis(next as u64, timescale) as u32;
                    match payloads_from(data.subrange(offset, end), 0) {
                        Err(e) => Err(e),
                        Ok(texts) => after(
                            seq![SampleView { start, end: stop, cues: cues_of(texts, start, stop) }],
                            run_samples(entries.drop_first(), data, next as u64, end, timescale),
                        ),
                    }
                }
            },
            _ => Err(UnpackErrorView::MissingSampleTiming),
        }
    }
}

/// The samples the track fragments of a `moof` cut from the `mdat` data that
/// follows it, each fragment timed from its own base decode time.
pub open spec fn fragment_samples(runs: Seq<TrackRunView>, data: Seq<u8>, timescale: u32) -> Result<
    Seq<SampleView>,
    UnpackErrorView,
>
    decreases runs.len(),
{
    if runs.len() == 0 {
        Ok(Seq::empty())
    } else {
        match runs[0].base_time {
            None => Err(UnpackErrorView::MissingBaseTime),
            Some(base) => match run_samples(runs[0].entries, data, base, 0, timescale) {
                Err(e) => Err(e),
                Ok(samples) => after(samples, fragment_samples(runs.drop_first(), data, timescale)),
            },
        }
    }
}

/// The samples of the fragments in `segment` from `from` on, a `moof` waiting for
/// its `mdat` or not: each `moof` pairs with the `mdat` right after it, other
/// boxes are passed over, and reading stops where no whole box is left.
pub open spec fn scan_segment(
    segment: Seq<u8>,
    from: int,
    pending: Option<Seq<TrackRunView>>,
    timescale: u32,
) -> Result<Seq<SampleView>, UnpackErrorView>
    decreases segment.len() - from,
{
    if from < 0 || from > segment.len() {
        Ok(Seq::empty())
    } else {
        match decoded_box(segment.subrange(from, segment.len() as int)) {
            BoxDecoding::Failed => Err(UnpackErrorView::Atom),
            BoxDecoding::Incomplete => if pending is Some {
                Err(UnpackErrorView::UnpairedFragment)
            } else {
                Ok(Seq::empty())
            },
            BoxDecoding::Decoded(b, n) => if 0 < n <= segment.len() - from {
                match b {
                    SegmentBoxView::Header(runs) => if pending is Some {
                        Err(UnpackErrorView::UnpairedFragment)
                    } else {
                        scan_segment(segment, from + n, Some(runs), timescale)
                    },
                    SegmentBoxView::Data(data) => match pending {
                        None => Err(UnpackErrorView::UnpairedFragment),
                        Some(runs) => match fragment_samples(runs, data, timescale) {
                            Err(e) => Err(e),
                            Ok(samples) => after(samples, scan_segment(segment, from + n, None, timescale)),
                        },
                    },
                    _ => scan_segment(segment, from + n, pending, timescale),
                }
            } else {
                Ok(Seq::empty())
            },
        }
    }
}

/// The subtitle a segment unpacks into: its samples read back into cues, each
/// followed across the consecutive samples it appears in, sorted by span.
pub open spec fn unpack_spec(segment: Seq<u8>, timescale: u32) -> Result<Seq<CueView>, UnpackErrorView> {
    match scan_segment(segment, 0, None, timescale) {
        Err(e) => Err(e),
        Ok(samples) => Ok(sort_by_span(read_samples(samples).0)),
    }
}

/// The view of what [`unpack`] returns.
pub open spec fn unpack_result_view(r: Result<Subtitle, UnpackError>) -> Result<Seq<CueView>, UnpackErrorView> {
    match r {
        Ok(subtitle) => Ok(subtitle@),
        Err(e) => Err(e@),
    }
}

/// Reads the samples of one track fragment's entries into `samples`.
fn read_run(
    entries: &Vec<(Option<u32>, Option<u32>)>,
    data: &Vec<u8>,
    base: u64,
    timescale: u32,
    samples: &mut Vec<Sample>,
) -> (r: Result<(), UnpackError>)
    requires
        timescale > 0,
    ensures
        match run_samples(entries@, data@, base, 0, timescale) {
            Ok(more) => r is Ok && samples_view(final(samples)@) == samples_view(old(samples)@) + more,
            Err(e) => r matches Err(err) && err@ == e,
        },
{
    let ghost initial = samples_view(samples@);
    let mut time = base;
    let mut offset: usize = 0;
    proof {
        assert(entries@.skip(0) =~= entries@);
        assert(initial.skip(initial.len() as int) =~= Seq::<SampleView>::empty());
        assert(initial.take(initial.len() as int) =~= initial);
        match run_samples(entries@, data@, base, 0, timescale) {
            Ok(more) => {
                assert(Seq::<SampleView>::empty() + more =~= more);
            },
            Err(_) => {},
        }
    }
    for k in 0..entries.len()
        invariant
            timescale > 0,
            run_samples(entries@, data@, base, 0, timescale) == after(
                samples_view(samples@).skip(initial.len() as int),
                run_samples(entries@.skip(k as int), data@, time, offset as int, timescale),
            ),
            samples_view(samples@).take(initial.len() as int) == initial,
            samples_view(samples@).len() >= initial.len(),
    {
        let ghost rest = entries@.skip(k as int);
        proof {
            assert(rest[0] == entries@[k as int]);
            assert(rest.drop_first() =~= entries@.skip(k + 1));
        }
        let (duration, size) = entries[k];
        let duration = match duration {
            Some(d) => d,
            None => return Err(UnpackError::MissingSampleTiming),
        };
        let size = match size {
            Some(s) => s,
            None => return Err(UnpackError::MissingSampleTiming),
        };
        let end = match offset.checked_add(size as usize) {
            Some(end) => end,
            None => return Err(UnpackError::SampleOutOfRange),
        };
        if end > data.len() {
            return Err(UnpackError::SampleOutOfRange);
        }
        let next = match time.checked_add(duration as u64) {
            Some(next) => next,
            None => return Err(UnpackError::TimeOverflow(time)),
        };
        let start = match milliseconds(time, timescale) {
            Ok(ms) => ms,
            Err(error) => return Err(error),
        };
        let stop = match milliseconds(next, timescale) {
            Ok(ms) => ms,
            Err(error) => return Err(error),
        };
        let texts = match payloads(data.as_slice(), offset, end) {
            Ok(texts) => texts,
            Err(error) => return Err(error),
        };
        let mut cues: Vec<Cue> = Vec::new();
        for i in 0..texts.len()
            invariant
                cues_view(cues@) == cues_of(strings_view(texts@).take(i as int), start, stop),
        {
            let ghost before = cues_view(cues@);
            let text = texts[i].as_str().to_owned();
            cues.push(Cue { start, end: stop, text });
            proof {
                let piece = CueView { start, end: stop, text: texts@[i as int]@ };
                assert(strings_view(texts@).take(i + 1) =~= strings_view(texts@).take(i as int).push(texts@[i as int]@));
                assert(cues_of(strings_view(texts@).take(i + 1), start, stop) =~= before.push(piece));
                assert(cues_view(cues@) =~= before.push(piece));
            }
        }
        proof {
            assert(strings_view(texts@).take(texts@.len() as int) =~= strings_view(texts@));
        }
        let ghost before = samples_view(samples@);
        samples.push(Sample { start, end: stop, cues });
        proof {
            let here = SampleView { start, end: stop, cues: cues_of(strings_view(texts@), start, stop) };
            assert(samples_view(samples@) =~= before.push(here));
            assert(samples_view(samples@).take(initial.len() as int) =~= before.take(initial.len() as int));
            assert(samples_view(samples@).skip(initial.len() as int) =~= before.skip(initial.len() as int).push(here));
            let tail = run_samples(entries@.skip(k + 1), data@, next, end as int, timescale);
            match tail {
                Ok(more) => {
                    assert(before.skip(initial.len() as int) + (seq![here] + more) =~= before.skip(initial.len() as int).push(here) + more);
                },
                Err(_) => {},
            }
        }
        offset = end;
        time = next;
    }
    proof {
        assert(entries@.skip(entries@.len() as int) =~= Seq::<(Option<u32>, Option<u32>)>::empty());
        assert(samples_view(samples@).skip(initial.len() as int) + Seq::<SampleView>::empty()
            =~= samples_view(samples@).skip(initial.len() as int));
        assert(samples_view(samples@) =~= initial + samples_view(samples@).skip(initial.len() as int));
    }
    Ok(())
}

/// Reads the samples the track fragments `runs` of a `moof` cut from the `mdat`
/// data `data` into `samples`.
fn read_fragment(runs: &Vec<TrackRun>, data: &Vec<u8>, timescale: u32, samples: &mut Vec<Sample>) -> (r: Result<(), UnpackError>)
    requires
        timescale > 0,
    ensures
        match fragment_samples(runs_view(runs@), data@, timescale) {
            Ok(more) => r is Ok && samples_view(final(samples)@) == samples_view(old(samples)@) + more,
            Err(e) => r matches Err(err) && err@ == e,
        },
{
    let ghost initial = samples_view(samples@);
    let ghost all = runs_view(runs@);
    proof {
        assert(all.skip(0) =~= all);
        assert(initial.skip(initial.len() as int) =~= Seq::<SampleView>::empty());
        assert(initial.take(initial.len() as int) =~= initial);
        match fragment_samples(all, data@, timescale) {
            Ok(more) => {
                assert(Seq::<SampleView>::empty() + more =~= more);
            },
            Err(_) => {},
        }
    }
    for k in 0..runs.len()
        invariant
            timescale > 0,
            all == runs_view(runs@),
            fragment_samples(all, data@, timescale) == after(
                samples_view(samples@).skip(initial.len() as int),
                fragment_samples(all.skip(k as int), data@, timescale),
            ),
            samples_view(samples@).take(initial.len() as int) == initial,
            samples_view(samples@).len() >= initial.len(),
    {
        let ghost rest = all.skip(k as int);
        proof {
            assert(rest[0] == runs@[k as int]@);
            assert(rest.drop_first() =~= all.skip(k + 1));
        }
        let run = &runs[k];
        let base = match run.base_time {
            Some(base) => base,
            None => return Err(UnpackError::MissingBaseTime),
        };
        let ghost before = samples_view(samples@);
        match read_run(&run.entries, data, base, timescale, samples) {
            Ok(()) => {},
            Err(error) => return Err(error),
        }
        proof {
            let here = run_samples(run.entries@, data@, base, 0, timescale)->Ok_0;
            assert(samples_view(samples@) == before + here);
            assert(samples_view(samples@).take(initial.len() as int) =~= before.take(initial.len() as int));
            assert(samples_view(samples@).skip(initial.len() as int) =~= before.skip(initial.len() as int) + here);
            match fragment_samples(all.skip(k + 1), data@, timescale) {
                Ok(more) => {
                    assert(before.skip(initial.len() as int) + (here + more) =~= before.skip(initial.len() as int) + here + more);
                },
                Err(_) => {},
            }
        }
    }
    proof {
        assert(all.skip(runs@.len() as int) =~= Seq::<TrackRunView>::empty());
        assert(samples_view(samples@).skip(initial.len() as int) + Seq::<SampleView>::empty()
            =~= samples_view(samples@).skip(initial.len() as int));
        assert(samples_view(samples@) =~= initial + samples_view(samples@).skip(initial.len() as int));
    }
    Ok(())
}

/// The view of a fragment header waiting for its data.
pub open spec fn pending_view(header: Option<Vec<TrackRun>>) -> Option<Seq<TrackRunView>> {
    match header {
        Some(runs) => Some(runs_view(runs@)),
        None => None,
    }
}

/// The samples the fragments of `segment` carry, in the order they were written.
fn segment_samples(segment: &[u8], timescale: u32) -> (r: Result<Vec<Sample>, UnpackError>)
    requires
        timescale > 0,
    ensures
        match scan_segment(segment@, 0, None, timescale) {
            Ok(samples) => r matches Ok(v) && samples_view(v@) == samples,
            Err(e) => r matches Err(err) && err@ == e,
        },
{
    let mut samples: Vec<Sample> = Vec::new();
    let mut header: Option<Vec<TrackRun>> = None;
    let mut at: usize = 0;
    proof {
        match scan_segment(segment@, 0, None, timescale) {
            Ok(more) => {
                assert(Seq::<SampleView>::empty() + more =~= more);
            },
            Err(_) => {},
        }
    }
    while at <= segment.len()
        invariant
            timescale > 0,
            at <= segment@.len(),
            scan_segment(segment@, 0, None, timescale) == after(
                samples_view(samples@),
                scan_segment(segment@, at as int, pending_view(header), timescale),
            ),
        decreases segment@.len() - at,
    {
        proof {
            assert(segment@.subrange(at as int, segment@.len() as int) =~= segment@.subrange(
                at as int,
                segment.len() as int,
            ));
        }
        match decode_box(vstd::slice::slice_subrange(segment, at, segment.len())) {
            Err(error) => return Err(UnpackError::Atom(error)),
            Ok(None) => {
                if header.is_some() {
                    return Err(UnpackError::UnpairedFragment);
                }
                proof {
                    assert(samples_view(samples@) + Seq::<SampleView>::empty() =~= samples_view(samples@));
                }
                return Ok(samples);
            },
            Ok(Some((found, left))) => {
                let n = segment.len() - at - left;
                match found {
                    SegmentBox::Header(runs) => {
                        if header.is_some() {
                            return Err(UnpackError::UnpairedFragment);
                        }
                        header = Some(runs);
                    },
                    SegmentBox::Data(data) => {
                        let runs = match header {
                            Some(runs) => runs,
                            None => return Err(UnpackError::UnpairedFragment),
                        };
                        header = None;
                        let ghost before = samples_view(samples@);
                        match read_fragment(&runs, &data, timescale, &mut samples) {
                            Ok(()) => {},
                            Err(error) => return Err(error),
                        }
                        proof {
                            let here = fragment_samples(runs_view(runs@), data@, timescale)->Ok_0;
                            match scan_segment(segment@, at + n, None, timescale) {
                                Ok(more) => {
                                    assert(before + (here + more) =~= samples_view(samples@) + more);
                                },
                                Err(_) => {},
                            }
                        }
                    },
                    _ => {},
                }
                at = at + n;
            },
        }
    }
    proof {
        assert(false);
    }
    Ok(samples)
}

/// Unpacks one served segment of a `wvtt` track into the cues it carries.
///
/// `segment` holds the whole byte range a segment resolves to: one or more
/// `styp` · `moof` · `mdat` triples. `timescale` is the track's. Each sample
/// carries the texts on screen over it; a cue outlasting a sample was written
/// once per sample it covers, so each text is followed across the consecutive
/// samples it appears in, and the run becomes one cue spanning them. The cues come
/// back sorted by span.
///
/// Only a cue's payload is read: other boxes in a sample are passed over.
/// Fails if a box fails to decode, if a fragment carries no base decode time or
/// sample durations, if fragment headers and data do not pair up, if the sample
/// sizes overrun their data, or if a time does not fit the milliseconds a cue
/// counts.
pub fn unpack(segment: &[u8], timescale: u32) -> (r: Result<Subtitle, UnpackError>)
    requires
        timescale > 0,
    ensures
        unpack_result_view(r) == unpack_spec(segment@, timescale),
{
    let samples = match segment_samples(segment, timescale) {
        Ok(samples) => samples,
        Err(error) => return Err(error),
    };
    let ghost all = samples_view(samples@);
    let mut cues: Vec<Cue> = Vec::new();
    let mut open: Vec<usize> = Vec::new();
    proof {
        assert(cues_view(cues@) =~= Seq::<CueView>::empty());
        assert(indices_view(open@) =~= Seq::<int>::empty());
        assert(all.take(0) =~= Seq::<SampleView>::empty());
    }
    for k in 0..samples.len()
        invariant
            all == samples_view(samples@),
            (cues_view(cues@), indices_view(open@)) == read_samples(all.take(k as int)),
    {
        let sample = &samples[k];
        proof {
            assert(all.take(k + 1).drop_last() =~= all.take(k as int));
            assert(all.take(k + 1).last() == sample@);
        }
        open = crate::fragmenter::absorb_sample(&mut cues, &open, sample);
    }
    proof {
        assert(all.take(samples@.len() as int) =~= all);
    }
    Ok(Subtitle { cues: sort_cues(&cues) })
}

/// The fragment that samples make: it spans them, from the first one's start to
/// the last one's end, or nothing where there are none.
pub open spec fn fragment_of(samples: Seq<SampleView>) -> FragmentView {
    FragmentView {
        start: if samples.len() == 0 { 0 } else { samples[0].start },
        end: if samples.len() == 0 { 0 } else { samples.last().end },
        samples,
    }
}

/// Reads one fragment: the samples the track fragments `runs` of a `moof` cut
/// from the `mdat` data `data`, the fragment spanning them.
pub fn decode_fragment(runs: &Vec<TrackRun>, data: &Vec<u8>, timescale: u32) -> (r: Result<Fragment, UnpackError>)
    requires
        timescale > 0,
    ensures
        match fragment_samples(runs_view(runs@), data@, timescale) {
            Ok(samples) => r matches Ok(f) && f@ == fragment_of(samples),
            Err(e) => r matches Err(err) && err@ == e,
        },
{
    let mut samples: Vec<Sample> = Vec::new();
    proof {
        assert(samples_view(samples@) =~= Seq::<SampleView>::empty());
    }
    match read_fragment(runs, data, timescale, &mut samples) {
        Ok(()) => {},
        Err(error) => return Err(error),
    }
    proof {
        let got = fragment_samples(runs_view(runs@), data@, timescale)->Ok_0;
        assert(samples_view(samples@) =~= got);
    }
    let start = if samples.len() == 0 { 0 } else { samples[0].start };
    let end = if samples.len() == 0 { 0 } else { samples[samples.len() - 1].end };
    let f = Fragment { start, end, samples };
    proof {
        assert(f@.samples == samples_view(f.samples@));
    }
    Ok(f)
}

/// The fragments in `segment` from `from` on, a `moof` waiting for its `mdat` or
/// not: each `moof` and the `mdat` right after it make one.
pub open spec fn scan_fragments(
    segment: Seq<u8>,
    from: int,
    pending: Option<Seq<TrackRunView>>,
    timescale: u32,
) -> Result<Seq<FragmentView>, UnpackErrorView>
    decreases segment.len() - from,
{
    if from < 0 || from > segment.len() {
        Ok(Seq::empty())
    } else {
        match decoded_box(segment.subrange(from, segment.len() as int)) {
            BoxDecoding::Failed => Err(UnpackErrorView::Atom),
            BoxDecoding::Incomplete => if pending is Some {
                Err(UnpackErrorView::UnpairedFragment)
            } else {
                Ok(Seq::empty())
            },
            BoxDecoding::Decoded(b, n) => if 0 < n <= segment.len() - from {
                match b {
                    SegmentBoxView::Header(runs) => if pending is Some {
                        Err(UnpackErrorView::UnpairedFragment)
                    } else {
                        scan_fragments(segment, from + n, Some(runs), timescale)
                    },
                    SegmentBoxView::Data(data) => match pending {
                        None => Err(UnpackErrorView::UnpairedFragment),
                        Some(runs) => match fragment_samples(runs, data, timescale) {
                            Err(e) => Err(e),
                            Ok(samples) => after(
                                seq![fragment_of(samples)],
                                scan_fragments(segment, from + n, None, timescale),
                            ),
                        },
                    },
                    _ => scan_fragments(segment, from + n, pending, timescale),
                }
            } else {
                Ok(Seq::empty())
            },
        }
    }
}

/// Unpacks one served segment of a `wvtt` track into the fragments it carries:
/// each `moof` and the `mdat` after it become one, its samples timed and cut as
/// [`unpack`] reads them. Fails as [`unpack`] does.
pub fn unpack_fragments(segment: &[u8], timescale: u32) -> (r: Result<Vec<Fragment>, UnpackError>)
    requires
        timescale > 0,
    ensures
        match scan_fragments(segment@, 0, None, timescale) {
            Ok(fragments) => r matches Ok(v) && fragments_view(v@) == fragments,
            Err(e) => r matches Err(err) && err@ == e,
        },
{
    let mut fragments: Vec<Fragment> = Vec::new();
    let mut header: Option<Vec<TrackRun>> = None;
    let mut at: usize = 0;
    proof {
        match scan_fragments(segment@, 0, None, timescale) {
            Ok(more) => {
                assert(Seq::<FragmentView>::empty() + more =~= more);
            },
            Err(_) => {},
        }
        assert(fragments_view(fragments@) =~= Seq::<FragmentView>::empty());
    }
    while at <= segment.len()
        invariant
            timescale > 0,
            at <= segment@.len(),
            scan_fragments(segment@, 0, None, timescale) == after(
                fragments_view(fragments@),
                scan_fragments(segment@, at as int, pending_view(header), timescale),
            ),
        decreases segment@.len() - at,
    {
        proof {
            assert(segment@.subrange(at as int, segment@.len() as int) =~= segment@.subrange(
                at as int,
                segment.len() as int,
            ));
        }
        match decode_box(vstd::slice::slice_subrange(segment, at, segment.len())) {
            Err(error) => return Err(UnpackError::Atom(error)),
            Ok(None) => {
                if header.is_some() {
                    return Err(UnpackError::UnpairedFragment);
                }
                proof {
                    assert(fragments_view(fragments@) + Seq::<FragmentView>::empty() =~= fragments_view(fragments@));
                }
                return Ok(fragments);
            },
            Ok(Some((found, left))) => {
                let n = segment.len() - at - left;
                match found {
                    SegmentBox::Header(runs) => {
                        if header.is_some() {
                            return Err(UnpackError::UnpairedFragment);
                        }
                        header = Some(runs);
                    },
                    SegmentBox::Data(data) => {
                        let runs = match header {
                            Some(runs) => runs,
                            None => return Err(UnpackError::UnpairedFragment),
                        };
                        header = None;
                        let ghost before = fragments_view(fragments@);
                        let decoded = match decode_fragment(&runs, &data, timescale) {
                            Ok(f) => f,
                            Err(error) => return Err(error),
                        };
                        fragments.push(decoded);
                        proof {
                            let here = fragment_of(fragment_samples(runs_view(runs@), data@, timescale)->Ok_0);
                            assert(fragments_view(fragments@) =~= before.push(here));
                            match scan_fragments(segment@, at + n, None, timescale) {
                                Ok(more) => {
                                    assert(before + (seq![here] + more) =~= fragments_view(fragments@) + more);
                                },
                                Err(_) => {},
                            }
                        }
                    },
                    _ => {},
                }
                at = at + n;
            },
        }
    }
    proof {
        assert(false);
    }
    Ok(fragments)
}

} // verus!
