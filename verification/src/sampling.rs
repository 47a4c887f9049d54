//! Text segments of a subtitle, and the windowing queries on it: how long it
//! lasts and what part of it overlaps an interval.

use vstd::prelude::*;

use crate::fragmenter::{fragment, fragments_view, latest_end, reaches, samples_view, tiles, clock_cut, SampleView};
use crate::subtitle::{cues_view, max_end, Cue, CueView, Subtitle};
use crate::timeline::is_partition;

verus! {

/// What a text segment is: where it starts and the samples tiling it.
pub struct TextSegmentView {
    pub start: u32,
    pub samples: Seq<SampleView>,
}

/// The cues on screen over `[start, end)`.
#[derive(Debug, Clone, PartialEq, Eq)]
pub struct TextSample {
    start: u32,
    end: u32,
    cues: Vec<Cue>,
}

impl View for TextSample {
    type V = SampleView;

    closed spec fn view(&self) -> SampleView {
        SampleView { start: self.start, end: self.end, cues: cues_view(self.cues@) }
    }
}

impl TextSample {
    /// Where the sample starts.
    pub fn start(&self) -> (t: u32)
        ensures
            t == self@.start,
    {
        self.start
    }

    /// Where the sample ends.
    pub fn end(&self) -> (t: u32)
        ensures
            t == self@.end,
    {
        self.end
    }

    /// How long the sample lasts.
    pub fn duration(&self) -> (d: u32)
        requires
            self@.start <= self@.end,
        ensures
            d == self@.end - self@.start,
    {
        self.end - self.start
    }

    /// The cues on screen over the sample, in presentation order.
    pub fn cues(&self) -> (c: &[Cue])
        ensures
            cues_view(c@) == self@.cues,
    {
        self.cues.as_slice()
    }
}

/// Consecutive samples starting at `start`; the segment runs until the next one
/// starts, or until the subtitle ends.
#[derive(Debug, Clone, PartialEq, Eq)]
pub struct TextSegment {
    start: u32,
    samples: Vec<TextSample>,
}

/// The views of a list of text samples.
pub open spec fn text_samples_view(samples: Seq<TextSample>) -> Seq<SampleView> {
    samples.map_values(|s: TextSample| s@)
}

impl View for TextSegment {
    type V = TextSegmentView;

    closed spec fn view(&self) -> TextSegmentView {
        TextSegmentView { start: self.start, samples: text_samples_view(self.samples@) }
    }
}

impl TextSegment {
    /// Where the segment starts.
    pub fn start(&self) -> (t: u32)
        ensures
            t == self@.start,
    {
        self.start
    }

    /// The samples tiling the segment, in order.
    pub fn samples(&self) -> (s: &[TextSample])
        ensures
            text_samples_view(s@) == self@.samples,
    {
        self.samples.as_slice()
    }
}

/// The views of a list of text segments.
pub open spec fn text_segments_view(segments: Seq<TextSegment>) -> Seq<TextSegmentView> {
    segments.map_values(|s: TextSegment| s@)
}

/// The spans of `segments`: each runs from its start to the next one's, the last
/// to `end`.
pub open spec fn segment_spans(segments: Seq<TextSegmentView>, end: u32) -> Seq<(u32, u32)> {
    Seq::new(
        segments.len(),
        |i: int| (segments[i].start, if i + 1 < segments.len() { segments[i + 1].start } else { end }),
    )
}

/// `segments` divide the subtitle `cues` from 0 to its end at the splice points in
/// `boundaries` and the multiples of `length`, each tiled by its samples.
pub open spec fn segmented(
    cues: Seq<CueView>,
    boundaries: Seq<u32>,
    length: u32,
    segments: Seq<TextSegmentView>,
) -> bool {
    let spans = segment_spans(segments, max_end(cues));
    &&& is_partition(
        spans,
        0,
        max_end(cues),
        |t: u32| clock_cut(boundaries, length, max_end(cues), t),
    )
    &&& forall|i: int|
        0 <= i < segments.len() ==> tiles(cues, #[trigger] spans[i].0, spans[i].1, segments[i].samples)
}

/// `c` cut down to the part of it inside `[start, end)`.
pub open spec fn clamp(c: CueView, start: u32, end: u32) -> CueView {
    CueView {
        start: if c.start > start { c.start } else { start },
        end: if c.end < end { c.end } else { end },
        text: c.text,
    }
}

/// The cues of `cues` reaching into `[start, end)`, each cut to it, in order.
pub open spec fn sliced(cues: Seq<CueView>, start: u32, end: u32) -> Seq<CueView>
    decreases cues.len(),
{
    if cues.len() == 0 {
        Seq::empty()
    } else {
        let rest = sliced(cues.drop_last(), start, end);
        if reaches(cues.last(), start, end) {
            rest.push(clamp(cues.last(), start, end))
        } else {
            rest
        }
    }
}

impl Subtitle {
    /// When the last cue ends, or 0 for a subtitle without cues.
    pub fn duration(&self) -> (d: u32)
        ensures
            d == max_end(self@),
    {
        latest_end(&self.cues)
    }

    /// The part of this subtitle overlapping `[start, end)`: the cues reaching
    /// into it, each cut to it. `None` for an empty interval.
    pub fn slice(&self, start: u32, end: u32) -> (r: Option<Self>)
        ensures
            start >= end ==> r is None,
            start < end ==> (r matches Some(s) && s@ == sliced(self@, start, end)),
    {
        if start >= end {
            return None;
        }
        let ghost all = self@;
        let mut cues: Vec<Cue> = Vec::new();
        for i in 0..self.cues.len()
            invariant
                all == self@,
                cues_view(cues@) == sliced(all.take(i as int), start, end),
        {
            proof {
                assert(all.take(i + 1).drop_last() =~= all.take(i as int));
            }
            let cue = &self.cues[i];
            if cue.start < end && cue.end > start {
                let ghost before = cues_view(cues@);
                let from = if cue.start > start { cue.start } else { start };
                let to = if cue.end < end { cue.end } else { end };
                cues.push(Cue { start: from, end: to, text: cue.text.clone() });
                proof {
                    assert(cues_view(cues@) =~= before.push(clamp(all[i as int], start, end)));
                }
            }
        }
        proof {
            assert(all.take(self.cues.len() as int) =~= all);
        }
        Some(Subtitle { cues })
    }

    /// Divides the subtitle into text segments ending at each splice point in
    /// `boundaries` and at every multiple of `duration`, each tiled into samples
    /// that change wherever a cue comes or goes. A `duration` of 0 asks for no
    /// grid; a subtitle without cues has no segments.
    pub fn segments(&self, duration: u32, boundaries: &[u32]) -> (segments: Vec<TextSegment>)
        ensures
            segmented(self@, boundaries@, duration, text_segments_view(segments@)),
    {
        let fragments = fragment(self, boundaries, duration);
        let ghost frags = fragments_view(fragments@);
        let ghost e = max_end(self@);
        let mut segments: Vec<TextSegment> = Vec::new();
        for i in 0..fragments.len()
            invariant
                frags == fragments_view(fragments@),
                segments@.len() == i,
                forall|k: int|
                    0 <= k < i ==> (#[trigger] segments@[k])@.start == frags[k].start
                        && segments@[k]@.samples == frags[k].samples,
        {
            let f = &fragments[i];
            let mut samples: Vec<TextSample> = Vec::new();
            for k in 0..f.samples.len()
                invariant
                    samples@.len() == k,
                    forall|j: int| 0 <= j < k ==> (#[trigger] samples@[j])@ == f.samples@[j]@,
            {
                let s = &f.samples[k];
                let mut cues: Vec<Cue> = Vec::new();
                for c in 0..s.cues.len()
                    invariant
                        cues_view(cues@) == cues_view(s.cues@).take(c as int),
                {
                    let ghost before = cues_view(cues@);
                    cues.push(s.cues[c].copy());
                    proof {
                        assert(cues_view(s.cues@)[c as int] == s.cues@[c as int]@);
                        assert(cues_view(s.cues@).take(c + 1) =~= before.push(s.cues@[c as int]@));
                        assert(cues_view(cues@) =~= before.push(s.cues@[c as int]@));
                    }
                }
                proof {
                    assert(cues_view(s.cues@).take(s.cues@.len() as int) =~= cues_view(s.cues@));
                }
                samples.push(TextSample { start: s.start, end: s.end, cues });
            }
            proof {
                assert(text_samples_view(samples@) =~= samples_view(f.samples@));
                assert(frags[i as int] == f@);
            }
            segments.push(TextSegment { start: f.start, samples });
        }
        proof {
            let segs = text_segments_view(segments@);
            let spans = segment_spans(segs, e);
            assert(spans =~= crate::fragmenter::fragment_spans(frags)) by {
                assert forall|k: int| 0 <= k < frags.len() implies #[trigger] spans[k] == (
                    frags[k].start,
                    frags[k].end,
                ) by {
                    assert(segs[k] == segments@[k]@);
                    if k + 1 < frags.len() {
                        assert(segs[k + 1] == segments@[k + 1]@);
                        assert(crate::fragmenter::fragment_spans(frags)[k] == (frags[k].start, frags[k].end));
                        assert(crate::fragmenter::fragment_spans(frags)[k + 1] == (frags[k + 1].start, frags[k + 1].end));
                    } else {
                        assert(crate::fragmenter::fragment_spans(frags).last() == (frags[k].start, frags[k].end));
                    }
                }
            }
            assert forall|i: int| 0 <= i < segs.len() implies tiles(
                self@,
                #[trigger] spans[i].0,
                spans[i].1,
                segs[i].samples,
            ) by {
                assert(segs[i] == segments@[i]@);
                assert(crate::fragmenter::fragment_spans(frags)[i] == (frags[i].start, frags[i].end));
            }
        }
        segments
    }
}


/// The larger of two times.
pub open spec fn later(a: u32, b: u32) -> u32 {
    if a > b { a } else { b }
}

/// The smaller of two times.
pub open spec fn earlier(a: u32, b: u32) -> u32 {
    if a < b { a } else { b }
}

/// Slicing a slice is slicing the intersection of the two intervals, where it
/// is not empty: `[a, b)` then `[c, d)` keeps what `[max(a, c), min(b, d))` keeps,
/// cut alike.
pub proof fn slicing_twice_slices_the_intersection(cues: Seq<CueView>, a: u32, b: u32, c: u32, d: u32)
    requires
        later(a, c) < earlier(b, d),
    ensures
        sliced(sliced(cues, a, b), c, d) == sliced(cues, later(a, c), earlier(b, d)),
    decreases cues.len(),
{
    if cues.len() > 0 {
        slicing_twice_slices_the_intersection(cues.drop_last(), a, b, c, d);
        let rest = sliced(cues.drop_last(), a, b);
        let x = cues.last();
        if reaches(x, a, b) {
            let inner = rest.push(clamp(x, a, b));
            assert(inner.drop_last() =~= rest);
            assert(inner.last() == clamp(x, a, b));
            assert(reaches(clamp(x, a, b), c, d) == reaches(x, later(a, c), earlier(b, d)));
            assert(clamp(clamp(x, a, b), c, d) == clamp(x, later(a, c), earlier(b, d)));
        } else {
            assert(!reaches(x, later(a, c), earlier(b, d)));
        }
    }
}

} // verus!
