//! Tiling a whole subtitle into the samples of a text track, and grouping those
//! samples into fragments.
//!
//! The timeline is cut at every cue edge and every splice point, each interval
//! filled with the texts on screen over it; then consecutive samples are grouped
//! until they reach a minimum length or end at a splice point.

use vstd::prelude::*;

use crate::charseq::{chars_of, string_of};
use crate::fragmenter::{cue_edge, latest_end, lemma_edges_push, on_screen};
use crate::subtitle::{cues_view, max_end, Cue, CueView, Subtitle};
use crate::timeline::{intervals, is_partition, lemma_partition_within};

verus! {

/// One sample: the texts on screen over `[start_ms, end_ms)`. No text means a
/// gap, which the format still spends a sample on.
#[derive(Debug, Clone, PartialEq, Eq)]
pub struct Sample {
    pub start_ms: u64,
    pub end_ms: u64,
    pub texts: Vec<String>,
}

impl Sample {
    /// How long the sample lasts.
    pub fn duration_ms(&self) -> (d: u64)
        requires
            self.start_ms <= self.end_ms,
        ensures
            d == self.end_ms - self.start_ms,
    {
        self.end_ms - self.start_ms
    }
}

/// The texts of a list of strings.
pub open spec fn texts_view(texts: Seq<String>) -> Seq<Seq<char>> {
    texts.map_values(|t: String| t@)
}

/// The texts of a list of cues.
pub open spec fn cue_texts(cues: Seq<CueView>) -> Seq<Seq<char>> {
    cues.map_values(|c: CueView| c.text)
}

/// How many of the leading cues of `cues` start by `t`: the longest prefix
/// whose every cue does.
pub open spec fn admitted(cues: Seq<CueView>, t: u64) -> nat
    decreases cues.len(),
{
    if cues.len() == 0 {
        0
    } else {
        let before = admitted(cues.drop_last(), t);
        if before == cues.len() - 1 && cues.last().start <= t {
            cues.len() as nat
        } else {
            before
        }
    }
}

/// The texts a sample starting at `t` carries: those of the admitted cues still
/// on screen at `t`, in their order. For cues in presentation order the admitted
/// ones are all that start by `t`, and these are the texts on screen at `t`.
pub open spec fn texts_at(cues: Seq<CueView>, t: u64) -> Seq<Seq<char>> {
    cue_texts(on_screen(cues.take(admitted(cues, t) as int), t as u32))
}

/// The spans of a list of samples, read as times a cue counts.
pub open spec fn tile_spans(samples: Seq<Sample>) -> Seq<(u32, u32)> {
    samples.map_values(|s: Sample| (s.start_ms as u32, s.end_ms as u32))
}

/// `samples` tile the subtitle `cues` from 0 to its end: each starts no later
/// than it ends, within the subtitle, cut at every cue edge and every splice
/// point before the end, each carrying the texts on screen.
pub open spec fn tiled(cues: Seq<CueView>, boundaries: Seq<u64>, samples: Seq<Sample>) -> bool {
    let end = max_end(cues);
    &&& forall|i: int| 0 <= i < samples.len() ==> (#[trigger] samples[i]).start_ms <= samples[i].end_ms
        && samples[i].end_ms <= end
    &&& is_partition(
        tile_spans(samples),
        0,
        end,
        |t: u32| cue_edge(cues, t) || (boundaries.contains(t as u64) && t < end),
    )
    &&& forall|i: int|
        0 <= i < samples.len() ==> texts_view((#[trigger] samples[i]).texts@) == texts_at(
            cues,
            samples[i].start_ms,
        )
}

proof fn lemma_admitted(cues: Seq<CueView>, t: u64)
    ensures
        admitted(cues, t) <= cues.len(),
        forall|j: int| 0 <= j < admitted(cues, t) ==> (#[trigger] cues[j]).start <= t,
        admitted(cues, t) < cues.len() ==> cues[admitted(cues, t) as int].start > t,
    decreases cues.len(),
{
    if cues.len() > 0 {
        let d = cues.drop_last();
        lemma_admitted(d, t);
        assert forall|j: int| 0 <= j < admitted(cues, t) implies (#[trigger] cues[j]).start <= t by {
            if j < d.len() {
                assert(d[j] == cues[j]);
            }
        }
        if admitted(cues, t) < cues.len() && admitted(cues, t) < d.len() {
            assert(d[admitted(cues, t) as int] == cues[admitted(cues, t) as int]);
        }
    }
}

/// The texts of the cues among the first `count` of `cues` on screen at `t`.
fn texts_on_screen(cues: &Vec<Cue>, count: usize, t: u32) -> (texts: Vec<String>)
    requires
        count <= cues@.len(),
    ensures
        texts_view(texts@) == cue_texts(on_screen(cues_view(cues@).take(count as int), t)),
{
    let ghost all = cues_view(cues@);
    let mut texts: Vec<String> = Vec::new();
    for i in 0..count
        invariant
            count <= cues@.len(),
            all == cues_view(cues@),
            texts_view(texts@) == cue_texts(on_screen(all.take(i as int), t)),
    {
        proof {
            assert(all.take(i + 1).drop_last() =~= all.take(i as int));
        }
        if cues[i].start <= t && t < cues[i].end {
            let ghost before = texts_view(texts@);
            let text = chars_of(cues[i].text.as_str());
            texts.push(string_of(text.as_slice()));
            proof {
                assert(texts_view(texts@) =~= before.push(all[i as int].text));
                assert(cue_texts(on_screen(all.take(i + 1), t)) =~= cue_texts(
                    on_screen(all.take(i as int), t),
                ).push(all[i as int].text));
            }
        }
    }
    texts
}

/// Cuts the timeline at every cue edge and every splice point before the end,
/// then fills each interval with the texts of the cues on screen over it. Cues
/// are admitted in order as their start comes up, so for a subtitle in
/// presentation order these are exactly the texts on screen.
pub fn tile(subtitle: &Subtitle, boundaries_ms: &[u64]) -> (samples: Vec<Sample>)
    ensures
        tiled(subtitle@, boundaries_ms@, samples@),
{
    let ghost cues = subtitle@;
    let end = latest_end(&subtitle.cues);
    let mut edges: Vec<u32> = Vec::new();
    for i in 0..subtitle.cues.len()
        invariant
            cues == subtitle@,
            forall|t: u32| #[trigger] edges@.contains(t) <==> cue_edge(cues.take(i as int), t),
    {
        let ghost before = edges@;
        edges.push(subtitle.cues[i].start);
        edges.push(subtitle.cues[i].end);
        proof {
            assert(cues.take(i + 1) =~= cues.take(i as int).push(cues[i as int]));
            assert(edges@ =~= before.push(cues[i as int].start).push(cues[i as int].end));
            lemma_edges_push(cues.take(i as int), before, cues[i as int]);
        }
    }
    proof {
        assert(cues.take(subtitle.cues@.len() as int) =~= cues);
    }
    let ghost cue_edges = edges@;
    let mut cuts = edges;
    for k in 0..boundaries_ms.len()
        invariant
            forall|t: u32|
                #[trigger] cuts@.contains(t) <==> (cue_edges.contains(t) || (
                boundaries_ms@.take(k as int).contains(t as u64) && t < end)),
    {
        let ghost before = cuts@;
        let b = boundaries_ms[k];
        if b < end as u64 {
            cuts.push(b as u32);
        }
        proof {
            let now = boundaries_ms@.take(k + 1);
            assert(now =~= boundaries_ms@.take(k as int).push(b));
            assert forall|t: u32| #[trigger] cuts@.contains(t) <==> (cue_edges.contains(t) || (
            now.contains(t as u64) && t < end)) by {
                if cuts@.contains(t) && !before.contains(t) {
                    assert(cuts@.last() == t);
                    assert(now[k as int] == b);
                }
                if now.contains(t as u64) && t < end {
                    let j = choose|j: int| 0 <= j < now.len() && now[j] == t as u64;
                    if j < k {
                        assert(boundaries_ms@.take(k as int)[j] == t as u64);
                    } else {
                        assert(cuts@.last() == t);
                    }
                }
                if before.contains(t) {
                    let j = choose|j: int| 0 <= j < before.len() && before[j] == t;
                    assert(cuts@[j] == t);
                }
                if boundaries_ms@.take(k as int).contains(t as u64) {
                    let j = choose|j: int| 0 <= j < k && boundaries_ms@.take(k as int)[j] == t as u64;
                    assert(now[j] == t as u64);
                }
            }
        }
    }
    proof {
        assert(boundaries_ms@.take(boundaries_ms@.len() as int) =~= boundaries_ms@);
    }
    let spans = intervals(0, end, cuts.as_slice());
    let ghost cut = |t: u32| cuts@.contains(t);
    let ghost want = |t: u32| cue_edge(cues, t) || (boundaries_ms@.contains(t as u64) && t < end);
    proof {
        assert(cut =~= want);
        lemma_partition_within(spans@, 0, end, cut);
    }
    let mut samples: Vec<Sample> = Vec::new();
    let mut next: usize = 0;
    for w in 0..spans.len()
        invariant
            cues == subtitle@,
            end == max_end(cues),
            samples@.len() == w,
            forall|k: int| 0 <= k < spans@.len() ==> 0 <= #[trigger] spans@[k].0 && spans@[k].1 <= end
                && spans@[k].0 < spans@[k].1,
            forall|k: int| 0 <= k < spans@.len() - 1 ==> #[trigger] spans@[k].1 == spans@[k + 1].0,
            w > 0 ==> next == admitted(cues, spans@[w - 1].0 as u64),
            w == 0 ==> next == 0,
            next <= cues.len(),
            forall|k: int|
                0 <= k < w ==> (#[trigger] samples@[k]).start_ms == spans@[k].0 && samples@[k].end_ms
                    == spans@[k].1 && texts_view(samples@[k].texts@) == texts_at(cues, samples@[k].start_ms),
    {
        let (start, stop) = spans[w];
        proof {
            lemma_admitted(cues, start as u64);
            if w > 0 {
                lemma_admitted(cues, spans@[w - 1].0 as u64);
                assert(spans@[w - 1].0 < spans@[w - 1].1 == start);
            }
            assert forall|j: int| 0 <= j < next implies (#[trigger] cues[j]).start <= start by {
                if w > 0 {
                    assert(cues[j].start <= spans@[w - 1].0);
                }
            }
        }
        while next < subtitle.cues.len() && subtitle.cues[next].start <= start
            invariant
                cues == subtitle@,
                next <= cues.len(),
                forall|j: int| 0 <= j < next ==> (#[trigger] cues[j]).start <= start,
                next <= admitted(cues, start as u64),
                admitted(cues, start as u64) <= cues.len(),
                admitted(cues, start as u64) < cues.len() ==> cues[admitted(cues, start as u64) as int].start
                    > start,
                forall|j: int| 0 <= j < admitted(cues, start as u64) ==> (#[trigger] cues[j]).start <= start,
            decreases cues.len() - next,
        {
            next = next + 1;
        }
        proof {
            if next < admitted(cues, start as u64) {
                assert(cues[next as int].start <= start);
            }
        }
        let texts = texts_on_screen(&subtitle.cues, next, start);
        samples.push(Sample { start_ms: start as u64, end_ms: stop as u64, texts });
    }
    proof {
        assert(tile_spans(samples@) =~= spans@);
    }
    samples
}

/// The sum of the durations of `samples[from..to]`.
pub open spec fn duration_between(samples: Seq<Sample>, from: int, to: int) -> int
    decreases to - from,
{
    if to <= from {
        0
    } else {
        duration_between(samples, from, to - 1) + (samples[to - 1].end_ms - samples[to - 1].start_ms)
    }
}

/// A group starting at sample `from` may close after sample `i`: the samples from
/// `from` through `i` reach `min`, sample `i` ends at a splice point, or it is the
/// last.
pub open spec fn closes(samples: Seq<Sample>, splices: Seq<u64>, min: u64, from: int, i: int) -> bool {
    ||| duration_between(samples, from, i + 1) >= min
    ||| splices.contains(samples[i].end_ms)
    ||| i == samples.len() - 1
}

/// `groups` cut `samples` into consecutive, non-empty ranges `[from, to)`, each
/// closing at the first sample after `from` that lets it.
pub open spec fn grouped(samples: Seq<Sample>, splices: Seq<u64>, min: u64, groups: Seq<(usize, usize)>) -> bool {
    &&& samples.len() == 0 ==> groups.len() == 0
    &&& samples.len() > 0 ==> groups.len() > 0 && groups[0].0 == 0 && groups.last().1 == samples.len()
    &&& forall|k: int| 0 <= k < groups.len() - 1 ==> (#[trigger] groups[k]).1 == groups[k + 1].0
    &&& forall|k: int|
        0 <= k < groups.len() ==> (#[trigger] groups[k]).0 < groups[k].1 && closes(
            samples,
            splices,
            min,
            groups[k].0 as int,
            groups[k].1 - 1,
        ) && forall|i: int|
            groups[k].0 <= i < groups[k].1 - 1 ==> !closes(samples, splices, min, groups[k].0 as int, i)
}

/// Groups consecutive samples into fragments: a group closes once it lasts at
/// least `min_segment_length_ms`, at a sample ending on a splice point, or at the
/// last sample. Each group is the range `(from, to)` of its samples.
pub fn group(samples: &[Sample], boundaries_ms: &[u64], min_segment_length_ms: u64) -> (groups: Vec<(usize, usize)>)
    requires
        forall|i: int| 0 <= i < samples@.len() ==> (#[trigger] samples@[i]).start_ms <= samples@[i].end_ms,
    ensures
        grouped(samples@, boundaries_ms@, min_segment_length_ms, groups@),
{
    let mut groups: Vec<(usize, usize)> = Vec::new();
    let mut start: usize = 0;
    let mut duration: u64 = 0;
    for index in 0..samples.len()
        invariant
            forall|i: int| 0 <= i < samples@.len() ==> (#[trigger] samples@[i]).start_ms <= samples@[i].end_ms,
            start <= index,
            start < index ==> index < samples@.len(),
            duration == duration_between(samples@, start as int, index as int),
            forall|i: int| start <= i < index ==> !closes(samples@, boundaries_ms@, min_segment_length_ms, start as int, i),
            index == 0 ==> groups@.len() == 0 && start == 0,
            index > 0 ==> groups@.len() > 0 && groups@.last().1 == start || groups@.len() == 0 && start == 0,
            groups@.len() > 0 ==> groups@[0].0 == 0,
            forall|k: int| 0 <= k < groups@.len() - 1 ==> (#[trigger] groups@[k]).1 == groups@[k + 1].0,
            forall|k: int|
                0 <= k < groups@.len() ==> (#[trigger] groups@[k]).0 < groups@[k].1 && closes(
                    samples@,
                    boundaries_ms@,
                    min_segment_length_ms,
                    groups@[k].0 as int,
                    groups@[k].1 - 1,
                ) && forall|i: int|
                    groups@[k].0 <= i < groups@[k].1 - 1 ==> !closes(
                        samples@,
                        boundaries_ms@,
                        min_segment_length_ms,
                        groups@[k].0 as int,
                        i,
                    ),
    {
        proof {
            assert(duration_between(samples@, start as int, index + 1) == duration + (
            samples@[index as int].end_ms - samples@[index as int].start_ms));
        }
        // A sum past `u64::MAX` is past any minimum, so saturating keeps the
        // decision and the group closes here.
        duration = duration.saturating_add(samples[index].duration_ms());
        let long_enough = duration >= min_segment_length_ms;
        proof {
            assert(long_enough == (duration_between(samples@, start as int, index + 1) >= min_segment_length_ms));
        }
        let mut at_splice = false;
        for b in 0..boundaries_ms.len()
            invariant
                at_splice == boundaries_ms@.take(b as int).contains(samples@[index as int].end_ms),
                index < samples@.len(),
        {
            let ghost prefix = boundaries_ms@.take(b as int);
            let ghost next_prefix = boundaries_ms@.take(b + 1);
            let ghost wanted = samples@[index as int].end_ms;
            proof {
                assert(next_prefix =~= prefix.push(boundaries_ms@[b as int]));
                if prefix.contains(wanted) {
                    let j = choose|j: int| 0 <= j < prefix.len() && prefix[j] == wanted;
                    assert(next_prefix[j] == wanted);
                }
                if next_prefix.contains(wanted) && boundaries_ms@[b as int] != wanted {
                    let j = choose|j: int| 0 <= j < next_prefix.len() && next_prefix[j] == wanted;
                    assert(j < b);
                    assert(prefix[j] == wanted);
                }
                if boundaries_ms@[b as int] == wanted {
                    assert(next_prefix[b as int] == wanted);
                }
            }
            if boundaries_ms[b] == samples[index].end_ms {
                at_splice = true;
            }
        }
        proof {
            assert(boundaries_ms@.take(boundaries_ms@.len() as int) =~= boundaries_ms@);
        }
        if long_enough || at_splice || index + 1 == samples.len() {
            let ghost before = groups@;
            groups.push((start, index + 1));
            proof {
                assert(closes(samples@, boundaries_ms@, min_segment_length_ms, start as int, index as int));
                assert forall|k: int| 0 <= k < groups@.len() - 1 implies (#[trigger] groups@[k]).1 == groups@[k + 1].0 by {
                    if k < before.len() - 1 {
                        assert(groups@[k] == before[k] && groups@[k + 1] == before[k + 1]);
                    } else {
                        assert(groups@[k] == before[k]);
                    }
                }
                assert forall|k: int| 0 <= k < groups@.len() implies (#[trigger] groups@[k]).0 < groups@[k].1 && closes(
                    samples@,
                    boundaries_ms@,
                    min_segment_length_ms,
                    groups@[k].0 as int,
                    groups@[k].1 - 1,
                ) && forall|i: int|
                    groups@[k].0 <= i < groups@[k].1 - 1 ==> !closes(
                        samples@,
                        boundaries_ms@,
                        min_segment_length_ms,
                        groups@[k].0 as int,
                        i,
                    ) by {
                    if k < before.len() {
                        assert(groups@[k] == before[k]);
                    }
                }
            }
            start = index + 1;
            duration = 0;
        } else {
            proof {
                assert(!closes(samples@, boundaries_ms@, min_segment_length_ms, start as int, index as int));
            }
        }
    }
    groups
}

} // verus!
