//! Dividing a [`Subtitle`] into the fragments a CMAF text track is built from,
//! and joining those fragments back into one.
//!
//! Every time here is a millisecond, as on [`Cue`].

use vstd::prelude::*;

use crate::subtitle::{cues_view, max_end, sort_by_span, sort_cues, Cue, CueView, Subtitle};
use crate::timeline::{grid, intervals, is_partition, lemma_partition_within, on_grid};

verus! {

/// What a sample is: its span and the cues on screen over it.
pub struct SampleView {
    pub start: u32,
    pub end: u32,
    pub cues: Seq<CueView>,
}

/// The cues on screen over `[start, end)`, in presentation order, or none where
/// nothing is.
#[derive(Debug, Clone, PartialEq, Eq)]
pub struct Sample {
    pub start: u32,
    pub end: u32,
    pub cues: Vec<Cue>,
}

impl View for Sample {
    type V = SampleView;

    open spec fn view(&self) -> SampleView {
        SampleView { start: self.start, end: self.end, cues: cues_view(self.cues@) }
    }
}

impl Sample {
    /// How long the sample lasts.
    pub fn duration(&self) -> (d: u32)
        requires
            self.start <= self.end,
        ensures
            d == self.end - self.start,
    {
        self.end - self.start
    }
}

/// What a fragment is: its span and the samples covering it.
pub struct FragmentView {
    pub start: u32,
    pub end: u32,
    pub samples: Seq<SampleView>,
}

/// Consecutive samples covering `[start, end)` without holes.
#[derive(Debug, Clone, PartialEq, Eq)]
pub struct Fragment {
    pub start: u32,
    pub end: u32,
    pub samples: Vec<Sample>,
}

/// The views of a list of samples.
pub open spec fn samples_view(samples: Seq<Sample>) -> Seq<SampleView> {
    samples.map_values(|s: Sample| s@)
}

/// The views of a list of fragments.
pub open spec fn fragments_view(fragments: Seq<Fragment>) -> Seq<FragmentView> {
    fragments.map_values(|f: Fragment| f@)
}

impl View for Fragment {
    type V = FragmentView;

    open spec fn view(&self) -> FragmentView {
        FragmentView { start: self.start, end: self.end, samples: samples_view(self.samples@) }
    }
}

impl Fragment {
    /// How long the fragment lasts.
    pub fn duration(&self) -> (d: u32)
        requires
            self.start <= self.end,
        ensures
            d == self.end - self.start,
    {
        self.end - self.start
    }
}

/// `c` is on screen at `t`.
pub open spec fn covers(c: CueView, t: u32) -> bool {
    c.start <= t && t < c.end
}

/// The cues of `cues` on screen at `t`, in order.
pub open spec fn on_screen(cues: Seq<CueView>, t: u32) -> Seq<CueView>
    decreases cues.len(),
{
    if cues.len() == 0 {
        Seq::empty()
    } else {
        let rest = on_screen(cues.drop_last(), t);
        if covers(cues.last(), t) {
            rest.push(cues.last())
        } else {
            rest
        }
    }
}

/// `c` is on screen at some time in `[start, end)`.
pub open spec fn reaches(c: CueView, start: u32, end: u32) -> bool {
    c.start < end && c.end > start
}

/// The cues of `cues` on screen at some time in `[start, end)`, in order.
pub open spec fn reaching(cues: Seq<CueView>, start: u32, end: u32) -> Seq<CueView>
    decreases cues.len(),
{
    if cues.len() == 0 {
        Seq::empty()
    } else {
        let rest = reaching(cues.drop_last(), start, end);
        if reaches(cues.last(), start, end) {
            rest.push(cues.last())
        } else {
            rest
        }
    }
}

/// Cue `i` of `cues` comes or goes at `t`.
pub open spec fn edge_at(cues: Seq<CueView>, i: int, t: u32) -> bool {
    0 <= i < cues.len() && (cues[i].start == t || cues[i].end == t)
}

/// `t` is where one of `cues` comes or goes.
pub open spec fn cue_edge(cues: Seq<CueView>, t: u32) -> bool {
    exists|i: int| #[trigger] edge_at(cues, i, t)
}

/// The spans of a list of samples.
pub open spec fn sample_spans(samples: Seq<SampleView>) -> Seq<(u32, u32)> {
    samples.map_values(|s: SampleView| (s.start, s.end))
}

/// The spans of a list of fragments.
pub open spec fn fragment_spans(fragments: Seq<FragmentView>) -> Seq<(u32, u32)> {
    fragments.map_values(|f: FragmentView| (f.start, f.end))
}

/// `samples` tile `[start, end)` for `cues`: they are cut wherever a cue reaching
/// into the interval comes or goes, and each holds the cues on screen over it.
pub open spec fn tiles(cues: Seq<CueView>, start: u32, end: u32, samples: Seq<SampleView>) -> bool {
    &&& is_partition(
        sample_spans(samples),
        start,
        end,
        |t: u32| cue_edge(reaching(cues, start, end), t),
    )
    &&& forall|i: int|
        0 <= i < samples.len() ==> (#[trigger] samples[i]).cues == on_screen(cues, samples[i].start)
}

/// A time the asset's clock divides at: a splice point, or a multiple of `length`
/// before the end of the track.
pub open spec fn clock_cut(boundaries: Seq<u32>, length: u32, end: u32, t: u32) -> bool {
    boundaries.contains(t) || (on_grid(length, t) && t < end)
}

/// `fragments` are the division of `cues` at the splice points in `boundaries`
/// and the grid of `length`: they run back to back from 0 to the end of the last
/// cue, end at exactly those times, and each is tiled by its samples.
pub open spec fn divides(
    cues: Seq<CueView>,
    boundaries: Seq<u32>,
    length: u32,
    fragments: Seq<FragmentView>,
) -> bool {
    &&& is_partition(
        fragment_spans(fragments),
        0,
        max_end(cues),
        |t: u32| clock_cut(boundaries, length, max_end(cues), t),
    )
    &&& forall|i: int|
        0 <= i < fragments.len() ==> tiles(
            cues,
            #[trigger] fragments[i].start,
            fragments[i].end,
            fragments[i].samples,
        )
}

pub(crate) proof fn lemma_on_screen_of_reaching(cues: Seq<CueView>, start: u32, end: u32, t: u32)
    requires
        start <= t < end,
    ensures
        on_screen(reaching(cues, start, end), t) == on_screen(cues, t),
    decreases cues.len(),
{
    if cues.len() > 0 {
        lemma_on_screen_of_reaching(cues.drop_last(), start, end, t);
        let rest = reaching(cues.drop_last(), start, end);
        assert(rest.push(cues.last()).drop_last() =~= rest);
    }
}

pub(crate) proof fn lemma_edges_push(found: Seq<CueView>, edges: Seq<u32>, c: CueView)
    requires
        forall|t: u32| #[trigger] edges.contains(t) <==> cue_edge(found, t),
    ensures
        forall|t: u32|
            #[trigger] edges.push(c.start).push(c.end).contains(t) <==> cue_edge(found.push(c), t),
{
    let now = found.push(c);
    let more = edges.push(c.start).push(c.end);
    assert forall|t: u32| #[trigger] more.contains(t) <==> cue_edge(now, t) by {
        if more.contains(t) {
            let k = choose|k: int| 0 <= k < more.len() && more[k] == t;
            if k < edges.len() {
                assert(edges[k] == t);
                assert(edges.contains(t));
                assert(cue_edge(found, t));
                let m = choose|m: int| edge_at(found, m, t);
                assert(0 <= m < found.len());
                assert(now[m] == found[m]);
                assert(edge_at(now, m, t));
            } else {
                assert(edge_at(now, now.len() - 1, t));
            }
        }
        if cue_edge(now, t) {
            let m = choose|m: int| edge_at(now, m, t);
            if m < found.len() {
                assert(found[m] == now[m]);
                assert(edge_at(found, m, t));
                assert(cue_edge(found, t));
                assert(edges.contains(t));
                let k = choose|k: int| 0 <= k < edges.len() && edges[k] == t;
                assert(more[k] == t);
            } else if now[m].start == t {
                assert(more[more.len() - 2] == t);
            } else {
                assert(more[more.len() - 1] == t);
            }
        }
    }
}

pub(crate) fn latest_end(cues: &Vec<Cue>) -> (end: u32)
    ensures
        end == max_end(cues_view(cues@)),
{
    let ghost all = cues_view(cues@);
    let mut end: u32 = 0;
    for i in 0..cues.len()
        invariant
            all == cues_view(cues@),
            end == max_end(all.take(i as int)),
    {
        proof {
            assert(all.take(i + 1).drop_last() =~= all.take(i as int));
        }
        if cues[i].end > end {
            end = cues[i].end;
        }
    }
    proof {
        assert(all.take(cues.len() as int) =~= all);
    }
    end
}

/// The cues of `cues` reaching into `[start, end)`, copied, and every time one of
/// them comes or goes.
fn reaching_cues(cues: &Vec<Cue>, start: u32, end: u32) -> (r: (Vec<Cue>, Vec<u32>))
    ensures
        cues_view(r.0@) == reaching(cues_view(cues@), start, end),
        forall|t: u32| #[trigger] r.1@.contains(t) <==> cue_edge(cues_view(r.0@), t),
{
    let ghost all = cues_view(cues@);
    let mut found: Vec<Cue> = Vec::new();
    let mut edges: Vec<u32> = Vec::new();
    for i in 0..cues.len()
        invariant
            all == cues_view(cues@),
            cues_view(found@) == reaching(all.take(i as int), start, end),
            forall|t: u32| #[trigger] edges@.contains(t) <==> cue_edge(cues_view(found@), t),
    {
        proof {
            assert(all.take(i + 1).drop_last() =~= all.take(i as int));
        }
        let c = &cues[i];
        if c.start < end && c.end > start {
            let ghost before_found = cues_view(found@);
            let ghost before_edges = edges@;
            found.push(c.copy());
            edges.push(c.start);
            edges.push(c.end);
            proof {
                assert(cues_view(found@) =~= before_found.push(all[i as int]));
                assert(edges@ =~= before_edges.push(all[i as int].start).push(all[i as int].end));
                lemma_edges_push(before_found, before_edges, all[i as int]);
            }
        }
    }
    proof {
        assert(all.take(cues.len() as int) =~= all);
    }
    (found, edges)
}

/// The copies of the cues in `cues` on screen at `t`.
fn cues_on_screen(cues: &Vec<Cue>, t: u32) -> (r: Vec<Cue>)
    ensures
        cues_view(r@) == on_screen(cues_view(cues@), t),
{
    let ghost all = cues_view(cues@);
    let mut r: Vec<Cue> = Vec::new();
    for i in 0..cues.len()
        invariant
            all == cues_view(cues@),
            cues_view(r@) == on_screen(all.take(i as int), t),
    {
        proof {
            assert(all.take(i + 1).drop_last() =~= all.take(i as int));
        }
        if cues[i].start <= t && t < cues[i].end {
            let ghost before = cues_view(r@);
            r.push(cues[i].copy());
            proof {
                assert(cues_view(r@) =~= before.push(all[i as int]));
            }
        }
    }
    proof {
        assert(all.take(cues.len() as int) =~= all);
    }
    r
}

/// The samples tiling `[start, end)`: the cues reaching into it, cut wherever one
/// comes or goes.
fn samples(subtitle: &Subtitle, start: u32, end: u32) -> (r: Vec<Sample>)
    requires
        start <= end,
    ensures
        tiles(subtitle@, start, end, samples_view(r@)),
{
    let (found, edges) = reaching_cues(&subtitle.cues, start, end);
    let spans = intervals(start, end, edges.as_slice());
    let ghost cut = |t: u32| edges@.contains(t);
    let ghost want = |t: u32| cue_edge(reaching(subtitle@, start, end), t);
    proof {
        assert(cut =~= want);
        lemma_partition_within(spans@, start, end, cut);
    }
    let mut r: Vec<Sample> = Vec::new();
    for i in 0..spans.len()
        invariant
            r@.len() == i,
            forall|k: int| 0 <= k < spans@.len() ==> start <= #[trigger] spans@[k].0 && spans@[k].1 <= end
                && spans@[k].0 < spans@[k].1,
            cues_view(found@) == reaching(subtitle@, start, end),
            forall|k: int|
                0 <= k < i ==> (#[trigger] r@[k]).start == spans@[k].0 && r@[k].end == spans@[k].1
                    && cues_view(r@[k].cues@) == on_screen(subtitle@, spans@[k].0),
    {
        let (a, b) = spans[i];
        let cues = cues_on_screen(&found, a);
        proof {
            lemma_on_screen_of_reaching(subtitle@, start, end, a);
        }
        r.push(Sample { start: a, end: b, cues });
    }
    proof {
        assert(sample_spans(samples_view(r@)) =~= spans@);
    }
    r
}

/// Divides `subtitle` into fragments ending at each splice point in `boundaries`
/// and at every multiple of `length`, tiling each into samples. A `length` of 0
/// asks for no grid, leaving the splice points as the only divisions.
///
/// The fragments run back to back from 0 to the end of the last cue, so a
/// subtitle with no cues has nothing to divide and yields none at all.
pub fn fragment(subtitle: &Subtitle, boundaries: &[u32], length: u32) -> (fragments: Vec<Fragment>)
    ensures
        divides(subtitle@, boundaries@, length, fragments_view(fragments@)),
{
    let end = latest_end(&subtitle.cues);
    let mut clock: Vec<u32> = Vec::new();
    for i in 0..boundaries.len()
        invariant
            clock@ == boundaries@.take(i as int),
    {
        clock.push(boundaries[i]);
        proof {
            assert(clock@ =~= boundaries@.take(i + 1));
        }
    }
    proof {
        assert(clock@ =~= boundaries@);
    }
    let on_the_grid = grid(length, end);
    let ghost from_boundaries = clock@;
    for i in 0..on_the_grid.len()
        invariant
            clock@ == from_boundaries + on_the_grid@.take(i as int),
    {
        clock.push(on_the_grid[i]);
        proof {
            assert(clock@ =~= from_boundaries + on_the_grid@.take(i + 1));
        }
    }
    proof {
        assert(on_the_grid@.take(on_the_grid@.len() as int) =~= on_the_grid@);
    }
    let spans = intervals(0, end, clock.as_slice());
    let ghost cut = |t: u32| clock@.contains(t);
    let ghost want = |t: u32| clock_cut(boundaries@, length, max_end(subtitle@), t);
    proof {
        assert forall|t: u32| #[trigger] cut(t) == want(t) by {
            if clock@.contains(t) {
                let k = choose|k: int| 0 <= k < clock@.len() && clock@[k] == t;
                if k < boundaries@.len() {
                    assert(boundaries@[k] == t);
                } else {
                    assert(on_the_grid@[k - boundaries@.len()] == t);
                    assert(on_the_grid@.contains(t));
                }
            }
            if boundaries@.contains(t) {
                let k = choose|k: int| 0 <= k < boundaries@.len() && boundaries@[k] == t;
                assert(clock@[k] == t);
            }
            if on_grid(length, t) && t < end {
                assert(on_the_grid@.contains(t));
                let k = choose|k: int| 0 <= k < on_the_grid@.len() && on_the_grid@[k] == t;
                assert(clock@[boundaries@.len() + k] == t);
            }
        }
        assert(cut =~= want);
        lemma_partition_within(spans@, 0, end, cut);
    }
    let mut fragments: Vec<Fragment> = Vec::new();
    for i in 0..spans.len()
        invariant
            fragments@.len() == i,
            forall|k: int| 0 <= k < spans@.len() ==> 0 <= #[trigger] spans@[k].0 && spans@[k].1 <= end
                && spans@[k].0 < spans@[k].1,
            forall|k: int|
                0 <= k < i ==> (#[trigger] fragments@[k]).start == spans@[k].0 && fragments@[k].end
                    == spans@[k].1 && tiles(
                    subtitle@,
                    fragments@[k].start,
                    fragments@[k].end,
                    samples_view(fragments@[k].samples@),
                ),
    {
        let (a, b) = spans[i];
        let samples = samples(subtitle, a, b);
        fragments.push(Fragment { start: a, end: b, samples });
    }
    proof {
        assert(fragment_spans(fragments_view(fragments@)) =~= spans@);
        assert forall|i: int| 0 <= i < fragments@.len() implies tiles(
            subtitle@,
            #[trigger] fragments_view(fragments@)[i].start,
            fragments_view(fragments@)[i].end,
            fragments_view(fragments@)[i].samples,
        ) by {
            assert(fragments_view(fragments@)[i] == fragments@[i]@);
        }
    }
    fragments
}

/// The first of the cue indices in `open` that `cues` ends at `start` with `text`:
/// the cue a sample starting then continues.
pub open spec fn carried(cues: Seq<CueView>, open: Seq<int>, start: u32, text: Seq<char>) -> Option<
    int,
>
    decreases open.len(),
{
    if open.len() == 0 {
        None
    } else if 0 <= open[0] < cues.len() && cues[open[0]].end == start && cues[open[0]].text
        == text {
        Some(open[0])
    } else {
        carried(cues, open.drop_first(), start, text)
    }
}

/// Reads the cues `shown` of one sample spanning `[start, end)` into `cues`: each
/// continues the cue it carries over from `open`, or starts a new one. Yields the
/// cues and the indices of those the sample leaves on screen.
pub open spec fn absorb(
    cues: Seq<CueView>,
    open: Seq<int>,
    start: u32,
    end: u32,
    shown: Seq<CueView>,
) -> (Seq<CueView>, Seq<int>)
    decreases shown.len(),
{
    if shown.len() == 0 {
        (cues, Seq::empty())
    } else {
        let (now, still) = absorb(cues, open, start, end, shown.drop_last());
        let cue = shown.last();
        match carried(now, open, start, cue.text) {
            Some(o) => (now.update(o, CueView { end, ..now[o] }), still.push(o)),
            None => (now.push(CueView { start, end, text: cue.text }), still.push(now.len() as int)),
        }
    }
}

/// The cues read out of `samples` in order, and those the last leaves on screen.
pub open spec fn read_samples(samples: Seq<SampleView>) -> (Seq<CueView>, Seq<int>)
    decreases samples.len(),
{
    if samples.len() == 0 {
        (Seq::empty(), Seq::empty())
    } else {
        let (cues, open) = read_samples(samples.drop_last());
        let s = samples.last();
        absorb(cues, open, s.start, s.end, s.cues)
    }
}

/// Every sample of `fragments`, in order.
pub open spec fn all_samples(fragments: Seq<FragmentView>) -> Seq<SampleView>
    decreases fragments.len(),
{
    if fragments.len() == 0 {
        Seq::empty()
    } else {
        all_samples(fragments.drop_last()) + fragments.last().samples
    }
}

/// The cues `fragments` carry: each run of consecutive samples showing the same
/// content becomes one cue spanning them, sorted by `(start, end)`.
pub open spec fn merge_spec(fragments: Seq<FragmentView>) -> Seq<CueView> {
    sort_by_span(read_samples(all_samples(fragments)).0)
}

/// The view of a list of cue indices.
pub open spec fn indices_view(open: Seq<usize>) -> Seq<int> {
    open.map_values(|o: usize| o as int)
}

fn find_carried(cues: &Vec<Cue>, open: &Vec<usize>, start: u32, cue: &Cue) -> (r: Option<usize>)
    ensures
        r matches Some(x) ==> x < cues@.len() && carried(
            cues_view(cues@),
            indices_view(open@),
            start,
            cue.text@,
        ) == Some(x as int),
        r is None ==> carried(cues_view(cues@), indices_view(open@), start, cue.text@) is None,
{
    let ghost all = cues_view(cues@);
    let ghost idx = indices_view(open@);
    let mut j: usize = 0;
    proof {
        assert(idx.skip(0) =~= idx);
    }
    while j < open.len()
        invariant
            j <= open@.len(),
            all == cues_view(cues@),
            idx == indices_view(open@),
            carried(all, idx, start, cue.text@) == carried(all, idx.skip(j as int), start, cue.text@),
        decreases open@.len() - j,
    {
        let o = open[j];
        proof {
            assert(idx.skip(j as int)[0] == o as int);
            assert(idx.skip(j as int).drop_first() =~= idx.skip(j + 1));
        }
        if o < cues.len() && cues[o].end == start && cues[o].same_content(cue) {
            return Some(o);
        }
        j = j + 1;
    }
    None
}

pub(crate) fn absorb_sample(cues: &mut Vec<Cue>, open: &Vec<usize>, sample: &Sample) -> (still: Vec<usize>)
    ensures
        (cues_view(final(cues)@), indices_view(still@)) == absorb(
            cues_view(old(cues)@),
            indices_view(open@),
            sample.start,
            sample.end,
            cues_view(sample.cues@),
        ),
{
    let ghost shown = cues_view(sample.cues@);
    let ghost initial = cues_view(cues@);
    let mut still: Vec<usize> = Vec::new();
    for k in 0..sample.cues.len()
        invariant
            shown == cues_view(sample.cues@),
            (cues_view(cues@), indices_view(still@)) == absorb(
                initial,
                indices_view(open@),
                sample.start,
                sample.end,
                shown.take(k as int),
            ),
    {
        proof {
            assert(shown.take(k + 1).drop_last() =~= shown.take(k as int));
        }
        let cue = &sample.cues[k];
        proof {
            assert(shown.take(k + 1).last() == cue@);
        }
        let ghost before_cues = cues_view(cues@);
        let ghost before_still = indices_view(still@);
        let ghost want = absorb(
            initial,
            indices_view(open@),
            sample.start,
            sample.end,
            shown.take(k + 1),
        );
        proof {
            let step = carried(before_cues, indices_view(open@), sample.start, cue.text@);
            assert(want == match step {
                Some(o) => (
                    before_cues.update(o, CueView { end: sample.end, ..before_cues[o] }),
                    before_still.push(o),
                ),
                None => (
                    before_cues.push(CueView { start: sample.start, end: sample.end, text: cue.text@ }),
                    before_still.push(before_cues.len() as int),
                ),
            });
        }
        match find_carried(cues, open, sample.start, cue) {
            Some(o) => {
                proof {
                    assert(carried(before_cues, indices_view(open@), sample.start, cue.text@) == Some(
                        o as int,
                    ));
                }
                let mut continued = cues[o].copy();
                continued.end = sample.end;
                cues.set(o, continued);
                still.push(o);
                proof {
                    assert(cues_view(cues@) =~= before_cues.update(
                        o as int,
                        CueView { end: sample.end, ..before_cues[o as int] },
                    ));
                    assert(indices_view(still@) =~= before_still.push(o as int));
                    assert((cues_view(cues@), indices_view(still@)) == want);
                }
            },
            None => {
                cues.push(Cue { start: sample.start, end: sample.end, text: cue.text.clone() });
                let last = cues.len() - 1;
                still.push(last);
                proof {
                    assert(cues_view(cues@) =~= before_cues.push(
                        CueView { start: sample.start, end: sample.end, text: cue.text@ },
                    ));
                    assert(indices_view(still@) =~= before_still.push(before_cues.len() as int));
                    assert((cues_view(cues@), indices_view(still@)) == want);
                }
            },
        }
    }
    proof {
        assert(shown.take(sample.cues@.len() as int) =~= shown);
    }
    still
}

/// The cues `fragments` carry, in presentation order: the inverse of [`fragment`].
///
/// A cue outlasting a sample appears in every one it covers, so each is followed
/// across consecutive samples, across fragment edges too, and the run it forms
/// becomes one cue spanning them all. Two cues carrying the same content back to
/// back merge into one spanning both.
pub fn merge(fragments: &[Fragment]) -> (subtitle: Subtitle)
    ensures
        subtitle@ == merge_spec(fragments_view(fragments@)),
{
    let ghost frags = fragments_view(fragments@);
    let mut cues: Vec<Cue> = Vec::new();
    let mut open: Vec<usize> = Vec::new();
    proof {
        assert(cues_view(cues@) =~= Seq::<CueView>::empty());
        assert(indices_view(open@) =~= Seq::<int>::empty());
        assert(frags.take(0) =~= Seq::<FragmentView>::empty());
    }
    for f in 0..fragments.len()
        invariant
            frags == fragments_view(fragments@),
            (cues_view(cues@), indices_view(open@)) == read_samples(all_samples(frags.take(f as int))),
    {
        let fragment = &fragments[f];
        let ghost done = all_samples(frags.take(f as int));
        let ghost here = samples_view(fragment.samples@);
        proof {
            assert(frags.take(f + 1).drop_last() =~= frags.take(f as int));
            assert(frags[f as int] == fragment@);
            assert(done + here.take(0) =~= done);
        }
        for k in 0..fragment.samples.len()
            invariant
                here == samples_view(fragment.samples@),
                (cues_view(cues@), indices_view(open@)) == read_samples(done + here.take(k as int)),
        {
            let sample = &fragment.samples[k];
            proof {
                assert((done + here.take(k + 1)).drop_last() =~= done + here.take(k as int));
                assert((done + here.take(k + 1)).last() == sample@);
            }
            open = absorb_sample(&mut cues, &open, sample);
        }
        proof {
            assert(here.take(fragment.samples@.len() as int) =~= here);
            assert(all_samples(frags.take(f + 1)) == done + here);
        }
    }
    proof {
        assert(frags.take(fragments@.len() as int) =~= frags);
    }
    Subtitle { cues: sort_cues(&cues) }
}

} // verus!
