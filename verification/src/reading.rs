//! What the samples of a divided subtitle hold, and what merging reads of them:
//! a cue on screen over a sample lasts through it, and merging reads the spans
//! of the samples and the texts of their cues, not the spans those cues carry.

use vstd::prelude::*;

use crate::fragmenter::{
    absorb, all_samples, covers, cue_edge, edge_at, lemma_on_screen_of_reaching, merge_spec, on_screen,
    read_samples, reaching, sample_spans, tiles, FragmentView, SampleView,
};
use crate::timeline::lemma_partition_within;
use crate::subtitle::CueView;

verus! {

/// `x` and `y` list cues with the same texts, in the same order, whatever their
/// spans.
pub open spec fn same_texts(x: Seq<CueView>, y: Seq<CueView>) -> bool {
    x.len() == y.len() && forall|i: int| 0 <= i < x.len() ==> (#[trigger] x[i]).text == y[i].text
}

/// `x` and `y` are samples with the same spans showing cues of the same texts.
pub open spec fn same_samples(x: Seq<SampleView>, y: Seq<SampleView>) -> bool {
    x.len() == y.len() && forall|i: int| 0 <= i < x.len() ==> (#[trigger] x[i]).start == y[i].start
        && x[i].end == y[i].end && same_texts(x[i].cues, y[i].cues)
}

/// `a` and `b` are fragments with the same spans whose samples differ at most in
/// the spans of the cues they carry.
pub open spec fn same_but_cue_spans(a: Seq<FragmentView>, b: Seq<FragmentView>) -> bool {
    a.len() == b.len() && forall|i: int| 0 <= i < a.len() ==> (#[trigger] a[i]).start == b[i].start
        && a[i].end == b[i].end && same_samples(a[i].samples, b[i].samples)
}

proof fn lemma_absorb_reads_texts(cues: Seq<CueView>, open: Seq<int>, start: u32, end: u32, x: Seq<CueView>, y: Seq<CueView>)
    requires
        same_texts(x, y),
    ensures
        absorb(cues, open, start, end, x) == absorb(cues, open, start, end, y),
    decreases x.len(),
{
    if x.len() > 0 {
        assert(same_texts(x.drop_last(), y.drop_last())) by {
            assert forall|i: int| 0 <= i < x.drop_last().len() implies (#[trigger] x.drop_last()[i]).text == y.drop_last()[i].text by {
                assert(x.drop_last()[i] == x[i]);
                assert(y.drop_last()[i] == y[i]);
            }
        }
        lemma_absorb_reads_texts(cues, open, start, end, x.drop_last(), y.drop_last());
        assert(x.last().text == y.last().text);
    }
}

proof fn lemma_read_samples_reads_texts(x: Seq<SampleView>, y: Seq<SampleView>)
    requires
        same_samples(x, y),
    ensures
        read_samples(x) == read_samples(y),
    decreases x.len(),
{
    if x.len() > 0 {
        assert(same_samples(x.drop_last(), y.drop_last())) by {
            assert forall|i: int| 0 <= i < x.drop_last().len() implies (#[trigger] x.drop_last()[i]).start == y.drop_last()[i].start
                && x.drop_last()[i].end == y.drop_last()[i].end && same_texts(x.drop_last()[i].cues, y.drop_last()[i].cues) by {
                assert(x.drop_last()[i] == x[i]);
                assert(y.drop_last()[i] == y[i]);
            }
        }
        lemma_read_samples_reads_texts(x.drop_last(), y.drop_last());
        let (cues, open) = read_samples(x.drop_last());
        assert(x.last() == x[x.len() - 1]);
        lemma_absorb_reads_texts(cues, open, x.last().start, x.last().end, x.last().cues, y.last().cues);
    }
}

proof fn lemma_all_samples_same(a: Seq<FragmentView>, b: Seq<FragmentView>)
    requires
        same_but_cue_spans(a, b),
    ensures
        same_samples(all_samples(a), all_samples(b)),
    decreases a.len(),
{
    if a.len() > 0 {
        assert(same_but_cue_spans(a.drop_last(), b.drop_last())) by {
            assert forall|i: int| 0 <= i < a.drop_last().len() implies (#[trigger] a.drop_last()[i]).start == b.drop_last()[i].start
                && a.drop_last()[i].end == b.drop_last()[i].end && same_samples(a.drop_last()[i].samples, b.drop_last()[i].samples) by {
                assert(a.drop_last()[i] == a[i]);
                assert(b.drop_last()[i] == b[i]);
            }
        }
        lemma_all_samples_same(a.drop_last(), b.drop_last());
        let p = all_samples(a.drop_last());
        let q = all_samples(b.drop_last());
        let x = a.last().samples;
        let y = b.last().samples;
        assert(a.last() == a[a.len() - 1]);
        assert(same_samples(x, y));
        assert forall|i: int| 0 <= i < (p + x).len() implies (#[trigger] (p + x)[i]).start == (q + y)[i].start
            && (p + x)[i].end == (q + y)[i].end && same_texts((p + x)[i].cues, (q + y)[i].cues) by {
            if i < p.len() {
                assert((p + x)[i] == p[i]);
                assert((q + y)[i] == q[i]);
            } else {
                assert((p + x)[i] == x[i - p.len()]);
                assert((q + y)[i] == y[i - p.len()]);
            }
        }
    }
}

/// Merging reads the cues of a sample by their texts alone: fragments whose
/// samples show cues of the same texts over the same spans merge into the same
/// cues, whatever spans those cues arrived with.
pub proof fn merge_ignores_cue_spans(a: Seq<FragmentView>, b: Seq<FragmentView>)
    requires
        same_but_cue_spans(a, b),
    ensures
        merge_spec(a) == merge_spec(b),
{
    lemma_all_samples_same(a, b);
    lemma_read_samples_reads_texts(all_samples(a), all_samples(b));
}



proof fn lemma_on_screen_member(x: Seq<CueView>, t: u32, k: int)
    requires
        0 <= k < on_screen(x, t).len(),
    ensures
        exists|m: int| 0 <= m < x.len() && x[m] == on_screen(x, t)[k] && covers(x[m], t),
    decreases x.len(),
{
    let rest = on_screen(x.drop_last(), t);
    if k < rest.len() {
        lemma_on_screen_member(x.drop_last(), t, k);
        let m = choose|m: int| 0 <= m < x.drop_last().len() && x.drop_last()[m] == rest[k] && covers(x.drop_last()[m], t);
        assert(x[m] == x.drop_last()[m]);
        assert(on_screen(x, t)[k] == rest[k]);
    } else {
        assert(x[x.len() - 1] == x.last());
    }
}

/// A cue on screen over a sample stays on screen to the sample's end: samples
/// are cut wherever a cue comes or goes, so none ends inside one.
pub proof fn cues_in_a_sample_last_to_its_end(cues: Seq<CueView>, start: u32, end: u32, samples: Seq<SampleView>, i: int, k: int)
    requires
        tiles(cues, start, end, samples),
        0 <= i < samples.len(),
        0 <= k < samples[i].cues.len(),
    ensures
        samples[i].cues[k].start <= samples[i].start,
        samples[i].cues[k].end >= samples[i].end,
{
    let spans = sample_spans(samples);
    let r = reaching(cues, start, end);
    let cut = |t: u32| cue_edge(r, t);
    lemma_partition_within(spans, start, end, cut);
    assert(spans[i] == (samples[i].start, samples[i].end));
    let t = samples[i].start;
    assert(start <= t < end) by {
        assert(spans[i].0 < spans[i].1);
    }
    lemma_on_screen_of_reaching(cues, start, end, t);
    lemma_on_screen_member(r, t, k);
    let m = choose|m: int| 0 <= m < r.len() && r[m] == on_screen(r, t)[k] && covers(r[m], t);
    let c = r[m];
    assert(edge_at(r, m, c.end));
    assert(cut(c.end));
    assert(!(spans[i].0 < c.end && c.end < spans[i].1));
}

} // verus!
