//! Merging the fragments of a subtitle gives back the cues it was authored with.

use vstd::prelude::*;

use crate::fragmenter::{
    absorb, all_samples, carried, clock_cut, covers, divides, fragment_spans, on_screen, read_samples,
    reaches, reaching, sample_spans, tiles, cue_edge, edge_at, merge_spec, FragmentView, SampleView,
};
use crate::subtitle::{
    in_presentation_order, max_end, presented_after, sort_by_span,
    sorting_orders_and_keeps_cues, CueView,
};
use crate::timeline::{lemma_partition_within, partition_is_unique};
use crate::demuxer::{
    after, decoded_box, fragment_of, scan_fragments, scan_segment, unpack_spec, BoxDecoding,
    SegmentBoxView, UnpackErrorView,
};


verus! {

/// A cue `b` presented after a cue `a` with the same text stays told apart from
/// it once the timeline is cut into samples: `a` neither ends where `b` starts nor
/// strictly inside `b`.
pub open spec fn distinguishable(a: CueView, b: CueView) -> bool {
    a.end != b.start && !(b.start < a.end && a.end < b.end)
}

/// The cues a merge can tell apart once a timeline is cut into samples: in
/// presentation order, each on screen for some time, and of two carrying the same
/// text, the earlier neither running up to the later nor ending inside it.
pub open spec fn recoverable(s: Seq<CueView>) -> bool {
    &&& in_presentation_order(s)
    &&& forall|i: int| 0 <= i < s.len() ==> (#[trigger] s[i]).start < s[i].end
    &&& forall|i: int, j: int|
        0 <= i < j < s.len() && (#[trigger] s[i]).text == (#[trigger] s[j]).text ==> distinguishable(
            s[i],
            s[j],
        )
}

/// `open` lists cue indices in increasing order.
pub open spec fn increasing(open: Seq<int>) -> bool {
    forall|a: int, b: int| 0 <= a < b < open.len() ==> #[trigger] open[a] < #[trigger] open[b]
}

/// `c` as it stands once the timeline is read up to `t`.
pub open spec fn clip(c: CueView, t: u32) -> CueView {
    CueView { start: c.start, end: if c.end < t { c.end } else { t }, text: c.text }
}

/// How many cues of `s` start before `t`.
pub open spec fn count_started(s: Seq<CueView>, t: u32) -> nat
    decreases s.len(),
{
    if s.len() == 0 {
        0
    } else {
        count_started(s.drop_last(), t) + if s.last().start < t { 1nat } else { 0nat }
    }
}

/// The indices of the cues of `s` on screen at `t`, in order.
pub open spec fn screen_indices(s: Seq<CueView>, t: u32) -> Seq<int>
    decreases s.len(),
{
    if s.len() == 0 {
        Seq::empty()
    } else {
        let rest = screen_indices(s.drop_last(), t);
        if covers(s.last(), t) {
            rest.push(s.len() - 1)
        } else {
            rest
        }
    }
}

/// No cue of `s` comes or goes strictly inside `(a, b)`.
pub open spec fn no_edge_inside(s: Seq<CueView>, a: u32, b: u32) -> bool {
    forall|i: int|
        0 <= i < s.len() ==> !(a < (#[trigger] s[i]).start && s[i].start < b) && !(a < s[i].end
            && s[i].end < b)
}

/// What reading the samples up to `t` leaves: every cue started by then, clipped
/// at `t`, and on screen exactly those still on screen at `t`.
pub open spec fn read_up_to(s: Seq<CueView>, cues: Seq<CueView>, open: Seq<int>, t: u32) -> bool {
    let m = count_started(s, t) as int;
    &&& cues.len() == m
    &&& increasing(open)
    &&& forall|i: int| 0 <= i < m ==> #[trigger] cues[i] == clip(s[i], t)
    &&& forall|k: int| 0 <= k < open.len() ==> 0 <= #[trigger] open[k] < m && s[open[k]].end >= t
    &&& forall|j: int| 0 <= j < m && s[j].end > t ==> #[trigger] open.contains(j)
}

proof fn lemma_count_started(s: Seq<CueView>, t: u32)
    requires
        in_presentation_order(s),
    ensures
        count_started(s, t) <= s.len(),
        forall|i: int|
            0 <= i < s.len() ==> (i < count_started(s, t) <==> (#[trigger] s[i]).start < t),
    decreases s.len(),
{
    if s.len() > 0 {
        let d = s.drop_last();
        assert(in_presentation_order(d)) by {
            assert forall|i: int, j: int| 0 <= i < j < d.len() implies !presented_after(
                #[trigger] d[i],
                #[trigger] d[j],
            ) by {
                assert(d[i] == s[i] && d[j] == s[j]);
            }
        }
        lemma_count_started(d, t);
        assert forall|i: int| 0 <= i < s.len() implies (i < count_started(s, t) <==> (
        #[trigger] s[i]).start < t) by {
            if i < s.len() - 1 {
                assert(d[i] == s[i]);
                assert(!presented_after(s[i], s[s.len() - 1]));
                if s.last().start < t {
                    assert(s[i].start <= s.last().start);
                    assert(i < count_started(d, t));
                }
            } else {
                if s.last().start < t {
                } else {
                }
            }
        }
    }
}

proof fn lemma_screen_indices(s: Seq<CueView>, t: u32)
    ensures
        screen_indices(s, t).len() == on_screen(s, t).len(),
        forall|k: int|
            0 <= k < screen_indices(s, t).len() ==> 0 <= #[trigger] screen_indices(s, t)[k] < s.len()
                && on_screen(s, t)[k] == s[screen_indices(s, t)[k]],
        forall|a: int, b: int|
            0 <= a < b < screen_indices(s, t).len() ==> #[trigger] screen_indices(s, t)[a]
                < #[trigger] screen_indices(s, t)[b],
        forall|i: int| 0 <= i < s.len() ==> (screen_indices(s, t).contains(i) <==> covers(#[trigger] s[i], t)),
    decreases s.len(),
{
    if s.len() > 0 {
        let d = s.drop_last();
        lemma_screen_indices(d, t);
        let rest = screen_indices(d, t);
        let idx = screen_indices(s, t);
        assert forall|i: int| 0 <= i < s.len() implies (idx.contains(i) <==> covers(#[trigger] s[i], t)) by {
            if i < s.len() - 1 {
                assert(d[i] == s[i]);
                if idx.contains(i) {
                    let k = choose|k: int| 0 <= k < idx.len() && idx[k] == i;
                    if k < rest.len() {
                        assert(rest[k] == i);
                        assert(rest.contains(i));
                    }
                }
                if rest.contains(i) {
                    let k = choose|k: int| 0 <= k < rest.len() && rest[k] == i;
                    assert(idx[k] == i);
                }
            } else {
                if covers(s.last(), t) {
                    assert(idx[idx.len() - 1] == i);
                } else {
                    if idx.contains(i) {
                        let k = choose|k: int| 0 <= k < idx.len() && idx[k] == i;
                        assert(rest[k] == i);
                    }
                }
            }
        }
        assert forall|k: int| 0 <= k < idx.len() implies 0 <= #[trigger] idx[k] < s.len()
            && on_screen(s, t)[k] == s[idx[k]] by {
            if k < rest.len() {
                assert(idx[k] == rest[k]);
                assert(d[rest[k]] == s[rest[k]]);
            }
        }
    }
}

proof fn lemma_on_screen_concat(x: Seq<CueView>, y: Seq<CueView>, t: u32)
    ensures
        on_screen(x + y, t) == on_screen(x, t) + on_screen(y, t),
    decreases y.len(),
{
    if y.len() == 0 {
        assert(x + y =~= x);
        assert(on_screen(x, t) + on_screen(y, t) =~= on_screen(x, t));
    } else {
        lemma_on_screen_concat(x, y.drop_last(), t);
        assert((x + y).drop_last() =~= x + y.drop_last());
        assert((x + y).last() == y.last());
        if covers(y.last(), t) {
            assert(on_screen(x, t) + on_screen(y, t) =~= (on_screen(x, t) + on_screen(
                y.drop_last(),
                t,
            )).push(y.last()));
        } else {
            assert(on_screen(x, t) + on_screen(y, t) =~= on_screen(x, t) + on_screen(
                y.drop_last(),
                t,
            ));
        }
    }
}

proof fn lemma_on_screen_all(x: Seq<CueView>, t: u32)
    requires
        forall|i: int| 0 <= i < x.len() ==> covers(#[trigger] x[i], t),
    ensures
        on_screen(x, t) == x,
    decreases x.len(),
{
    if x.len() > 0 {
        lemma_on_screen_all(x.drop_last(), t);
        assert(x.drop_last().push(x.last()) =~= x);
    }
}

proof fn lemma_on_screen_none(x: Seq<CueView>, t: u32)
    requires
        forall|i: int| 0 <= i < x.len() ==> !covers(#[trigger] x[i], t),
    ensures
        on_screen(x, t) == Seq::<CueView>::empty(),
    decreases x.len(),
{
    if x.len() > 0 {
        lemma_on_screen_none(x.drop_last(), t);
    }
}

proof fn lemma_absorb_concat(
    cues: Seq<CueView>,
    open: Seq<int>,
    a: u32,
    b: u32,
    x: Seq<CueView>,
    y: Seq<CueView>,
)
    ensures
        absorb(cues, open, a, b, x + y) == (
            absorb(absorb(cues, open, a, b, x).0, open, a, b, y).0,
            absorb(cues, open, a, b, x).1 + absorb(absorb(cues, open, a, b, x).0, open, a, b, y).1,
        ),
    decreases y.len(),
{
    let first = absorb(cues, open, a, b, x);
    if y.len() == 0 {
        assert(x + y =~= x);
        assert(first.1 + Seq::<int>::empty() =~= first.1);
    } else {
        lemma_absorb_concat(cues, open, a, b, x, y.drop_last());
        assert((x + y).drop_last() =~= x + y.drop_last());
        assert((x + y).last() == y.last());
        let prev = absorb(first.0, open, a, b, y.drop_last());
        let now = absorb(first.0, open, a, b, y);
        match carried(prev.0, open, a, y.last().text) {
            Some(o) => {
                assert(now.1 == prev.1.push(o));
                assert(first.1 + now.1 =~= (first.1 + prev.1).push(o));
            },
            None => {
                assert(now.1 == prev.1.push(prev.0.len() as int));
                assert(first.1 + now.1 =~= (first.1 + prev.1).push(prev.0.len() as int));
            },
        }
    }
}

/// `o` is a cue index `carried` accepts.
pub open spec fn candidate(cues: Seq<CueView>, o: int, start: u32, text: Seq<char>) -> bool {
    0 <= o < cues.len() && cues[o].end == start && cues[o].text == text
}

proof fn lemma_carried_first(cues: Seq<CueView>, open: Seq<int>, start: u32, text: Seq<char>, j: int)
    requires
        increasing(open),
        open.contains(j),
        candidate(cues, j, start, text),
        forall|k: int| 0 <= k < open.len() && candidate(cues, #[trigger] open[k], start, text) ==> open[k] >= j,
    ensures
        carried(cues, open, start, text) == Some(j),
    decreases open.len(),
{
    if open[0] != j {
        let k = choose|k: int| 0 <= k < open.len() && open[k] == j;
        assert(open[0] < open[k]);
        assert(!candidate(cues, open[0], start, text));
        let rest = open.drop_first();
        assert(rest[k - 1] == j);
        assert forall|a: int, b: int| 0 <= a < b < rest.len() implies #[trigger] rest[a] < #[trigger] rest[b] by {
            assert(rest[a] == open[a + 1] && rest[b] == open[b + 1]);
        }
        assert forall|k2: int| 0 <= k2 < rest.len() && candidate(cues, #[trigger] rest[k2], start, text)
            implies rest[k2] >= j by {
            assert(rest[k2] == open[k2 + 1]);
        }
        lemma_carried_first(cues, rest, start, text, j);
    }
}

proof fn lemma_carried_none(cues: Seq<CueView>, open: Seq<int>, start: u32, text: Seq<char>)
    requires
        forall|k: int| 0 <= k < open.len() ==> !candidate(cues, #[trigger] open[k], start, text),
    ensures
        carried(cues, open, start, text) is None,
    decreases open.len(),
{
    if open.len() > 0 {
        assert(!candidate(cues, open[0], start, text));
        assert forall|k: int| 0 <= k < open.drop_first().len() implies !candidate(
            cues,
            #[trigger] open.drop_first()[k],
            start,
            text,
        ) by {
            assert(open.drop_first()[k] == open[k + 1]);
        }
        lemma_carried_none(cues, open.drop_first(), start, text);
    }
}

proof fn lemma_read_continuing(
    s: Seq<CueView>,
    cues: Seq<CueView>,
    open: Seq<int>,
    t: u32,
    t2: u32,
    q: int,
)
    requires
        recoverable(s),
        read_up_to(s, cues, open, t),
        t < t2,
        no_edge_inside(s, t, t2),
        0 <= q <= screen_indices(s.take(count_started(s, t) as int), t).len(),
    ensures
        ({
            let m = count_started(s, t) as int;
            let idx = screen_indices(s.take(m), t);
            let r = absorb(cues, open, t, t2, on_screen(s.take(m), t).take(q));
            &&& r.0.len() == m
            &&& forall|i: int|
                0 <= i < m ==> #[trigger] r.0[i] == if idx.take(q).contains(i) {
                    clip(s[i], t2)
                } else {
                    clip(s[i], t)
                }
            &&& r.1 == idx.take(q)
        }),
    decreases q,
{
    let m = count_started(s, t) as int;
    let olds = s.take(m);
    let idx = screen_indices(olds, t);
    let shown = on_screen(olds, t);
    lemma_count_started(s, t);
    lemma_screen_indices(olds, t);
    if q == 0 {
        assert(shown.take(0) =~= Seq::<CueView>::empty());
        assert(idx.take(0) =~= Seq::<int>::empty());
    } else {
        lemma_read_continuing(s, cues, open, t, t2, q - 1);
        assert(shown.take(q).drop_last() =~= shown.take(q - 1));
        let prev = absorb(cues, open, t, t2, shown.take(q - 1));
        let pre = idx.take(q - 1);
        let cur = idx.take(q);
        let j = idx[q - 1];
        assert(shown.take(q).last() == s[j]) by {
            assert(olds[j] == s[j]);
        }
        assert(!pre.contains(j)) by {
            if pre.contains(j) {
                let k = choose|k: int| 0 <= k < pre.len() && pre[k] == j;
                assert(idx[k] < idx[q - 1]);
            }
        }
        assert(covers(olds[j], t));
        assert(olds[j] == s[j]);
        assert(s[j].start < t);
        assert(open.contains(j));
        assert(prev.0[j] == clip(s[j], t));
        assert(candidate(prev.0, j, t, s[j].text));
        assert forall|k: int| 0 <= k < open.len() && candidate(prev.0, #[trigger] open[k], t, s[j].text)
            implies open[k] >= j by {
            let o = open[k];
            assert(0 <= o < m && s[o].end >= t);
            assert(s[o].start < t);
            if pre.contains(o) {
                let k2 = choose|k2: int| 0 <= k2 < pre.len() && pre[k2] == o;
                assert(idx[k2] == o);
                assert(covers(olds[o], t));
                assert(olds[o] == s[o]);
                assert(prev.0[o] == clip(s[o], t2));
            } else if o < j {
                assert(prev.0[o] == clip(s[o], t));
                assert(s[o].text == s[j].text);
                assert(olds[o] == s[o]);
                if covers(olds[o], t) {
                    assert(idx.contains(o));
                    let k2 = choose|k2: int| 0 <= k2 < idx.len() && idx[k2] == o;
                    if k2 >= q - 1 {
                        assert(idx[q - 1] <= idx[k2]);
                    }
                    assert(pre[k2] == o);
                }
                assert(s[o].end == t);
                assert(distinguishable(s[o], s[j]));
            }
        }
        lemma_carried_first(prev.0, open, t, s[j].text, j);
        assert(cur =~= pre.push(j));
        let r = absorb(cues, open, t, t2, shown.take(q));
        assert(r.0 == prev.0.update(j, CueView { end: t2, ..prev.0[j] }));
        assert forall|i: int| 0 <= i < m implies #[trigger] r.0[i] == if cur.contains(i) {
            clip(s[i], t2)
        } else {
            clip(s[i], t)
        } by {
            if i == j {
                assert(cur.contains(i)) by {
                    assert(cur[q - 1] == j);
                }
            } else {
                assert(cur.contains(i) == pre.contains(i)) by {
                    if cur.contains(i) {
                        let k = choose|k: int| 0 <= k < cur.len() && cur[k] == i;
                        assert(k < q - 1);
                        assert(pre[k] == i);
                    }
                    if pre.contains(i) {
                        let k = choose|k: int| 0 <= k < pre.len() && pre[k] == i;
                        assert(cur[k] == i);
                    }
                }
            }
        }
    }
}

proof fn lemma_read_starting(
    s: Seq<CueView>,
    cues: Seq<CueView>,
    open: Seq<int>,
    t: u32,
    t2: u32,
    r: int,
)
    requires
        recoverable(s),
        t < t2,
        no_edge_inside(s, t, t2),
        cues.len() == count_started(s, t),
        forall|k: int|
            0 <= k < open.len() ==> 0 <= #[trigger] open[k] < count_started(s, t) && s[open[k]].end
                >= t,
        forall|i: int| 0 <= i < cues.len() ==> (#[trigger] cues[i]).text == s[i].text,
        forall|i: int| 0 <= i < cues.len() && s[i].end > t ==> (#[trigger] cues[i]).end > t,
        0 <= r <= count_started(s, t2) - count_started(s, t),
    ensures
        ({
            let m = count_started(s, t) as int;
            absorb(cues, open, t, t2, s.subrange(m, m + r)) == (
                cues + Seq::new(r as nat, |x: int| clip(s[m + x], t2)),
                Seq::new(r as nat, |x: int| m + x),
            )
        }),
    decreases r,
{
    let m = count_started(s, t) as int;
    let m2 = count_started(s, t2) as int;
    lemma_count_started(s, t);
    lemma_count_started(s, t2);
    if r == 0 {
        assert(s.subrange(m, m) =~= Seq::<CueView>::empty());
        assert(cues + Seq::new(0, |x: int| clip(s[m + x], t2)) =~= cues);
        assert(Seq::new(0, |x: int| m + x) =~= Seq::<int>::empty());
    } else {
        lemma_read_starting(s, cues, open, t, t2, r - 1);
        let sub = s.subrange(m, m + r);
        assert(sub.drop_last() =~= s.subrange(m, m + r - 1));
        let j = m + r - 1;
        assert(sub.last() == s[j]);
        assert(j < m2);
        assert(s[j].start >= t);
        assert(s[j].start < t2);
        assert(s[j].start == t);
        assert(s[j].end >= t2);
        let prev_cues = cues + Seq::new((r - 1) as nat, |x: int| clip(s[m + x], t2));
        assert forall|k: int| 0 <= k < open.len() implies !candidate(
            prev_cues,
            #[trigger] open[k],
            t,
            s[j].text,
        ) by {
            let o = open[k];
            assert(prev_cues[o] == cues[o]);
            if candidate(prev_cues, o, t, s[j].text) {
                assert(s[o].text == s[j].text);
                assert(s[o].start < t);
                assert(s[o].end == t);
                assert(o < j);
                assert(distinguishable(s[o], s[j]));
            }
        }
        lemma_carried_none(prev_cues, open, t, s[j].text);
        assert(clip(s[j], t2) == CueView { start: t, end: t2, text: s[j].text });
        assert(prev_cues.push(clip(s[j], t2)) =~= cues + Seq::new(r as nat, |x: int| clip(s[m + x], t2)));
        assert(Seq::new((r - 1) as nat, |x: int| m + x).push(prev_cues.len() as int) =~= Seq::new(
            r as nat,
            |x: int| m + x,
        ));
    }
}


proof fn lemma_read_sample(s: Seq<CueView>, cues: Seq<CueView>, open: Seq<int>, t: u32, t2: u32)
    requires
        recoverable(s),
        read_up_to(s, cues, open, t),
        t < t2,
        no_edge_inside(s, t, t2),
    ensures
        ({
            let r = absorb(cues, open, t, t2, on_screen(s, t));
            read_up_to(s, r.0, r.1, t2)
        }),
{
    let m = count_started(s, t) as int;
    let m2 = count_started(s, t2) as int;
    lemma_count_started(s, t);
    lemma_count_started(s, t2);
    assert(m <= m2) by {
        if m2 < m {
            assert(s[m2].start < t);
        }
    }
    let olds = s.take(m);
    let mid = s.subrange(m, m2);
    let rest = s.skip(m2);
    assert(s =~= olds + mid + rest);
    lemma_on_screen_concat(olds, mid, t);
    lemma_on_screen_concat(olds + mid, rest, t);
    assert forall|i: int| 0 <= i < mid.len() implies covers(#[trigger] mid[i], t) by {
        assert(mid[i] == s[m + i]);
        assert(s[m + i].start >= t && s[m + i].start < t2);
    }
    lemma_on_screen_all(mid, t);
    assert forall|i: int| 0 <= i < rest.len() implies !covers(#[trigger] rest[i], t) by {
        assert(rest[i] == s[m2 + i]);
    }
    lemma_on_screen_none(rest, t);
    let shown = on_screen(olds, t);
    assert(on_screen(s, t) =~= shown + mid);
    lemma_absorb_concat(cues, open, t, t2, shown, mid);
    lemma_screen_indices(olds, t);
    let idx = screen_indices(olds, t);
    lemma_read_continuing(s, cues, open, t, t2, idx.len() as int);
    assert(shown.take(idx.len() as int) =~= shown);
    assert(idx.take(idx.len() as int) =~= idx);
    let p1 = absorb(cues, open, t, t2, shown);
    assert forall|i: int| 0 <= i < p1.0.len() implies (#[trigger] p1.0[i]).text == s[i].text by {
        if idx.contains(i) {
        } else {
        }
    }
    assert forall|i: int| 0 <= i < p1.0.len() && s[i].end > t implies (#[trigger] p1.0[i]).end > t by {
        assert(olds[i] == s[i]);
        assert(covers(olds[i], t));
        assert(idx.contains(i));
    }
    lemma_read_starting(s, p1.0, open, t, t2, m2 - m);
    assert(mid =~= s.subrange(m, m + (m2 - m)));
    let fresh = Seq::new((m2 - m) as nat, |x: int| clip(s[m + x], t2));
    let fresh_idx = Seq::new((m2 - m) as nat, |x: int| m + x);
    let r = absorb(cues, open, t, t2, on_screen(s, t));
    assert(r.0 == p1.0 + fresh);
    assert(r.1 == idx + fresh_idx);
    assert forall|i: int| 0 <= i < m2 implies #[trigger] r.0[i] == clip(s[i], t2) by {
        if i < m {
            assert(r.0[i] == p1.0[i]);
            assert(olds[i] == s[i]);
            if !idx.contains(i) {
                assert(!covers(olds[i], t));
            }
        } else {
            assert(r.0[i] == fresh[i - m]);
        }
    }
    assert forall|k: int| 0 <= k < r.1.len() implies 0 <= #[trigger] r.1[k] < m2 && s[r.1[k]].end
        >= t2 by {
        if k < idx.len() {
            let j = idx[k];
            assert(r.1[k] == j);
            assert(idx.contains(j));
            assert(covers(olds[j], t));
            assert(olds[j] == s[j]);
        } else {
            assert(r.1[k] == m + (k - idx.len()));
            let j = m + (k - idx.len());
            assert(s[j].start >= t && s[j].start < t2);
        }
    }
    assert(increasing(r.1)) by {
        assert forall|a: int, b: int| 0 <= a < b < r.1.len() implies #[trigger] r.1[a] < #[trigger] r.1[b] by {
            if b < idx.len() {
                assert(r.1[a] == idx[a] && r.1[b] == idx[b]);
            } else if a < idx.len() {
                assert(r.1[a] == idx[a]);
                assert(idx[a] < m);
                assert(r.1[b] == m + (b - idx.len()));
            } else {
                assert(r.1[a] == m + (a - idx.len()));
                assert(r.1[b] == m + (b - idx.len()));
            }
        }
    }
    assert forall|j: int| 0 <= j < m2 && s[j].end > t2 implies #[trigger] r.1.contains(j) by {
        if j < m {
            assert(olds[j] == s[j]);
            assert(covers(olds[j], t));
            assert(idx.contains(j));
            let k = choose|k: int| 0 <= k < idx.len() && idx[k] == j;
            assert(r.1[k] == j);
        } else {
            assert(r.1[idx.len() + (j - m)] == j);
        }
    }
}

/// `samples` run back to back from `a` to `b`, each cut where no cue of `s` comes
/// or goes inside it and holding the cues of `s` on screen over it.
pub open spec fn chained(s: Seq<CueView>, samples: Seq<SampleView>, a: u32, b: u32) -> bool {
    &&& samples.len() == 0 ==> a == b
    &&& samples.len() > 0 ==> samples[0].start == a && samples.last().end == b
    &&& forall|i: int| 0 <= i < samples.len() ==> (#[trigger] samples[i]).start < samples[i].end
    &&& forall|i: int|
        0 <= i < samples.len() - 1 ==> (#[trigger] samples[i]).end == samples[i + 1].start
    &&& forall|i: int|
        0 <= i < samples.len() ==> no_edge_inside(s, (#[trigger] samples[i]).start, samples[i].end)
            && samples[i].cues == on_screen(s, samples[i].start)
}

proof fn lemma_read_chain(s: Seq<CueView>, samples: Seq<SampleView>, b: u32)
    requires
        recoverable(s),
        chained(s, samples, 0, b),
    ensures
        read_up_to(s, read_samples(samples).0, read_samples(samples).1, b),
    decreases samples.len(),
{
    if samples.len() == 0 {
        lemma_count_started(s, 0);
        assert(count_started(s, 0) == 0) by {
            if count_started(s, 0) > 0 {
                assert(s[0].start < 0);
            }
        }
    } else {
        let d = samples.drop_last();
        let last = samples.last();
        assert(chained(s, d, 0, last.start)) by {
            if d.len() > 0 {
                assert(d.last() == samples[samples.len() - 2]);
            }
            assert forall|i: int| 0 <= i < d.len() - 1 implies (#[trigger] d[i]).end == d[i
                + 1].start by {
                assert(d[i] == samples[i] && d[i + 1] == samples[i + 1]);
            }
            assert forall|i: int| 0 <= i < d.len() implies no_edge_inside(
                s,
                (#[trigger] d[i]).start,
                d[i].end,
            ) && d[i].cues == on_screen(s, d[i].start) by {
                assert(d[i] == samples[i]);
            }
        }
        lemma_read_chain(s, d, last.start);
        assert(samples[samples.len() - 1] == last);
        lemma_read_sample(s, read_samples(d).0, read_samples(d).1, last.start, last.end);
    }
}

proof fn lemma_chain_concat(s: Seq<CueView>, x: Seq<SampleView>, y: Seq<SampleView>, a: u32, b: u32, c: u32)
    requires
        chained(s, x, a, b),
        chained(s, y, b, c),
    ensures
        chained(s, x + y, a, c),
{
    let z = x + y;
    if x.len() == 0 {
        assert(z =~= y);
    } else if y.len() == 0 {
        assert(z =~= x);
    } else {
        assert(z[0] == x[0]);
        assert(z.last() == y.last());
        assert forall|i: int| 0 <= i < z.len() implies (#[trigger] z[i]).start < z[i].end
            && no_edge_inside(s, z[i].start, z[i].end) && z[i].cues == on_screen(s, z[i].start) by {
            if i < x.len() {
                assert(z[i] == x[i]);
            } else {
                assert(z[i] == y[i - x.len()]);
            }
        }
        assert forall|i: int| 0 <= i < z.len() - 1 implies (#[trigger] z[i]).end == z[i + 1].start by {
            if i < x.len() - 1 {
                assert(z[i] == x[i] && z[i + 1] == x[i + 1]);
            } else if i == x.len() - 1 {
                assert(z[i] == x.last() && z[i + 1] == y[0]);
            } else {
                assert(z[i] == y[i - x.len()] && z[i + 1] == y[i - x.len() + 1]);
            }
        }
    }
}

proof fn lemma_reaching_contains(cues: Seq<CueView>, start: u32, end: u32, i: int)
    requires
        0 <= i < cues.len(),
        reaches(cues[i], start, end),
    ensures
        reaching(cues, start, end).contains(cues[i]),
    decreases cues.len(),
{
    let rest = reaching(cues.drop_last(), start, end);
    if i == cues.len() - 1 {
        assert(reaching(cues, start, end)[rest.len() as int] == cues[i]);
    } else {
        assert(cues.drop_last()[i] == cues[i]);
        lemma_reaching_contains(cues.drop_last(), start, end, i);
        let k = choose|k: int| 0 <= k < rest.len() && rest[k] == cues[i];
        assert(reaching(cues, start, end)[k] == cues[i]);
    }
}

proof fn lemma_edge_of_reaching(s: Seq<CueView>, start: u32, end: u32, i: int, t: u32)
    requires
        0 <= i < s.len(),
        reaches(s[i], start, end),
        s[i].start == t || s[i].end == t,
    ensures
        cue_edge(reaching(s, start, end), t),
{
    lemma_reaching_contains(s, start, end, i);
    let found = reaching(s, start, end);
    let k = choose|k: int| 0 <= k < found.len() && found[k] == s[i];
    assert(edge_at(found, k, t));
}

proof fn lemma_tiles_chain(s: Seq<CueView>, start: u32, end: u32, samples: Seq<SampleView>)
    requires
        start < end,
        forall|i: int| 0 <= i < s.len() ==> (#[trigger] s[i]).start < s[i].end,
        tiles(s, start, end, samples),
    ensures
        chained(s, samples, start, end),
{
    let spans = sample_spans(samples);
    let cut = |t: u32| cue_edge(reaching(s, start, end), t);
    lemma_partition_within(spans, start, end, cut);
    assert forall|k: int| 0 <= k < samples.len() implies (#[trigger] samples[k]).start < samples[k].end
        && no_edge_inside(s, samples[k].start, samples[k].end) && samples[k].cues == on_screen(
        s,
        samples[k].start,
    ) by {
        assert(spans[k] == (samples[k].start, samples[k].end));
        let a = samples[k].start;
        let b = samples[k].end;
        assert forall|i: int| 0 <= i < s.len() implies !(a < (#[trigger] s[i]).start && s[i].start
            < b) && !(a < s[i].end && s[i].end < b) by {
            if a < s[i].start && s[i].start < b {
                lemma_edge_of_reaching(s, start, end, i, s[i].start);
                assert(cut(s[i].start));
            }
            if a < s[i].end && s[i].end < b {
                lemma_edge_of_reaching(s, start, end, i, s[i].end);
                assert(cut(s[i].end));
            }
        }
    }
    assert forall|i: int| 0 <= i < samples.len() - 1 implies (#[trigger] samples[i]).end
        == samples[i + 1].start by {
        assert(spans[i] == (samples[i].start, samples[i].end));
        assert(spans[i + 1] == (samples[i + 1].start, samples[i + 1].end));
    }
    assert(spans[0] == (samples[0].start, samples[0].end));
    assert(spans.last() == (samples.last().start, samples.last().end));
}

proof fn lemma_all_chained(s: Seq<CueView>, fragments: Seq<FragmentView>)
    requires
        forall|i: int| 0 <= i < s.len() ==> (#[trigger] s[i]).start < s[i].end,
        forall|i: int|
            0 <= i < fragments.len() ==> (#[trigger] fragments[i]).start < fragments[i].end && tiles(
                s,
                fragments[i].start,
                fragments[i].end,
                fragments[i].samples,
            ),
        forall|i: int|
            0 <= i < fragments.len() - 1 ==> (#[trigger] fragments[i]).end == fragments[i + 1].start,
        fragments.len() > 0 ==> fragments[0].start == 0,
    ensures
        chained(
            s,
            all_samples(fragments),
            0,
            if fragments.len() == 0 { 0 } else { fragments.last().end },
        ),
    decreases fragments.len(),
{
    if fragments.len() > 0 {
        let d = fragments.drop_last();
        let f = fragments.last();
        assert forall|i: int| 0 <= i < d.len() implies (#[trigger] d[i]).start < d[i].end && tiles(
            s,
            d[i].start,
            d[i].end,
            d[i].samples,
        ) by {
            assert(d[i] == fragments[i]);
        }
        assert forall|i: int| 0 <= i < d.len() - 1 implies (#[trigger] d[i]).end == d[i + 1].start by {
            assert(d[i] == fragments[i] && d[i + 1] == fragments[i + 1]);
        }
        if d.len() > 0 {
            assert(d[0] == fragments[0]);
            assert(d.last() == fragments[fragments.len() - 2]);
        }
        lemma_all_chained(s, d);
        assert(fragments[fragments.len() - 1] == f);
        lemma_tiles_chain(s, f.start, f.end, f.samples);
        let mid = if d.len() == 0 { 0u32 } else { d.last().end };
        lemma_chain_concat(s, all_samples(d), f.samples, 0, mid, f.end);
    }
}

proof fn lemma_max_end(s: Seq<CueView>)
    ensures
        forall|i: int| 0 <= i < s.len() ==> (#[trigger] s[i]).end <= max_end(s),
    decreases s.len(),
{
    if s.len() > 0 {
        lemma_max_end(s.drop_last());
        assert forall|i: int| 0 <= i < s.len() implies (#[trigger] s[i]).end <= max_end(s) by {
            if i < s.len() - 1 {
                assert(s.drop_last()[i] == s[i]);
            }
        }
    }
}

proof fn lemma_sorted_stays(s: Seq<CueView>)
    requires
        in_presentation_order(s),
    ensures
        sort_by_span(s) == s,
    decreases s.len(),
{
    if s.len() > 0 {
        let d = s.drop_last();
        assert(in_presentation_order(d)) by {
            assert forall|i: int, j: int| 0 <= i < j < d.len() implies !presented_after(
                #[trigger] d[i],
                #[trigger] d[j],
            ) by {
                assert(d[i] == s[i] && d[j] == s[j]);
            }
        }
        lemma_sorted_stays(d);
        if d.len() > 0 {
            assert(!presented_after(s[d.len() - 1], s[s.len() - 1]));
            assert(d.last() == s[d.len() - 1]);
        }
        assert(d.push(s.last()) =~= s);
    }
}

/// Merging the fragments of a subtitle gives back its cues, wherever a merge can
/// tell them apart: the cues in presentation order, each on screen for some time,
/// and of two carrying the same text, the earlier neither running up to the later
/// nor ending inside it. Whatever the splice points and fragment length the
/// subtitle was divided by, dividing and merging again changes nothing.
pub proof fn merge_inverts_fragment(
    s: Seq<CueView>,
    boundaries: Seq<u32>,
    length: u32,
    fragments: Seq<FragmentView>,
)
    requires
        recoverable(s),
        divides(s, boundaries, length, fragments),
    ensures
        merge_spec(fragments) == s,
{
    let e = max_end(s);
    let spans = fragment_spans(fragments);
    let cut = |t: u32| clock_cut(boundaries, length, e, t);
    lemma_max_end(s);
    lemma_sorted_stays(s);
    if e == 0 {
        if s.len() > 0 {
            assert(s[0].end <= e);
        }
        assert(s =~= Seq::<CueView>::empty());
        assert(fragments.len() == 0);
        assert(all_samples(fragments) =~= Seq::<SampleView>::empty());
    } else {
        assert forall|i: int| 0 <= i < fragments.len() implies (#[trigger] fragments[i]).start
            < fragments[i].end && tiles(
            s,
            fragments[i].start,
            fragments[i].end,
            fragments[i].samples,
        ) by {
            assert(spans[i] == (fragments[i].start, fragments[i].end));
        }
        assert forall|i: int| 0 <= i < fragments.len() - 1 implies (#[trigger] fragments[i]).end
            == fragments[i + 1].start by {
            assert(spans[i] == (fragments[i].start, fragments[i].end));
            assert(spans[i + 1] == (fragments[i + 1].start, fragments[i + 1].end));
        }
        assert(spans[0] == (fragments[0].start, fragments[0].end));
        assert(spans.last() == (fragments.last().start, fragments.last().end));
        lemma_all_chained(s, fragments);
        let samples = all_samples(fragments);
        lemma_read_chain(s, samples, e);
        let cues = read_samples(samples).0;
        lemma_count_started(s, e);
        assert(count_started(s, e) == s.len()) by {
            if count_started(s, e) < s.len() {
                let i = count_started(s, e) as int;
                assert(s[i].end <= e);
            }
        }
        assert forall|i: int| 0 <= i < s.len() implies #[trigger] cues[i] == s[i] by {
            assert(cues[i] == clip(s[i], e));
            assert(s[i].end <= e);
        }
        assert(cues =~= s);
    }
}

/// Merging yields cues in presentation order, whatever fragments it is given.
pub proof fn merged_cues_are_in_presentation_order(fragments: Seq<FragmentView>)
    ensures
        in_presentation_order(merge_spec(fragments)),
{
    sorting_orders_and_keeps_cues(read_samples(all_samples(fragments)).0);
}

/// Text tracks sharing a clock divide alike: two subtitles ending at the same
/// time, divided at the same splice points and on the same grid, are cut into
/// fragments with the same spans, whatever their cues.
pub proof fn tracks_sharing_a_clock_divide_alike(
    a: Seq<CueView>,
    b: Seq<CueView>,
    boundaries: Seq<u32>,
    length: u32,
    fa: Seq<FragmentView>,
    fb: Seq<FragmentView>,
)
    requires
        max_end(a) == max_end(b),
        divides(a, boundaries, length, fa),
        divides(b, boundaries, length, fb),
    ensures
        fragment_spans(fa) == fragment_spans(fb),
{
    let e = max_end(a);
    let cut_a = |t: u32| clock_cut(boundaries, length, max_end(a), t);
    let cut_b = |t: u32| clock_cut(boundaries, length, max_end(b), t);
    assert(cut_a =~= cut_b);
    partition_is_unique(fragment_spans(fa), fragment_spans(fb), 0, e, cut_a);
}

/// Unpacking a segment reads its samples back as merging reads fragments: a
/// segment whose fragments hold exactly the samples of `fragments` unpacks to
/// the cues merging them gives. So a segment carrying the samples a subtitle was
/// divided into unpacks to the cues it was authored with, wherever a merge can
/// tell them apart.
pub proof fn unpacking_divided_samples_returns_the_authored_cues(
    s: Seq<CueView>,
    boundaries: Seq<u32>,
    length: u32,
    fragments: Seq<FragmentView>,
    segment: Seq<u8>,
    timescale: u32,
)
    requires
        scan_segment(segment, 0, None, timescale) == Ok::<Seq<SampleView>, UnpackErrorView>(
            all_samples(fragments),
        ),
    ensures
        unpack_spec(segment, timescale) == Ok::<Seq<CueView>, UnpackErrorView>(merge_spec(fragments)),
        recoverable(s) && divides(s, boundaries, length, fragments) ==> unpack_spec(segment, timescale)
            == Ok::<Seq<CueView>, UnpackErrorView>(s),
{
    if recoverable(s) && divides(s, boundaries, length, fragments) {
        merge_inverts_fragment(s, boundaries, length, fragments);
    }
}

proof fn lemma_all_samples_concat(a: Seq<FragmentView>, b: Seq<FragmentView>)
    ensures
        all_samples(a + b) == all_samples(a) + all_samples(b),
    decreases b.len(),
{
    if b.len() == 0 {
        assert(a + b =~= a);
        assert(all_samples(a) + Seq::<SampleView>::empty() =~= all_samples(a));
    } else {
        lemma_all_samples_concat(a, b.drop_last());
        assert((a + b).drop_last() =~= a + b.drop_last());
        assert((a + b).last() == b.last());
        assert(all_samples(a) + all_samples(b.drop_last()) + b.last().samples =~= all_samples(a)
            + (all_samples(b.drop_last()) + b.last().samples));
    }
}

proof fn lemma_scans_agree(
    segment: Seq<u8>,
    from: int,
    pending: Option<Seq<crate::demuxer::TrackRunView>>,
    timescale: u32,
)
    ensures
        match (scan_fragments(segment, from, pending, timescale), scan_segment(segment, from, pending, timescale)) {
            (Ok(f), Ok(samples)) => all_samples(f) == samples,
            (Err(a), Err(b)) => a == b,
            _ => false,
        },
    decreases segment.len() - from,
{
    if 0 <= from <= segment.len() {
        match decoded_box(segment.subrange(from, segment.len() as int)) {
            BoxDecoding::Decoded(b, n) => {
                if 0 < n <= segment.len() - from {
                    match b {
                        SegmentBoxView::Header(runs) => {
                            if pending is None {
                                lemma_scans_agree(segment, from + n, Some(runs), timescale);
                            }
                        },
                        SegmentBoxView::Data(data) => {
                            lemma_scans_agree(segment, from + n, None, timescale);
                            if let Some(runs) = pending {
                                if let Ok(samples) = crate::demuxer::fragment_samples(runs, data, timescale) {
                                    let frag = fragment_of(samples);
                                    if let Ok(rest) = scan_fragments(segment, from + n, None, timescale) {
                                        lemma_all_samples_concat(seq![frag], rest);
                                        assert(all_samples(seq![frag]) =~= samples) by {
                                            assert(seq![frag].drop_last() =~= Seq::<FragmentView>::empty());
                                            assert(all_samples(Seq::<FragmentView>::empty()) =~= Seq::<SampleView>::empty());
                                            assert(seq![frag].last() == frag);
                                            assert(Seq::<SampleView>::empty() + samples =~= samples);
                                        }
                                    }
                                }
                            }
                        },
                        _ => {
                            lemma_scans_agree(segment, from + n, pending, timescale);
                        },
                    }
                }
            },
            _ => {},
        }
    }
}

/// Unpacking a segment into its fragments and merging them gives the cues
/// unpacking it into a subtitle gives, and both refuse a segment alike.
pub proof fn merging_unpacked_fragments_is_unpacking(segment: Seq<u8>, timescale: u32)
    ensures
        match scan_fragments(segment, 0, None, timescale) {
            Ok(fragments) => unpack_spec(segment, timescale) == Ok::<Seq<CueView>, UnpackErrorView>(
                merge_spec(fragments),
            ),
            Err(e) => unpack_spec(segment, timescale) == Err::<Seq<CueView>, UnpackErrorView>(e),
        },
{
    lemma_scans_agree(segment, 0, None, timescale);
}


} // verus!
