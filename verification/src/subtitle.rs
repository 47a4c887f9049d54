//! The subtitle model every parser in this crate produces: a list of cues, each
//! holding a time span and its text.

use vstd::prelude::*;

verus! {

/// What a cue is, mathematically: its span in milliseconds and its text.
pub struct CueView {
    pub start: u32,
    pub end: u32,
    pub text: Seq<char>,
}

/// One timed caption: `text`, shown over the half-open interval `[start, end)`.
///
/// Times are milliseconds, and a text track's timescale is always 1000, so they
/// are the media times a packager writes rather than something to be converted.
#[derive(Debug, Clone, PartialEq, Eq)]
pub struct Cue {
    /// Presentation start, in milliseconds from the start of the timeline.
    pub start: u32,
    /// Presentation end, in milliseconds.
    pub end: u32,
    /// The caption text. Multi-line captions keep their `\n` separators.
    pub text: String,
}

impl View for Cue {
    type V = CueView;

    open spec fn view(&self) -> CueView {
        CueView { start: self.start, end: self.end, text: self.text@ }
    }
}

/// The views of a list of cues.
pub open spec fn cues_view(cues: Seq<Cue>) -> Seq<CueView> {
    cues.map_values(|c: Cue| c@)
}

impl Cue {
    /// Whether two cues carry the same caption, ignoring when it is on screen.
    pub fn same_content(&self, other: &Self) -> (same: bool)
        ensures
            same == (self.text@ == other.text@),
    {
        self.text == other.text
    }

    /// A copy of this cue, field for field.
    pub fn copy(&self) -> (c: Cue)
        ensures
            c@ == self@,
    {
        Cue { start: self.start, end: self.end, text: self.text.clone() }
    }
}

/// A parsed subtitle: the cues of a single text track.
#[derive(Debug, Clone, PartialEq, Eq)]
pub struct Subtitle {
    /// The cues, in presentation order.
    pub cues: Vec<Cue>,
}

impl View for Subtitle {
    type V = Seq<CueView>;

    open spec fn view(&self) -> Seq<CueView> {
        cues_view(self.cues@)
    }
}

impl Default for Subtitle {
    fn default() -> (s: Self)
        ensures
            s@ == Seq::<CueView>::empty(),
    {
        Subtitle { cues: Vec::new() }
    }
}

/// `a` is presented strictly after `b`: a later start, or the same start and a
/// later end.
pub open spec fn presented_after(a: CueView, b: CueView) -> bool {
    a.start > b.start || (a.start == b.start && a.end > b.end)
}

/// `s` with `c` inserted after every cue it is not presented before, which keeps
/// cues with equal spans in the order they came.
pub open spec fn insert_by_span(s: Seq<CueView>, c: CueView) -> Seq<CueView>
    decreases s.len(),
{
    if s.len() == 0 {
        seq![c]
    } else if !presented_after(s.last(), c) {
        s.push(c)
    } else {
        insert_by_span(s.drop_last(), c).push(s.last())
    }
}

/// The stable sort of `s` by `(start, end)`.
pub open spec fn sort_by_span(s: Seq<CueView>) -> Seq<CueView>
    decreases s.len(),
{
    if s.len() == 0 {
        s
    } else {
        insert_by_span(sort_by_span(s.drop_last()), s.last())
    }
}

/// `s` is in presentation order.
pub open spec fn in_presentation_order(s: Seq<CueView>) -> bool {
    forall|i: int, j: int| 0 <= i < j < s.len() ==> !presented_after(#[trigger] s[i], #[trigger] s[j])
}

/// The latest end of any cue, or 0 for none.
pub open spec fn max_end(s: Seq<CueView>) -> u32
    decreases s.len(),
{
    if s.len() == 0 {
        0
    } else {
        let rest = max_end(s.drop_last());
        if s.last().end > rest { s.last().end } else { rest }
    }
}

proof fn lemma_insert_position(s: Seq<CueView>, c: CueView, j: int)
    requires
        0 <= j <= s.len(),
        forall|k: int| j <= k < s.len() ==> presented_after(#[trigger] s[k], c),
        j == 0 || !presented_after(s[j - 1], c),
    ensures
        insert_by_span(s, c) == s.insert(j, c),
    decreases s.len(),
{
    if s.len() == 0 {
        assert(s.insert(j, c) =~= seq![c]);
    } else if j == s.len() {
        assert(s.insert(j, c) =~= s.push(c));
    } else {
        lemma_insert_position(s.drop_last(), c, j);
        assert(s.insert(j, c) =~= s.drop_last().insert(j, c).push(s.last()));
    }
}

/// Inserts `c` into `cues` at its stable place by `(start, end)`.
fn insert_cue(cues: &mut Vec<Cue>, c: Cue)
    ensures
        cues_view(final(cues)@) == insert_by_span(cues_view(old(cues)@), c@),
{
    let ghost s = cues_view(cues@);
    let mut j = cues.len();
    while j > 0 && (cues[j - 1].start > c.start || (cues[j - 1].start == c.start && cues[j - 1].end > c.end))
        invariant
            0 <= j <= cues.len(),
            s == cues_view(cues@),
            forall|k: int| j <= k < s.len() ==> presented_after(#[trigger] s[k], c@),
        decreases j,
    {
        j = j - 1;
    }
    proof {
        lemma_insert_position(s, c@, j as int);
    }
    cues.insert(j, c);
    proof {
        assert(cues_view(cues@) =~= s.insert(j as int, c@));
    }
}

/// Sorts `cues` by `(start, end)`, keeping cues with equal spans in the order they
/// came.
pub fn sort_cues(cues: &Vec<Cue>) -> (sorted: Vec<Cue>)
    ensures
        cues_view(sorted@) == sort_by_span(cues_view(cues@)),
{
    let ghost all = cues_view(cues@);
    let mut sorted: Vec<Cue> = Vec::new();
    for i in 0..cues.len()
        invariant
            all == cues_view(cues@),
            cues_view(sorted@) == sort_by_span(all.take(i as int)),
    {
        proof {
            assert(all.take(i + 1).drop_last() =~= all.take(i as int));
        }
        insert_cue(&mut sorted, cues[i].copy());
    }
    proof {
        assert(all.take(cues.len() as int) =~= all);
    }
    sorted
}

proof fn lemma_insert_by_span(s: Seq<CueView>, c: CueView)
    requires
        in_presentation_order(s),
    ensures
        in_presentation_order(insert_by_span(s, c)),
        insert_by_span(s, c).to_multiset() =~= s.to_multiset().insert(c),
        forall|i: int|
            0 <= i < insert_by_span(s, c).len() ==> #[trigger] insert_by_span(s, c)[i] == c
                || s.contains(insert_by_span(s, c)[i]),
    decreases s.len(),
{
    broadcast use vstd::seq_lib::group_to_multiset_ensures;

    let r = insert_by_span(s, c);
    if s.len() == 0 {
        assert(r =~= seq![c]);
        assert(seq![c] =~= Seq::<CueView>::empty().push(c));
        assert(s =~= Seq::<CueView>::empty());
    } else if !presented_after(s.last(), c) {
        assert forall|i: int, j: int| 0 <= i < j < r.len() implies !presented_after(
            #[trigger] r[i],
            #[trigger] r[j],
        ) by {
            if j == s.len() {
                assert(r[i] == s[i]);
                if i < s.len() - 1 {
                    assert(!presented_after(s[i], s[s.len() - 1]));
                }
            } else {
                assert(r[i] == s[i] && r[j] == s[j]);
            }
        }
        assert forall|i: int| 0 <= i < r.len() implies #[trigger] r[i] == c || s.contains(r[i]) by {
            if i < s.len() {
                assert(r[i] == s[i]);
            }
        }
    } else {
        let d = s.drop_last();
        assert(in_presentation_order(d)) by {
            assert forall|i: int, j: int| 0 <= i < j < d.len() implies !presented_after(
                #[trigger] d[i],
                #[trigger] d[j],
            ) by {
                assert(d[i] == s[i] && d[j] == s[j]);
            }
        }
        lemma_insert_by_span(d, c);
        let q = insert_by_span(d, c);
        assert(r == q.push(s.last()));
        assert(d.push(s.last()) =~= s);
        assert forall|i: int| 0 <= i < q.len() implies !presented_after(#[trigger] q[i], s.last()) by {
            if q[i] != c {
                assert(d.contains(q[i]));
                let k = choose|k: int| 0 <= k < d.len() && d[k] == q[i];
                assert(!presented_after(s[k], s[s.len() - 1]));
            }
        }
        assert forall|i: int, j: int| 0 <= i < j < r.len() implies !presented_after(
            #[trigger] r[i],
            #[trigger] r[j],
        ) by {
            if j == q.len() {
                assert(r[i] == q[i]);
            } else {
                assert(r[i] == q[i] && r[j] == q[j]);
            }
        }
        assert forall|i: int| 0 <= i < r.len() implies #[trigger] r[i] == c || s.contains(r[i]) by {
            if i < q.len() {
                assert(r[i] == q[i]);
                if q[i] != c {
                    let k = choose|k: int| 0 <= k < d.len() && d[k] == q[i];
                    assert(s[k] == d[k]);
                }
            } else {
                assert(r[i] == s[s.len() - 1]);
            }
        }
        assert(q.push(s.last()).to_multiset() =~= q.to_multiset().insert(s.last()));
        assert(s.to_multiset() =~= d.to_multiset().insert(s.last()));
    }
}

/// Sorting cues by span puts them in presentation order and keeps every one of
/// them: the result holds the same cues, each as often.
pub proof fn sorting_orders_and_keeps_cues(s: Seq<CueView>)
    ensures
        in_presentation_order(sort_by_span(s)),
        sort_by_span(s).to_multiset() =~= s.to_multiset(),
    decreases s.len(),
{
    broadcast use vstd::seq_lib::group_to_multiset_ensures;

    if s.len() > 0 {
        sorting_orders_and_keeps_cues(s.drop_last());
        lemma_insert_by_span(sort_by_span(s.drop_last()), s.last());
        assert(s.drop_last().push(s.last()) =~= s);
    }
}

} // verus!
