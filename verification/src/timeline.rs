//! Dividing a span of the timeline at given times, and the grid of times a fixed
//! length lays over it.

use vstd::prelude::*;

verus! {

/// `spans` divide `[start, end)` into consecutive, non-empty intervals, cut at
/// exactly the times strictly inside it that satisfy `cut`: each span ends where
/// the next begins, every interior edge is a cut, and no cut falls strictly inside
/// a span. An empty interval has no spans.
pub open spec fn is_partition(
    spans: Seq<(u32, u32)>,
    start: u32,
    end: u32,
    cut: spec_fn(u32) -> bool,
) -> bool {
    if start >= end {
        spans.len() == 0
    } else {
        &&& spans.len() > 0
        &&& spans[0].0 == start
        &&& spans.last().1 == end
        &&& forall|i: int| 0 <= i < spans.len() ==> #[trigger] spans[i].0 < spans[i].1
        &&& forall|i: int| 0 <= i < spans.len() - 1 ==> #[trigger] spans[i].1 == spans[i + 1].0
        &&& forall|i: int| 0 <= i < spans.len() - 1 ==> cut(#[trigger] spans[i].1)
        &&& forall|i: int, t: u32|
            #![trigger spans[i], cut(t)]
            0 <= i < spans.len() && cut(t) ==> !(spans[i].0 < t && t < spans[i].1)
    }
}

proof fn lemma_partition_from_start(
    spans: Seq<(u32, u32)>,
    start: u32,
    end: u32,
    cut: spec_fn(u32) -> bool,
    i: int,
)
    requires
        start < end,
        is_partition(spans, start, end, cut),
        0 <= i < spans.len(),
    ensures
        start <= spans[i].0,
    decreases i,
{
    if i > 0 {
        lemma_partition_from_start(spans, start, end, cut, i - 1);
        assert(spans[i - 1].1 == spans[i].0);
    }
}

proof fn lemma_partition_to_end(
    spans: Seq<(u32, u32)>,
    start: u32,
    end: u32,
    cut: spec_fn(u32) -> bool,
    i: int,
)
    requires
        start < end,
        is_partition(spans, start, end, cut),
        0 <= i < spans.len(),
    ensures
        spans[i].1 <= end,
    decreases spans.len() - i,
{
    if i < spans.len() - 1 {
        lemma_partition_to_end(spans, start, end, cut, i + 1);
        assert(spans[i].1 == spans[i + 1].0);
    }
}

/// Every span of a partition of `[start, end)` lies within it.
pub proof fn lemma_partition_within(
    spans: Seq<(u32, u32)>,
    start: u32,
    end: u32,
    cut: spec_fn(u32) -> bool,
)
    requires
        is_partition(spans, start, end, cut),
    ensures
        forall|i: int|
            0 <= i < spans.len() ==> start <= #[trigger] spans[i].0 && spans[i].1 <= end,
{
    assert forall|i: int| 0 <= i < spans.len() implies start <= #[trigger] spans[i].0
        && spans[i].1 <= end by {
        lemma_partition_from_start(spans, start, end, cut, i);
        lemma_partition_to_end(spans, start, end, cut, i);
    }
}

proof fn lemma_partition_rest(spans: Seq<(u32, u32)>, start: u32, end: u32, cut: spec_fn(u32) -> bool)
    requires
        is_partition(spans, start, end, cut),
        spans.len() > 0,
    ensures
        spans.len() == 1 <==> spans[0].1 == end,
        is_partition(spans.drop_first(), spans[0].1, end, cut),
{
    lemma_partition_within(spans, start, end, cut);
    let rest = spans.drop_first();
    if spans.len() > 1 {
        assert(spans[0].1 == spans[1].0);
        assert(spans[1].0 < spans[1].1);
        assert(rest[0] == spans[1]);
        assert(rest.last() == spans.last());
        assert forall|i: int| 0 <= i < rest.len() implies #[trigger] rest[i].0 < rest[i].1 by {
            assert(rest[i] == spans[i + 1]);
        }
        assert forall|i: int| 0 <= i < rest.len() - 1 implies #[trigger] rest[i].1 == rest[i + 1].0 by {
            assert(rest[i] == spans[i + 1] && rest[i + 1] == spans[i + 2]);
        }
        assert forall|i: int| 0 <= i < rest.len() - 1 implies cut(#[trigger] rest[i].1) by {
            assert(rest[i] == spans[i + 1]);
        }
        assert forall|i: int, t: u32|
            #![trigger rest[i], cut(t)]
            0 <= i < rest.len() && cut(t) implies !(rest[i].0 < t && t < rest[i].1) by {
            assert(rest[i] == spans[i + 1]);
            assert(!(spans[i + 1].0 < t && t < spans[i + 1].1));
        }
    }
}

/// A partition is determined by its interval and its cuts: two partitions of the
/// same interval cut at the same times are the same spans.
pub proof fn partition_is_unique(
    a: Seq<(u32, u32)>,
    b: Seq<(u32, u32)>,
    start: u32,
    end: u32,
    cut: spec_fn(u32) -> bool,
)
    requires
        is_partition(a, start, end, cut),
        is_partition(b, start, end, cut),
    ensures
        a == b,
    decreases a.len(),
{
    if start >= end {
        assert(a =~= b);
    } else {
        lemma_partition_within(a, start, end, cut);
        lemma_partition_within(b, start, end, cut);
        lemma_partition_rest(a, start, end, cut);
        lemma_partition_rest(b, start, end, cut);
        let x = a[0].1;
        let y = b[0].1;
        if x < y {
            assert(a.len() > 1);
            assert(cut(a[0].1));
            assert(!(b[0].0 < x && x < b[0].1));
        }
        if y < x {
            assert(b.len() > 1);
            assert(cut(b[0].1));
            assert(!(a[0].0 < y && y < a[0].1));
        }
        assert(x == y);
        partition_is_unique(a.drop_first(), b.drop_first(), x, end, cut);
        assert(a =~= seq![a[0]] + a.drop_first());
        assert(b =~= seq![b[0]] + b.drop_first());
    }
}

/// `t` lies on the grid of multiples of `length`; a `length` of 0 lays no grid.
pub open spec fn on_grid(length: u32, t: u32) -> bool {
    length > 0 && t > 0 && t % length == 0
}

/// Every multiple of `length` below `end`, in increasing order: `length`,
/// `2·length`, and so on. A `length` of 0 asks for no grid.
pub fn grid(length: u32, end: u32) -> (times: Vec<u32>)
    ensures
        forall|t: u32| #[trigger] times@.contains(t) <==> (on_grid(length, t) && t < end),
        forall|i: int| 0 <= i < times@.len() ==> #[trigger] times@[i] == (i + 1) * length,
{
    let mut times: Vec<u32> = Vec::new();
    if length == 0 {
        return times;
    }
    let mut t: u32 = length;
    proof {
        assert forall|x: u32| #[trigger] times@.contains(x) <==> (on_grid(length, x) && x < t) by {
            if 0 < x && x < t {
                vstd::arithmetic::div_mod::lemma_small_mod(x as nat, length as nat);
            }
        }
        vstd::arithmetic::div_mod::lemma_mod_self_0(length as int);
        assert(times@.len() == 0);
        vstd::arithmetic::mul::lemma_mul_basics(length as int);
    }
    while t < end
        invariant
            length > 0,
            t > 0,
            t % length == 0,
            forall|x: u32| #[trigger] times@.contains(x) <==> (on_grid(length, x) && x < t),
            forall|x: u32| #[trigger] times@.contains(x) ==> x < end,
            forall|i: int| 0 <= i < times@.len() ==> #[trigger] times@[i] == (i + 1) * length,
            t == (times@.len() + 1) * length,
        decreases u32::MAX - t,
    {
        let ghost before = times@;
        times.push(t);
        proof {
            assert forall|x: u32| #[trigger] times@.contains(x) <==> (on_grid(length, x) && x < t
                + 1) by {
                if times@.contains(x) && x != t {
                    let k = choose|k: int| 0 <= k < times@.len() && times@[k] == x;
                    assert(k < before.len());
                    assert(before.contains(x));
                }
                if on_grid(length, x) && x < t + 1 && x != t {
                    assert(before.contains(x));
                    let k = choose|k: int| 0 <= k < before.len() && before[k] == x;
                    assert(times@[k] == x);
                }
                if x == t {
                    assert(times@[times@.len() - 1] == x);
                }
            }
        }
        proof {
            let n = times@.len() as int;
            assert(t + length == (n + 1) * length) by (nonlinear_arith)
                requires
                    t == n * length,
            ;
        }
        match t.checked_add(length) {
            Some(next) => {
                proof {
                    assert forall|x: u32| #[trigger] times@.contains(x) <==> (on_grid(length, x) && x
                        < next) by {
                        if t < x && x < next {
                            lemma_no_multiple_between(t as int, x as int, length as int);
                        }
                    }
                    lemma_add_multiple(t as int, length as int);
                }
                t = next;
            },
            None => {
                proof {
                    assert forall|x: u32| #[trigger] times@.contains(x) <==> (on_grid(length, x) && x
                        < end) by {
                        if t < x {
                            lemma_no_multiple_between(t as int, x as int, length as int);
                        }
                    }
                }
                return times;
            },
        }
    }
    times
}

proof fn lemma_no_multiple_between(t: int, x: int, length: int)
    requires
        length > 0,
        t >= 0,
        t % length == 0,
        t < x < t + length,
    ensures
        x % length != 0,
{
    vstd::arithmetic::div_mod::lemma_fundamental_div_mod(t, length);
    vstd::arithmetic::div_mod::lemma_fundamental_div_mod(x, length);
    if x % length == 0 {
        let q1 = t / length;
        let q2 = x / length;
        assert(t == length * q1);
        assert(x == length * q2);
        assert(q1 * length < q2 * length) by (nonlinear_arith)
            requires
                t == length * q1,
                x == length * q2,
                t < x,
        ;
        vstd::arithmetic::mul::lemma_mul_strict_inequality_converse(q1, q2, length);
        assert(q2 * length < (q1 + 1) * length) by (nonlinear_arith)
            requires
                t == length * q1,
                x == length * q2,
                x < t + length,
        ;
        vstd::arithmetic::mul::lemma_mul_strict_inequality_converse(q2, q1 + 1, length);
    }
}

proof fn lemma_add_multiple(t: int, length: int)
    requires
        length > 0,
        t >= 0,
        t % length == 0,
    ensures
        (t + length) % length == 0,
{
    vstd::arithmetic::div_mod::lemma_mod_add_multiples_vanish(t, length);
}

/// Inserts `t` into the strictly increasing `points`, unless it is already there.
fn insert_point(points: &mut Vec<u32>, t: u32)
    requires
        forall|i: int, j: int| 0 <= i < j < old(points)@.len() ==> old(points)@[i] < old(points)@[j],
    ensures
        forall|i: int, j: int|
            0 <= i < j < final(points)@.len() ==> final(points)@[i] < final(points)@[j],
        forall|x: u32| #[trigger] final(points)@.contains(x) <==> (old(points)@.contains(x) || x
            == t),
{
    let ghost before = points@;
    let mut k: usize = 0;
    while k < points.len() && points[k] < t
        invariant
            k <= points@.len(),
            points@ == before,
            forall|i: int| 0 <= i < k ==> points@[i] < t,
        decreases points@.len() - k,
    {
        k = k + 1;
    }
    if k < points.len() && points[k] == t {
        return;
    }
    points.insert(k, t);
    proof {
        assert(points@ == before.insert(k as int, t));
        assert forall|x: u32| #[trigger] points@.contains(x) <==> (before.contains(x) || x == t) by {
            if points@.contains(x) {
                let m = choose|m: int| 0 <= m < points@.len() && points@[m] == x;
                if m < k {
                    assert(before[m] == x);
                } else if m > k {
                    assert(before[m - 1] == x);
                }
            }
            if before.contains(x) {
                let m = choose|m: int| 0 <= m < before.len() && before[m] == x;
                if m < k {
                    assert(points@[m] == x);
                } else {
                    assert(points@[m + 1] == x);
                }
            }
            if x == t {
                assert(points@[k as int] == x);
            }
        }
    }
}

/// The consecutive intervals `[start, end)` falls into when divided at each time
/// in `at`. A time outside it names no interval, and a repeated one divides once,
/// so both are ignored.
pub fn intervals(start: u32, end: u32, at: &[u32]) -> (spans: Vec<(u32, u32)>)
    requires
        start <= end,
    ensures
        is_partition(spans@, start, end, |t: u32| at@.contains(t)),
{
    let mut points: Vec<u32> = Vec::new();
    for i in 0..at.len()
        invariant
            start <= end,
            forall|a: int, b: int| 0 <= a < b < points@.len() ==> points@[a] < points@[b],
            forall|x: u32| #[trigger] points@.contains(x) <==> (start < x < end
                && at@.take(i as int).contains(x)),
    {
        let t = at[i];
        let ghost before = points@;
        if start < t && t < end {
            insert_point(&mut points, t);
        }
        proof {
            assert forall|x: u32| #[trigger] points@.contains(x) <==> (start < x < end && at@.take(
                i + 1,
            ).contains(x)) by {
                if at@.take(i + 1).contains(x) && x != t {
                    let m = choose|m: int| 0 <= m < at@.take(i + 1).len() && #[trigger] at@.take(i + 1)[m] == x;
                    assert(at@.take(i as int)[m] == x);
                }
                if at@.take(i as int).contains(x) {
                    let m = choose|m: int| 0 <= m < at@.take(i as int).len() && #[trigger] at@.take(i as int)[m] == x;
                    assert(at@.take(i + 1)[m] == x);
                }
                if x == t {
                    assert(at@.take(i + 1)[i as int] == x);
                }
            }
        }
    }
    proof {
        assert(at@.take(at@.len() as int) =~= at@);
    }
    let mut spans: Vec<(u32, u32)> = Vec::new();
    if start == end {
        return spans;
    }
    // The edges in order: `start`, the points, `end`.
    let ghost edges = seq![start] + points@ + seq![end];
    let n = points.len();
    proof {
        assert forall|a: int, b: int| 0 <= a < b < edges.len() implies edges[a] < edges[b] by {
            if a > 0 && b < edges.len() - 1 {
                assert(edges[a] == points@[a - 1]);
                assert(edges[b] == points@[b - 1]);
            } else if a == 0 && b < edges.len() - 1 {
                assert(points@.contains(points@[b - 1]));
            } else if a > 0 && b == edges.len() - 1 {
                assert(points@.contains(points@[a - 1]));
            }
        }
    }
    let mut prev = start;
    for i in 0..n
        invariant
            n == points@.len(),
            edges == seq![start] + points@ + seq![end],
            prev == edges[i as int],
            spans@.len() == i,
            forall|k: int| 0 <= k < i ==> #[trigger] spans@[k] == (edges[k], edges[k + 1]),
    {
        let next = points[i];
        proof {
            assert(edges[i + 1] == points@[i as int]);
        }
        spans.push((prev, next));
        prev = next;
    }
    spans.push((prev, end));
    proof {
        assert forall|k: int| 0 <= k < n + 1 implies #[trigger] spans@[k] == (edges[k], edges[k + 1]) by {
        }
        assert(spans@[0].0 == start);
        assert(spans@.last().1 == end);
        assert forall|k: int| 0 <= k < spans@.len() implies #[trigger] spans@[k].0 < spans@[k].1 by {
            assert(edges[k] < edges[k + 1]);
        }
        assert forall|k: int| 0 <= k < spans@.len() - 1 implies #[trigger] spans@[k].1 == spans@[k
            + 1].0 by {
            assert(spans@[k + 1] == (edges[k + 1], edges[k + 2]));
        }
    }
    proof {
        let cut = |t: u32| at@.contains(t);
        assert forall|k: int, t: u32|
            #![trigger spans@[k], cut(t)]
            0 <= k < spans@.len() && cut(t) implies !(spans@[k].0 < t && t < spans@[k].1) by {
            if spans@[k].0 < t && t < spans@[k].1 {
                assert(start < t < end) by {
                    assert(edges[0] <= edges[k]);
                    assert(edges[k + 1] <= edges[n + 1]);
                }
                assert(points@.contains(t));
                let m = choose|m: int| 0 <= m < points@.len() && points@[m] == t;
                assert(edges[m + 1] == t);
                if m + 1 <= k {
                } else if m + 1 >= k + 1 {
                }
            }
        }
        assert forall|k: int| 0 <= k < spans@.len() - 1 implies cut(#[trigger] spans@[k].1) by {
            assert(edges[k + 1] == points@[k]);
            assert(points@.contains(points@[k]));
        }
    }
    spans
}

} // verus!
