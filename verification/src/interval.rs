//! Intervals: normalized coordinate ranges with optional labels, their
//! basic operations, and the overlap splitter.

use vstd::prelude::*;

verus! {

use crate::Bound;

/// A coordinate range with an optional, opaque label. Construction
/// through `new` reorders a reversed pair, so `bounds.0 <= bounds.1`
/// holds for every interval that this crate builds.
pub struct TBLInterval<L> {
    pub bounds: Bound,
    pub label: Option<L>,
}

/// What `TBLInterval::new` stores for a given input pair.
pub open spec fn spec_normalize(bounds: Bound) -> Bound {
    if bounds.1 < bounds.0 {
        (bounds.1, bounds.0)
    } else {
        bounds
    }
}

impl<L> TBLInterval<L> {
    /// The stored bounds are ordered.
    pub open spec fn wf(self) -> bool {
        self.bounds.0 <= self.bounds.1
    }

    pub fn new(bounds: Bound, label: Option<L>) -> (r: Self)
        ensures
            r.bounds == spec_normalize(bounds),
            r.label == label,
            r.wf(),
    {
        let ordered_bounds = if bounds.1 < bounds.0 {
            (bounds.1, bounds.0)
        } else {
            bounds
        };
        TBLInterval { bounds: ordered_bounds, label }
    }
}

impl<L: Clone> Clone for TBLInterval<L> {
    /// The clone keeps the bounds exactly; the label is whatever
    /// `L::clone` returns for the original label.
    fn clone(&self) -> (r: Self)
        ensures
            r.bounds == self.bounds,
            cloned::<Option<L>>(self.label, r.label),
    {
        TBLInterval { bounds: self.bounds, label: self.label.clone() }
    }
}

/// An interval is empty when its span has collapsed to a single point.
pub fn is_empty<L>(interval: &TBLInterval<L>) -> (r: bool)
    ensures
        r == (interval.bounds.0 == interval.bounds.1),
{
    interval.bounds.0 == interval.bounds.1
}

/// Overlap test for a pair assumed pre-sorted by start: the right
/// interval's start falls within [left.start, left.end). Touching at
/// the boundary is not an overlap.
pub open spec fn spec_intersect(left: Bound, right: Bound) -> bool {
    left.0 <= right.0 && right.0 < left.1
}

pub fn intersect<L>(left: &TBLInterval<L>, right: &TBLInterval<L>) -> (r: bool)
    ensures
        r == spec_intersect(left.bounds, right.bounds),
{
    left.bounds.0 <= right.bounds.0 && right.bounds.0 < left.bounds.1
}

/// Pre-scaling width of an interval in characters: the span, truncated
/// to the non-negative range that fits the machine.
pub open spec fn spec_size(b: Bound) -> int {
    if b.1 <= b.0 {
        0
    } else if b.1 - b.0 > usize::MAX {
        usize::MAX as int
    } else {
        b.1 - b.0
    }
}

pub fn size<L>(interval: &TBLInterval<L>) -> (r: usize)
    ensures
        r == spec_size(interval.bounds),
{
    let (a, b) = interval.bounds;
    if b <= a {
        0
    } else {
        let d: i128 = (b as i128) - (a as i128);
        if d > (usize::MAX as i128) {
            usize::MAX
        } else {
            d as usize
        }
    }
}

/// Fold of a list of bounds to (least start, greatest end); `None` for
/// an empty list.
pub open spec fn spec_boundaries(s: Seq<Bound>) -> Option<Bound>
    decreases s.len(),
{
    if s.len() == 0 {
        None
    } else if s.len() == 1 {
        Some(s[0])
    } else {
        let (ma, mb) = spec_boundaries(s.drop_last()).unwrap();
        let (a, b) = s.last();
        Some((spec_min_i64(a, ma), spec_max_i64(b, mb)))
    }
}

pub open spec fn spec_min_i64(a: i64, b: i64) -> i64 {
    if a < b {
        a
    } else {
        b
    }
}

pub open spec fn spec_max_i64(a: i64, b: i64) -> i64 {
    if a > b {
        a
    } else {
        b
    }
}

/// The bounds of a list of intervals, in order.
pub open spec fn bounds_seq<L>(s: Seq<TBLInterval<L>>) -> Seq<Bound> {
    s.map_values(|iv: TBLInterval<L>| iv.bounds)
}

pub fn boundaries<L>(intervals: &[TBLInterval<L>]) -> (r: Option<Bound>)
    ensures
        r == spec_boundaries(bounds_seq(intervals@)),
{
    let ghost bs = bounds_seq(intervals@);
    let mut acc: Option<Bound> = None;
    let mut k: usize = 0;
    while k < intervals.len()
        invariant
            0 <= k <= intervals@.len(),
            bs == bounds_seq(intervals@),
            acc == spec_boundaries(bs.take(k as int)),
        decreases intervals@.len() - k,
    {
        let (a, b) = intervals[k].bounds;
        acc = match acc {
            None => Some((a, b)),
            Some((ma, mb)) => Some(
                (if a < ma { a } else { ma }, if b > mb { b } else { mb }),
            ),
        };
        proof {
            assert(bs.take(k + 1).drop_last() =~= bs.take(k as int));
            assert(bs.take(k + 1).last() == bs[k as int]);
        }
        k = k + 1;
    }
    proof {
        assert(bs.take(intervals@.len() as int) =~= bs);
    }
    acc
}

/// Componentwise widening of two bounds.
pub fn union(bound: &Bound, other: &Bound) -> (r: Bound)
    ensures
        r.0 == spec_min_i64(bound.0, other.0),
        r.1 == spec_max_i64(bound.1, other.1),
{
    let (a0, b0) = *bound;
    let (a1, b1) = *other;
    (if a0 < a1 { a0 } else { a1 }, if b0 > b1 { b0 } else { b1 })
}

/// The unlabeled gap between two adjacent intervals, spanning from the
/// left one's end to the right one's start.
pub fn space_between<L>(left: &TBLInterval<L>, right: &TBLInterval<L>) -> (r: TBLInterval<L>)
    ensures
        r.bounds == spec_normalize((left.bounds.1, right.bounds.0)),
        r.label.is_none(),
        r.wf(),
{
    TBLInterval::new((left.bounds.1, right.bounds.0), None)
}

/// Positions of the non-empty bounds of `s`, in their original order.
pub open spec fn spec_filter_idx(s: Seq<Bound>) -> Seq<int>
    decreases s.len(),
{
    if s.len() == 0 {
        Seq::empty()
    } else {
        let rest = spec_filter_idx(s.drop_last());
        if s.last().0 == s.last().1 {
            rest
        } else {
            rest.push(s.len() - 1)
        }
    }
}

/// Stable insertion of position `i` into a list of positions sorted by
/// start: `i` lands after every position whose start is not greater
/// than its own.
pub open spec fn spec_insert_idx(s: Seq<Bound>, sorted: Seq<int>, i: int) -> Seq<int>
    decreases sorted.len(),
{
    if sorted.len() == 0 {
        seq![i]
    } else if s[sorted.last()].0 > s[i].0 {
        spec_insert_idx(s, sorted.drop_last(), i).push(sorted.last())
    } else {
        sorted.push(i)
    }
}

pub open spec fn spec_sort_idx(s: Seq<Bound>, idxs: Seq<int>) -> Seq<int>
    decreases idxs.len(),
{
    if idxs.len() == 0 {
        Seq::empty()
    } else {
        spec_insert_idx(s, spec_sort_idx(s, idxs.drop_last()), idxs.last())
    }
}

/// Positions of the non-empty bounds of `s`, stably sorted by start:
/// positions with equal starts keep their original relative order.
pub open spec fn spec_order(s: Seq<Bound>) -> Seq<int> {
    spec_sort_idx(s, spec_filter_idx(s))
}

pub open spec fn idx_view(v: Seq<usize>) -> Seq<int> {
    v.map_values(|u: usize| u as int)
}

proof fn lemma_insert_idx_split(s: Seq<Bound>, sorted: Seq<int>, i: int, j: int)
    requires
        0 <= j <= sorted.len(),
        forall|k: int| j <= k < sorted.len() ==> s[#[trigger] sorted[k]].0 > s[i].0,
        j > 0 ==> s[sorted[j - 1]].0 <= s[i].0,
    ensures
        spec_insert_idx(s, sorted, i) == sorted.take(j) + seq![i] + sorted.skip(j),
    decreases sorted.len(),
{
    if j == sorted.len() {
        if sorted.len() == 0 {
            assert(spec_insert_idx(s, sorted, i) =~= sorted.take(j) + seq![i] + sorted.skip(j));
        } else {
            assert(spec_insert_idx(s, sorted, i) == sorted.push(i));
            assert(sorted.push(i) =~= sorted.take(j) + seq![i] + sorted.skip(j));
        }
    } else {
        assert(s[sorted[sorted.len() - 1]].0 > s[i].0);
        lemma_insert_idx_split(s, sorted.drop_last(), i, j);
        assert(sorted.drop_last().take(j) =~= sorted.take(j));
        assert(spec_insert_idx(s, sorted, i) == (sorted.take(j) + seq![i]
            + sorted.drop_last().skip(j)).push(sorted.last()));
        assert((sorted.take(j) + seq![i] + sorted.drop_last().skip(j)).push(sorted.last())
            =~= sorted.take(j) + seq![i] + sorted.skip(j));
    }
}

/// Computes `spec_order` for the bounds of a list of intervals: the
/// positions of its non-empty members, stably sorted by start.
pub fn order_indices<L>(intervals: &[TBLInterval<L>]) -> (r: Vec<usize>)
    ensures
        idx_view(r@) == spec_order(bounds_seq(intervals@)),
        forall|k: int| 0 <= k < r@.len() ==> #[trigger] r@[k] < intervals@.len(),
{
    let ghost bs = bounds_seq(intervals@);
    let mut ord: Vec<usize> = Vec::new();
    let mut k: usize = 0;
    while k < intervals.len()
        invariant
            0 <= k <= intervals@.len(),
            bs == bounds_seq(intervals@),
            idx_view(ord@) == spec_sort_idx(bs, spec_filter_idx(bs.take(k as int))),
            forall|h: int| 0 <= h < ord@.len() ==> #[trigger] ord@[h] < intervals@.len(),
        decreases intervals@.len() - k,
    {
        proof {
            assert(bs.take(k + 1).drop_last() =~= bs.take(k as int));
            assert(bs.take(k + 1).last() == bs[k as int]);
        }
        if intervals[k].bounds.0 != intervals[k].bounds.1 {
            let ghost prev = idx_view(ord@);
            let mut j: usize = ord.len();
            while j > 0 && intervals[ord[j - 1]].bounds.0 > intervals[k].bounds.0
                invariant
                    0 <= j <= ord@.len(),
                    bs == bounds_seq(intervals@),
                    prev == idx_view(ord@),
                    0 <= k < intervals@.len(),
                    forall|h: int| 0 <= h < ord@.len() ==> #[trigger] ord@[h]
                        < intervals@.len(),
                    forall|h: int| j <= h < prev.len() ==> s_start(bs, #[trigger] prev[h])
                        > bs[k as int].0,
                decreases j,
            {
                j = j - 1;
            }
            proof {
                lemma_insert_idx_split(bs, prev, k as int, j as int);
            }
            ord.insert(j, k);
            proof {
                assert(idx_view(ord@) =~= prev.take(j as int) + seq![k as int] + prev.skip(
                    j as int,
                ));
                assert(spec_filter_idx(bs.take(k + 1)) == spec_filter_idx(bs.take(
                    k as int,
                )).push(k as int));
                assert(spec_filter_idx(bs.take(k + 1)).drop_last() =~= spec_filter_idx(
                    bs.take(k as int),
                ));
            }
        } else {
            proof {
                assert(spec_filter_idx(bs.take(k + 1)) == spec_filter_idx(bs.take(k as int)));
            }
        }
        k = k + 1;
    }
    proof {
        assert(bs.take(intervals@.len() as int) =~= bs);
    }
    ord
}

/// Start of the bound at position `i` of `s`.
pub open spec fn s_start(s: Seq<Bound>, i: int) -> i64 {
    s[i].0
}

/// A list of positions into `s` whose starts are nondecreasing.
pub open spec fn idx_sorted(s: Seq<Bound>, t: Seq<int>) -> bool {
    forall|a: int, b: int| 0 <= a <= b < t.len() ==> s[#[trigger] t[a]].0 <= s[#[trigger] t[b]].0
}

proof fn lemma_insert_idx_elems(s: Seq<Bound>, sorted: Seq<int>, i: int)
    ensures
        spec_insert_idx(s, sorted, i).len() == sorted.len() + 1,
        forall|h: int| 0 <= h < sorted.len() + 1 ==> #[trigger] spec_insert_idx(s, sorted, i)[h]
            == i || sorted.contains(spec_insert_idx(s, sorted, i)[h]),
    decreases sorted.len(),
{
    if sorted.len() == 0 {
    } else if s[sorted.last()].0 > s[i].0 {
        lemma_insert_idx_elems(s, sorted.drop_last(), i);
        assert forall|h: int| 0 <= h < sorted.len() + 1 implies #[trigger] spec_insert_idx(
            s,
            sorted,
            i,
        )[h] == i || sorted.contains(spec_insert_idx(s, sorted, i)[h]) by {
            let res = spec_insert_idx(s, sorted, i);
            if h < sorted.len() {
                let e = spec_insert_idx(s, sorted.drop_last(), i)[h];
                if e != i {
                    let w = choose|w: int| 0 <= w < sorted.drop_last().len()
                        && sorted.drop_last()[w] == e;
                    assert(sorted[w] == e);
                }
            } else {
                assert(res[h] == sorted.last());
                assert(sorted[sorted.len() - 1] == sorted.last());
            }
        }
    } else {
        assert forall|h: int| 0 <= h < sorted.len() + 1 implies #[trigger] spec_insert_idx(
            s,
            sorted,
            i,
        )[h] == i || sorted.contains(spec_insert_idx(s, sorted, i)[h]) by {
            if h < sorted.len() {
                assert(sorted.push(i)[h] == sorted[h]);
            }
        }
    }
}

proof fn lemma_insert_idx_sorted(s: Seq<Bound>, sorted: Seq<int>, i: int)
    requires
        idx_sorted(s, sorted),
    ensures
        idx_sorted(s, spec_insert_idx(s, sorted, i)),
    decreases sorted.len(),
{
    if sorted.len() == 0 {
    } else if s[sorted.last()].0 > s[i].0 {
        assert(idx_sorted(s, sorted.drop_last()));
        lemma_insert_idx_sorted(s, sorted.drop_last(), i);
        lemma_insert_idx_elems(s, sorted.drop_last(), i);
        let res = spec_insert_idx(s, sorted, i);
        let inner = spec_insert_idx(s, sorted.drop_last(), i);
        assert forall|a: int, b: int| 0 <= a <= b < res.len() implies s[#[trigger] res[a]].0
            <= s[#[trigger] res[b]].0 by {
            if b < inner.len() {
            } else {
                assert(res[b] == sorted.last());
                if a < inner.len() {
                    if inner[a] == i {
                    } else {
                        let w = choose|w: int| 0 <= w < sorted.drop_last().len()
                            && sorted.drop_last()[w] == inner[a];
                        assert(s[sorted[w]].0 <= s[sorted.last()].0);
                    }
                }
            }
        }
    } else {
        let res = sorted.push(i);
        assert forall|a: int, b: int| 0 <= a <= b < res.len() implies s[#[trigger] res[a]].0
            <= s[#[trigger] res[b]].0 by {
            if b < sorted.len() {
            } else {
                assert(res[b] == i);
                if a < sorted.len() {
                    assert(s[sorted[a]].0 <= s[sorted.last()].0);
                }
            }
        }
    }
}

proof fn lemma_filter_idx_elems(s: Seq<Bound>)
    ensures
        forall|h: int| 0 <= h < spec_filter_idx(s).len() ==> 0 <= #[trigger] spec_filter_idx(
            s,
        )[h] < s.len() && s[spec_filter_idx(s)[h]].0 != s[spec_filter_idx(s)[h]].1,
    decreases s.len(),
{
    if s.len() == 0 {
    } else {
        lemma_filter_idx_elems(s.drop_last());
        assert forall|h: int| 0 <= h < spec_filter_idx(s).len() implies 0
            <= #[trigger] spec_filter_idx(s)[h] < s.len() && s[spec_filter_idx(s)[h]].0
            != s[spec_filter_idx(s)[h]].1 by {
            let rest = spec_filter_idx(s.drop_last());
            if h < rest.len() {
                assert(s.drop_last()[rest[h]] == s[rest[h]]);
            }
        }
    }
}

/// Every position that `spec_order` lists points at a non-empty bound
/// of `s`, and their starts come out nondecreasing.
pub proof fn lemma_order_props(s: Seq<Bound>)
    ensures
        forall|h: int| 0 <= h < spec_order(s).len() ==> 0 <= #[trigger] spec_order(s)[h]
            < s.len() && s[spec_order(s)[h]].0 != s[spec_order(s)[h]].1,
        idx_sorted(s, spec_order(s)),
{
    lemma_filter_idx_elems(s);
    lemma_sort_idx_props(s, spec_filter_idx(s));
}

proof fn lemma_sort_idx_props(s: Seq<Bound>, idxs: Seq<int>)
    requires
        forall|h: int| 0 <= h < idxs.len() ==> 0 <= #[trigger] idxs[h] < s.len()
            && s[idxs[h]].0 != s[idxs[h]].1,
    ensures
        forall|h: int| 0 <= h < spec_sort_idx(s, idxs).len() ==> 0 <= #[trigger] spec_sort_idx(
            s,
            idxs,
        )[h] < s.len() && s[spec_sort_idx(s, idxs)[h]].0 != s[spec_sort_idx(s, idxs)[h]].1,
        idx_sorted(s, spec_sort_idx(s, idxs)),
        spec_sort_idx(s, idxs).len() == idxs.len(),
    decreases idxs.len(),
{
    if idxs.len() == 0 {
    } else {
        assert(forall|h: int| 0 <= h < idxs.drop_last().len() ==> 0 <= #[trigger] idxs.drop_last()[
            h] < s.len() && s[idxs.drop_last()[h]].0 != s[idxs.drop_last()[h]].1);
        lemma_sort_idx_props(s, idxs.drop_last());
        let inner = spec_sort_idx(s, idxs.drop_last());
        let x = idxs.last();
        lemma_insert_idx_sorted(s, inner, x);
        lemma_insert_idx_elems(s, inner, x);
        assert(0 <= x < s.len() && s[x].0 != s[x].1);
        assert forall|h: int| 0 <= h < spec_sort_idx(s, idxs).len() implies 0
            <= #[trigger] spec_sort_idx(s, idxs)[h] < s.len() && s[spec_sort_idx(s, idxs)[h]].0
            != s[spec_sort_idx(s, idxs)[h]].1 by {
            let e = spec_sort_idx(s, idxs)[h];
            if e != x {
                assert(inner.contains(e));
                let w = choose|w: int| 0 <= w < inner.len() && inner[w] == e;
            }
        }
    }
}

/// The identity list of positions 0, 1, .., n-1.
pub open spec fn ident(n: int) -> Seq<int> {
    Seq::new(n as nat, |k: int| k)
}

/// On a list whose bounds are all non-empty and already sorted by
/// start, `spec_order` is the identity: nothing is dropped or moved.
pub proof fn lemma_order_identity(s: Seq<Bound>)
    requires
        forall|j: int| 0 <= j < s.len() ==> s[j].0 != #[trigger] s[j].1,
        forall|i: int, j: int| #![trigger s[i], s[j]] 0 <= i <= j < s.len() ==> s[i].0 <= s[j].0,
    ensures
        spec_order(s) == ident(s.len() as int),
{
    lemma_filter_idx_identity(s, s.len() as int);
    assert(s.take(s.len() as int) =~= s);
    lemma_sort_idx_identity(s, s.len() as int);
}

proof fn lemma_filter_idx_identity(s: Seq<Bound>, n: int)
    requires
        0 <= n <= s.len(),
        forall|j: int| 0 <= j < s.len() ==> s[j].0 != #[trigger] s[j].1,
    ensures
        spec_filter_idx(s.take(n)) == ident(n),
    decreases n,
{
    if n == 0 {
        assert(spec_filter_idx(s.take(0)) =~= ident(0));
    } else {
        lemma_filter_idx_identity(s, n - 1);
        assert(s.take(n).drop_last() =~= s.take(n - 1));
        assert(s.take(n).last() == s[n - 1]);
        assert(spec_filter_idx(s.take(n)) =~= ident(n - 1).push(n - 1));
        assert(ident(n - 1).push(n - 1) =~= ident(n));
        assert(s.take(s.len() as int) =~= s);
    }
}

/// One step of the splitter: position `i` is prepended to the first
/// group whose current first member it does not overlap, or starts a
/// new group at the end when none accepts it.
pub open spec fn spec_place(s: Seq<Bound>, groups: Seq<Seq<int>>, i: int) -> Seq<Seq<int>>
    decreases groups.len(),
{
    if groups.len() == 0 {
        seq![seq![i]]
    } else if !spec_intersect(s[i], s[groups[0][0]]) {
        seq![seq![i] + groups[0]] + groups.drop_first()
    } else {
        seq![groups[0]] + spec_place(s, groups.drop_first(), i)
    }
}

/// The groups that the splitter forms for positions `from..s.len()`,
/// processed from the tail of the list.
pub open spec fn spec_split_from(s: Seq<Bound>, from: int) -> Seq<Seq<int>>
    decreases s.len() - from,
{
    if from < 0 || from >= s.len() {
        Seq::empty()
    } else {
        spec_place(s, spec_split_from(s, from + 1), from)
    }
}

/// Partition of the positions of `s` into groups such that no member
/// overlaps the member that follows it in its group.
pub open spec fn spec_split(s: Seq<Bound>) -> Seq<Seq<int>> {
    spec_split_from(s, 0)
}

pub open spec fn groups_view<L>(r: Seq<Vec<TBLInterval<L>>>) -> Seq<Seq<TBLInterval<L>>> {
    r.map_values(|v: Vec<TBLInterval<L>>| v@)
}

/// `r` holds exactly the members of `input`, arranged as `spec_split`
/// arranges their positions.
pub open spec fn split_matches<L>(input: Seq<TBLInterval<L>>, r: Seq<Seq<TBLInterval<L>>>) -> bool {
    let gs = spec_split(bounds_seq(input));
    &&& r.len() == gs.len()
    &&& forall|g: int| 0 <= g < gs.len() ==> (#[trigger] r[g]).len() == gs[g].len()
    &&& forall|g: int, k: int|
        0 <= g < gs.len() && 0 <= k < gs[g].len() ==> 0 <= #[trigger] gs[g][k] < input.len()
            && r[g][k] == input[gs[g][k]]
}

/// Within one group, every member's position is below its successor's
/// and does not overlap it.
pub open spec fn grp_ok(s: Seq<Bound>, t: Seq<int>) -> bool {
    forall|k: int| 0 < k < t.len() ==> t[k - 1] < #[trigger] t[k] && !spec_intersect(
        s[t[k - 1]],
        s[t[k]],
    )
}

proof fn lemma_place_found(s: Seq<Bound>, groups: Seq<Seq<int>>, i: int, g: int)
    requires
        0 <= g < groups.len(),
        forall|h: int| 0 <= h < groups.len() ==> (#[trigger] groups[h]).len() > 0,
        forall|h: int| 0 <= h < g ==> spec_intersect(s[i], s[#[trigger] groups[h][0]]),
        !spec_intersect(s[i], s[groups[g][0]]),
    ensures
        spec_place(s, groups, i) == groups.update(g, seq![i] + groups[g]),
    decreases g,
{
    if g == 0 {
        assert(seq![seq![i] + groups[0]] + groups.drop_first() =~= groups.update(
            0,
            seq![i] + groups[0],
        ));
    } else {
        assert(spec_intersect(s[i], s[groups[0][0]]));
        assert(forall|h: int| 0 <= h < g - 1 ==> spec_intersect(
            s[i],
            s[#[trigger] groups.drop_first()[h][0]],
        ));
        lemma_place_found(s, groups.drop_first(), i, g - 1);
        assert(seq![groups[0]] + groups.drop_first().update(g - 1, seq![i] + groups[g])
            =~= groups.update(g, seq![i] + groups[g]));
    }
}

proof fn lemma_place_none(s: Seq<Bound>, groups: Seq<Seq<int>>, i: int)
    requires
        forall|h: int| 0 <= h < groups.len() ==> (#[trigger] groups[h]).len() > 0,
        forall|h: int| 0 <= h < groups.len() ==> spec_intersect(s[i], s[#[trigger] groups[h][0]]),
    ensures
        spec_place(s, groups, i) == groups.push(seq![i]),
    decreases groups.len(),
{
    if groups.len() == 0 {
        assert(spec_place(s, groups, i) =~= groups.push(seq![i]));
    } else {
        lemma_place_none(s, groups.drop_first(), i);
        assert(seq![groups[0]] + groups.drop_first().push(seq![i]) =~= groups.push(seq![i]));
    }
}

proof fn lemma_place_props(s: Seq<Bound>, groups: Seq<Seq<int>>, i: int, lo: int, hi: int)
    requires
        forall|g: int| 0 <= g < groups.len() ==> (#[trigger] groups[g]).len() > 0,
        forall|g: int, k: int| 0 <= g < groups.len() && 0 <= k < groups[g].len() ==> lo
            <= #[trigger] groups[g][k] < hi,
        forall|g: int| 0 <= g < groups.len() ==> grp_ok(s, #[trigger] groups[g]),
        i < lo,
        i < hi,
    ensures
        forall|g: int| 0 <= g < spec_place(s, groups, i).len() ==> (#[trigger] spec_place(
            s,
            groups,
            i,
        )[g]).len() > 0,
        forall|g: int, k: int|
            0 <= g < spec_place(s, groups, i).len() && 0 <= k < spec_place(s, groups, i)[g].len()
                ==> i <= #[trigger] spec_place(s, groups, i)[g][k] < hi,
        forall|g: int| 0 <= g < spec_place(s, groups, i).len() ==> grp_ok(
            s,
            #[trigger] spec_place(s, groups, i)[g],
        ),
    decreases groups.len(),
{
    let res = spec_place(s, groups, i);
    if groups.len() == 0 {
        assert(res == seq![seq![i]]);
        assert(grp_ok(s, seq![i]));
    } else if !spec_intersect(s[i], s[groups[0][0]]) {
        let ng = seq![i] + groups[0];
        assert forall|k: int| 0 < k < ng.len() implies #[trigger] ng[k - 1] < ng[k]
            && !spec_intersect(s[ng[k - 1]], s[ng[k]]) by {
            if k == 1 {
                assert(ng[0] == i);
                assert(ng[1] == groups[0][0]);
            } else {
                assert(ng[k - 1] == groups[0][k - 2]);
                assert(ng[k] == groups[0][k - 1]);
                assert(grp_ok(s, groups[0]));
            }
        }
        assert(grp_ok(s, ng));
        assert forall|g: int| 0 <= g < res.len() implies grp_ok(s, #[trigger] res[g]) by {
            if g > 0 {
                assert(res[g] == groups[g]);
            }
        }
    } else {
        let rest = spec_place(s, groups.drop_first(), i);
        lemma_place_props(s, groups.drop_first(), i, lo, hi);
        assert forall|g: int| 0 <= g < res.len() implies grp_ok(s, #[trigger] res[g]) by {
            if g == 0 {
                assert(res[0] == groups[0]);
            } else {
                assert(res[g] == rest[g - 1]);
            }
        }
        assert forall|g: int, k: int| 0 <= g < res.len() && 0 <= k < res[g].len() implies i
            <= #[trigger] res[g][k] < hi by {
            if g == 0 {
                assert(res[0] == groups[0]);
            } else {
                assert(res[g] == rest[g - 1]);
            }
        }
        assert forall|g: int| 0 <= g < res.len() implies (#[trigger] res[g]).len() > 0 by {
            if g == 0 {
                assert(res[0] == groups[0]);
            } else {
                assert(res[g] == rest[g - 1]);
            }
        }
    }
}

/// Structure of the splitter's output: every group is non-empty, lists
/// positions of `s` in increasing order starting no lower than `from`,
/// and no member overlaps its successor inside a group.
pub proof fn lemma_split_from_props(s: Seq<Bound>, from: int)
    ensures
        forall|g: int| 0 <= g < spec_split_from(s, from).len() ==> (#[trigger] spec_split_from(
            s,
            from,
        )[g]).len() > 0,
        forall|g: int, k: int|
            0 <= g < spec_split_from(s, from).len() && 0 <= k < spec_split_from(s, from)[g].len()
                ==> from <= #[trigger] spec_split_from(s, from)[g][k] < s.len(),
        forall|g: int| 0 <= g < spec_split_from(s, from).len() ==> grp_ok(
            s,
            #[trigger] spec_split_from(s, from)[g],
        ),
    decreases s.len() - from,
{
    if from < 0 || from >= s.len() {
    } else {
        lemma_split_from_props(s, from + 1);
        lemma_place_props(s, spec_split_from(s, from + 1), from, from + 1, s.len() as int);
    }
}

/// Positions within one group grow monotonically, not just between
/// neighbours.
pub proof fn lemma_grp_pairwise(s: Seq<Bound>, t: Seq<int>, a: int, b: int)
    requires
        grp_ok(s, t),
        0 <= a <= b < t.len(),
    ensures
        t[a] <= t[b],
    decreases b - a,
{
    if a < b {
        lemma_grp_pairwise(s, t, a, b - 1);
    }
}

proof fn lemma_grp_gap(s: Seq<Bound>, t: Seq<int>, a: int, b: int)
    requires
        grp_ok(s, t),
        forall|j: int| 0 <= j < s.len() ==> (#[trigger] s[j]).0 <= s[j].1,
        forall|i: int, j: int| #![trigger s[i], s[j]] 0 <= i <= j < s.len() ==> s[i].0 <= s[j].0,
        forall|k: int| 0 <= k < t.len() ==> 0 <= #[trigger] t[k] < s.len(),
        0 <= a < b < t.len(),
    ensures
        s[t[b]].0 >= s[t[a]].1,
    decreases b - a,
{
    if b == a + 1 {
        assert(t[b - 1] < t[b] && !spec_intersect(s[t[b - 1]], s[t[b]]));
        assert(s[t[a]].0 <= s[t[b]].0);
    } else {
        lemma_grp_gap(s, t, a, b - 1);
        assert(t[b - 1] < t[b] && !spec_intersect(s[t[b - 1]], s[t[b]]));
        assert(s[t[b - 1]].0 <= s[t[b]].0);
        assert(s[t[b]].0 >= s[t[b - 1]].1);
        assert(s[t[b - 1]].1 >= s[t[b - 1]].0);
        assert(s[t[b - 1]].0 >= s[t[a]].1);
    }
}

/// No two intervals assigned to the same group overlap, pairwise, when
/// the splitter runs on a list of well-formed bounds sorted by start.
pub proof fn lemma_split_non_overlapping(s: Seq<Bound>)
    requires
        forall|j: int| 0 <= j < s.len() ==> (#[trigger] s[j]).0 <= s[j].1,
        forall|i: int, j: int| #![trigger s[i], s[j]] 0 <= i <= j < s.len() ==> s[i].0 <= s[j].0,
    ensures
        forall|g: int, k1: int, k2: int|
            #![trigger spec_split(s)[g][k1], spec_split(s)[g][k2]]
            0 <= g < spec_split(s).len() && 0 <= k1 < k2 < spec_split(s)[g].len()
                ==> !spec_intersect(s[spec_split(s)[g][k1]], s[spec_split(s)[g][k2]]),
{
    lemma_split_from_props(s, 0);
    let gs = spec_split(s);
    assert forall|g: int, k1: int, k2: int|
        #![trigger gs[g][k1], gs[g][k2]]
        0 <= g < gs.len() && 0 <= k1 < k2 < gs[g].len() implies !spec_intersect(
        s[gs[g][k1]],
        s[gs[g][k2]],
    ) by {
        lemma_grp_gap(s, gs[g], k1, k2);
    }
}

/// The splitter yields at least one group for a non-empty list.
pub proof fn lemma_split_nonempty(s: Seq<Bound>)
    requires
        s.len() > 0,
    ensures
        spec_split(s).len() >= 1,
{
    lemma_place_at_least_one(s, spec_split_from(s, 1), 0);
}

proof fn lemma_place_at_least_one(s: Seq<Bound>, groups: Seq<Seq<int>>, i: int)
    ensures
        spec_place(s, groups, i).len() >= 1,
    decreases groups.len(),
{
    if groups.len() == 0 {
    } else if !spec_intersect(s[i], s[groups[0][0]]) {
    } else {
        lemma_place_at_least_one(s, groups.drop_first(), i);
    }
}

/// Partitions a list of intervals, assumed sorted by start, into
/// groups such that within each group no interval overlaps the next.
/// Working from the tail of the list, each interval is prepended to
/// the first existing group whose current first member it does not
/// overlap, or opens a new group when none accepts it.
#[verifier::rlimit(50)]
pub fn split_overlapping<L>(sorted_intervals: Vec<TBLInterval<L>>) -> (r: Vec<
    Vec<TBLInterval<L>>,
>)
    ensures
        split_matches(sorted_intervals@, groups_view(r@)),
{
    let ghost input0 = sorted_intervals@;
    let ghost s = bounds_seq(input0);
    let mut stack = sorted_intervals;
    let mut groups: Vec<Vec<TBLInterval<L>>> = Vec::new();
    proof {
        assert(stack@ =~= input0.take(stack@.len() as int));
        lemma_split_from_props(s, stack@.len() as int);
    }
    while stack.len() > 0
        invariant
            input0.len() == s.len(),
            s == bounds_seq(input0),
            stack@.len() <= input0.len(),
            stack@ == input0.take(stack@.len() as int),
            groups@.len() == spec_split_from(s, stack@.len() as int).len(),
            forall|g: int| 0 <= g < groups@.len() ==> (#[trigger] groups@[g])@.len()
                == spec_split_from(s, stack@.len() as int)[g].len(),
            forall|g: int| 0 <= g < groups@.len() ==> (#[trigger] groups@[g])@.len() > 0,
            forall|g: int, k: int|
                0 <= g < groups@.len() && 0 <= k < groups@[g]@.len() ==> stack@.len()
                    <= #[trigger] spec_split_from(s, stack@.len() as int)[g][k] < input0.len()
                    && groups@[g]@[k] == input0[spec_split_from(s, stack@.len() as int)[g][k]],
        decreases stack@.len(),
    {
        let ghost n = stack@.len() as int;
        let ghost gm = spec_split_from(s, n);
        let x = stack.pop().unwrap();
        let ghost i = n - 1;
        proof {
            assert(x == input0[i]);
            assert(x.bounds == s[i]);
            assert(stack@ =~= input0.take(i));
            lemma_split_from_props(s, n);
        }
        let mut g: usize = 0;
        while g < groups.len() && intersect(&x, &groups[g][0])
            invariant
                0 <= g <= groups@.len(),
                input0.len() == s.len(),
                s == bounds_seq(input0),
                0 <= i < input0.len(),
                x.bounds == s[i],
                gm == spec_split_from(s, i + 1),
                groups@.len() == gm.len(),
                forall|h: int| 0 <= h < groups@.len() ==> (#[trigger] groups@[h])@.len()
                    == gm[h].len(),
                forall|h: int| 0 <= h < groups@.len() ==> (#[trigger] groups@[h])@.len() > 0,
                forall|h: int, k: int|
                    0 <= h < groups@.len() && 0 <= k < groups@[h]@.len() ==> i + 1
                        <= #[trigger] gm[h][k] < input0.len() && groups@[h]@[k]
                        == input0[gm[h][k]],
                forall|h: int| 0 <= h < g ==> spec_intersect(s[i], s[#[trigger] gm[h][0]]),
            decreases groups@.len() - g,
        {
            proof {
                lemma_split_from_props(s, i + 1);
                assert(groups@[g as int]@[0] == input0[gm[g as int][0]]);
            }
            g = g + 1;
        }
        if g < groups.len() {
            proof {
                lemma_split_from_props(s, i + 1);
                assert(groups@[g as int]@[0] == input0[gm[g as int][0]]);
                assert(!spec_intersect(s[i], s[gm[g as int][0]]));
                lemma_place_found(s, gm, i, g as int);
            }
            let mut grp = groups.remove(g);
            grp.insert(0, x);
            groups.insert(g, grp);
            proof {
                let gm2 = spec_split_from(s, i);
                assert(gm2 == gm.update(g as int, seq![i] + gm[g as int]));
                assert forall|h: int, k: int|
                    0 <= h < groups@.len() && 0 <= k < groups@[h]@.len() implies i
                    <= #[trigger] gm2[h][k] < input0.len() && groups@[h]@[k]
                    == input0[gm2[h][k]] by {
                    if h == g as int {
                        if k == 0 {
                            assert(gm2[h][0] == i);
                            assert(groups@[h]@[0] == x);
                        } else {
                            assert(gm2[h][k] == gm[h][k - 1]);
                            assert(groups@[h]@[k] == input0[gm[h][k - 1]]);
                        }
                    } else {
                        assert(gm2[h] == gm[h]);
                    }
                }
            }
        } else {
            proof {
                lemma_split_from_props(s, i + 1);
                lemma_place_none(s, gm, i);
            }
            let mut ng: Vec<TBLInterval<L>> = Vec::new();
            ng.push(x);
            groups.push(ng);
            proof {
                let gm2 = spec_split_from(s, i);
                assert(gm2 == gm.push(seq![i]));
                assert forall|h: int, k: int|
                    0 <= h < groups@.len() && 0 <= k < groups@[h]@.len() implies i
                    <= #[trigger] gm2[h][k] < input0.len() && groups@[h]@[k]
                    == input0[gm2[h][k]] by {
                    if h == gm.len() as int {
                        assert(gm2[h] =~= seq![i]);
                        assert(groups@[h]@[0] == x);
                    } else {
                        assert(gm2[h] == gm[h]);
                    }
                }
            }
        }
    }
    proof {
        assert(groups_view(groups@).len() == groups@.len());
        assert forall|g: int| 0 <= g < groups@.len() implies (#[trigger] groups_view(groups@)[g])
            == groups@[g]@ by {}
    }
    groups
}

proof fn lemma_sort_idx_identity(s: Seq<Bound>, n: int)
    requires
        0 <= n <= s.len(),
        forall|i: int, j: int| #![trigger s[i], s[j]] 0 <= i <= j < s.len() ==> s[i].0 <= s[j].0,
    ensures
        spec_sort_idx(s, ident(n)) == ident(n),
    decreases n,
{
    if n == 0 {
        assert(spec_sort_idx(s, ident(0)) =~= ident(0));
    } else {
        lemma_sort_idx_identity(s, n - 1);
        assert(ident(n).drop_last() =~= ident(n - 1));
        assert(ident(n).last() == n - 1);
        if n - 1 == 0 {
            assert(spec_insert_idx(s, ident(0), 0) =~= ident(1));
        } else {
            assert(ident(n - 1).last() == n - 2);
            assert(s[n - 2].0 <= s[n - 1].0);
            assert(spec_insert_idx(s, ident(n - 1), n - 1) == ident(n - 1).push(n - 1));
            assert(ident(n - 1).push(n - 1) =~= ident(n));
        }
    }
}

} // verus!
