//! The block builder: converts one non-overlapping, sorted group of
//! intervals plus optional global boundaries into an ordered sequence
//! of Space/Segment blocks whose character widths sum exactly to the
//! requested output length.

use vstd::prelude::*;
use vstd::arithmetic::div_mod::{lemma_div_is_ordered, lemma_div_multiples_vanish};
use vstd::arithmetic::mul::lemma_mul_inequality;

verus! {

use crate::{Block, Bound, TBLError};
use crate::interval::TBLInterval;
use crate::interval::bounds_seq;
use crate::interval::idx_view;
use crate::interval::intersect;
use crate::interval::lemma_order_props;
use crate::interval::order_indices;
use crate::interval::space_between;
use crate::interval::spec_boundaries;
use crate::interval::spec_intersect;
use crate::interval::spec_normalize;
use crate::interval::spec_order;

/// Intermediate block: an interval tagged as gap (Space) or data (Segment).
pub enum TBLBlock<L> {
    Space(TBLInterval<L>),
    Segment(TBLInterval<L>),
}

impl<L> Default for TBLBlock<L> {
    /// The placeholder block rendered for an empty group: a unit-wide
    /// unlabeled space.
    fn default() -> (r: Self)
        ensures
            r matches TBLBlock::Space(iv) && iv.bounds == (0i64, 1i64) && iv.label.is_none(),
    {
        TBLBlock::Space(TBLInterval::new((0i64, 1i64), None))
    }
}

/// Geometry of the alternating segment/space sequence for the sorted
/// non-empty positions `ord` of `s`. Each element carries the source
/// position of its interval (`None` for a gap) and its bounds; an
/// empty group becomes a single unit-wide space.
pub open spec fn spec_core_blocks(s: Seq<Bound>, ord: Seq<int>) -> Seq<(Option<int>, Bound)>
    decreases ord.len(),
{
    if ord.len() == 0 {
        seq![(None::<int>, (0i64, 1i64))]
    } else if ord.len() == 1 {
        seq![(Some(ord[0]), s[ord[0]])]
    } else {
        seq![
            (Some(ord[0]), s[ord[0]]),
            (None::<int>, spec_normalize((s[ord[0]].1, s[ord[1]].0))),
        ] + spec_core_blocks(s, ord.drop_first())
    }
}

/// The bounds of `s` selected by the positions `ord`, in that order.
pub open spec fn sel_bounds(s: Seq<Bound>, ord: Seq<int>) -> Seq<Bound> {
    ord.map_values(|i: int| s[i])
}

/// Left and right padding spans. A side is padded when the caller's
/// boundary reaches beyond the group's own boundary on that side; with
/// no caller boundary, or an empty group, nothing is padded.
pub open spec fn spec_padding(ib: Option<Bound>, caller: Option<Bound>) -> (Option<Bound>, Option<
    Bound,
>) {
    match (ib, caller) {
        (Some(ib0), Some(cb)) => (
            if cb.0 < ib0.0 {
                Some((cb.0, ib0.0))
            } else {
                None::<Bound>
            },
            if ib0.1 < cb.1 {
                Some((ib0.1, cb.1))
            } else {
                None::<Bound>
            },
        ),
        _ => (None::<Bound>, None::<Bound>),
    }
}

/// The block geometry of a group after padding against the caller's
/// boundaries.
pub open spec fn spec_padded_blocks(s: Seq<Bound>, caller: Option<Bound>) -> Seq<
    (Option<int>, Bound),
> {
    let ord = spec_order(s);
    let core = spec_core_blocks(s, ord);
    let pads = spec_padding(spec_boundaries(sel_bounds(s, ord)), caller);
    let with_left = match pads.0 {
        Some(lp) => seq![(None::<int>, spec_normalize(lp))] + core,
        None => core,
    };
    match pads.1 {
        Some(rp) => with_left.push((None::<int>, spec_normalize(rp))),
        None => with_left,
    }
}

pub open spec fn pad_bounds(padded: Seq<(Option<int>, Bound)>) -> Seq<Bound> {
    padded.map_values(|p: (Option<int>, Bound)| p.1)
}

/// Coordinate `x` scaled into the character grid: translated so the
/// least start becomes 0, multiplied by `length / span`, floored.
pub open spec fn spec_scaled(x: i64, min: i64, span: int, length: int) -> int {
    ((x - min) * length) / span
}

/// Character width of one block after scaling.
pub open spec fn spec_width(b: Bound, min: i64, span: int, length: int) -> int {
    spec_scaled(b.1, min, span, length) - spec_scaled(b.0, min, span, length)
}

/// Position of the first adjacent overlapping pair among the sorted
/// positions `ord` of `s`, scanning from `from`; `None` when no two
/// adjacent members overlap.
pub open spec fn spec_first_overlap(s: Seq<Bound>, ord: Seq<int>, from: int) -> Option<int>
    decreases ord.len() - from,
{
    if from < 0 || from + 1 >= ord.len() {
        None
    } else if spec_intersect(s[ord[from]], s[ord[from + 1]]) {
        Some(from)
    } else {
        spec_first_overlap(s, ord, from + 1)
    }
}

/// The blocks `r` realize the padded geometry of `input` under
/// `caller` boundaries at output width `length`: same order and kinds,
/// each block's width obtained by floor-scaling its bounds into the
/// grid, and each segment carrying a clone of its source interval's
/// label.
pub open spec fn blocks_match<L: Clone>(
    input: Seq<TBLInterval<L>>,
    length: int,
    caller: Option<Bound>,
    r: Seq<Block<L>>,
) -> bool {
    let s = bounds_seq(input);
    let padded = spec_padded_blocks(s, caller);
    let pb = spec_boundaries(pad_bounds(padded)).unwrap();
    let span = pb.1 - pb.0;
    &&& r.len() == padded.len()
    &&& forall|k: int|
        0 <= k < padded.len() ==> match (#[trigger] padded[k]).0 {
            Some(src) => 0 <= src < input.len() && (r[k] matches Block::Segment(w, lb)
                && w as int == spec_width(padded[k].1, pb.0, span, length) && cloned::<Option<L>>(
                input[src].label,
                lb,
            )),
            None => r[k] matches Block::Space(w) && w as int == spec_width(
                padded[k].1,
                pb.0,
                span,
                length,
            ),
        }
}

/// Starts and ends along a chain of bounds (each block ending where
/// the next begins, or earlier) are nondecreasing.
proof fn lemma_chain_mono(t: Seq<Bound>, a: int, b: int)
    requires
        forall|k: int| 0 <= k < t.len() ==> (#[trigger] t[k]).0 <= t[k].1,
        forall|k: int| 0 <= k < t.len() - 1 ==> (#[trigger] t[k]).1 <= t[k + 1].0,
        0 <= a <= b < t.len(),
    ensures
        t[a].0 <= t[b].0,
        t[a].1 <= t[b].1,
        t[a].0 <= t[b].1,
    decreases b - a,
{
    if a < b {
        lemma_chain_mono(t, a, b - 1);
        assert(t[b - 1].1 <= t[b].0);
    }
}

/// The boundaries fold of a non-empty chain of bounds is simply
/// (first start, last end).
proof fn lemma_boundaries_chain(t: Seq<Bound>)
    requires
        t.len() > 0,
        forall|k: int| 0 <= k < t.len() ==> (#[trigger] t[k]).0 <= t[k].1,
        forall|k: int| 0 <= k < t.len() - 1 ==> (#[trigger] t[k]).1 <= t[k + 1].0,
    ensures
        spec_boundaries(t) == Some((t[0].0, t.last().1)),
    decreases t.len(),
{
    if t.len() == 1 {
    } else {
        assert(forall|k: int| 0 <= k < t.drop_last().len() ==> (#[trigger] t.drop_last()[k]).0
            <= t.drop_last()[k].1);
        assert(forall|k: int| 0 <= k < t.drop_last().len() - 1 ==> (#[trigger] t.drop_last()[k]).1
            <= t.drop_last()[k + 1].0);
        lemma_boundaries_chain(t.drop_last());
        lemma_chain_mono(t, 0, t.len() - 1);
        assert(t[t.len() - 2].1 <= t[t.len() - 1].0);
    }
}

proof fn lemma_first_overlap_none(s: Seq<Bound>, ord: Seq<int>, from: int)
    requires
        0 <= from,
        spec_first_overlap(s, ord, from) is None,
    ensures
        forall|k: int| from <= k < ord.len() - 1 ==> !spec_intersect(
            s[#[trigger] ord[k]],
            s[ord[k + 1]],
        ),
    decreases ord.len() - from,
{
    if from + 1 >= ord.len() {
    } else {
        lemma_first_overlap_none(s, ord, from + 1);
    }
}

proof fn lemma_first_overlap_skip(s: Seq<Bound>, ord: Seq<int>, from: int)
    requires
        0 <= from,
        forall|h: int| 0 <= h < from ==> !spec_intersect(s[#[trigger] ord[h]], s[ord[h + 1]]),
    ensures
        spec_first_overlap(s, ord, 0) == spec_first_overlap(s, ord, from),
    decreases from,
{
    if from > 0 {
        lemma_first_overlap_skip(s, ord, from - 1);
        assert(!spec_intersect(s[ord[from - 1]], s[ord[from]]));
    }
}

/// Shape of the alternating block sequence built from positions whose
/// intervals are non-empty and leave a gap (or touch) between
/// neighbours: segments and spaces alternate, blocks are well-formed
/// and contiguous, and the run starts and ends at the group's own
/// boundaries.
proof fn lemma_core_shape(s: Seq<Bound>, ord: Seq<int>)
    requires
        forall|k: int| 0 <= k < ord.len() ==> 0 <= #[trigger] ord[k] < s.len(),
        forall|k: int| 0 <= k < ord.len() ==> s[#[trigger] ord[k]].0 < s[ord[k]].1,
        forall|k: int| 0 <= k < ord.len() - 1 ==> s[#[trigger] ord[k]].1 <= s[ord[k + 1]].0,
    ensures
        spec_core_blocks(s, ord).len() == if ord.len() == 0 {
            1int
        } else {
            2 * ord.len() - 1
        },
        forall|k: int| 0 <= k < spec_core_blocks(s, ord).len() ==> (#[trigger] spec_core_blocks(
            s,
            ord,
        )[k]).1.0 <= spec_core_blocks(s, ord)[k].1.1,
        forall|k: int| 0 <= k < spec_core_blocks(s, ord).len() - 1 ==> (
        #[trigger] spec_core_blocks(s, ord)[k]).1.1 == spec_core_blocks(s, ord)[k + 1].1.0,
        spec_core_blocks(s, ord)[0].1.0 == if ord.len() == 0 {
            0i64
        } else {
            s[ord[0]].0
        },
        spec_core_blocks(s, ord).last().1.1 == if ord.len() == 0 {
            1i64
        } else {
            s[ord.last()].1
        },
        spec_core_blocks(s, ord)[0].1.0 < spec_core_blocks(s, ord)[0].1.1,
        forall|k: int|
            0 <= k < spec_core_blocks(s, ord).len() ==> ((#[trigger] spec_core_blocks(s, ord)[k]).0
                matches Some(src) ==> 0 <= src < s.len()),
    decreases ord.len(),
{
    let core = spec_core_blocks(s, ord);
    if ord.len() == 0 {
    } else if ord.len() == 1 {
    } else {
        let tail = ord.drop_first();
        assert(forall|k: int| 0 <= k < tail.len() ==> #[trigger] tail[k] == ord[k + 1]);
        lemma_core_shape(s, tail);
        let rest = spec_core_blocks(s, tail);
        let gap = spec_normalize((s[ord[0]].1, s[ord[1]].0));
        assert(s[ord[0]].1 <= s[ord[1]].0);
        assert(gap == (s[ord[0]].1, s[ord[1]].0));
        assert(core == seq![(Some(ord[0]), s[ord[0]]), (None::<int>, gap)] + rest);
        assert(core.len() == 2 + rest.len());
        assert(forall|k: int| 0 <= k < rest.len() ==> core[k + 2] == #[trigger] rest[k]);
        assert(core[0] == (Some(ord[0]), s[ord[0]]));
        assert(core[1] == (None::<int>, gap));
        assert(core.last() == rest.last());
        assert(rest[0].1.0 == s[tail[0]].0);
        assert(core[1].1.1 == core[2].1.0);
        assert forall|k: int| 0 <= k < core.len() - 1 implies (#[trigger] core[k]).1.1 == core[k
            + 1].1.0 by {
            if k >= 2 {
                assert(core[k] == rest[k - 2]);
                assert(core[k + 1] == rest[k - 1]);
            }
        }
    }
}

/// When no two adjacent members of `ord` overlap, the scan finds
/// nothing.
pub proof fn lemma_first_overlap_none_converse(s: Seq<Bound>, ord: Seq<int>, from: int)
    requires
        0 <= from,
        forall|k: int| from <= k < ord.len() - 1 ==> !spec_intersect(
            s[#[trigger] ord[k]],
            s[ord[k + 1]],
        ),
    ensures
        spec_first_overlap(s, ord, from) is None,
    decreases ord.len() - from,
{
    if from + 1 >= ord.len() {
    } else {
        lemma_first_overlap_none_converse(s, ord, from + 1);
    }
}

/// A block whose bounds are ordered and lie within the grid never
/// scales to a negative width.
pub proof fn lemma_width_nonneg(b: Bound, min: i64, span: int, length: int)
    requires
        min <= b.0 <= b.1,
        span > 0,
        length >= 0,
    ensures
        spec_width(b, min, span, length) >= 0,
{
    lemma_mul_inequality(b.0 as int - min as int, b.1 as int - min as int, length);
    lemma_div_is_ordered(
        (b.0 as int - min as int) * length,
        (b.1 as int - min as int) * length,
        span,
    );
}

/// Shape of the padded block sequence of a group without adjacent
/// overlaps: it is a non-empty contiguous chain of well-formed blocks,
/// its fold-boundaries are its first start and last end, and its total
/// span is positive.
pub proof fn lemma_padded_shape(s: Seq<Bound>, caller: Option<Bound>)
    requires
        forall|j: int| 0 <= j < s.len() ==> (#[trigger] s[j]).0 <= s[j].1,
        spec_first_overlap(s, spec_order(s), 0) is None,
    ensures
        spec_padded_blocks(s, caller).len() >= 1,
        forall|k: int|
            0 <= k < spec_padded_blocks(s, caller).len() ==> (#[trigger] spec_padded_blocks(
                s,
                caller,
            )[k]).1.0 <= spec_padded_blocks(s, caller)[k].1.1,
        forall|k: int|
            0 <= k < spec_padded_blocks(s, caller).len() - 1 ==> (#[trigger] spec_padded_blocks(
                s,
                caller,
            )[k]).1.1 == spec_padded_blocks(s, caller)[k + 1].1.0,
        spec_boundaries(pad_bounds(spec_padded_blocks(s, caller))) == Some(
            (
                spec_padded_blocks(s, caller)[0].1.0,
                spec_padded_blocks(s, caller).last().1.1,
            ),
        ),
        spec_padded_blocks(s, caller)[0].1.0 < spec_padded_blocks(s, caller).last().1.1,
        forall|k: int|
            0 <= k < spec_padded_blocks(s, caller).len() ==> ((#[trigger] spec_padded_blocks(
                s,
                caller,
            )[k]).0 matches Some(src) ==> 0 <= src < s.len()),
        forall|k: int|
            0 <= k < spec_padded_blocks(s, caller).len() ==> spec_padded_blocks(s, caller)[0].1.0
                <= (#[trigger] spec_padded_blocks(s, caller)[k]).1.0 && spec_padded_blocks(
                s,
                caller,
            )[k].1.1 <= spec_padded_blocks(s, caller).last().1.1,
{
    let ord = spec_order(s);
    lemma_order_props(s);
    assert(forall|k: int| 0 <= k < ord.len() ==> s[#[trigger] ord[k]].0 < s[ord[k]].1);
    lemma_first_overlap_none(s, ord, 0);
    assert forall|k: int| 0 <= k < ord.len() - 1 implies s[#[trigger] ord[k]].1 <= s[ord[k
        + 1]].0 by {
        assert(s[ord[k]].0 <= s[ord[k + 1]].0);
        assert(!spec_intersect(s[ord[k]], s[ord[k + 1]]));
    }
    lemma_core_shape(s, ord);
    let core = spec_core_blocks(s, ord);
    let sb = sel_bounds(s, ord);
    let padded = spec_padded_blocks(s, caller);
    if ord.len() == 0 {
        assert(sb =~= Seq::<Bound>::empty());
        assert(spec_boundaries(sb) is None);
        assert(padded == core);
        assert(padded.len() == 1);
        assert(pad_bounds(padded) =~= seq![(0i64, 1i64)]);
        assert(spec_boundaries(pad_bounds(padded)) == Some((0i64, 1i64)));
    } else {
        assert(sb.len() == ord.len());
        assert(forall|k: int| 0 <= k < sb.len() ==> #[trigger] sb[k] == s[ord[k]]);
        lemma_boundaries_chain(sb);
        let ib = (s[ord[0]].0, s[ord.last()].1);
        assert(spec_boundaries(sb) == Some(ib));
        let pads = spec_padding(Some(ib), caller);
        let lp = pads.0;
        let rp = pads.1;
        let with_left = if lp is Some {
            seq![(None::<int>, spec_normalize(lp.unwrap()))] + core
        } else {
            core
        };
        assert(padded == if rp is Some {
            with_left.push((None::<int>, spec_normalize(rp.unwrap())))
        } else {
            with_left
        });
        if lp is Some {
            assert(lp.unwrap().0 < lp.unwrap().1);
            assert(spec_normalize(lp.unwrap()) == lp.unwrap());
            assert(lp.unwrap().1 == core[0].1.0);
            assert(forall|k: int| 0 <= k < core.len() ==> with_left[k + 1] == #[trigger] core[k]);
        }
        if rp is Some {
            assert(rp.unwrap().0 < rp.unwrap().1);
            assert(spec_normalize(rp.unwrap()) == rp.unwrap());
            assert(rp.unwrap().0 == core.last().1.1);
        }
        let o: int = if lp is Some {
            1
        } else {
            0
        };
        assert(forall|k: int| 0 <= k < core.len() ==> padded[k + o] == #[trigger] core[k]);
        assert(padded[0].1.1 == padded[1].1.0 || padded.len() == 1);
        assert forall|k: int| 0 <= k < padded.len() - 1 implies (#[trigger] padded[k]).1.1
            == padded[k + 1].1.0 by {
            if o <= k && k - o < core.len() - 1 {
                assert(padded[k] == core[k - o]);
                assert(padded[k + 1] == core[k - o + 1]);
            }
        }
        assert(forall|k: int| 0 <= k < padded.len() ==> (#[trigger] padded[k]).1.0
            <= padded[k].1.1);
        assert(pad_bounds(padded).len() == padded.len());
        assert(forall|k: int| 0 <= k < padded.len() ==> #[trigger] pad_bounds(padded)[k]
            == padded[k].1);
        lemma_boundaries_chain(pad_bounds(padded));
        assert forall|k: int| 0 <= k < padded.len() implies padded[0].1.0
            <= (#[trigger] padded[k]).1.0 && padded[k].1.1 <= padded.last().1.1 by {
            lemma_chain_mono(pad_bounds(padded), 0, k);
            lemma_chain_mono(pad_bounds(padded), k, padded.len() - 1);
        }
        assert(padded[o] == core[0]);
        assert(core[0].1.0 < core[0].1.1);
        lemma_chain_mono(pad_bounds(padded), 0, o);
        lemma_chain_mono(pad_bounds(padded), o, padded.len() - 1);
        assert(padded[0].1.0 <= padded[o].1.0);
        assert(padded[o].1.1 <= padded.last().1.1);
    }
}

/// Sum of the scaled widths of a block sequence.
pub open spec fn widths_sum(
    padded: Seq<(Option<int>, Bound)>,
    min: i64,
    span: int,
    length: int,
) -> int
    decreases padded.len(),
{
    if padded.len() == 0 {
        0
    } else {
        widths_sum(padded.drop_last(), min, span, length) + spec_width(
            padded.last().1,
            min,
            span,
            length,
        )
    }
}

proof fn lemma_sum_telescopes(padded: Seq<(Option<int>, Bound)>, min: i64, span: int, length: int)
    requires
        padded.len() > 0,
        forall|k: int| 0 <= k < padded.len() - 1 ==> (#[trigger] padded[k]).1.1 == padded[k
            + 1].1.0,
    ensures
        widths_sum(padded, min, span, length) == spec_scaled(padded.last().1.1, min, span, length)
            - spec_scaled(padded[0].1.0, min, span, length),
    decreases padded.len(),
{
    if padded.len() == 1 {
        assert(widths_sum(padded.drop_last(), min, span, length) == 0);
        assert(padded.last() == padded[0]);
    } else {
        assert(forall|k: int| 0 <= k < padded.drop_last().len() - 1 ==> (
        #[trigger] padded.drop_last()[k]).1.1 == padded.drop_last()[k + 1].1.0);
        lemma_sum_telescopes(padded.drop_last(), min, span, length);
        assert(padded.drop_last()[0] == padded[0]);
        assert(padded.drop_last().last() == padded[padded.len() - 2]);
        assert(padded[padded.len() - 2].1.1 == padded[padded.len() - 1].1.0);
        assert(padded.drop_last().last().1.1 == padded.last().1.0);
    }
}

/// The widths of the padded blocks of a group without adjacent
/// overlaps sum exactly to the requested output length.
pub proof fn lemma_widths_sum_length(s: Seq<Bound>, caller: Option<Bound>, length: int)
    requires
        forall|j: int| 0 <= j < s.len() ==> (#[trigger] s[j]).0 <= s[j].1,
        spec_first_overlap(s, spec_order(s), 0) is None,
        length >= 0,
    ensures
        ({
            let padded = spec_padded_blocks(s, caller);
            let pb = spec_boundaries(pad_bounds(padded)).unwrap();
            widths_sum(padded, pb.0, pb.1 - pb.0, length) == length
        }),
{
    lemma_padded_shape(s, caller);
    let padded = spec_padded_blocks(s, caller);
    let pb = spec_boundaries(pad_bounds(padded)).unwrap();
    let min = pb.0;
    let max = pb.1;
    let span = max - min;
    lemma_sum_telescopes(padded, min, span, length);
    assert((min - min) as int * length == 0);
    lemma_div_multiples_vanish(0, span);
    assert(span * 0 == 0);
    assert(spec_scaled(min, min, span, length) == 0);
    lemma_div_multiples_vanish(length, span);
    assert((max - min) as int * length == span * length);
    assert(spec_scaled(max, min, span, length) == length);
}

/// The kinds and widths the blocks of one group must have, stated
/// over the group's bounds alone: the same order as the padded
/// geometry, each block floor-scaled into the grid.
pub open spec fn blocks_geom<L>(
    bg: Seq<Bound>,
    length: int,
    caller: Option<Bound>,
    r: Seq<Block<L>>,
) -> bool {
    let padded = spec_padded_blocks(bg, caller);
    let pb = spec_boundaries(pad_bounds(padded)).unwrap();
    let span = pb.1 - pb.0;
    &&& r.len() == padded.len()
    &&& forall|k: int|
        0 <= k < padded.len() ==> ((#[trigger] r[k]) is Segment == (padded[k].0 is Some))
            && crate::rendering::spec_bwidth(r[k]) as int == spec_width(
            padded[k].1,
            pb.0,
            span,
            length,
        )
}

/// `blocks_match` pins everything `blocks_geom` asks, and more.
pub proof fn lemma_blocks_match_geom<L: Clone>(
    input: Seq<TBLInterval<L>>,
    length: int,
    caller: Option<Bound>,
    r: Seq<Block<L>>,
)
    requires
        blocks_match(input, length, caller, r),
    ensures
        blocks_geom(bounds_seq(input), length, caller, r),
{
    let padded = spec_padded_blocks(bounds_seq(input), caller);
    assert forall|k: int| 0 <= k < padded.len() implies ((#[trigger] r[k]) is Segment == (
    padded[k].0 is Some)) && crate::rendering::spec_bwidth(r[k]) as int == spec_width(
        padded[k].1,
        spec_boundaries(pad_bounds(padded)).unwrap().0,
        spec_boundaries(pad_bounds(padded)).unwrap().1 - spec_boundaries(
            pad_bounds(padded),
        ).unwrap().0,
        length,
    ) by {
        assert(0 <= k < padded.len());
    }
}

/// Sum of the character widths of a list of blocks.
pub open spec fn sum_block_widths<L>(r: Seq<Block<L>>) -> int
    decreases r.len(),
{
    if r.len() == 0 {
        0
    } else {
        sum_block_widths(r.drop_last()) + crate::rendering::spec_bwidth(r.last())
    }
}

proof fn lemma_sums_equal<L>(
    r: Seq<Block<L>>,
    padded: Seq<(Option<int>, Bound)>,
    min: i64,
    span: int,
    length: int,
)
    requires
        r.len() == padded.len(),
        forall|k: int| 0 <= k < r.len() ==> crate::rendering::spec_bwidth(#[trigger] r[k]) as int
            == spec_width(padded[k].1, min, span, length),
    ensures
        sum_block_widths(r) == widths_sum(padded, min, span, length),
    decreases r.len(),
{
    if r.len() == 0 {
    } else {
        assert(forall|k: int| 0 <= k < r.len() - 1 ==> #[trigger] r.drop_last()[k] == r[k]);
        assert(forall|k: int| 0 <= k < padded.len() - 1 ==> #[trigger] padded.drop_last()[k]
            == padded[k]);
        lemma_sums_equal(r.drop_last(), padded.drop_last(), min, span, length);
        assert(r.last() == r[r.len() - 1]);
    }
}

/// The widths of the blocks built for one group sum exactly to the
/// requested output length, whatever the intervals, the boundaries and
/// the length.
pub proof fn lemma_block_widths_sum<L: Clone>(
    input: Seq<TBLInterval<L>>,
    length: int,
    caller: Option<Bound>,
    r: Seq<Block<L>>,
)
    requires
        forall|j: int| 0 <= j < input.len() ==> (#[trigger] input[j]).wf(),
        spec_first_overlap(bounds_seq(input), spec_order(bounds_seq(input)), 0) is None,
        length >= 0,
        blocks_match(input, length, caller, r),
    ensures
        sum_block_widths(r) == length,
{
    let s = bounds_seq(input);
    assert(forall|j: int| 0 <= j < s.len() ==> #[trigger] s[j] == input[j].bounds);
    let padded = spec_padded_blocks(s, caller);
    let pb = spec_boundaries(pad_bounds(padded)).unwrap();
    let span = pb.1 - pb.0;
    lemma_widths_sum_length(s, caller, length);
    assert forall|k: int| 0 <= k < r.len() implies crate::rendering::spec_bwidth(
        #[trigger] r[k],
    ) as int == spec_width(padded[k].1, pb.0, span, length) by {
        assert(0 <= k < padded.len());
    }
    lemma_sums_equal(r, padded, pb.0, span as int, length);
}

/// The bounds of a list of intermediate blocks, in order.
pub open spec fn tbl_bounds<L>(t: Seq<TBLBlock<L>>) -> Seq<Bound> {
    t.map_values(
        |b: TBLBlock<L>|
            match b {
                TBLBlock::Space(iv) => iv.bounds,
                TBLBlock::Segment(iv) => iv.bounds,
            },
    )
}

/// The intermediate blocks `t` realize the geometry `model`: same
/// kinds and bounds in order, each segment carrying a clone of its
/// source interval's label.
pub open spec fn tbl_match<L: Clone>(
    input: Seq<TBLInterval<L>>,
    model: Seq<(Option<int>, Bound)>,
    t: Seq<TBLBlock<L>>,
) -> bool {
    &&& t.len() == model.len()
    &&& forall|k: int|
        0 <= k < model.len() ==> match (#[trigger] model[k]).0 {
            Some(src) => 0 <= src < input.len() && (t[k] matches TBLBlock::Segment(iv)
                && iv.bounds == model[k].1 && cloned::<Option<L>>(input[src].label, iv.label)),
            None => t[k] matches TBLBlock::Space(iv) && iv.bounds == model[k].1,
        }
}

/// Splits the padding decision: the left (right) component is the span
/// to prepend (append) when the caller's boundary extends further on
/// that side than the group's own.
pub(crate) fn padding(intervals_boundaries: Option<Bound>, boundaries: Option<Bound>) -> (r: (
    Option<Bound>,
    Option<Bound>,
))
    ensures
        r == spec_padding(intervals_boundaries, boundaries),
{
    match (intervals_boundaries, boundaries) {
        (Some((a0, b0)), Some((a1, b1))) => {
            let left = if a1 < a0 {
                Some((a1, a0))
            } else {
                None
            };
            let right = if b0 < b1 {
                Some((b0, b1))
            } else {
                None
            };
            (left, right)
        },
        _ => (None, None),
    }
}

/// Fold of the blocks' bounds to (least start, greatest end).
pub(crate) fn blocks_boundaries<L>(blocks: &[TBLBlock<L>]) -> (r: Option<Bound>)
    ensures
        r == spec_boundaries(tbl_bounds(blocks@)),
{
    let ghost bs = tbl_bounds(blocks@);
    let mut acc: Option<Bound> = None;
    let mut k: usize = 0;
    while k < blocks.len()
        invariant
            0 <= k <= blocks@.len(),
            bs == tbl_bounds(blocks@),
            acc == spec_boundaries(bs.take(k as int)),
        decreases blocks@.len() - k,
    {
        let (a, b) = match &blocks[k] {
            TBLBlock::Space(iv) => iv.bounds,
            TBLBlock::Segment(iv) => iv.bounds,
        };
        proof {
            assert(bs[k as int] == (a, b));
        }
        acc = match acc {
            None => Some((a, b)),
            Some((ma, mb)) => Some(
                (if a < ma { a } else { ma }, if b > mb { b } else { mb }),
            ),
        };
        proof {
            assert(bs.take(k + 1).drop_last() =~= bs.take(k as int));
            assert(bs.take(k + 1).last() == bs[k as int]);
        }
        k = k + 1;
    }
    proof {
        assert(bs.take(blocks@.len() as int) =~= bs);
    }
    acc
}

/// Width in characters of one block's bounds, scaled into the grid.
fn scaled_width(b: Bound, min: i64, span: u128, length: usize) -> (w: usize)
    requires
        0 < span <= 0xffff_ffff_ffff_ffff,
        min <= b.0 <= b.1,
        b.1 as int - min as int <= span as int,
    ensures
        w as int == spec_width(b, min, span as int, length as int),
        w <= length,
{
    let t0: u128 = ((b.0 as i128) - (min as i128)) as u128;
    let t1: u128 = ((b.1 as i128) - (min as i128)) as u128;
    proof {
        assert(t0 as int == b.0 as int - min as int);
        assert(t1 as int == b.1 as int - min as int);
        assert(t0 <= t1 <= span);
        assert(length as int <= 0xffff_ffff_ffff_ffffu128);
        assert(t0 as int * length as int <= span as int * length as int) by (nonlinear_arith)
            requires
                t0 <= span,
                length as int >= 0,
        ;
        assert(t1 as int * length as int <= span as int * length as int) by (nonlinear_arith)
            requires
                t1 <= span,
                length as int >= 0,
        ;
        assert(span as int * length as int <= 0xffff_ffff_ffff_ffffu128 as int
            * 0xffff_ffff_ffff_ffffu128 as int) by (nonlinear_arith)
            requires
                0 <= span as int <= 0xffff_ffff_ffff_ffffu128 as int,
                0 <= length as int <= 0xffff_ffff_ffff_ffffu128 as int,
        ;
        assert(t0 as int * length as int <= t1 as int * length as int) by (nonlinear_arith)
            requires
                t0 <= t1,
                length as int >= 0,
        ;
    }
    let p0: u128 = t0 * (length as u128) / span;
    let p1: u128 = t1 * (length as u128) / span;
    proof {
        lemma_div_is_ordered(
            t0 as int * length as int,
            t1 as int * length as int,
            span as int,
        );
        lemma_mul_inequality(t1 as int, span as int, length as int);
        lemma_div_is_ordered(
            t1 as int * length as int,
            span as int * length as int,
            span as int,
        );
        lemma_div_multiples_vanish(length as int, span as int);
        assert(span as int * length as int == (span as int) * (length as int));
        assert(p1 as int <= length as int);
        assert(p0 <= p1);
    }
    let w128: u128 = p1 - p0;
    w128 as usize
}

/// Builds the blocks for one group of intervals: filters out empty
/// members, sorts the rest stably by start, rejects a group whose
/// adjacent members still overlap, alternates Segment and Space
/// blocks, pads against the caller's boundaries, and floor-scales
/// every block into an output line of exactly `length` characters.
///
/// An empty (or fully filtered-out) group renders as one all-space
/// block of the full length. `NoBoundaries` is never returned: after
/// padding there is always at least one block to measure.
///
/// No ad-hoc remainder rule is needed to hit the exact character
/// budget: both endpoints of every block are floor-scaled, adjacent
/// blocks share endpoints, and the widths telescope to exactly
/// `length` (`lemma_block_widths_sum`). Rounding slack thereby falls
/// to whichever blocks straddle a floor boundary, never off the end.
#[verifier::rlimit(100)]
pub fn build_blocks<L: Clone>(
    intervals: &[TBLInterval<L>],
    length: usize,
    boundaries: Option<Bound>,
) -> (r: Result<Vec<Block<L>>, TBLError<L>>)
    requires
        forall|j: int| 0 <= j < intervals@.len() ==> (#[trigger] intervals@[j]).wf(),
    ensures
        match spec_first_overlap(
            bounds_seq(intervals@),
            spec_order(bounds_seq(intervals@)),
            0,
        ) {
            Some(k) => r matches Err(e) && (e matches TBLError::Intersection(a, b) && cloned::<
                Option<L>,
            >(
                intervals@[spec_order(bounds_seq(intervals@))[k]].label,
                a,
            ) && cloned::<Option<L>>(
                intervals@[spec_order(bounds_seq(intervals@))[k + 1]].label,
                b,
            )),
            None => r matches Ok(blocks) && blocks_match(
                intervals@,
                length as int,
                boundaries,
                blocks@,
            ),
        },
{
    let ghost s = bounds_seq(intervals@);
    proof {
        assert(forall|j: int| 0 <= j < s.len() ==> #[trigger] s[j] == intervals@[j].bounds);
        lemma_order_props(s);
    }
    let ord = order_indices(intervals);
    let ghost ordv = spec_order(s);
    proof {
        assert(forall|k: int| 0 <= k < ord@.len() ==> #[trigger] ordv[k] == ord@[k] as int);
    }
    let n = ord.len();

    let mut k: usize = 0;
    if n > 0 {
        while k < n - 1
        invariant
            n >= 1,
            n == ord@.len(),
            idx_view(ord@) == ordv,
            ordv == spec_order(s),
            s == bounds_seq(intervals@),
            forall|j: int| 0 <= j < s.len() ==> #[trigger] s[j] == intervals@[j].bounds,
            forall|h: int| 0 <= h < ord@.len() ==> #[trigger] ord@[h] < intervals@.len(),
            forall|h: int| 0 <= h < ord@.len() ==> #[trigger] ordv[h] == ord@[h] as int,
            0 <= k,
            n > 0 ==> k < n,
            forall|h: int| 0 <= h < k ==> !spec_intersect(s[#[trigger] ordv[h]], s[ordv[h + 1]]),
        decreases n - k,
    {
        let a = &intervals[ord[k]];
        let b = &intervals[ord[k + 1]];
        if intersect(a, b) {
            proof {
                lemma_first_overlap_skip(s, ordv, k as int);
                assert(spec_first_overlap(s, ordv, k as int) == Some(k as int));
            }
            return Err(TBLError::Intersection(a.label.clone(), b.label.clone()));
        }
        k = k + 1;
        }
    }
    proof {
        lemma_first_overlap_skip(s, ordv, k as int);
        assert(spec_first_overlap(s, ordv, k as int) is None);
        assert(spec_first_overlap(s, ordv, 0) is None);
    }

    let ghost core = spec_core_blocks(s, ordv);
    let mut blks: Vec<TBLBlock<L>> = Vec::new();
    if n == 0 {
        let d: TBLBlock<L> = TBLBlock::default();
        blks.push(d);
        proof {
            assert(core =~= seq![(None::<int>, (0i64, 1i64))]);
            assert(tbl_match(intervals@, core, blks@));
        }
    } else {
        proof {
            assert(ordv.skip(0) =~= ordv);
            assert(core.take(0) =~= Seq::<(Option<int>, Bound)>::empty());
            assert(core =~= core.take(0) + spec_core_blocks(s, ordv.skip(0)));
        }
        let mut j: usize = 0;
        while j < n
            invariant
                0 <= j <= n,
                n == ord@.len(),
                n >= 1,
                idx_view(ord@) == ordv,
                ordv == spec_order(s),
                s == bounds_seq(intervals@),
                core == spec_core_blocks(s, ordv),
                forall|jj: int| 0 <= jj < intervals@.len() ==> (#[trigger] intervals@[jj]).wf(),
                forall|jj: int| 0 <= jj < s.len() ==> #[trigger] s[jj] == intervals@[jj].bounds,
                forall|h: int| 0 <= h < ord@.len() ==> #[trigger] ord@[h] < intervals@.len(),
                forall|h: int| 0 <= h < ord@.len() ==> #[trigger] ordv[h] == ord@[h] as int,
                blks@.len() == if j < n {
                    2 * j as int
                } else {
                    2 * n as int - 1
                },
                blks@.len() <= core.len(),
                tbl_match(intervals@, core.take(blks@.len() as int), blks@),
                j < n ==> core =~= core.take(blks@.len() as int) + spec_core_blocks(
                    s,
                    ordv.skip(j as int),
                ),
                j == n ==> blks@.len() == core.len(),
            decreases n - j,
        {
            let iv = &intervals[ord[j]];
            let ghost pre = blks@.len() as int;
            let seg = TBLInterval::new(iv.bounds, iv.label.clone());
            proof {
                assert(iv.wf());
                assert(spec_normalize(iv.bounds) == iv.bounds);
                assert(spec_core_blocks(s, ordv.skip(j as int))[0] == (
                    Some(ordv[j as int]),
                    s[ordv[j as int]],
                ));
                assert(core[pre] == (Some(ordv[j as int]), s[ordv[j as int]]));
            }
            blks.push(TBLBlock::Segment(seg));
            if j + 1 < n {
                let nx = &intervals[ord[j + 1]];
                let sp = space_between(iv, nx);
                proof {
                    let tail = ordv.skip(j as int);
                    assert(tail.len() >= 2);
                    assert(tail[0] == ordv[j as int]);
                    assert(tail[1] == ordv[j + 1]);
                    assert(tail.drop_first() =~= ordv.skip(j + 1));
                    assert(spec_core_blocks(s, tail) == seq![
                        (Some(ordv[j as int]), s[ordv[j as int]]),
                        (
                            None::<int>,
                            spec_normalize((s[ordv[j as int]].1, s[ordv[j + 1]].0)),
                        ),
                    ] + spec_core_blocks(s, ordv.skip(j + 1)));
                    assert(core[pre + 1] == (
                        None::<int>,
                        spec_normalize((s[ordv[j as int]].1, s[ordv[j + 1]].0)),
                    ));
                }
                blks.push(TBLBlock::Space(sp));
                proof {
                    assert(core.take(pre + 2) =~= core.take(pre) + seq![
                        core[pre],
                        core[pre + 1],
                    ]);
                    assert(tbl_match(intervals@, core.take(pre + 2), blks@));
                    assert(core =~= core.take(pre + 2) + spec_core_blocks(s, ordv.skip(j + 1)));
                }
            } else {
                proof {
                    let tail = ordv.skip(j as int);
                    assert(tail.len() == 1);
                    assert(spec_core_blocks(s, tail) =~= seq![
                        (Some(ordv[j as int]), s[ordv[j as int]]),
                    ]);
                    assert(core.take(pre + 1) =~= core.take(pre) + seq![core[pre]]);
                    assert(tbl_match(intervals@, core.take(pre + 1), blks@));
                    assert(blks@.len() == core.len());
                }
            }
            j = j + 1;
        }
    }
    proof {
        assert(blks@.len() == core.len());
        assert(core.take(core.len() as int) =~= core);
        assert(tbl_match(intervals@, core, blks@));
    }

    let mut ib: Option<Bound> = None;
    let mut m: usize = 0;
    let ghost sb = sel_bounds(s, ordv);
    while m < n
        invariant
            0 <= m <= n,
            n == ord@.len(),
            idx_view(ord@) == ordv,
            ordv == spec_order(s),
            s == bounds_seq(intervals@),
            sb == sel_bounds(s, ordv),
            forall|jj: int| 0 <= jj < s.len() ==> #[trigger] s[jj] == intervals@[jj].bounds,
            forall|h: int| 0 <= h < ord@.len() ==> #[trigger] ord@[h] < intervals@.len(),
            forall|h: int| 0 <= h < ord@.len() ==> #[trigger] ordv[h] == ord@[h] as int,
            ib == spec_boundaries(sb.take(m as int)),
        decreases n - m,
    {
        let (a, b) = intervals[ord[m]].bounds;
        proof {
            assert(sb[m as int] == s[ordv[m as int]]);
            assert(sb[m as int] == (a, b));
        }
        ib = match ib {
            None => Some((a, b)),
            Some((ma, mb)) => Some(
                (if a < ma { a } else { ma }, if b > mb { b } else { mb }),
            ),
        };
        proof {
            assert(sb.take(m + 1).drop_last() =~= sb.take(m as int));
            assert(sb.take(m + 1).last() == sb[m as int]);
        }
        m = m + 1;
    }
    proof {
        assert(sb.take(sb.len() as int) =~= sb);
        assert(ib == spec_boundaries(sel_bounds(s, ordv)));
    }

    let pads = padding(ib, boundaries);
    let ghost pm = spec_padded_blocks(s, boundaries);
    let mut padded_v: Vec<TBLBlock<L>> = Vec::new();
    if let Some(lp) = pads.0 {
        padded_v.push(TBLBlock::Space(TBLInterval::new(lp, None)));
    }
    padded_v.append(&mut blks);
    if let Some(rp) = pads.1 {
        padded_v.push(TBLBlock::Space(TBLInterval::new(rp, None)));
    }
    proof {
        let pads_g = spec_padding(spec_boundaries(sel_bounds(s, ordv)), boundaries);
        let with_left = match pads_g.0 {
            Some(lp) => seq![(None::<int>, spec_normalize(lp))] + core,
            None => core,
        };
        assert(pm == (match pads_g.1 {
            Some(rp) => with_left.push((None::<int>, spec_normalize(rp))),
            None => with_left,
        }));
        assert(tbl_match(intervals@, pm, padded_v@));
    }

    let pb = blocks_boundaries(padded_v.as_slice());
    proof {
        lemma_padded_shape(s, boundaries);
        assert(tbl_bounds(padded_v@) =~= pad_bounds(pm));
    }
    let (mn, mx) = match pb {
        Some(x) => x,
        None => {
            proof {
                assert(false);
            }
            return Err(TBLError::NoBoundaries);
        },
    };
    let span: u128 = ((mx as i128) - (mn as i128)) as u128;
    proof {
        assert(mn == pm[0].1.0);
        assert(mx == pm.last().1.1);
        assert(mn < mx);
        assert(span as int == mx as int - mn as int);
        assert(span <= 0xffff_ffff_ffff_ffff);
    }

    let mut out: Vec<Block<L>> = Vec::new();
    let mut rem = padded_v;
    let ghost total = pm.len() as int;
    while rem.len() > 0
        invariant
            out@.len() + rem@.len() == total,
            total == pm.len() as int,
            pm == spec_padded_blocks(s, boundaries),
            s == bounds_seq(intervals@),
            span as int == pm.last().1.1 as int - pm[0].1.0 as int,
            0 < span <= 0xffff_ffff_ffff_ffff,
            mn == pm[0].1.0,
            tbl_match(intervals@, pm.skip(out@.len() as int), rem@),
            forall|h: int| 0 <= h < pm.len() ==> (#[trigger] pm[h]).1.0 <= pm[h].1.1,
            forall|h: int| 0 <= h < pm.len() ==> pm[0].1.0 <= (#[trigger] pm[h]).1.0
                && pm[h].1.1 <= pm.last().1.1,
            forall|k2: int|
                0 <= k2 < out@.len() ==> match (#[trigger] pm[k2]).0 {
                    Some(src) => 0 <= src < intervals@.len() && (out@[k2] matches Block::Segment(
                        w,
                        lb,
                    ) && w as int == spec_width(
                        pm[k2].1,
                        pm[0].1.0,
                        span as int,
                        length as int,
                    ) && cloned::<Option<L>>(intervals@[src].label, lb)),
                    None => out@[k2] matches Block::Space(w) && w as int == spec_width(
                        pm[k2].1,
                        pm[0].1.0,
                        span as int,
                        length as int,
                    ),
                },
        decreases rem@.len(),
    {
        let ghost done = out@.len() as int;
        proof {
            assert(pm.skip(done)[0] == pm[done]);
        }
        let b = rem.remove(0);
        proof {
            assert(pm.skip(done).skip(1) =~= pm.skip(done + 1));
        }
        match b {
            TBLBlock::Space(iv) => {
                let w = scaled_width(iv.bounds, mn, span, length);
                out.push(Block::Space(w));
            },
            TBLBlock::Segment(iv) => {
                let w = scaled_width(iv.bounds, mn, span, length);
                out.push(Block::Segment(w, iv.label));
            },
        }
        proof {
            assert forall|k2: int| 0 <= k2 < rem@.len() implies (match (#[trigger] pm.skip(
                done + 1,
            )[k2]).0 {
                Some(src) => 0 <= src < intervals@.len() && (rem@[k2]
                    matches TBLBlock::Segment(iv) && iv.bounds == pm.skip(done + 1)[k2].1
                    && cloned::<Option<L>>(intervals@[src].label, iv.label)),
                None => rem@[k2] matches TBLBlock::Space(iv) && iv.bounds == pm.skip(
                    done + 1,
                )[k2].1,
            }) by {
                assert(pm.skip(done)[k2 + 1] == pm.skip(done + 1)[k2]);
            }
        }
    }
    proof {
        assert(out@.len() == pm.len());
        assert(blocks_match(intervals@, length as int, boundaries, out@));
    }
    Ok(out)
}

} // verus!
