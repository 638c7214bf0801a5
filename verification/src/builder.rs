//! The rendering facade: a `Renderer` holds intervals, boundaries and
//! an output length, splits overlapping intervals into groups and
//! renders each group as one bar.

use vstd::prelude::*;
use vstd::string::StringExecFns;

verus! {

use crate::{Block, Bound, TBLError};
use crate::blocks::blocks_match;
use crate::blocks::build_blocks;
use crate::blocks::lemma_padded_shape;
use crate::blocks::lemma_width_nonneg;
use crate::blocks::lemma_widths_sum_length;
use crate::blocks::pad_bounds;
use crate::blocks::sel_bounds;
use crate::blocks::spec_first_overlap;
use crate::blocks::spec_padded_blocks;
use crate::blocks::spec_width;
use crate::blocks::widths_sum;
use crate::interval::TBLInterval;
use crate::interval::bounds_seq;
use crate::interval::spec_boundaries;
use crate::interval::spec_max_i64;
use crate::interval::spec_min_i64;
use crate::interval::spec_order;
use crate::interval::spec_split;
use crate::rendering::RenderBlock;
use crate::rendering::SingleLineRenderBlock;
use crate::rendering::composed;
use crate::rendering::default_rendered;
use crate::rendering::filler_ok;
use crate::rendering::lemma_max_lines_ones;
use crate::rendering::max_lines;
use crate::rendering::render_blocks;
use crate::rendering::render_default;
use crate::rendering::slrb_text;
use crate::rendering::spec_break_down;
use crate::rendering::spec_bwidth;
use crate::rendering::spec_pad_col;
use crate::rendering::spec_repeat_char;
use crate::rendering::vecvec_view;

/// The boundaries one render pass uses: the union of the data's own
/// boundaries with the caller's; either alone when the other is
/// absent.
pub open spec fn spec_unified(data: Option<Bound>, caller: Option<Bound>) -> Option<Bound> {
    match (data, caller) {
        (None, cb) => cb,
        (Some(b), None) => Some(b),
        (Some(b), Some(o)) => Some((spec_min_i64(b.0, o.0), spec_max_i64(b.1, o.1))),
    }
}

/// Bounds of group `g` of the split, selected from the sorted
/// non-empty bounds `sel0`.
pub open spec fn spec_group_bounds(sel0: Seq<Bound>, g: int) -> Seq<Bound> {
    spec_split(sel0)[g].map_values(|i: int| sel0[i])
}

/// Number of bars one render yields: one per overlap group, and a
/// single all-space bar when no interval survives filtering.
pub open spec fn spec_group_count(sel0: Seq<Bound>) -> int {
    if sel0.len() == 0 {
        1
    } else {
        spec_split(sel0).len() as int
    }
}

/// The characters of one rendered line: every block in order as its
/// width copies of `=` (segment) or blank (space).
pub open spec fn spec_line_chars(
    padded: Seq<(Option<int>, Bound)>,
    min: i64,
    span: int,
    length: int,
) -> Seq<char>
    decreases padded.len(),
{
    if padded.len() == 0 {
        Seq::empty()
    } else {
        spec_line_chars(padded.drop_last(), min, span, length) + spec_repeat_char(
            if padded.last().0 is Some {
                '='
            } else {
                ' '
            },
            spec_width(padded.last().1, min, span, length),
        )
    }
}

/// The single line the default renderer draws for one group of bounds.
pub open spec fn spec_rendered_line(bg: Seq<Bound>, ub: Option<Bound>, length: int) -> Seq<char> {
    let padded = spec_padded_blocks(bg, ub);
    let pb = spec_boundaries(pad_bounds(padded)).unwrap();
    spec_line_chars(padded, pb.0, pb.1 - pb.0, length)
}

/// The line of group `g` of a default render: a pure function of the
/// interval bounds, the caller's boundaries, and the length.
pub open spec fn spec_group_line(
    s0: Seq<Bound>,
    caller: Option<Bound>,
    length: int,
    g: int,
) -> Seq<char> {
    let sel0 = sel_bounds(s0, spec_order(s0));
    let ub = spec_unified(spec_boundaries(sel0), caller);
    let bg = if sel0.len() == 0 {
        Seq::<Bound>::empty()
    } else {
        spec_group_bounds(sel0, g)
    };
    spec_rendered_line(bg, ub, length)
}

/// The nested character sequences of a render result.
pub open spec fn lines_view(out: Seq<Vec<String>>) -> Seq<Seq<Seq<char>>> {
    out.map_values(|v: Vec<String>| v@.map_values(|s: String| s@))
}

/// `out` is the text a default render of intervals with bounds `s0`
/// yields: one single-line bar per overlap group (one all-space bar
/// when nothing survives filtering), each line determined by the
/// bounds, the caller's boundaries and the length alone.
pub open spec fn render_matches(
    s0: Seq<Bound>,
    caller: Option<Bound>,
    length: int,
    out: Seq<Seq<Seq<char>>>,
) -> bool {
    let sel0 = sel_bounds(s0, spec_order(s0));
    &&& out.len() == spec_group_count(sel0)
    &&& forall|g: int| 0 <= g < out.len() ==> (#[trigger] out[g]).len() == 1
    &&& forall|g: int| 0 <= g < out.len() ==> (#[trigger] out[g])[0] == spec_group_line(
        s0,
        caller,
        length,
        g,
    )
}

/// Rendering is deterministic: two renders of the same interval
/// bounds, boundaries and length yield identical output, line for
/// line.
pub proof fn lemma_render_deterministic(
    s0: Seq<Bound>,
    caller: Option<Bound>,
    length: int,
    o1: Seq<Seq<Seq<char>>>,
    o2: Seq<Seq<Seq<char>>>,
)
    requires
        render_matches(s0, caller, length, o1),
        render_matches(s0, caller, length, o2),
    ensures
        o1 == o2,
{
    assert forall|g: int| 0 <= g < o1.len() implies #[trigger] o1[g] =~~= o2[g] by {
        assert(o1[g][0] == o2[g][0]);
    }
    assert(o1 =~~= o2);
}

proof fn lemma_group_renderable(s0: Seq<Bound>, g: int)
    requires
        forall|j: int| 0 <= j < s0.len() ==> (#[trigger] s0[j]).0 <= s0[j].1,
        sel_bounds(s0, spec_order(s0)).len() > 0,
        0 <= g < spec_split(sel_bounds(s0, spec_order(s0))).len(),
    ensures
        ({
            let sel0 = sel_bounds(s0, spec_order(s0));
            let bg = spec_group_bounds(sel0, g);
            &&& forall|j: int| 0 <= j < bg.len() ==> (#[trigger] bg[j]).0 < bg[j].1
            &&& spec_order(bg) == crate::interval::ident(bg.len() as int)
            &&& spec_first_overlap(bg, spec_order(bg), 0) is None
        }),
{
    let ord0 = spec_order(s0);
    let sel0 = sel_bounds(s0, ord0);
    let gs = spec_split(sel0);
    let bg = spec_group_bounds(sel0, g);
    crate::interval::lemma_order_props(s0);
    assert(forall|h: int| 0 <= h < sel0.len() ==> #[trigger] sel0[h] == s0[ord0[h]]);
    assert forall|h: int| 0 <= h < sel0.len() implies (#[trigger] sel0[h]).0 != sel0[h].1 by {
        assert(sel0[h] == s0[ord0[h]]);
    }
    assert forall|a: int, b: int|
        #![trigger sel0[a], sel0[b]]
        0 <= a <= b < sel0.len() implies sel0[a].0 <= sel0[b].0 by {
        assert(crate::interval::idx_sorted(s0, ord0));
        assert(s0[ord0[a]].0 <= s0[ord0[b]].0);
    }
    crate::interval::lemma_split_from_props(sel0, 0);
    assert(forall|k2: int| 0 <= k2 < bg.len() ==> #[trigger] bg[k2] == sel0[gs[g][k2]]);
    assert forall|j: int| 0 <= j < bg.len() implies (#[trigger] bg[j]).0 < bg[j].1 by {
        assert(bg[j] == sel0[gs[g][j]]);
    }
    assert forall|a: int, b: int|
        #![trigger bg[a], bg[b]]
        0 <= a <= b < bg.len() implies bg[a].0 <= bg[b].0 by {
        crate::interval::lemma_grp_pairwise(sel0, gs[g], a, b);
        assert(sel0[gs[g][a]].0 <= sel0[gs[g][b]].0);
    }
    crate::interval::lemma_order_identity(bg);
    assert forall|k2: int| 0 <= k2 < bg.len() - 1 implies !crate::interval::spec_intersect(
        bg[#[trigger] crate::interval::ident(bg.len() as int)[k2]],
        bg[crate::interval::ident(bg.len() as int)[k2 + 1]],
    ) by {
        assert(crate::interval::grp_ok(sel0, gs[g]));
        assert(gs[g][k2] < gs[g][k2 + 1] && !crate::interval::spec_intersect(
            sel0[gs[g][k2]],
            sel0[gs[g][k2 + 1]],
        ));
    }
    crate::blocks::lemma_first_overlap_none_converse(
        bg,
        crate::interval::ident(bg.len() as int),
        0,
    );
}

proof fn lemma_group_line_length(s0: Seq<Bound>, caller: Option<Bound>, length: int, g: int)
    requires
        forall|j: int| 0 <= j < s0.len() ==> (#[trigger] s0[j]).0 <= s0[j].1,
        length >= 0,
        0 <= g < spec_group_count(sel_bounds(s0, spec_order(s0))),
    ensures
        spec_group_line(s0, caller, length, g).len() == length,
{
    let sel0 = sel_bounds(s0, spec_order(s0));
    let bg: Seq<Bound> = if sel0.len() == 0 {
        Seq::empty()
    } else {
        spec_group_bounds(sel0, g)
    };
    if sel0.len() == 0 {
        assert(crate::interval::spec_filter_idx(bg) =~= Seq::<int>::empty());
        assert(spec_order(bg) =~= Seq::<int>::empty());
        assert(spec_first_overlap(bg, spec_order(bg), 0) is None);
    } else {
        lemma_group_renderable(s0, g);
    }
    assert(forall|j: int| 0 <= j < bg.len() ==> (#[trigger] bg[j]).0 <= bg[j].1);
    lemma_padded_shape(bg, caller_unified(s0, caller));
    let ub = caller_unified(s0, caller);
    let padded = spec_padded_blocks(bg, ub);
    let pb = spec_boundaries(pad_bounds(padded)).unwrap();
    let span = pb.1 as int - pb.0 as int;
    lemma_widths_sum_length(bg, ub, length);
    assert forall|k: int| 0 <= k < padded.len() implies spec_width(
        (#[trigger] padded[k]).1,
        pb.0,
        span,
        length,
    ) >= 0 by {
        lemma_width_nonneg(padded[k].1, pb.0, span, length);
    }
    lemma_line_chars_len(padded, pb.0, span, length);
}

/// The boundaries a render of intervals with bounds `s0` hands every
/// group.
pub open spec fn caller_unified(s0: Seq<Bound>, caller: Option<Bound>) -> Option<Bound> {
    spec_unified(spec_boundaries(sel_bounds(s0, spec_order(s0))), caller)
}

/// Every line of a default render is exactly `length` characters
/// wide, whatever the intervals and boundaries, including length 0.
pub proof fn lemma_rendered_width(
    s0: Seq<Bound>,
    caller: Option<Bound>,
    length: int,
    out: Seq<Seq<Seq<char>>>,
)
    requires
        forall|j: int| 0 <= j < s0.len() ==> (#[trigger] s0[j]).0 <= s0[j].1,
        length >= 0,
        render_matches(s0, caller, length, out),
    ensures
        forall|g: int, i: int|
            0 <= g < out.len() && 0 <= i < out[g].len() ==> (#[trigger] out[g][i]).len() == length,
{
    assert forall|g: int, i: int|
        0 <= g < out.len() && 0 <= i < out[g].len() implies (#[trigger] out[g][i]).len()
        == length by {
        assert(i == 0);
        lemma_group_line_length(s0, caller, length, g);
    }
}

proof fn lemma_line_chars_len(padded: Seq<(Option<int>, Bound)>, min: i64, span: int, length: int)
    requires
        forall|k: int| 0 <= k < padded.len() ==> spec_width(
            (#[trigger] padded[k]).1,
            min,
            span,
            length,
        ) >= 0,
    ensures
        spec_line_chars(padded, min, span, length).len() == widths_sum(padded, min, span, length),
    decreases padded.len(),
{
    if padded.len() == 0 {
    } else {
        assert(forall|k: int| 0 <= k < padded.drop_last().len() ==> #[trigger] padded.drop_last()[
            k] == padded[k]);
        lemma_line_chars_len(padded.drop_last(), min, span, length);
    }
}

/// Renders one group of non-overlapping, sorted, non-empty intervals
/// with the default renderer: exactly one line, whose characters are
/// the scaled blocks drawn as `=` and blanks, summing to `length`.
#[verifier::rlimit(50)]
fn render_group<L: Clone>(grp: &[TBLInterval<L>], length: usize, ub: Option<Bound>) -> (r: Vec<
    String,
>)
    requires
        forall|j: int| 0 <= j < grp@.len() ==> (#[trigger] grp@[j]).wf(),
        spec_first_overlap(bounds_seq(grp@), spec_order(bounds_seq(grp@)), 0) is None,
    ensures
        r@.len() == 1,
        r@[0]@ == spec_rendered_line(bounds_seq(grp@), ub, length as int),
        r@[0]@.len() == length,
{
    let ghost bg = bounds_seq(grp@);
    let ghost padded = spec_padded_blocks(bg, ub);
    proof {
        assert(forall|j: int| 0 <= j < bg.len() ==> (#[trigger] bg[j]).0 <= bg[j].1);
        lemma_padded_shape(bg, ub);
        lemma_widths_sum_length(bg, ub, length as int);
    }
    let ghost pb = spec_boundaries(pad_bounds(padded)).unwrap();
    let ghost span = pb.1 as int - pb.0 as int;
    let blocks = match build_blocks(grp, length, ub) {
        Ok(b) => b,
        Err(_) => {
            proof {
                assert(false);
            }
            Vec::new()
        },
    };
    proof {
        assert(blocks_match(grp@, length as int, ub, blocks@));
        assert(blocks@.len() == padded.len() >= 1);
    }
    let rows = render_blocks(blocks.as_slice(), &render_default);
    let ghost (rnd, fills, fillers) = choose|
        rnd: Seq<RenderBlock>,
        fills: Seq<RenderBlock>,
        fillers: Seq<SingleLineRenderBlock>,
    |
        (#[trigger] rnd.len()) == blocks@.len() && (#[trigger] fills.len()) == blocks@.len() && (
        #[trigger] fillers.len()) == blocks@.len() && (forall|k: int|
            0 <= k < blocks@.len() ==> call_ensures(
                render_default::<L>,
                (&blocks@[k],),
                #[trigger] rnd[k],
            )) && (forall|k: int|
            0 <= k < blocks@.len() ==> call_ensures(
                render_default::<L>,
                (&Block::<L>::Space(spec_bwidth(blocks@[k])),),
                #[trigger] fills[k],
            )) && (forall|k: int|
            0 <= k < blocks@.len() ==> filler_ok(blocks@[k], fills[k], #[trigger] fillers[k]))
            && composed(blocks@, rnd, fillers, vecvec_view(rows@));
    proof {
        assert forall|k: int| 0 <= k < blocks@.len() implies default_rendered(
            blocks@[k],
            rnd[k],
        ) by {
            assert(call_ensures(render_default::<L>, (&blocks@[k],), rnd[k]));
        }
        assert forall|k: int| 0 <= k < rnd.len() implies crate::rendering::rb_lines(
            #[trigger] rnd[k],
        ) == 1 by {
            assert(default_rendered(blocks@[k], rnd[k]));
        }
        lemma_max_lines_ones(rnd);
        assert(max_lines(rnd) == 1);
        assert(vecvec_view(rows@).len() == 1);
        assert(rows@.len() == 1);
    }
    let ghost row0 = vecvec_view(rows@)[0];
    proof {
        assert(row0 == rows@[0]@);
        assert(row0.len() == blocks@.len());
        assert forall|h: int| 0 <= h < padded.len() implies slrb_text(#[trigger] row0[h])
            == spec_repeat_char(
            if padded[h].0 is Some {
                '='
            } else {
                ' '
            },
            spec_width(padded[h].1, pb.0, span, length as int),
        ) by {
            assert(row0[h] == spec_pad_col(rnd[h], fillers[h], 1)[0]);
            assert(default_rendered(blocks@[h], rnd[h]));
            assert(spec_break_down(rnd[h]).len() == 1);
            assert(row0[h] == spec_break_down(rnd[h])[0]);
        }
    }
    let row = &rows[0];
    let ghost lenint: int = length as int;
    let mut line = String::new();
    let mut j: usize = 0;
    proof {
        assert(row@ == row0);
        assert(padded.take(0) =~= Seq::<(Option<int>, Bound)>::empty());
    }
    while j < row.len()
        invariant
            0 <= j <= row@.len(),
            row@ == row0,
            row0.len() == padded.len(),
            lenint == length as int,
            forall|h: int| 0 <= h < padded.len() ==> slrb_text(#[trigger] row0[h])
                == spec_repeat_char(
                if padded[h].0 is Some {
                    '='
                } else {
                    ' '
                },
                spec_width(padded[h].1, pb.0, span, lenint),
            ),
            line@ == spec_line_chars(padded.take(j as int), pb.0, span, lenint),
        decreases row@.len() - j,
    {
        let t = row[j].text();
        line.append(t.as_str());
        proof {
            assert(padded.take(j + 1).drop_last() =~= padded.take(j as int));
            assert(padded.take(j + 1).last() == padded[j as int]);
        }
        j = j + 1;
    }
    proof {
        assert(padded.take(padded.len() as int) =~= padded);
        assert(line@ == spec_line_chars(padded, pb.0, span, lenint));
        assert forall|k: int| 0 <= k < padded.len() implies spec_width(
            (#[trigger] padded[k]).1,
            pb.0,
            span,
            lenint,
        ) >= 0 by {
            lemma_width_nonneg(padded[k].1, pb.0, span, lenint);
        }
        lemma_line_chars_len(padded, pb.0, span, lenint);
        assert(line@.len() == length);
    }
    let mut out: Vec<String> = Vec::new();
    out.push(line);
    out
}

/// Renders intervals as fixed-width text bars.
///
/// `L` is the label type that a block renderer receives. The fields
/// are public so that contracts can speak of them; `render` requires
/// every interval to be normalized, which `new` establishes and the
/// `with_*` builders preserve.
pub struct Renderer<L> {
    pub length: usize,
    pub intervals: Vec<TBLInterval<L>>,
    pub boundaries: Option<Bound>,
}

impl<L: Clone> Renderer<L> {
    /// A `Renderer` over the given items with the default length and
    /// no explicit boundaries. `fb` extracts each item's bounds, `fl`
    /// its optional label; the intervals are stored normalized, in the
    /// items' order.
    pub fn new<T, FB: Fn(&T) -> Bound, FL: Fn(&T) -> Option<L>>(
        intervals: &[T],
        fb: &FB,
        fl: &FL,
    ) -> (r: Renderer<L>)
        requires
            forall|i: int|
                0 <= i < intervals@.len() ==> call_requires(*fb, (&intervals@[i],))
                    && call_requires(*fl, (&intervals@[i],)),
        ensures
            r.length == crate::rendering::DEFAULT_LENGTH,
            r.boundaries is None,
            r.intervals@.len() == intervals@.len(),
            forall|i: int| 0 <= i < r.intervals@.len() ==> (#[trigger] r.intervals@[i]).wf(),
            exists|bds: Seq<Bound>, lbs: Seq<Option<L>>|
                (#[trigger] bds.len()) == intervals@.len() && (#[trigger] lbs.len())
                    == intervals@.len() && forall|i: int|
                    0 <= i < intervals@.len() ==> call_ensures(*fb, (&intervals@[i],), #[trigger] bds[i])
                        && call_ensures(*fl, (&intervals@[i],), lbs[i]) && r.intervals@[i].bounds
                        == crate::interval::spec_normalize(bds[i]) && r.intervals@[i].label == lbs[i],
    {
        let mut ivs: Vec<TBLInterval<L>> = Vec::new();
        let ghost mut bds: Seq<Bound> = Seq::empty();
        let ghost mut lbs: Seq<Option<L>> = Seq::empty();
        let mut k: usize = 0;
        while k < intervals.len()
            invariant
                0 <= k <= intervals@.len(),
                ivs@.len() == k,
                bds.len() == k,
                lbs.len() == k,
                forall|i: int|
                    0 <= i < intervals@.len() ==> call_requires(*fb, (&intervals@[i],))
                        && call_requires(*fl, (&intervals@[i],)),
                forall|i: int|
                    0 <= i < k ==> call_ensures(*fb, (&intervals@[i],), #[trigger] bds[i])
                        && call_ensures(*fl, (&intervals@[i],), lbs[i]) && ivs@[i].bounds
                        == crate::interval::spec_normalize(bds[i]) && ivs@[i].label == lbs[i],
                forall|i: int| 0 <= i < k ==> (#[trigger] ivs@[i]).wf(),
            decreases intervals@.len() - k,
        {
            let item = &intervals[k];
            let bd = fb(item);
            let lb = fl(item);
            proof {
                bds = bds.push(bd);
                lbs = lbs.push(lb);
            }
            ivs.push(TBLInterval::new(bd, lb));
            k = k + 1;
        }
        let r = Renderer {
            length: crate::rendering::DEFAULT_LENGTH,
            intervals: ivs,
            boundaries: None,
        };
        proof {
            assert(bds.len() == intervals@.len() && lbs.len() == intervals@.len());
        }
        r
    }

    /// Configures the output line length in characters.
    pub fn with_length(self, length: usize) -> (r: Self)
        ensures
            r.length == length,
            r.intervals == self.intervals,
            r.boundaries == self.boundaries,
    {
        Renderer { length, ..self }
    }

    /// Configures explicit boundaries. When they reach beyond the
    /// intervals' own span, the output is padded on that side to fit.
    pub fn with_boundaries(self, boundaries: Bound) -> (r: Self)
        ensures
            r.boundaries == Some(boundaries),
            r.intervals == self.intervals,
            r.length == self.length,
    {
        Renderer { boundaries: Some(boundaries), ..self }
    }

    /// Renders the intervals with the default block renderer.
    ///
    /// The pipeline: drop empty intervals, sort the rest stably by
    /// start, widen the caller's boundaries with the data's own, split
    /// overlapping intervals into groups, and render each group as one
    /// line of exactly `length` characters. An input with no usable
    /// interval yields a single all-space line rather than an error,
    /// so this never fails.
    #[verifier::rlimit(100)]
    pub fn render(&self) -> (r: Result<Vec<Vec<String>>, TBLError<L>>)
        requires
            forall|i: int| 0 <= i < self.intervals@.len() ==> (#[trigger] self.intervals@[i]).wf(),
        ensures
            r matches Ok(out) && ({
                let s0 = bounds_seq(self.intervals@);
                let sel0 = sel_bounds(s0, spec_order(s0));
                &&& out@.len() == spec_group_count(sel0)
                &&& forall|g: int| 0 <= g < out@.len() ==> (#[trigger] out@[g])@.len() == 1
                &&& forall|g: int|
                    0 <= g < out@.len() ==> (#[trigger] out@[g])@[0]@ == spec_group_line(
                        s0,
                        self.boundaries,
                        self.length as int,
                        g,
                    )
                &&& forall|g: int| 0 <= g < out@.len() ==> (#[trigger] out@[g])@[0]@.len()
                    == self.length
                &&& render_matches(s0, self.boundaries, self.length as int, lines_view(out@))
            }),
    {
        let ghost s0 = bounds_seq(self.intervals@);
        let ghost ord0 = spec_order(s0);
        let ghost sel0 = sel_bounds(s0, ord0);
        proof {
            assert(forall|j: int| 0 <= j < s0.len() ==> #[trigger] s0[j]
                == self.intervals@[j].bounds);
            crate::interval::lemma_order_props(s0);
            assert(forall|k: int| 0 <= k < sel0.len() ==> #[trigger] sel0[k] == s0[ord0[k]]);
        }
        let ord = crate::interval::order_indices(self.intervals.as_slice());
        let mut sv: Vec<TBLInterval<L>> = Vec::new();
        let mut k: usize = 0;
        while k < ord.len()
            invariant
                0 <= k <= ord@.len(),
                s0 == bounds_seq(self.intervals@),
                ord0 == spec_order(s0),
                sel0 == sel_bounds(s0, ord0),
                crate::interval::idx_view(ord@) == ord0,
                forall|h: int| 0 <= h < ord@.len() ==> #[trigger] ord@[h]
                    < self.intervals@.len(),
                forall|j: int| 0 <= j < s0.len() ==> #[trigger] s0[j]
                    == self.intervals@[j].bounds,
                forall|h: int| 0 <= h < sel0.len() ==> #[trigger] sel0[h] == s0[ord0[h]],
                sv@.len() == k,
                forall|j: int| 0 <= j < k ==> (#[trigger] sv@[j]).bounds == sel0[j],
                forall|j: int| 0 <= j < k ==> (#[trigger] sv@[j]).wf(),
                forall|i: int| 0 <= i < self.intervals@.len() ==> (
                #[trigger] self.intervals@[i]).wf(),
            decreases ord@.len() - k,
        {
            proof {
                assert(ord0[k as int] == ord@[k as int] as int);
            }
            let iv = self.intervals[ord[k]].clone();
            sv.push(iv);
            k = k + 1;
        }
        proof {
            assert(bounds_seq(sv@) =~= sel0);
        }
        let db = crate::interval::boundaries(sv.as_slice());
        let ub = match (db, self.boundaries) {
            (None, _) => self.boundaries,
            (Some(b), None) => Some(b),
            (Some(b), Some(other)) => Some(crate::interval::union(&b, &other)),
        };
        proof {
            assert(ub == spec_unified(spec_boundaries(sel0), self.boundaries));
        }
        proof {
            assert forall|h: int| 0 <= h < sel0.len() implies (#[trigger] sel0[h]).0
                != sel0[h].1 by {
                assert(sel0[h] == s0[ord0[h]]);
            }
            assert forall|a: int, b: int|
                #![trigger sel0[a], sel0[b]]
                0 <= a <= b < sel0.len() implies sel0[a].0 <= sel0[b].0 by {
                assert(crate::interval::idx_sorted(s0, ord0));
                assert(s0[ord0[a]].0 <= s0[ord0[b]].0);
            }
        }
        let ghost svv = sv@;
        let groups = crate::interval::split_overlapping(sv);
        let ghost gs = spec_split(sel0);
        proof {
            crate::interval::lemma_split_from_props(sel0, 0);
        }
        let mut out: Vec<Vec<String>> = Vec::new();
        if groups.len() == 0 {
            proof {
                if sel0.len() > 0 {
                    crate::interval::lemma_split_nonempty(sel0);
                }
                assert(sel0.len() == 0);
            }
            let empty_grp: Vec<TBLInterval<L>> = Vec::new();
            proof {
                let eb = bounds_seq(empty_grp@);
                assert(eb =~= Seq::<Bound>::empty());
                assert(crate::interval::spec_filter_idx(eb) =~= Seq::<int>::empty());
                assert(spec_order(eb) =~= Seq::<int>::empty());
                assert(spec_first_overlap(eb, spec_order(eb), 0) is None);
            }
            let lines_g = render_group(empty_grp.as_slice(), self.length, ub);
            out.push(lines_g);
            proof {
                assert(out@[0]@[0]@ == spec_rendered_line(
                    Seq::<Bound>::empty(),
                    ub,
                    self.length as int,
                ));
                assert(out@[0]@[0]@ == spec_group_line(
                    s0,
                    self.boundaries,
                    self.length as int,
                    0,
                ));
            }
        } else {
            proof {
                assert(gs.len() == groups@.len());
                assert(sel0.len() > 0);
            }
            let mut g: usize = 0;
            while g < groups.len()
                invariant
                    0 <= g <= groups@.len(),
                    s0 == bounds_seq(self.intervals@),
                    ord0 == spec_order(s0),
                    sel0 == sel_bounds(s0, ord0),
                    sel0.len() > 0,
                    gs == spec_split(sel0),
                    gs.len() == groups@.len(),
                    svv.len() == sel0.len(),
                    bounds_seq(svv) == sel0,
                    crate::interval::split_matches(svv, crate::interval::groups_view(groups@)),
                    forall|h: int| 0 <= h < sel0.len() ==> #[trigger] sel0[h] == s0[ord0[h]],
                    forall|h: int| 0 <= h < sel0.len() ==> (#[trigger] sel0[h]).0 != sel0[h].1,
                    forall|a: int, b: int|
                        #![trigger sel0[a], sel0[b]]
                        0 <= a <= b < sel0.len() ==> sel0[a].0 <= sel0[b].0,
                    forall|j: int| 0 <= j < svv.len() ==> (#[trigger] svv[j]).wf(),
                    forall|j: int| 0 <= j < svv.len() ==> (#[trigger] svv[j]).bounds == sel0[j],
                    forall|h: int| 0 <= h < gs.len() ==> (#[trigger] gs[h]).len() > 0,
                    forall|h: int, k2: int|
                        0 <= h < gs.len() && 0 <= k2 < gs[h].len() ==> 0 <= #[trigger] gs[h][k2]
                            < sel0.len(),
                    forall|h: int| 0 <= h < gs.len() ==> crate::interval::grp_ok(
                        sel0,
                        #[trigger] gs[h],
                    ),
                    ub == spec_unified(spec_boundaries(sel0), self.boundaries),
                    out@.len() == g,
                    forall|h: int| 0 <= h < g ==> (#[trigger] out@[h])@.len() == 1,
                    forall|h: int| 0 <= h < g ==> (#[trigger] out@[h])@[0]@ == spec_group_line(
                        s0,
                        self.boundaries,
                        self.length as int,
                        h,
                    ),
                    forall|h: int| 0 <= h < g ==> (#[trigger] out@[h])@[0]@.len() == self.length,
                decreases groups@.len() - g,
            {
                let grp = &groups[g];
                let ghost bg = spec_group_bounds(sel0, g as int);
                proof {
                    assert(crate::interval::groups_view(groups@)[g as int] == grp@);
                    assert(grp@.len() == gs[g as int].len());
                    assert(forall|k2: int| 0 <= k2 < grp@.len() ==> #[trigger] grp@[k2]
                        == svv[gs[g as int][k2]]);
                    assert(bg.len() == grp@.len());
                    assert(forall|k2: int| 0 <= k2 < bg.len() ==> #[trigger] bg[k2]
                        == sel0[gs[g as int][k2]]);
                    assert(bounds_seq(grp@) =~= bg);
                    assert(forall|k2: int| 0 <= k2 < grp@.len() ==> (#[trigger] grp@[k2]).wf());
                    // sel0 members are non-empty and sorted by start
                    assert(forall|k2: int| 0 <= k2 < bg.len() ==> (#[trigger] bg[k2]).0
                        != bg[k2].1);
                    assert forall|a: int, b: int|
                        #![trigger bg[a], bg[b]]
                        0 <= a <= b < bg.len() implies bg[a].0 <= bg[b].0 by {
                        crate::interval::lemma_grp_pairwise(sel0, gs[g as int], a, b);
                        let ia = gs[g as int][a];
                        let ib2 = gs[g as int][b];
                        assert(sel0[ia].0 <= sel0[ib2].0);
                    }
                    crate::interval::lemma_order_identity(bg);
                    assert forall|k2: int| 0 <= k2 < bg.len() - 1 implies !crate::interval::spec_intersect(
                        bg[#[trigger] crate::interval::ident(bg.len() as int)[k2]],
                        bg[crate::interval::ident(bg.len() as int)[k2 + 1]],
                    ) by {
                        assert(crate::interval::grp_ok(sel0, gs[g as int]));
                        assert(gs[g as int][k2] < gs[g as int][k2 + 1]
                            && !crate::interval::spec_intersect(
                            sel0[gs[g as int][k2]],
                            sel0[gs[g as int][k2 + 1]],
                        ));
                    }
                    crate::blocks::lemma_first_overlap_none_converse(
                        bg,
                        crate::interval::ident(bg.len() as int),
                        0,
                    );
                    assert(spec_order(bounds_seq(grp@)) == crate::interval::ident(
                        bg.len() as int,
                    ));
                    assert(spec_first_overlap(bounds_seq(grp@), spec_order(bounds_seq(grp@)), 0)
                        is None);
                }
                let lines_g = render_group(grp.as_slice(), self.length, ub);
                out.push(lines_g);
                proof {
                    assert(out@[g as int]@[0]@ == spec_rendered_line(bg, ub, self.length as int));
                    assert(out@[g as int]@[0]@ == spec_group_line(
                        s0,
                        self.boundaries,
                        self.length as int,
                        g as int,
                    ));
                }
                g = g + 1;
            }
        }
        proof {
            let lv = lines_view(out@);
            assert(lv.len() == out@.len());
            assert forall|g: int| 0 <= g < lv.len() implies (#[trigger] lv[g]).len() == 1 && lv[g][0]
                == spec_group_line(s0, self.boundaries, self.length as int, g) by {
                assert(lv[g] == out@[g]@.map_values(|s: String| s@));
                assert(lv[g][0] == out@[g]@[0]@);
            }
        }
        Ok(out)
    }
}

/// Concatenation of one row's texts, in block order.
pub open spec fn concat_texts(row: Seq<SingleLineRenderBlock>) -> Seq<char>
    decreases row.len(),
{
    if row.len() == 0 {
        Seq::empty()
    } else {
        concat_texts(row.drop_last()) + slrb_text(row.last())
    }
}

/// Joins each row of single-line fragments into one line of text.
fn rows_to_lines(rows: Vec<Vec<SingleLineRenderBlock>>) -> (r: Vec<String>)
    ensures
        r@.len() == rows@.len(),
        forall|i: int| 0 <= i < r@.len() ==> (#[trigger] r@[i])@ == concat_texts(
            vecvec_view(rows@)[i],
        ),
{
    let mut r: Vec<String> = Vec::new();
    let mut i: usize = 0;
    while i < rows.len()
        invariant
            0 <= i <= rows@.len(),
            r@.len() == i,
            forall|h: int| 0 <= h < i ==> (#[trigger] r@[h])@ == concat_texts(
                vecvec_view(rows@)[h],
            ),
        decreases rows@.len() - i,
    {
        let row = &rows[i];
        let ghost rv = vecvec_view(rows@)[i as int];
        proof {
            assert(rv == rows@[i as int]@);
            assert(rv.take(0) =~= Seq::<SingleLineRenderBlock>::empty());
        }
        let mut line = String::new();
        let mut j: usize = 0;
        while j < row.len()
            invariant
                0 <= j <= row@.len(),
                row@ == rv,
                line@ == concat_texts(rv.take(j as int)),
            decreases row@.len() - j,
        {
            let tx = row[j].text();
            line.append(tx.as_str());
            proof {
                assert(rv.take(j + 1).drop_last() =~= rv.take(j as int));
                assert(rv.take(j + 1).last() == rv[j as int]);
            }
            j = j + 1;
        }
        proof {
            assert(rv.take(rv.len() as int) =~= rv);
        }
        r.push(line);
        i = i + 1;
    }
    r
}

/// Renders one group of non-overlapping, sorted, non-empty intervals
/// with a caller-supplied renderer: the group's blocks are composed
/// into rows, and each row is joined into one line.
fn render_custom_group<L: Clone, F: Fn(&Block<L>) -> RenderBlock>(
    grp: &[TBLInterval<L>],
    length: usize,
    ub: Option<Bound>,
    renderer: &F,
) -> (res: (
    Vec<String>,
    Ghost<
        (
            Seq<Block<L>>,
            Seq<Seq<SingleLineRenderBlock>>,
            Seq<RenderBlock>,
            Seq<RenderBlock>,
            Seq<SingleLineRenderBlock>,
        ),
    >,
))
    requires
        forall|j: int| 0 <= j < grp@.len() ==> (#[trigger] grp@[j]).wf(),
        spec_first_overlap(bounds_seq(grp@), spec_order(bounds_seq(grp@)), 0) is None,
        forall|b: Block<L>| #[trigger] call_requires(*renderer, (&b,)),
    ensures
        ({
            let (blocks, rows, rnd, fills, fillers) = res.1@;
            let r = res.0;
            &&& blocks_match(grp@, length as int, ub, blocks)
            &&& rows.len() == r@.len()
            &&& rnd.len() == blocks.len()
            &&& fills.len() == blocks.len()
            &&& fillers.len() == blocks.len()
            &&& (forall|k: int|
                0 <= k < blocks.len() ==> call_ensures(*renderer, (&blocks[k],), #[trigger] rnd[k]))
            &&& (forall|k: int|
                0 <= k < blocks.len() ==> call_ensures(
                    *renderer,
                    (&Block::<L>::Space(spec_bwidth(blocks[k])),),
                    #[trigger] fills[k],
                ))
            &&& (forall|k: int|
                0 <= k < blocks.len() ==> filler_ok(blocks[k], fills[k], #[trigger] fillers[k]))
            &&& composed(blocks, rnd, fillers, rows)
            &&& (forall|i: int| 0 <= i < r@.len() ==> (#[trigger] r@[i])@ == concat_texts(rows[i]))
        }),
{
    let blocks = match build_blocks(grp, length, ub) {
        Ok(b) => b,
        Err(_) => {
            proof {
                assert(false);
            }
            Vec::new()
        },
    };
    let rows = render_blocks(blocks.as_slice(), renderer);
    let ghost (rnd, fills, fillers) = choose|
        rnd: Seq<RenderBlock>,
        fills: Seq<RenderBlock>,
        fillers: Seq<SingleLineRenderBlock>,
    |
        (#[trigger] rnd.len()) == blocks@.len() && (#[trigger] fills.len()) == blocks@.len() && (
        #[trigger] fillers.len()) == blocks@.len() && (forall|k: int|
            0 <= k < blocks@.len() ==> call_ensures(*renderer, (&blocks@[k],), #[trigger] rnd[k]))
            && (forall|k: int|
            0 <= k < blocks@.len() ==> call_ensures(
                *renderer,
                (&Block::<L>::Space(spec_bwidth(blocks@[k])),),
                #[trigger] fills[k],
            )) && (forall|k: int|
            0 <= k < blocks@.len() ==> filler_ok(blocks@[k], fills[k], #[trigger] fillers[k]))
            && composed(blocks@, rnd, fillers, vecvec_view(rows@));
    let ghost rowsv = vecvec_view(rows@);
    let ghost blocksv = blocks@;
    let r = rows_to_lines(rows);
    proof {
        assert(rowsv.len() == r@.len());
    }
    (r, Ghost((blocksv, rowsv, rnd, fills, fillers)))
}

/// One group of a custom render: the blocks have the kinds and widths
/// the group's geometry dictates, each was drawn by the attached
/// renderer, the drawings were composed into rows, and each output
/// line is one row's concatenation.
pub open spec fn custom_group_ok<L, F: Fn(&Block<L>) -> RenderBlock>(
    bg: Seq<Bound>,
    ub: Option<Bound>,
    length: int,
    f: F,
    blocks: Seq<Block<L>>,
    rows: Seq<Seq<SingleLineRenderBlock>>,
    rnd: Seq<RenderBlock>,
    fillers: Seq<SingleLineRenderBlock>,
    lines: Seq<Seq<char>>,
) -> bool {
    &&& crate::blocks::blocks_geom(bg, length, ub, blocks)
    &&& rnd.len() == blocks.len()
    &&& (forall|k: int| 0 <= k < blocks.len() ==> call_ensures(f, (&blocks[k],), #[trigger] rnd[k]))
    &&& composed(blocks, rnd, fillers, rows)
    &&& lines.len() == rows.len()
    &&& (forall|i: int| 0 <= i < lines.len() ==> #[trigger] lines[i] == concat_texts(rows[i]))
}

/// A whole custom render: one composed bar per overlap group, each
/// realized as `custom_group_ok` describes.
pub open spec fn custom_groups_ok<L, F: Fn(&Block<L>) -> RenderBlock>(
    s0: Seq<Bound>,
    caller: Option<Bound>,
    length: int,
    f: F,
    gb: Seq<Seq<Block<L>>>,
    rws: Seq<Seq<Seq<SingleLineRenderBlock>>>,
    rns: Seq<Seq<RenderBlock>>,
    fis: Seq<Seq<SingleLineRenderBlock>>,
    out: Seq<Seq<Seq<char>>>,
) -> bool {
    let sel0 = sel_bounds(s0, spec_order(s0));
    let ub = spec_unified(spec_boundaries(sel0), caller);
    &&& gb.len() == out.len()
    &&& rws.len() == out.len()
    &&& rns.len() == out.len()
    &&& fis.len() == out.len()
    &&& forall|g: int|
        0 <= g < out.len() ==> custom_group_ok(
            if sel0.len() == 0 {
                Seq::<Bound>::empty()
            } else {
                spec_group_bounds(sel0, g)
            },
            ub,
            length,
            f,
            #[trigger] gb[g],
            rws[g],
            rns[g],
            fis[g],
            out[g],
        )
}

/// A `Renderer` together with a caller-supplied block renderer.
pub struct CustomRenderer<L, F> {
    pub base: Renderer<L>,
    pub renderer: F,
}

impl<L: Clone> Renderer<L> {
    /// Attaches a custom block renderer; `render` then draws every
    /// block through it.
    pub fn with_renderer<F: Fn(&Block<L>) -> RenderBlock>(self, renderer: F) -> (r: CustomRenderer<
        L,
        F,
    >)
        ensures
            r.base == self,
            r.renderer == renderer,
    {
        CustomRenderer { base: self, renderer }
    }
}

impl<L: Clone, F: Fn(&Block<L>) -> RenderBlock> CustomRenderer<L, F> {
    /// Renders the intervals through the attached block renderer: the
    /// same filtering, sorting, widening, splitting and block building
    /// as the default render, with each group's blocks drawn by the
    /// custom renderer and composed into one multi-line bar.
    #[verifier::rlimit(100)]
    pub fn render(&self) -> (r: Result<Vec<Vec<String>>, TBLError<L>>)
        requires
            forall|i: int|
                0 <= i < self.base.intervals@.len() ==> (
                #[trigger] self.base.intervals@[i]).wf(),
            forall|b: Block<L>| #[trigger] call_requires(self.renderer, (&b,)),
        ensures
            r is Ok,
            r matches Ok(out) ==> out@.len() == spec_group_count(
                sel_bounds(
                    bounds_seq(self.base.intervals@),
                    spec_order(bounds_seq(self.base.intervals@)),
                ),
            ),
            r matches Ok(out) ==> exists|
                gb: Seq<Seq<Block<L>>>,
                rws: Seq<Seq<Seq<SingleLineRenderBlock>>>,
                rns: Seq<Seq<RenderBlock>>,
                fis: Seq<Seq<SingleLineRenderBlock>>,
                lv: Seq<Seq<Seq<char>>>,
            |
                lv == lines_view(out@) && #[trigger] custom_groups_ok(
                    bounds_seq(self.base.intervals@),
                    self.base.boundaries,
                    self.base.length as int,
                    self.renderer,
                    gb,
                    rws,
                    rns,
                    fis,
                    lv,
                ),
    {
        let ghost s0 = bounds_seq(self.base.intervals@);
        let ghost ord0 = spec_order(s0);
        let ghost sel0 = sel_bounds(s0, ord0);
        proof {
            assert(forall|j: int| 0 <= j < s0.len() ==> #[trigger] s0[j]
                == self.base.intervals@[j].bounds);
            crate::interval::lemma_order_props(s0);
            assert(forall|k: int| 0 <= k < sel0.len() ==> #[trigger] sel0[k] == s0[ord0[k]]);
        }
        let ord = crate::interval::order_indices(self.base.intervals.as_slice());
        let mut sv: Vec<TBLInterval<L>> = Vec::new();
        let mut k: usize = 0;
        while k < ord.len()
            invariant
                0 <= k <= ord@.len(),
                s0 == bounds_seq(self.base.intervals@),
                ord0 == spec_order(s0),
                sel0 == sel_bounds(s0, ord0),
                crate::interval::idx_view(ord@) == ord0,
                forall|h: int| 0 <= h < ord@.len() ==> #[trigger] ord@[h]
                    < self.base.intervals@.len(),
                forall|j: int| 0 <= j < s0.len() ==> #[trigger] s0[j]
                    == self.base.intervals@[j].bounds,
                forall|h: int| 0 <= h < sel0.len() ==> #[trigger] sel0[h] == s0[ord0[h]],
                sv@.len() == k,
                forall|j: int| 0 <= j < k ==> (#[trigger] sv@[j]).bounds == sel0[j],
                forall|j: int| 0 <= j < k ==> (#[trigger] sv@[j]).wf(),
                forall|i: int|
                    0 <= i < self.base.intervals@.len() ==> (
                    #[trigger] self.base.intervals@[i]).wf(),
            decreases ord@.len() - k,
        {
            proof {
                assert(ord0[k as int] == ord@[k as int] as int);
            }
            let iv = self.base.intervals[ord[k]].clone();
            sv.push(iv);
            k = k + 1;
        }
        proof {
            assert(bounds_seq(sv@) =~= sel0);
        }
        let db = crate::interval::boundaries(sv.as_slice());
        let ub = match (db, self.base.boundaries) {
            (None, _) => self.base.boundaries,
            (Some(b), None) => Some(b),
            (Some(b), Some(other)) => Some(crate::interval::union(&b, &other)),
        };
        proof {
            assert(ub == spec_unified(spec_boundaries(sel0), self.base.boundaries));
        }
        let ghost svv = sv@;
        let groups = crate::interval::split_overlapping(sv);
        let ghost gs = spec_split(sel0);
        let mut out: Vec<Vec<String>> = Vec::new();
        let ghost mut gbw: Seq<Seq<Block<L>>> = Seq::empty();
        let ghost mut rwsw: Seq<Seq<Seq<SingleLineRenderBlock>>> = Seq::empty();
        let ghost mut rnsw: Seq<Seq<RenderBlock>> = Seq::empty();
        let ghost mut fisw: Seq<Seq<SingleLineRenderBlock>> = Seq::empty();
        if groups.len() == 0 {
            proof {
                if sel0.len() > 0 {
                    crate::interval::lemma_split_nonempty(sel0);
                }
                assert(sel0.len() == 0);
            }
            let empty_grp: Vec<TBLInterval<L>> = Vec::new();
            proof {
                let eb = bounds_seq(empty_grp@);
                assert(eb =~= Seq::<Bound>::empty());
                assert(crate::interval::spec_filter_idx(eb) =~= Seq::<int>::empty());
                assert(spec_order(eb) =~= Seq::<int>::empty());
                assert(spec_first_overlap(eb, spec_order(eb), 0) is None);
            }
            let (lines_g, trace) = render_custom_group(
                empty_grp.as_slice(),
                self.base.length,
                ub,
                &self.renderer,
            );
            proof {
                let (blocks, rows, rnd, fills, fillers) = trace@;
                crate::blocks::lemma_blocks_match_geom(
                    empty_grp@,
                    self.base.length as int,
                    ub,
                    blocks,
                );
                gbw = gbw.push(blocks);
                rwsw = rwsw.push(rows);
                rnsw = rnsw.push(rnd);
                fisw = fisw.push(fillers);
            }
            out.push(lines_g);
            proof {
                let lv = lines_view(out@);
                assert(lv[0] == out@[0]@.map_values(|s: String| s@));
                assert forall|i: int| 0 <= i < lv[0].len() implies #[trigger] lv[0][i]
                    == concat_texts(trace@.1[i]) by {
                    assert(lv[0][i] == out@[0]@[i]@);
                }
                assert(custom_group_ok(
                    Seq::<Bound>::empty(),
                    ub,
                    self.base.length as int,
                    self.renderer,
                    gbw[0],
                    rwsw[0],
                    rnsw[0],
                    fisw[0],
                    lv[0],
                ));
                assert(custom_groups_ok(
                    s0,
                    self.base.boundaries,
                    self.base.length as int,
                    self.renderer,
                    gbw,
                    rwsw,
                    rnsw,
                    fisw,
                    lv,
                ));
            }
        } else {
            proof {
                assert(gs.len() == groups@.len());
                assert(sel0.len() > 0);
                crate::interval::lemma_split_from_props(sel0, 0);
            }
            let mut g: usize = 0;
            while g < groups.len()
                invariant
                    0 <= g <= groups@.len(),
                    s0 == bounds_seq(self.base.intervals@),
                    ord0 == spec_order(s0),
                    sel0 == sel_bounds(s0, ord0),
                    sel0.len() > 0,
                    gs == spec_split(sel0),
                    gs.len() == groups@.len(),
                    svv.len() == sel0.len(),
                    bounds_seq(svv) == sel0,
                    crate::interval::split_matches(svv, crate::interval::groups_view(groups@)),
                    forall|j: int| 0 <= j < s0.len() ==> (#[trigger] s0[j]).0 <= s0[j].1,
                    forall|j: int| 0 <= j < svv.len() ==> (#[trigger] svv[j]).wf(),
                    forall|j: int| 0 <= j < svv.len() ==> (#[trigger] svv[j]).bounds == sel0[j],
                    forall|h: int| 0 <= h < gs.len() ==> (#[trigger] gs[h]).len() > 0,
                    forall|h: int, k2: int|
                        0 <= h < gs.len() && 0 <= k2 < gs[h].len() ==> 0 <= #[trigger] gs[h][k2]
                            < sel0.len(),
                    forall|b: Block<L>| #[trigger] call_requires(self.renderer, (&b,)),
                    ub == spec_unified(spec_boundaries(sel0), self.base.boundaries),
                    out@.len() == g,
                    gbw.len() == g,
                    rwsw.len() == g,
                    rnsw.len() == g,
                    fisw.len() == g,
                    forall|h: int|
                        0 <= h < g ==> custom_group_ok(
                            spec_group_bounds(sel0, h),
                            ub,
                            self.base.length as int,
                            self.renderer,
                            #[trigger] gbw[h],
                            rwsw[h],
                            rnsw[h],
                            fisw[h],
                            lines_view(out@)[h],
                        ),
                decreases groups@.len() - g,
            {
                let grp = &groups[g];
                let ghost bg = spec_group_bounds(sel0, g as int);
                proof {
                    crate::interval::lemma_split_from_props(sel0, 0);
                    lemma_group_renderable(s0, g as int);
                    assert(crate::interval::groups_view(groups@)[g as int] == grp@);
                    assert(grp@.len() == gs[g as int].len());
                    assert(forall|k2: int| 0 <= k2 < grp@.len() ==> #[trigger] grp@[k2]
                        == svv[gs[g as int][k2]]);
                    assert(bg.len() == grp@.len());
                    assert(forall|k2: int| 0 <= k2 < bg.len() ==> #[trigger] bg[k2]
                        == sel0[gs[g as int][k2]]);
                    assert(bounds_seq(grp@) =~= bg);
                    assert(forall|k2: int| 0 <= k2 < grp@.len() ==> (#[trigger] grp@[k2]).wf());
                    assert(spec_first_overlap(bounds_seq(grp@), spec_order(bounds_seq(grp@)), 0)
                        is None);
                }
                let (lines_g, trace) = render_custom_group(
                    grp.as_slice(),
                    self.base.length,
                    ub,
                    &self.renderer,
                );
                let ghost out_pre = out@;
                out.push(lines_g);
                proof {
                    let (blocks, rows, rnd, fills, fillers) = trace@;
                    crate::blocks::lemma_blocks_match_geom(
                        grp@,
                        self.base.length as int,
                        ub,
                        blocks,
                    );
                    gbw = gbw.push(blocks);
                    rwsw = rwsw.push(rows);
                    rnsw = rnsw.push(rnd);
                    fisw = fisw.push(fillers);
                    let lv = lines_view(out@);
                    assert(lv[g as int] == out@[g as int]@.map_values(|s: String| s@));
                    assert forall|i: int| 0 <= i < lv[g as int].len() implies #[trigger] lv[g
                        as int][i] == concat_texts(rows[i]) by {
                        assert(lv[g as int][i] == out@[g as int]@[i]@);
                    }
                    assert(custom_group_ok(
                        bg,
                        ub,
                        self.base.length as int,
                        self.renderer,
                        gbw[g as int],
                        rwsw[g as int],
                        rnsw[g as int],
                        fisw[g as int],
                        lv[g as int],
                    ));
                    assert forall|h: int| 0 <= h < g implies custom_group_ok(
                        spec_group_bounds(sel0, h),
                        ub,
                        self.base.length as int,
                        self.renderer,
                        #[trigger] gbw[h],
                        rwsw[h],
                        rnsw[h],
                        fisw[h],
                        lines_view(out@)[h],
                    ) by {
                        assert(lines_view(out@)[h] == out@[h]@.map_values(|s: String| s@));
                        assert(out@[h] == out_pre[h]);
                        assert(lines_view(out_pre)[h] == out_pre[h]@.map_values(
                            |s: String| s@,
                        ));
                    }
                }
                g = g + 1;
            }
            proof {
                assert(custom_groups_ok(
                    s0,
                    self.base.boundaries,
                    self.base.length as int,
                    self.renderer,
                    gbw,
                    rwsw,
                    rnsw,
                    fisw,
                    lines_view(out@),
                ));
            }
        }
        proof {
            assert(custom_groups_ok(
                bounds_seq(self.base.intervals@),
                self.base.boundaries,
                self.base.length as int,
                self.renderer,
                gbw,
                rwsw,
                rnsw,
                fisw,
                lines_view(out@),
            ));
        }
        Ok(out)
    }
}

} // verus!
