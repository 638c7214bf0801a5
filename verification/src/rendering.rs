//! Rendering: turning blocks into text. The pluggable renderer maps
//! one block to one (or several) lines of display text; the compositor
//! pads every block's output to a common height and transposes the
//! per-block columns into full-width rows.

use vstd::prelude::*;
use vstd::pervasive::strictly_cloned;
use vstd::string::StringExecFns;

verus! {

use crate::Block;

/// Output line width used when the caller configures none,
/// approximating a typical terminal column count.
pub const DEFAULT_LENGTH: usize = 90;

/// What the pluggable renderer returns for one block.
#[derive(Debug, PartialEq, Clone)]
pub enum RenderBlock {
    /// A single line of text for a segment.
    Block(String),
    /// A single line of text for a space.
    Space(String),
    /// Several lines of text for a space.
    MultiLineSpace(Vec<String>),
    /// Several lines of text for a segment.
    MultiLineBlock(Vec<String>),
}

/// One line of one block's rendered text.
#[derive(Debug, PartialEq)]
pub enum SingleLineRenderBlock {
    Block(String),
    Space(String),
}

impl Clone for SingleLineRenderBlock {
    /// The clone is equal to the original.
    fn clone(&self) -> (r: Self)
        ensures
            r == *self,
    {
        match self {
            SingleLineRenderBlock::Block(s) => SingleLineRenderBlock::Block(s.clone()),
            SingleLineRenderBlock::Space(s) => SingleLineRenderBlock::Space(s.clone()),
        }
    }
}

/// The characters of a single-line render block.
pub open spec fn slrb_text(sl: SingleLineRenderBlock) -> Seq<char> {
    match sl {
        SingleLineRenderBlock::Block(s) => s@,
        SingleLineRenderBlock::Space(s) => s@,
    }
}

impl SingleLineRenderBlock {
    /// The line's text, whichever kind it is.
    pub fn text(&self) -> (r: String)
        ensures
            r@ == slrb_text(*self),
    {
        match self {
            SingleLineRenderBlock::Block(s) => s.clone(),
            SingleLineRenderBlock::Space(s) => s.clone(),
        }
    }
}

/// Native line count of a rendered block.
pub open spec fn rb_lines(rb: RenderBlock) -> int {
    match rb {
        RenderBlock::Block(_) => 1,
        RenderBlock::Space(_) => 1,
        RenderBlock::MultiLineSpace(v) => v@.len() as int,
        RenderBlock::MultiLineBlock(v) => v@.len() as int,
    }
}

/// Number of lines the renderer produced for one block.
pub fn lines(render_block: &RenderBlock) -> (r: usize)
    ensures
        r as int == rb_lines(*render_block),
{
    match render_block {
        RenderBlock::Block(_) => 1,
        RenderBlock::Space(_) => 1,
        RenderBlock::MultiLineSpace(v) => v.len(),
        RenderBlock::MultiLineBlock(v) => v.len(),
    }
}

/// The single line of a single-line rendered block; `None` for the
/// multi-line kinds.
pub open spec fn spec_single_line(rb: RenderBlock) -> Option<SingleLineRenderBlock> {
    match rb {
        RenderBlock::Block(s) => Some(SingleLineRenderBlock::Block(s)),
        RenderBlock::Space(s) => Some(SingleLineRenderBlock::Space(s)),
        _ => None,
    }
}

pub fn single_line(render_block: &RenderBlock) -> (r: Option<SingleLineRenderBlock>)
    ensures
        r == spec_single_line(*render_block),
{
    match render_block {
        RenderBlock::Block(s) => Some(SingleLineRenderBlock::Block(s.clone())),
        RenderBlock::Space(s) => Some(SingleLineRenderBlock::Space(s.clone())),
        _ => None,
    }
}

/// A rendered block as the list of its lines, each tagged with the
/// block's kind.
pub open spec fn spec_break_down(rb: RenderBlock) -> Seq<SingleLineRenderBlock> {
    match rb {
        RenderBlock::Block(s) => seq![SingleLineRenderBlock::Block(s)],
        RenderBlock::Space(s) => seq![SingleLineRenderBlock::Space(s)],
        RenderBlock::MultiLineSpace(v) => v@.map_values(|s: String| SingleLineRenderBlock::Space(s)),
        RenderBlock::MultiLineBlock(v) => v@.map_values(|s: String| SingleLineRenderBlock::Block(s)),
    }
}

pub fn break_down(render_block: &RenderBlock) -> (r: Vec<SingleLineRenderBlock>)
    ensures
        r@ == spec_break_down(*render_block),
{
    match render_block {
        RenderBlock::Block(s) => {
            let mut r: Vec<SingleLineRenderBlock> = Vec::new();
            r.push(SingleLineRenderBlock::Block(s.clone()));
            proof {
                assert(r@ =~= spec_break_down(*render_block));
            }
            r
        },
        RenderBlock::Space(s) => {
            let mut r: Vec<SingleLineRenderBlock> = Vec::new();
            r.push(SingleLineRenderBlock::Space(s.clone()));
            proof {
                assert(r@ =~= spec_break_down(*render_block));
            }
            r
        },
        RenderBlock::MultiLineSpace(v) => {
            let mut r: Vec<SingleLineRenderBlock> = Vec::new();
            let mut k: usize = 0;
            while k < v.len()
                invariant
                    0 <= k <= v@.len(),
                    r@ =~= v@.take(k as int).map_values(
                        |s: String| SingleLineRenderBlock::Space(s),
                    ),
                decreases v@.len() - k,
            {
                r.push(SingleLineRenderBlock::Space(v[k].clone()));
                proof {
                    assert(v@.take(k + 1).drop_last() =~= v@.take(k as int));
                    assert(v@.take(k + 1) =~= v@.take(k as int).push(v@[k as int]));
                    assert(v@.take(k + 1).map_values(|s: String| SingleLineRenderBlock::Space(s))
                        =~= v@.take(k as int).map_values(
                        |s: String| SingleLineRenderBlock::Space(s),
                    ).push(SingleLineRenderBlock::Space(v@[k as int])));
                }
                k = k + 1;
            }
            proof {
                assert(v@.take(v@.len() as int) =~= v@);
            }
            r
        },
        RenderBlock::MultiLineBlock(v) => {
            let mut r: Vec<SingleLineRenderBlock> = Vec::new();
            let mut k: usize = 0;
            while k < v.len()
                invariant
                    0 <= k <= v@.len(),
                    r@ =~= v@.take(k as int).map_values(
                        |s: String| SingleLineRenderBlock::Block(s),
                    ),
                decreases v@.len() - k,
            {
                r.push(SingleLineRenderBlock::Block(v[k].clone()));
                proof {
                    assert(v@.take(k + 1).drop_last() =~= v@.take(k as int));
                    assert(v@.take(k + 1) =~= v@.take(k as int).push(v@[k as int]));
                    assert(v@.take(k + 1).map_values(|s: String| SingleLineRenderBlock::Block(s))
                        =~= v@.take(k as int).map_values(
                        |s: String| SingleLineRenderBlock::Block(s),
                    ).push(SingleLineRenderBlock::Block(v@[k as int])));
                }
                k = k + 1;
            }
            proof {
                assert(v@.take(v@.len() as int) =~= v@);
            }
            r
        },
    }
}

/// `n` copies of the character `c`.
pub open spec fn spec_repeat_char(c: char, n: int) -> Seq<char> {
    Seq::new(n as nat, |i: int| c)
}

/// A string of `n` copies of `c`, where `c` is given as a one-char
/// string slice.
fn repeat_str(fragment: &str, c: char, n: usize) -> (r: String)
    requires
        fragment@ =~= seq![c],
    ensures
        r@ == spec_repeat_char(c, n as int),
{
    let mut r = String::new();
    let mut k: usize = 0;
    while k < n
        invariant
            0 <= k <= n,
            fragment@ =~= seq![c],
            r@ =~= spec_repeat_char(c, k as int),
        decreases n - k,
    {
        r.append(fragment);
        proof {
            assert(r@ =~= spec_repeat_char(c, k + 1));
        }
        k = k + 1;
    }
    r
}

/// The default renderer's output for one block: `=` for every segment
/// cell and a blank for every space cell, exactly as wide as the
/// block.
pub open spec fn default_rendered<L>(b: Block<L>, rb: RenderBlock) -> bool {
    match b {
        Block::Space(w) => rb matches RenderBlock::Space(s) && s@ == spec_repeat_char(
            ' ',
            w as int,
        ),
        Block::Segment(w, _) => rb matches RenderBlock::Block(s) && s@ == spec_repeat_char(
            '=',
            w as int,
        ),
    }
}

/// The default block renderer: draws `=` for segments and spaces for
/// gaps, one line, exactly the block's width.
pub fn render_default<L>(b: &Block<L>) -> (r: RenderBlock)
    ensures
        default_rendered(*b, r),
{
    proof {
        reveal_strlit(" ");
        reveal_strlit("=");
    }
    match b {
        Block::Space(length) => RenderBlock::Space(repeat_str(" ", ' ', *length)),
        Block::Segment(length, _) => RenderBlock::Block(repeat_str("=", '=', *length)),
    }
}

/// Splits a list into its first element and the rest; `None` for an
/// empty list. The parts are clones of the originals.
pub fn uncons<T: Clone>(v: Vec<T>) -> (r: Option<(T, Vec<T>)>)
    ensures
        (r is None) == (v@.len() == 0),
        r matches Some((h, t)) ==> cloned::<T>(v@[0], h) && t@.len() == v@.len() - 1 && forall|
            k: int,
        | 0 <= k < t@.len() ==> cloned::<T>(v@[k + 1], #[trigger] t@[k]),
{
    if v.len() == 0 {
        None
    } else {
        let h = v[0].clone();
        let mut t: Vec<T> = Vec::new();
        let mut k: usize = 1;
        while k < v.len()
            invariant
                1 <= k <= v@.len(),
                t@.len() == k - 1,
                forall|j: int| 0 <= j < t@.len() ==> cloned::<T>(v@[j + 1], #[trigger] t@[j]),
            decreases v@.len() - k,
        {
            t.push(v[k].clone());
            k = k + 1;
        }
        Some((h, t))
    }
}

/// Applies `f` to a clone of every element; returns the collected
/// results, or `None` as soon as `f` declines one element.
pub fn traverse<A: Clone, B, F: Fn(A) -> Option<B>>(f: &F, a: Vec<A>) -> (r: Option<Vec<B>>)
    requires
        forall|k: int, x: A|
            #![trigger cloned::<A>(a@[k], x)]
            0 <= k < a@.len() && cloned::<A>(a@[k], x) ==> call_requires(*f, (x,)),
    ensures
        r is None ==> exists|k: int, x: A|
            0 <= k < a@.len() && cloned::<A>(a@[k], x) && call_ensures(
                *f,
                (x,),
                Option::<B>::None,
            ),
        r matches Some(bs) ==> bs@.len() == a@.len() && exists|xs: Seq<A>|
            (#[trigger] xs.len()) == a@.len() && forall|k: int|
                0 <= k < a@.len() ==> cloned::<A>(#[trigger] a@[k], xs[k]) && call_ensures(
                    *f,
                    (xs[k],),
                    Some(bs@[k]),
                ),
{
    let mut bs: Vec<B> = Vec::new();
    let ghost mut xs: Seq<A> = Seq::empty();
    let mut k: usize = 0;
    while k < a.len()
        invariant
            0 <= k <= a@.len(),
            bs@.len() == k,
            xs.len() == k,
            forall|j: int, x: A|
                #![trigger cloned::<A>(a@[j], x)]
                0 <= j < a@.len() && cloned::<A>(a@[j], x) ==> call_requires(*f, (x,)),
            forall|j: int|
                0 <= j < k ==> cloned::<A>(#[trigger] a@[j], xs[j]) && call_ensures(
                    *f,
                    (xs[j],),
                    Some(bs@[j]),
                ),
        decreases a@.len() - k,
    {
        let x = a[k].clone();
        let ghost xg = x;
        proof {
            assert(cloned::<A>(a@[k as int], xg));
        }
        match f(x) {
            Some(b) => {
                bs.push(b);
                proof {
                    xs = xs.push(xg);
                    assert(xs[k as int] == xg);
                    assert(bs@[k as int] == b);
                }
            },
            None => {
                return None;
            },
        }
        k = k + 1;
    }
    proof {
        assert(xs.len() == a@.len());
    }
    Some(bs)
}

pub open spec fn vecvec_view<T>(v: Seq<Vec<T>>) -> Seq<Seq<T>> {
    v.map_values(|x: Vec<T>| x@)
}

/// Number of rows a transposition yields: the shortest row length of a
/// non-empty input, and zero for an empty one.
pub open spec fn spec_transpose_rows<T>(vv: Seq<Seq<T>>) -> int
    decreases vv.len(),
{
    if vv.len() == 0 {
        0
    } else if vv.len() == 1 {
        vv[0].len() as int
    } else {
        let rest = spec_transpose_rows(vv.drop_last());
        if vv.last().len() < rest {
            vv.last().len() as int
        } else {
            rest
        }
    }
}

proof fn lemma_transpose_rows_le<T>(vv: Seq<Seq<T>>)
    ensures
        forall|j: int| 0 <= j < vv.len() ==> spec_transpose_rows(vv) <= (#[trigger] vv[j]).len(),
    decreases vv.len(),
{
    if vv.len() <= 1 {
    } else {
        lemma_transpose_rows_le(vv.drop_last());
        assert(forall|j: int| 0 <= j < vv.len() - 1 ==> #[trigger] vv[j] == vv.drop_last()[j]);
    }
}

/// Transposes a list of columns into a list of rows, keeping as many
/// rows as the shortest column; row `i` holds, in column order, a
/// clone of every column's `i`-th element.
pub fn transpose<T: Clone>(v: Vec<Vec<T>>) -> (r: Vec<Vec<T>>)
    ensures
        r@.len() == spec_transpose_rows(vecvec_view(v@)),
        forall|i: int| 0 <= i < r@.len() ==> (#[trigger] r@[i])@.len() == v@.len(),
        forall|i: int, j: int|
            0 <= i < r@.len() && 0 <= j < v@.len() ==> cloned::<T>(v@[j]@[i], #[trigger] r@[i]@[j]),
{
    let ghost vv = vecvec_view(v@);
    proof {
        assert(forall|j: int| 0 <= j < v@.len() ==> #[trigger] vv[j] == v@[j]@);
    }
    let mut r: Vec<Vec<T>> = Vec::new();
    if v.len() == 0 {
        return r;
    }
    let mut m: usize = v[0].len();
    let mut j: usize = 1;
    while j < v.len()
        invariant
            1 <= j <= v@.len(),
            vv == vecvec_view(v@),
            v@.len() >= 1,
            forall|h: int| 0 <= h < v@.len() ==> #[trigger] vv[h] == v@[h]@,
            m as int == spec_transpose_rows(vv.take(j as int)),
        decreases v@.len() - j,
    {
        let rl = v[j].len();
        proof {
            assert(vv.take(j + 1).drop_last() =~= vv.take(j as int));
            assert(vv.take(j + 1).last() == vv[j as int]);
        }
        if rl < m {
            m = rl;
        }
        j = j + 1;
    }
    proof {
        assert(vv.take(vv.len() as int) =~= vv);
        lemma_transpose_rows_le(vv);
    }
    let mut i: usize = 0;
    while i < m
        invariant
            0 <= i <= m,
            vv == vecvec_view(v@),
            v@.len() >= 1,
            forall|h: int| 0 <= h < v@.len() ==> #[trigger] vv[h] == v@[h]@,
            m as int == spec_transpose_rows(vv),
            forall|h: int| 0 <= h < v@.len() ==> m <= (#[trigger] vv[h]).len(),
            r@.len() == i,
            forall|h: int| 0 <= h < i ==> (#[trigger] r@[h])@.len() == v@.len(),
            forall|h: int, g: int|
                0 <= h < i && 0 <= g < v@.len() ==> cloned::<T>(
                    v@[g]@[h],
                    #[trigger] r@[h]@[g],
                ),
        decreases m - i,
    {
        let mut row: Vec<T> = Vec::new();
        let mut g: usize = 0;
        while g < v.len()
            invariant
                0 <= g <= v@.len(),
                0 <= i < m,
                vv == vecvec_view(v@),
                forall|h: int| 0 <= h < v@.len() ==> #[trigger] vv[h] == v@[h]@,
                forall|h: int| 0 <= h < v@.len() ==> m <= (#[trigger] vv[h]).len(),
                row@.len() == g,
                forall|h: int| 0 <= h < g ==> cloned::<T>(v@[h]@[i as int], #[trigger] row@[h]),
            decreases v@.len() - g,
        {
            let cell = &v[g];
            proof {
                assert(vv[g as int] == v@[g as int]@);
                assert(m <= cell@.len());
            }
            row.push(cell[i].clone());
            g = g + 1;
        }
        r.push(row);
        i = i + 1;
    }
    r
}

/// The width a block asks its renderer for.
pub open spec fn spec_bwidth<L>(b: Block<L>) -> usize {
    match b {
        Block::Space(w) => w,
        Block::Segment(w, _) => w,
    }
}

/// Greatest native line count over a list of rendered blocks; 0 when
/// the list is empty.
pub open spec fn max_lines(rnd: Seq<RenderBlock>) -> int
    decreases rnd.len(),
{
    if rnd.len() == 0 {
        0
    } else {
        let rest = max_lines(rnd.drop_last());
        if rb_lines(rnd.last()) > rest {
            rb_lines(rnd.last())
        } else {
            rest
        }
    }
}

proof fn lemma_max_lines_ge(rnd: Seq<RenderBlock>)
    ensures
        forall|j: int| 0 <= j < rnd.len() ==> rb_lines(#[trigger] rnd[j]) <= max_lines(rnd),
    decreases rnd.len(),
{
    if rnd.len() == 0 {
    } else {
        lemma_max_lines_ge(rnd.drop_last());
        assert(forall|j: int| 0 <= j < rnd.len() - 1 ==> #[trigger] rnd[j] == rnd.drop_last()[j]);
    }
}

/// A list of single-line rendered blocks has greatest line count 1.
pub proof fn lemma_max_lines_ones(rnd: Seq<RenderBlock>)
    requires
        forall|j: int| 0 <= j < rnd.len() ==> rb_lines(#[trigger] rnd[j]) == 1,
        rnd.len() > 0,
    ensures
        max_lines(rnd) == 1,
    decreases rnd.len(),
{
    assert(rnd.last() == rnd[rnd.len() - 1]);
    if rnd.len() == 1 {
        assert(max_lines(rnd.drop_last()) == 0);
    } else {
        assert(forall|j: int| 0 <= j < rnd.len() - 1 ==> #[trigger] rnd.drop_last()[j] == rnd[j]);
        lemma_max_lines_ones(rnd.drop_last());
    }
}

proof fn lemma_break_down_len(rb: RenderBlock)
    ensures
        spec_break_down(rb).len() == rb_lines(rb),
{
}

/// The filler line used to pad one block's column: the renderer's own
/// single-line rendering of a space of that width, or plain spaces of
/// the correct width when the renderer declines (returns a multi-line
/// answer) for that space.
pub open spec fn filler_ok<L>(
    b: Block<L>,
    fill_rb: RenderBlock,
    sl: SingleLineRenderBlock,
) -> bool {
    match spec_single_line(fill_rb) {
        Some(x) => sl == x,
        None => sl matches SingleLineRenderBlock::Space(s) && s@ == spec_repeat_char(
            ' ',
            spec_bwidth(b) as int,
        ),
    }
}

/// One block's column: its own lines, padded at the bottom with the
/// filler up to `nb` lines.
pub open spec fn spec_pad_col(
    rb: RenderBlock,
    filler: SingleLineRenderBlock,
    nb: int,
) -> Seq<SingleLineRenderBlock> {
    spec_break_down(rb) + Seq::new((nb - spec_break_down(rb).len()) as nat, |i: int| filler)
}

/// The rows `out` are the transposition of the per-block columns:
/// `max_lines` rows (none for an empty block list), each holding, in
/// block order, every column's line for that row.
pub open spec fn composed<L>(
    blocks: Seq<Block<L>>,
    rnd: Seq<RenderBlock>,
    fillers: Seq<SingleLineRenderBlock>,
    out: Seq<Seq<SingleLineRenderBlock>>,
) -> bool {
    let nb = max_lines(rnd);
    &&& out.len() == if blocks.len() == 0 {
        0int
    } else {
        nb
    }
    &&& forall|i: int| 0 <= i < out.len() ==> (#[trigger] out[i]).len() == blocks.len()
    &&& forall|i: int, j: int|
        0 <= i < out.len() && 0 <= j < blocks.len() ==> #[trigger] out[i][j] == spec_pad_col(
            rnd[j],
            fillers[j],
            nb,
        )[i]
}

proof fn lemma_slrb_cloned_eq(a: SingleLineRenderBlock, b: SingleLineRenderBlock)
    requires
        cloned::<SingleLineRenderBlock>(a, b),
    ensures
        a == b,
{
    if strictly_cloned::<SingleLineRenderBlock>(a, b) {
        assert(b == a);
    }
}

proof fn lemma_transpose_rows_uniform<T>(vv: Seq<Seq<T>>, nb: int)
    requires
        forall|j: int| 0 <= j < vv.len() ==> (#[trigger] vv[j]).len() == nb,
    ensures
        spec_transpose_rows(vv) == if vv.len() == 0 {
            0int
        } else {
            nb
        },
    decreases vv.len(),
{
    if vv.len() <= 1 {
    } else {
        assert(forall|j: int| 0 <= j < vv.len() - 1 ==> #[trigger] vv.drop_last()[j] == vv[j]);
        lemma_transpose_rows_uniform(vv.drop_last(), nb);
    }
}

/// The compositor: renders every block, pads each block's lines to the
/// greatest native line count using the renderer's own rendering of a
/// space of that block's width (or plain spaces when it declines), and
/// transposes the padded columns into full-width rows.
#[verifier::rlimit(50)]
pub fn render_blocks<L: Clone, F: Fn(&Block<L>) -> RenderBlock>(
    blocks: &[Block<L>],
    renderer: &F,
) -> (r: Vec<Vec<SingleLineRenderBlock>>)
    requires
        forall|b: Block<L>| #[trigger] call_requires(*renderer, (&b,)),
    ensures
        exists|rnd: Seq<RenderBlock>, fills: Seq<RenderBlock>, fillers: Seq<SingleLineRenderBlock>|
            (#[trigger] rnd.len()) == blocks@.len() && (#[trigger] fills.len()) == blocks@.len()
                && (#[trigger] fillers.len()) == blocks@.len() && (forall|k: int|
                0 <= k < blocks@.len() ==> call_ensures(
                    *renderer,
                    (&blocks@[k],),
                    #[trigger] rnd[k],
                )) && (forall|k: int|
                0 <= k < blocks@.len() ==> call_ensures(
                    *renderer,
                    (&Block::<L>::Space(spec_bwidth(blocks@[k])),),
                    #[trigger] fills[k],
                )) && (forall|k: int|
                0 <= k < blocks@.len() ==> filler_ok(blocks@[k], fills[k], #[trigger] fillers[k]))
                && composed(blocks@, rnd, fillers, vecvec_view(r@)),
{
    let mut rendered: Vec<RenderBlock> = Vec::new();
    let mut k: usize = 0;
    while k < blocks.len()
        invariant
            0 <= k <= blocks@.len(),
            rendered@.len() == k,
            forall|b: Block<L>| #[trigger] call_requires(*renderer, (&b,)),
            forall|j: int|
                0 <= j < k ==> call_ensures(*renderer, (&blocks@[j],), #[trigger] rendered@[j]),
        decreases blocks@.len() - k,
    {
        let rb = renderer(&blocks[k]);
        rendered.push(rb);
        k = k + 1;
    }

    let mut nb: usize = 0;
    let mut k2: usize = 0;
    while k2 < rendered.len()
        invariant
            0 <= k2 <= rendered@.len(),
            nb as int == max_lines(rendered@.take(k2 as int)),
        decreases rendered@.len() - k2,
    {
        let l = lines(&rendered[k2]);
        proof {
            assert(rendered@.take(k2 + 1).drop_last() =~= rendered@.take(k2 as int));
            assert(rendered@.take(k2 + 1).last() == rendered@[k2 as int]);
        }
        if l > nb {
            nb = l;
        }
        k2 = k2 + 1;
    }
    proof {
        assert(rendered@.take(rendered@.len() as int) =~= rendered@);
        lemma_max_lines_ge(rendered@);
    }

    let mut cols: Vec<Vec<SingleLineRenderBlock>> = Vec::new();
    let ghost mut fillers: Seq<SingleLineRenderBlock> = Seq::empty();
    let ghost mut fill_rbs: Seq<RenderBlock> = Seq::empty();
    let mut k3: usize = 0;
    while k3 < blocks.len()
        invariant
            0 <= k3 <= blocks@.len(),
            rendered@.len() == blocks@.len(),
            nb as int == max_lines(rendered@),
            forall|j: int| 0 <= j < rendered@.len() ==> rb_lines(#[trigger] rendered@[j])
                <= nb as int,
            cols@.len() == k3,
            fillers.len() == k3,
            fill_rbs.len() == k3,
            forall|b: Block<L>| #[trigger] call_requires(*renderer, (&b,)),
            forall|j: int|
                0 <= j < blocks@.len() ==> call_ensures(
                    *renderer,
                    (&blocks@[j],),
                    #[trigger] rendered@[j],
                ),
            forall|j: int|
                0 <= j < k3 ==> call_ensures(
                    *renderer,
                    (&Block::<L>::Space(spec_bwidth(blocks@[j])),),
                    #[trigger] fill_rbs[j],
                ),
            forall|j: int| 0 <= j < k3 ==> filler_ok(blocks@[j], fill_rbs[j], #[trigger] fillers[j]),
            forall|j: int| 0 <= j < k3 ==> (#[trigger] cols@[j])@ == spec_pad_col(
                rendered@[j],
                fillers[j],
                nb as int,
            ),
            forall|j: int| 0 <= j < k3 ==> (#[trigger] cols@[j])@.len() == nb as int,
        decreases blocks@.len() - k3,
    {
        let w = match &blocks[k3] {
            Block::Space(w) => *w,
            Block::Segment(w, _) => *w,
        };
        proof {
            assert(w == spec_bwidth(blocks@[k3 as int]));
        }
        let mut col = break_down(&rendered[k3]);
        let space_probe: Block<L> = Block::Space(w);
        let frb = renderer(&space_probe);
        let filler = match single_line(&frb) {
            Some(x) => x,
            None => {
                proof {
                    reveal_strlit(" ");
                }
                SingleLineRenderBlock::Space(repeat_str(" ", ' ', w))
            },
        };
        proof {
            fill_rbs = fill_rbs.push(frb);
            fillers = fillers.push(filler);
            lemma_break_down_len(rendered@[k3 as int]);
            assert(col@.len() <= nb as int);
            assert(col@ =~= spec_break_down(rendered@[k3 as int]) + Seq::new(
                (col@.len() - spec_break_down(rendered@[k3 as int]).len()) as nat,
                |i: int| filler,
            ));
        }
        while col.len() < nb
            invariant
                col@.len() <= nb as int,
                col@ =~= spec_break_down(rendered@[k3 as int]) + Seq::new(
                    (col@.len() - spec_break_down(rendered@[k3 as int]).len()) as nat,
                    |i: int| filler,
                ),
                spec_break_down(rendered@[k3 as int]).len() <= col@.len(),
            decreases nb - col@.len(),
        {
            col.push(filler.clone());
        }
        proof {
            assert(col@.len() == nb as int);
            assert(col@ =~= spec_pad_col(rendered@[k3 as int], filler, nb as int));
        }
        cols.push(col);
        k3 = k3 + 1;
    }

    let out = transpose(cols);
    proof {
        let vv = vecvec_view(cols@);
        assert(forall|j: int| 0 <= j < cols@.len() ==> (#[trigger] vv[j]).len() == nb as int);
        lemma_transpose_rows_uniform(vv, nb as int);
        assert forall|i: int, j: int|
            0 <= i < out@.len() && 0 <= j < blocks@.len() implies #[trigger] vecvec_view(out@)[i][j]
            == spec_pad_col(rendered@[j], fillers[j], max_lines(rendered@))[i] by {
            assert(cloned::<SingleLineRenderBlock>(cols@[j]@[i], out@[i]@[j]));
            lemma_slrb_cloned_eq(cols@[j]@[i], out@[i]@[j]);
            assert(cols@[j]@ == spec_pad_col(rendered@[j], fillers[j], nb as int));
        }
        assert(composed(blocks@, rendered@, fillers, vecvec_view(out@)));
        assert(rendered@.len() == blocks@.len() && fill_rbs.len() == blocks@.len()
            && fillers.len() == blocks@.len());
    }
    out
}

} // verus!
