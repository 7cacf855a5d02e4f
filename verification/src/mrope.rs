//! Three-axis (t, h, w) rotary positions for prompts that mix text and images.
//!
//! A text token takes the same value on all three axes, which makes the
//! three-axis scheme identical to ordinary one-dimensional rotary positions on
//! pure text. A visual token takes its (t, h, w) coordinate in the image's
//! merged grid, and the whole image moves the cursor on by one grid dimension
//! only, however many tokens it holds.

use vstd::prelude::*;

verus! {

/// Default axis section of the model family: 11 T + 11 H + 10 W = 32, exactly
/// the number of rotary pairs.
pub const DEFAULT_MROPE_SECTION: [usize; 3] = [11, 11, 10];

/// One contiguous run of visual tokens in the prompt.
#[derive(Debug, Clone, Copy, PartialEq, Eq, Structural)]
pub struct ImageSpan {
    /// Index of the first visual token.
    pub start: usize,
    /// Visual token count after merging: `(grid_h / merge) * (grid_w / merge)`.
    pub len: usize,
    /// Grid height before merging, as the vision tower reports it.
    pub grid_h: usize,
    /// Grid width before merging.
    pub grid_w: usize,
}

/// The positions of a whole prompt.
#[derive(Debug, Clone, PartialEq, Eq)]
pub struct MropePositions {
    /// Per-token (t, h, w).
    pub positions: Vec<[i32; 3]>,
    /// Greatest position, plus one, minus the number of prompt tokens. Added to
    /// the running sequence length it gives the position of a decode step.
    pub rope_delta: i32,
}

/// A (t, h, w) position as mathematical integers.
pub type Axes = (int, int, int);

/// What a [`MropePositions`] stands for.
#[verifier::ext_equal]
pub struct Framing {
    pub positions: Seq<Axes>,
    pub rope_delta: int,
}

/// The three components of a stored position.
pub open spec fn axes(p: [i32; 3]) -> Axes {
    (p[0] as int, p[1] as int, p[2] as int)
}

/// The stored positions as mathematical integers.
pub open spec fn axes_of(positions: Seq<[i32; 3]>) -> Seq<Axes> {
    positions.map_values(|p: [i32; 3]| axes(p))
}

impl View for MropePositions {
    type V = Framing;

    open spec fn view(&self) -> Framing {
        Framing {
            positions: axes_of(self.positions@),
            rope_delta: self.rope_delta as int,
        }
    }
}

/// The axis that frequency `d` reads when `h` frequencies belong to H and `w`
/// to W: H takes every third frequency from 1 on, W every third from 2 on, and
/// whatever is left is T.
pub open spec fn axis_for_freq(d: int, h: int, w: int) -> int {
    if d % 3 == 1 && d < 3 * h {
        1
    } else if d % 3 == 2 && d < 3 * w {
        2
    } else {
        0
    }
}

/// Which position axis frequency index `d` reads: 0 = T, 1 = H, 2 = W.
///
/// The axes are interleaved, `[THWTHW...TT]`: a frequency starts on T, H takes
/// over the indices 1, 4, 7, ... below `3 * section[1]` and W the indices
/// 2, 5, 8, ... below `3 * section[2]`.
pub fn mrope_axis_for_freq(d: usize, section: [usize; 3]) -> (axis: usize)
    requires
        d % 3 == 1 ==> 3 * section[1] <= usize::MAX,
        d % 3 == 2 ==> 3 * section[2] <= usize::MAX,
    ensures
        axis == axis_for_freq(d as int, section[1] as int, section[2] as int),
{
    match d % 3 {
        1 if d < 3 * section[1] => 1,
        2 if d < 3 * section[2] => 2,
        _ => 0,
    }
}

/// The larger of two integers.
pub open spec fn larger(a: int, b: int) -> int {
    if a < b {
        b
    } else {
        a
    }
}

/// `count` text tokens from position `cursor` on: one step per token, the same
/// on every axis.
pub open spec fn text_run(cursor: int, count: nat) -> Seq<Axes> {
    Seq::new(count, |i: int| (cursor + i, cursor + i, cursor + i))
}

impl ImageSpan {
    /// Rows of the merged grid.
    pub open spec fn rows(self, merge: nat) -> nat {
        self.grid_h as nat / merge
    }

    /// Columns of the merged grid.
    pub open spec fn cols(self, merge: nat) -> nat {
        self.grid_w as nat / merge
    }

    /// Visual tokens of the merged grid.
    pub open spec fn tokens(self, merge: nat) -> nat {
        self.rows(merge) * self.cols(merge)
    }

    /// How far the image moves the cursor: one grid dimension, the larger one.
    pub open spec fn advance(self, merge: nat) -> nat {
        larger(self.grid_h as int, self.grid_w as int) as nat / merge
    }

    /// The positions of the image's tokens: t stays, h moves on with every row,
    /// w with every token of a row.
    pub open spec fn block(self, cursor: int, merge: nat) -> Seq<Axes> {
        Seq::new(
            self.tokens(merge),
            |i: int| (cursor, cursor + i / (self.cols(merge) as int), cursor + i % (self.cols(merge) as int)),
        )
    }
}

/// What the spans seen so far have placed.
#[verifier::ext_equal]
pub struct Walk {
    /// Prompt tokens consumed.
    pub token: int,
    /// Position of the next text token.
    pub cursor: int,
    /// Positions placed.
    pub positions: Seq<Axes>,
}

/// Text tokens between token index `token` and `start`, in a prompt of `n`.
pub open spec fn text_before(token: int, start: int, n: nat) -> nat {
    let end = if start < n {
        start
    } else {
        n as int
    };
    if token < end {
        (end - token) as nat
    } else {
        0
    }
}

/// One span placed behind `w`, with the text run before it.
pub open spec fn place(w: Walk, span: ImageSpan, n: nat, merge: nat) -> Walk {
    let text = text_before(w.token, span.start as int, n);
    Walk {
        token: w.token + text + span.tokens(merge),
        cursor: w.cursor + text + span.advance(merge),
        positions: w.positions + text_run(w.cursor, text) + span.block(w.cursor + text, merge),
    }
}

/// All of `spans` placed in a prompt of `n` tokens.
pub open spec fn walk(n: nat, spans: Seq<ImageSpan>, merge: nat) -> Walk
    decreases spans.len(),
{
    if spans.len() == 0 {
        Walk { token: 0, cursor: 0, positions: Seq::empty() }
    } else {
        place(walk(n, spans.drop_last(), merge), spans.last(), n, merge)
    }
}

/// Text tokens behind the last span.
pub open spec fn trailing_text(n: nat, spans: Seq<ImageSpan>, merge: nat) -> nat {
    text_before(walk(n, spans, merge).token, n as int, n)
}

/// The cursor behind the whole prompt.
pub open spec fn end_cursor(n: nat, spans: Seq<ImageSpan>, merge: nat) -> int {
    walk(n, spans, merge).cursor + trailing_text(n, spans, merge)
}

/// The positions of the whole prompt.
pub open spec fn prompt_positions(n: nat, spans: Seq<ImageSpan>, merge: nat) -> Seq<Axes> {
    let w = walk(n, spans, merge);
    w.positions + text_run(w.cursor, trailing_text(n, spans, merge))
}

/// The largest of a position's components.
pub open spec fn largest_axis(p: Axes) -> int {
    larger(larger(p.0, p.1), p.2)
}

/// The largest component over all positions, 0 where there are none.
pub open spec fn max_position(positions: Seq<Axes>) -> int
    decreases positions.len(),
{
    if positions.len() == 0 {
        0
    } else if positions.len() == 1 {
        largest_axis(positions[0])
    } else {
        larger(max_position(positions.drop_last()), largest_axis(positions.last()))
    }
}

/// Positions and rope delta of a prompt of `n` tokens that holds `spans`.
pub open spec fn framing(n: nat, spans: Seq<ImageSpan>, merge: nat) -> Framing {
    let positions = prompt_positions(n, spans, merge);
    Framing { positions, rope_delta: max_position(positions) + 1 - n }
}

/// The spans are sorted and disjoint: none starts before the tokens that the
/// spans ahead of it have consumed.
pub open spec fn in_order(n: nat, spans: Seq<ImageSpan>, merge: nat) -> bool {
    forall|i: int|
        0 <= i < spans.len() ==> spans[i].start >= (#[trigger] walk(
            n,
            spans.take(i),
            merge,
        )).token
}

/// The prompts that can be framed: merged by a positive factor, spans in order,
/// and token count and cursor within the machine's integers.
pub open spec fn framable(n: nat, spans: Seq<ImageSpan>, merge: nat) -> bool {
    &&& merge > 0
    &&& in_order(n, spans, merge)
    &&& n <= i32::MAX
    &&& walk(n, spans, merge).token <= usize::MAX
    &&& end_cursor(n, spans, merge) <= i32::MAX
}

/// A longer list of spans consumes at least as many tokens and positions.
proof fn lemma_walk_grows(n: nat, spans: Seq<ImageSpan>, merge: nat, k: int)
    requires
        0 <= k <= spans.len(),
    ensures
        0 <= walk(n, spans.take(k), merge).token <= walk(n, spans, merge).token,
        0 <= walk(n, spans.take(k), merge).cursor <= walk(n, spans, merge).cursor,
    decreases spans.len(),
{
    if k == spans.len() {
        assert(spans.take(k) =~= spans);
        if k > 0 {
            lemma_walk_grows(n, spans.drop_last(), merge, k - 1);
        }
    } else {
        lemma_walk_grows(n, spans.drop_last(), merge, k);
        assert(spans.drop_last().take(k) =~= spans.take(k));
    }
}

/// The walk over one span more.
proof fn lemma_walk_step(n: nat, spans: Seq<ImageSpan>, merge: nat, k: int)
    requires
        0 <= k < spans.len(),
    ensures
        walk(n, spans.take(k + 1), merge) == place(
            walk(n, spans.take(k), merge),
            spans[k],
            n,
            merge,
        ),
{
    assert(spans.take(k + 1).drop_last() =~= spans.take(k));
}

/// The larger grid dimension, merged, is the larger merged dimension.
proof fn lemma_advance(span: ImageSpan, merge: nat)
    requires
        merge > 0,
    ensures
        span.advance(merge) == larger(span.rows(merge) as int, span.cols(merge) as int),
{
    if span.grid_h < span.grid_w {
        vstd::arithmetic::div_mod::lemma_div_is_ordered(span.grid_h as int, span.grid_w as int, merge as int);
    } else {
        vstd::arithmetic::div_mod::lemma_div_is_ordered(span.grid_w as int, span.grid_h as int, merge as int);
    }
}

/// A row and a column of the merged grid, found again from the token index.
proof fn lemma_grid_index(row: int, col: int, rows: int, cols: int)
    requires
        0 <= row < rows,
        0 <= col < cols,
    ensures
        0 <= row * cols + col < rows * cols,
        (row * cols + col) / cols == row,
        (row * cols + col) % cols == col,
{
    vstd::arithmetic::div_mod::lemma_fundamental_div_mod_converse(
        row * cols + col,
        cols,
        row,
        col,
    );
    vstd::arithmetic::mul::lemma_mul_inequality(row + 1, rows, cols);
    vstd::arithmetic::mul::lemma_mul_is_distributive_add_other_way(cols, row, 1);
    vstd::arithmetic::mul::lemma_mul_nonnegative(row, cols);
}

/// Appends `count` text tokens from `cursor` on.
fn push_text(positions: &mut Vec<[i32; 3]>, cursor: i32, count: usize)
    requires
        cursor + count <= i32::MAX,
    ensures
        axes_of(final(positions)@) == axes_of(old(positions)@) + text_run(
            cursor as int,
            count as nat,
        ),
{
    let ghost before = axes_of(positions@);
    let mut at: i32 = cursor;
    let mut done: usize = 0;
    while done < count
        invariant
            done <= count,
            cursor + count <= i32::MAX,
            at == cursor + done,
            axes_of(positions@) == before + text_run(cursor as int, done as nat),
        decreases count - done,
    {
        let ghost held = positions@;
        let ghost p = (at as int, at as int, at as int);
        positions.push([at; 3]);
        proof {
            assert(axes_of(positions@) =~= axes_of(held).push(p));
            assert(text_run(cursor as int, (done + 1) as nat) =~= text_run(
                cursor as int,
                done as nat,
            ).push(p));
        }
        at = at + 1;
        done = done + 1;
    }
}

/// Appends the tokens of an image whose merged grid has `rows` rows and `cols`
/// columns: t constant, h slowest, w fastest.
fn push_image(
    positions: &mut Vec<[i32; 3]>,
    cursor: i32,
    rows: usize,
    cols: usize,
    Ghost(block): Ghost<Seq<Axes>>,
)
    requires
        0 <= cursor,
        cursor + rows <= i32::MAX,
        cursor + cols <= i32::MAX,
        block == Seq::new(
            (rows * cols) as nat,
            |i: int| (cursor as int, cursor + i / (cols as int), cursor + i % (cols as int)),
        ),
    ensures
        axes_of(final(positions)@) == axes_of(old(positions)@) + block,
{
    let ghost before = axes_of(positions@);
    let mut row: usize = 0;
    proof {
        vstd::arithmetic::mul::lemma_mul_nonnegative(rows as int, cols as int);
        assert(before =~= before + block.take(0));
    }
    while row < rows
        invariant
            row <= rows,
            0 <= cursor,
            cursor + rows <= i32::MAX,
            cursor + cols <= i32::MAX,
            block == Seq::new(
                (rows * cols) as nat,
                |i: int| (cursor as int, cursor + i / (cols as int), cursor + i % (cols as int)),
            ),
            0 <= row * cols <= rows * cols,
            axes_of(positions@) == before + block.take(row * cols),
        decreases rows - row,
    {
        let mut col: usize = 0;
        proof {
            vstd::arithmetic::mul::lemma_mul_inequality(row + 1, rows as int, cols as int);
            vstd::arithmetic::mul::lemma_mul_is_distributive_add_other_way(
                cols as int,
                row as int,
                1,
            );
        }
        while col < cols
            invariant
                row < rows,
                col <= cols,
                0 <= cursor,
                cursor + rows <= i32::MAX,
                cursor + cols <= i32::MAX,
                block == Seq::new(
                    (rows * cols) as nat,
                    |i: int|
                        (cursor as int, cursor + i / (cols as int), cursor + i % (cols as int)),
                ),
                0 <= row * cols <= row * cols + col <= rows * cols,
                (row + 1) * cols <= rows * cols,
                (row + 1) * cols == row * cols + cols,
                axes_of(positions@) == before + block.take(row * cols + col),
            decreases cols - col,
        {
            let ghost held = positions@;
            let ghost i = row * cols + col;
            positions.push([cursor, cursor + row as i32, cursor + col as i32]);
            proof {
                lemma_grid_index(row as int, col as int, rows as int, cols as int);
                assert(axes_of(positions@) =~= axes_of(held).push(block[i]));
                assert(block.take(i + 1) =~= block.take(i).push(block[i]));
            }
            col = col + 1;
        }
        row = row + 1;
    }
    proof {
        assert(block.take(rows * cols) =~= block);
    }
}

/// Places one span and the text run before it; returns the tokens consumed so
/// far and the cursor behind the span.
fn place_span(
    positions: &mut Vec<[i32; 3]>,
    tok: usize,
    cursor: i32,
    span: ImageSpan,
    n_tokens: usize,
    merge: usize,
) -> (placed: (usize, i32))
    requires
        merge > 0,
        n_tokens <= i32::MAX,
        0 <= cursor,
        span.start >= tok,
        ({
            let w = Walk {
                token: tok as int,
                cursor: cursor as int,
                positions: axes_of(old(positions)@),
            };
            let p = place(w, span, n_tokens as nat, merge as nat);
            p.token <= usize::MAX && p.cursor <= i32::MAX
        }),
    ensures
        ({
            let w = Walk {
                token: tok as int,
                cursor: cursor as int,
                positions: axes_of(old(positions)@),
            };
            place(w, span, n_tokens as nat, merge as nat) == (Walk {
                token: placed.0 as int,
                cursor: placed.1 as int,
                positions: axes_of(final(positions)@),
            })
        }),
{
    proof {
        lemma_advance(span, merge as nat);
    }
    // Text run before this image.
    let text: usize = if span.start < n_tokens {
        span.start - tok
    } else if tok < n_tokens {
        n_tokens - tok
    } else {
        0
    };
    push_text(positions, cursor, text);
    // Image run over the merged grid.
    let at: i32 = cursor + text as i32;
    let rows: usize = span.grid_h / merge;
    let cols: usize = span.grid_w / merge;
    push_image(positions, at, rows, cols, Ghost(span.block(at as int, merge as nat)));
    // The cursor moves on by one grid dimension, not by the token count.
    let dimension: usize = if span.grid_h < span.grid_w {
        span.grid_w
    } else {
        span.grid_h
    };
    (tok + text + rows * cols, at + (dimension / merge) as i32)
}

/// The largest component over all positions, 0 where there are none.
fn greatest_position(positions: &Vec<[i32; 3]>) -> (greatest: i32)
    ensures
        greatest == max_position(axes_of(positions@)),
{
    if positions.len() == 0 {
        return 0;
    }
    let ghost all = axes_of(positions@);
    let first: [i32; 3] = positions[0];
    let mut greatest: i32 = larger_of(larger_of(first[0], first[1]), first[2]);
    let mut i: usize = 1;
    proof {
        assert(all.take(1).len() == 1);
    }
    while i < positions.len()
        invariant
            1 <= i <= positions.len(),
            all == axes_of(positions@),
            greatest == max_position(all.take(i as int)),
        decreases positions.len() - i,
    {
        let p: [i32; 3] = positions[i];
        greatest = larger_of(greatest, larger_of(larger_of(p[0], p[1]), p[2]));
        proof {
            assert(all.take(i + 1).drop_last() =~= all.take(i as int));
            assert(all.take(i + 1).last() == axes(p));
        }
        i = i + 1;
    }
    proof {
        assert(all.take(i as int) =~= all);
    }
    greatest
}

/// The larger of two machine integers.
fn larger_of(a: i32, b: i32) -> (c: i32)
    ensures
        c == larger(a as int, b as int),
{
    if a < b {
        b
    } else {
        a
    }
}

/// Builds the (t, h, w) position of every token of a prompt that holds the
/// image runs `spans`. The spans must be sorted by `start` and must not overlap.
pub fn build_mrope_positions(
    n_tokens: usize,
    spans: &[ImageSpan],
    spatial_merge_size: usize,
) -> (framed: MropePositions)
    requires
        framable(n_tokens as nat, spans@, spatial_merge_size as nat),
    ensures
        framed@ == framing(n_tokens as nat, spans@, spatial_merge_size as nat),
{
    let ghost n = n_tokens as nat;
    let ghost merge = spatial_merge_size as nat;
    let mut positions: Vec<[i32; 3]> = Vec::with_capacity(n_tokens);
    let mut cursor: i32 = 0;
    let mut tok: usize = 0;

    let mut k: usize = 0;
    while k < spans.len()
        invariant
            k <= spans.len(),
            n == n_tokens,
            merge == spatial_merge_size,
            framable(n, spans@, merge),
            walk(n, spans@.take(k as int), merge) == (Walk {
                token: tok as int,
                cursor: cursor as int,
                positions: axes_of(positions@),
            }),
        decreases spans.len() - k,
    {
        proof {
            lemma_walk_step(n, spans@, merge, k as int);
            lemma_walk_grows(n, spans@, merge, k as int);
            lemma_walk_grows(n, spans@, merge, k + 1);
        }
        let placed: (usize, i32) = place_span(
            &mut positions,
            tok,
            cursor,
            spans[k],
            n_tokens,
            spatial_merge_size,
        );
        tok = placed.0;
        cursor = placed.1;
        k = k + 1;
    }
    proof {
        assert(spans@.take(k as int) =~= spans@);
    }

    // Trailing text run.
    if tok < n_tokens {
        push_text(&mut positions, cursor, n_tokens - tok);
    }
    proof {
        assert(axes_of(positions@) =~= prompt_positions(n, spans@, merge));
        lemma_positions_below_cursor(n, spans@, merge);
        lemma_max_position_bounds(axes_of(positions@), end_cursor(n, spans@, merge));
    }
    let max_pos: i32 = greatest_position(&positions);
    let rope_delta: i32 = max_pos + 1 - n_tokens as i32;

    MropePositions { positions, rope_delta }
}

/// Every component lies in `[0, bound)`.
pub open spec fn all_below(positions: Seq<Axes>, bound: int) -> bool {
    forall|i: int|
        0 <= i < positions.len() ==> {
            let p = #[trigger] positions[i];
            0 <= p.0 < bound && 0 <= p.1 < bound && 0 <= p.2 < bound
        }
}

/// What is placed lies below the cursor.
proof fn lemma_walk_below_cursor(n: nat, spans: Seq<ImageSpan>, merge: nat)
    requires
        merge > 0,
    ensures
        all_below(walk(n, spans, merge).positions, walk(n, spans, merge).cursor),
        0 <= walk(n, spans, merge).cursor,
    decreases spans.len(),
{
    if spans.len() > 0 {
        let span = spans.last();
        let w = walk(n, spans.drop_last(), merge);
        let text = text_before(w.token, span.start as int, n);
        lemma_walk_below_cursor(n, spans.drop_last(), merge);
        lemma_block_below(span, w.cursor + text, merge);
    }
}

/// An image's positions lie between its cursor and the one behind it.
proof fn lemma_block_below(span: ImageSpan, cursor: int, merge: nat)
    requires
        merge > 0,
    ensures
        forall|i: int|
            0 <= i < span.tokens(merge) ==> {
                let p = #[trigger] span.block(cursor, merge)[i];
                &&& p.0 == cursor
                &&& cursor <= p.1 < cursor + span.rows(merge)
                &&& cursor <= p.2 < cursor + span.cols(merge)
            },
        span.advance(merge) == larger(span.rows(merge) as int, span.cols(merge) as int),
{
    lemma_advance(span, merge);
    let rows = span.rows(merge) as int;
    let cols = span.cols(merge) as int;
    assert forall|i: int| 0 <= i < span.tokens(merge) implies {
        let p = #[trigger] span.block(cursor, merge)[i];
        &&& p.0 == cursor
        &&& cursor <= p.1 < cursor + span.rows(merge)
        &&& cursor <= p.2 < cursor + span.cols(merge)
    } by {
        lemma_grid_cell(i, rows, cols);
    }
}

/// Row and column of a token lie within the merged grid.
proof fn lemma_grid_cell(i: int, rows: int, cols: int)
    requires
        0 <= rows,
        0 <= cols,
        0 <= i < rows * cols,
    ensures
        0 <= i / cols < rows,
        0 <= i % cols < cols,
{
    assert(cols > 0) by (nonlinear_arith)
        requires
            0 <= cols,
            0 < rows * cols,
    ;
    vstd::arithmetic::div_mod::lemma_fundamental_div_mod(i, cols);
    vstd::arithmetic::div_mod::lemma_mod_bound(i, cols);
    vstd::arithmetic::div_mod::lemma_div_pos_is_pos(i, cols);
    vstd::arithmetic::mul::lemma_mul_is_commutative(rows, cols);
    vstd::arithmetic::div_mod::lemma_multiply_divide_lt(i, cols, rows);
}

/// Every position of a prompt lies below its end cursor.
proof fn lemma_positions_below_cursor(n: nat, spans: Seq<ImageSpan>, merge: nat)
    requires
        merge > 0,
    ensures
        all_below(prompt_positions(n, spans, merge), end_cursor(n, spans, merge)),
{
    lemma_walk_below_cursor(n, spans, merge);
}

/// The largest component is one of the components, and none is larger.
pub proof fn max_position_is_the_maximum(positions: Seq<Axes>)
    requires
        positions.len() > 0,
    ensures
        forall|i: int|
            0 <= i < positions.len() ==> largest_axis(#[trigger] positions[i]) <= max_position(
                positions,
            ),
        exists|i: int|
            0 <= i < positions.len() && largest_axis(#[trigger] positions[i]) == max_position(
                positions,
            ),
    decreases positions.len(),
{
    if positions.len() == 1 {
        assert(largest_axis(positions[0]) == max_position(positions));
    } else {
        let front = positions.drop_last();
        max_position_is_the_maximum(front);
        let j = choose|j: int|
            0 <= j < front.len() && largest_axis(#[trigger] front[j]) == max_position(front);
        assert(positions[j] == front[j]);
        let last = positions.len() - 1;
        assert(largest_axis(positions[last]) == largest_axis(positions.last()));
        assert forall|i: int| 0 <= i < positions.len() implies largest_axis(
            #[trigger] positions[i],
        ) <= max_position(positions) by {
            if i < front.len() {
                assert(positions[i] == front[i]);
            }
        }
    }
}

/// The rope delta is the greatest position, plus one, minus the token count.
pub proof fn rope_delta_is_from_the_greatest_position(n: nat, spans: Seq<ImageSpan>, merge: nat)
    requires
        framing(n, spans, merge).positions.len() > 0,
    ensures
        ({
            let framed = framing(n, spans, merge);
            let greatest = framed.rope_delta + n - 1;
            &&& forall|i: int|
                0 <= i < framed.positions.len() ==> {
                    let p = #[trigger] framed.positions[i];
                    p.0 <= greatest && p.1 <= greatest && p.2 <= greatest
                }
            &&& exists|i: int|
                0 <= i < framed.positions.len() && {
                    let p = #[trigger] framed.positions[i];
                    p.0 == greatest || p.1 == greatest || p.2 == greatest
                }
        }),
{
    let positions = framing(n, spans, merge).positions;
    max_position_is_the_maximum(positions);
    let top = choose|i: int|
        0 <= i < positions.len() && largest_axis(#[trigger] positions[i]) == max_position(
            positions,
        );
    let p = positions[top];
    assert(largest_axis(p) == p.0 || largest_axis(p) == p.1 || largest_axis(p) == p.2);
}

/// A bound on the components bounds the largest one.
proof fn lemma_max_position_bounds(positions: Seq<Axes>, bound: int)
    requires
        all_below(positions, bound),
    ensures
        0 <= max_position(positions),
        positions.len() > 0 ==> max_position(positions) < bound,
{
    if positions.len() > 0 {
        max_position_is_the_maximum(positions);
    }
}

/// The component of a position that an axis names: 0 = T, 1 = H, 2 = W.
pub open spec fn on_axis(p: Axes, axis: int) -> int {
    if axis == 1 {
        p.1
    } else if axis == 2 {
        p.2
    } else {
        p.0
    }
}

/// The position that a token behind the prompt takes: the prompt's rope delta
/// added to its length.
pub open spec fn next_cursor(n: nat, spans: Seq<ImageSpan>, merge: nat) -> int {
    framing(n, spans, merge).rope_delta + n
}

/// Every span lies within the prompt.
pub open spec fn contained(n: nat, spans: Seq<ImageSpan>, merge: nat) -> bool {
    forall|i: int|
        0 <= i < spans.len() ==> (#[trigger] spans[i]).start + spans[i].tokens(merge) <= n
}

/// `spans` with every start moved on by `by`.
pub open spec fn spans_from(spans: Seq<ImageSpan>, by: nat) -> Seq<ImageSpan> {
    spans.map_values(|s: ImageSpan| ImageSpan { start: (s.start + by) as usize, ..s })
}

/// `positions` with every component moved on by `by`.
pub open spec fn positions_from(positions: Seq<Axes>, by: int) -> Seq<Axes> {
    positions.map_values(|p: Axes| (p.0 + by, p.1 + by, p.2 + by))
}

/// A walk has placed one position for every token it has consumed.
proof fn lemma_walk_token_count(n: nat, spans: Seq<ImageSpan>, merge: nat)
    ensures
        walk(n, spans, merge).positions.len() == walk(n, spans, merge).token,
        0 <= walk(n, spans, merge).token,
    decreases spans.len(),
{
    if spans.len() > 0 {
        lemma_walk_token_count(n, spans.drop_last(), merge);
    }
}

/// Where the spans are in order and lie within the prompt, each begins at its
/// `start`, and all of them end within the prompt.
proof fn lemma_contained_walk(n: nat, spans: Seq<ImageSpan>, merge: nat, k: int)
    requires
        0 <= k <= spans.len(),
        in_order(n, spans, merge),
        contained(n, spans, merge),
    ensures
        walk(n, spans.take(k), merge).token <= n,
        k > 0 ==> walk(n, spans.take(k), merge).token == spans[k - 1].start
            + spans[k - 1].tokens(merge),
    decreases k,
{
    if k > 0 {
        lemma_contained_walk(n, spans, merge, k - 1);
        lemma_walk_step(n, spans, merge, k - 1);
        assert(spans[k - 1].start >= walk(n, spans.take(k - 1), merge).token);
    }
}

/// Every token of the prompt gets exactly one position.
pub proof fn every_token_has_a_position(n: nat, spans: Seq<ImageSpan>, merge: nat)
    requires
        in_order(n, spans, merge),
        contained(n, spans, merge),
    ensures
        framing(n, spans, merge).positions.len() == n,
{
    lemma_walk_token_count(n, spans, merge);
    lemma_contained_walk(n, spans, merge, spans.len() as int);
    assert(spans.take(spans.len() as int) =~= spans);
}

/// A prompt of text alone is positioned as one-dimensional rotary positions
/// are: token `i` is at `i` on every axis, so the choice of axis cannot change
/// what a frequency reads, and the rope delta is 0.
pub proof fn text_only_is_one_dimensional(n: nat, merge: nat)
    requires
        n > 0,
    ensures
        framing(n, Seq::empty(), merge).positions.len() == n,
        forall|i: int, d: int, h: int, w: int|
            0 <= i < n ==> on_axis(
                #[trigger] framing(n, Seq::empty(), merge).positions[i],
                #[trigger] axis_for_freq(d, h, w),
            ) == i,
        framing(n, Seq::empty(), merge).rope_delta == 0,
        next_cursor(n, Seq::empty(), merge) == n,
{
    let positions = framing(n, Seq::empty(), merge).positions;
    assert(positions =~= text_run(0, n));
    max_position_is_the_maximum(positions);
    assert(largest_axis(positions[n - 1]) == n - 1);
    let j = choose|j: int|
        0 <= j < positions.len() && largest_axis(#[trigger] positions[j]) == max_position(
            positions,
        );
    assert(largest_axis(positions[j]) == j);
}

/// What is placed stays where it is when further spans and text are placed.
proof fn lemma_walk_prefix(n: nat, spans: Seq<ImageSpan>, merge: nat, k: int)
    requires
        0 <= k <= spans.len(),
    ensures
        walk(n, spans.take(k), merge).positions.is_prefix_of(walk(n, spans, merge).positions),
        walk(n, spans.take(k), merge).positions.is_prefix_of(prompt_positions(n, spans, merge)),
    decreases spans.len(),
{
    if k == spans.len() {
        assert(spans.take(k) =~= spans);
    } else {
        lemma_walk_prefix(n, spans.drop_last(), merge, k);
        assert(spans.drop_last().take(k) =~= spans.take(k));
    }
}

/// The tokens of image `k` hold its block of positions, behind the cursor that
/// the image finds.
proof fn lemma_block_in_prompt(n: nat, spans: Seq<ImageSpan>, merge: nat, k: int, i: int)
    requires
        in_order(n, spans, merge),
        contained(n, spans, merge),
        0 <= k < spans.len(),
        0 <= i < spans[k].tokens(merge),
    ensures
        ({
            let before = walk(n, spans.take(k), merge);
            let cursor = before.cursor + (spans[k].start - before.token);
            &&& spans[k].start + i < n
            &&& spans[k].start + i < prompt_positions(n, spans, merge).len()
            &&& prompt_positions(n, spans, merge)[spans[k].start + i] == spans[k].block(
                cursor,
                merge,
            )[i]
        }),
{
    let span = spans[k];
    let before = walk(n, spans.take(k), merge);
    let after = walk(n, spans.take(k + 1), merge);
    lemma_contained_walk(n, spans, merge, k);
    assert(span.start >= before.token);
    assert(span.start + span.tokens(merge) <= n);
    let text = text_before(before.token, span.start as int, n);
    assert(text == span.start - before.token);
    lemma_walk_token_count(n, spans.take(k), merge);
    lemma_walk_step(n, spans, merge, k);
    lemma_walk_prefix(n, spans, merge, k + 1);
    let run = text_run(before.cursor, text);
    let block = span.block(before.cursor + text, merge);
    assert(after.positions == before.positions + run + block);
    assert((before.positions + run).len() == span.start);
    assert(after.positions[span.start + i] == block[i]);
}

/// The tokens of image `k` stand at the grid coordinates behind the cursor that
/// the image finds: t constant, h by row, w by column.
pub proof fn image_tokens_stand_on_the_grid(
    n: nat,
    spans: Seq<ImageSpan>,
    merge: nat,
    k: int,
    row: int,
    col: int,
)
    requires
        merge > 0,
        in_order(n, spans, merge),
        contained(n, spans, merge),
        0 <= k < spans.len(),
        0 <= row < spans[k].rows(merge),
        0 <= col < spans[k].cols(merge),
    ensures
        ({
            let index = spans[k].start + (row * spans[k].cols(merge) + col);
            let before = walk(n, spans.take(k), merge);
            let cursor = before.cursor + (spans[k].start - before.token);
            &&& index < n
            &&& framing(n, spans, merge).positions[index] == (cursor, cursor + row, cursor + col)
        }),
{
    let cols = spans[k].cols(merge) as int;
    lemma_grid_index(row, col, spans[k].rows(merge) as int, cols);
    lemma_block_in_prompt(n, spans, merge, k, row * cols + col);
}

/// An image moves the cursor on by one grid dimension, the larger merged one,
/// not by its token count: the text token right behind image `k` stands there.
pub proof fn image_advances_cursor_by_grid_dimension(
    n: nat,
    spans: Seq<ImageSpan>,
    merge: nat,
    k: int,
)
    requires
        merge > 0,
        in_order(n, spans, merge),
        contained(n, spans, merge),
        0 <= k < spans.len(),
    ensures
        ({
            let before = walk(n, spans.take(k), merge);
            let after = walk(n, spans.take(k + 1), merge);
            let text = spans[k].start - before.token;
            let next = spans[k].start + spans[k].tokens(merge);
            &&& after.cursor == before.cursor + text + larger(
                spans[k].rows(merge) as int,
                spans[k].cols(merge) as int,
            )
            &&& after.token == next
            &&& next < (if k + 1 < spans.len() {
                spans[k + 1].start as int
            } else {
                n as int
            }) ==> framing(n, spans, merge).positions[next] == (
                after.cursor,
                after.cursor,
                after.cursor,
            )
        }),
{
    let before = walk(n, spans.take(k), merge);
    let after = walk(n, spans.take(k + 1), merge);
    let next = spans[k].start + spans[k].tokens(merge);
    lemma_contained_walk(n, spans, merge, k);
    lemma_contained_walk(n, spans, merge, k + 1);
    assert(spans[k].start >= before.token);
    lemma_walk_step(n, spans, merge, k);
    lemma_advance(spans[k], merge);
    lemma_walk_token_count(n, spans.take(k + 1), merge);
    if k + 1 < spans.len() {
        if next < spans[k + 1].start {
            assert(spans[k + 1].start + spans[k + 1].tokens(merge) <= n);
            lemma_walk_step(n, spans, merge, k + 1);
            lemma_walk_prefix(n, spans, merge, k + 2);
            let further = walk(n, spans.take(k + 2), merge);
            assert(further.positions[next] == (after.cursor, after.cursor, after.cursor));
        }
    } else {
        assert(spans.take(k + 1) =~= spans);
    }
}

/// The token placed last by `spans` fills the cursor up: no image without
/// tokens has moved it on since.
pub open spec fn fills_cursor(n: nat, spans: Seq<ImageSpan>, merge: nat) -> bool
    decreases spans.len(),
{
    if spans.len() == 0 {
        false
    } else {
        let span = spans.last();
        let before = walk(n, spans.drop_last(), merge);
        if span.tokens(merge) > 0 {
            true
        } else {
            span.advance(merge) == 0 && (text_before(before.token, span.start as int, n) > 0
                || fills_cursor(n, spans.drop_last(), merge))
        }
    }
}

/// The prompt ends in a text token or in an image that has tokens. (A prompt
/// without any token counts where its cursor stands at 1, which is what an
/// empty list of positions is taken for.)
pub open spec fn ends_filled(n: nat, spans: Seq<ImageSpan>, merge: nat) -> bool {
    if prompt_positions(n, spans, merge).len() == 0 {
        end_cursor(n, spans, merge) == 1
    } else {
        trailing_text(n, spans, merge) > 0 || fills_cursor(n, spans, merge)
    }
}

/// Some component is at least `value`.
spec fn reaches(positions: Seq<Axes>, value: int) -> bool {
    exists|i: int| 0 <= i < positions.len() && largest_axis(#[trigger] positions[i]) >= value
}

/// An image with tokens reaches the position before the cursor behind it.
proof fn lemma_block_reaches(span: ImageSpan, cursor: int, merge: nat)
    requires
        merge > 0,
        span.tokens(merge) > 0,
    ensures
        reaches(span.block(cursor, merge), cursor + span.advance(merge) - 1),
{
    let rows = span.rows(merge) as int;
    let cols = span.cols(merge) as int;
    assert(rows > 0 && cols > 0) by (nonlinear_arith)
        requires
            rows >= 0,
            cols >= 0,
            rows * cols > 0,
    ;
    lemma_advance(span, merge);
    lemma_grid_index(rows - 1, cols - 1, rows, cols);
    let i = (rows - 1) * cols + (cols - 1);
    assert(span.block(cursor, merge)[i] == (cursor, cursor + rows - 1, cursor + cols - 1));
}

/// The walk reaches the position before its cursor exactly where the cursor is
/// filled up.
proof fn lemma_fills_cursor(n: nat, spans: Seq<ImageSpan>, merge: nat)
    requires
        merge > 0,
    ensures
        fills_cursor(n, spans, merge) <==> reaches(
            walk(n, spans, merge).positions,
            walk(n, spans, merge).cursor - 1,
        ),
    decreases spans.len(),
{
    if spans.len() > 0 {
        let span = spans.last();
        let w = walk(n, spans.drop_last(), merge);
        let text = text_before(w.token, span.start as int, n);
        let full = walk(n, spans, merge);
        let run = text_run(w.cursor, text);
        let block = span.block(w.cursor + text, merge);
        lemma_fills_cursor(n, spans.drop_last(), merge);
        lemma_walk_below_cursor(n, spans.drop_last(), merge);
        if span.tokens(merge) > 0 {
            lemma_block_reaches(span, w.cursor + text, merge);
            let i = choose|i: int|
                0 <= i < block.len() && largest_axis(#[trigger] block[i]) >= full.cursor - 1;
            assert(full.positions[w.positions.len() + text + i] == block[i]);
        } else {
            assert(full.positions =~= w.positions + run);
            if fills_cursor(n, spans, merge) {
                if text > 0 {
                    let last = w.positions.len() + text - 1;
                    assert(full.positions[last] == run[text - 1]);
                    assert(largest_axis(full.positions[last]) >= full.cursor - 1);
                } else {
                    let i = choose|i: int|
                        0 <= i < w.positions.len() && largest_axis(#[trigger] w.positions[i])
                            >= w.cursor - 1;
                    assert(full.positions[i] == w.positions[i]);
                }
            } else if reaches(full.positions, full.cursor - 1) {
                let i = choose|i: int|
                    0 <= i < full.positions.len() && largest_axis(#[trigger] full.positions[i])
                        >= full.cursor - 1;
                if i < w.positions.len() {
                    assert(full.positions[i] == w.positions[i]);
                    assert(largest_axis(w.positions[i]) >= w.cursor - 1);
                }
            }
        }
    }
}

/// The next cursor is the cursor behind the prompt exactly where the prompt
/// ends filled. Otherwise an image without tokens has moved the cursor on
/// behind the last position, or there is no position at all.
pub proof fn next_cursor_is_end_cursor(n: nat, spans: Seq<ImageSpan>, merge: nat)
    requires
        merge > 0,
    ensures
        next_cursor(n, spans, merge) == end_cursor(n, spans, merge) <==> ends_filled(
            n,
            spans,
            merge,
        ),
{
    let w = walk(n, spans, merge);
    let text = trailing_text(n, spans, merge);
    let all = prompt_positions(n, spans, merge);
    let end = end_cursor(n, spans, merge);
    lemma_positions_below_cursor(n, spans, merge);
    lemma_max_position_bounds(all, end);
    lemma_walk_below_cursor(n, spans, merge);
    lemma_fills_cursor(n, spans, merge);
    if all.len() > 0 {
        max_position_is_the_maximum(all);
        let top = choose|i: int|
            0 <= i < all.len() && largest_axis(#[trigger] all[i]) == max_position(all);
        if text > 0 {
            let last = w.positions.len() + text - 1;
            assert(all[last] == text_run(w.cursor, text)[text - 1]);
            assert(largest_axis(all[last]) == end - 1);
        } else {
            assert(all =~= w.positions);
            if fills_cursor(n, spans, merge) {
                let i = choose|i: int|
                    0 <= i < w.positions.len() && largest_axis(#[trigger] w.positions[i])
                        >= w.cursor - 1;
                assert(largest_axis(all[i]) >= end - 1);
            } else {
                assert(largest_axis(w.positions[top]) < w.cursor - 1);
            }
        }
    }
}

/// A prompt that has tokens, and whose images all have tokens, ends filled.
pub proof fn prompts_end_filled(n: nat, spans: Seq<ImageSpan>, merge: nat)
    requires
        n > 0,
        forall|i: int| 0 <= i < spans.len() ==> (#[trigger] spans[i]).tokens(merge) > 0,
    ensures
        ends_filled(n, spans, merge),
{
    lemma_walk_token_count(n, spans, merge);
    if spans.len() > 0 {
        let last = spans.len() - 1;
        assert(spans[last].tokens(merge) > 0);
        assert(walk(n, spans, merge).positions.len() > 0) by {
            lemma_walk_token_count(n, spans.drop_last(), merge);
        }
    }
}

/// Spans that lie within a prompt are placed alike in a longer prompt.
proof fn lemma_walk_in_longer_prompt(n: nat, more: nat, spans: Seq<ImageSpan>, merge: nat)
    requires
        contained(n, spans, merge),
    ensures
        walk(n + more, spans, merge) == walk(n, spans, merge),
    decreases spans.len(),
{
    if spans.len() > 0 {
        let front = spans.drop_last();
        assert forall|i: int| 0 <= i < front.len() implies (#[trigger] front[i]).start
            + front[i].tokens(merge) <= n by {
            assert(front[i] == spans[i]);
        }
        lemma_walk_in_longer_prompt(n, more, front, merge);
        assert(spans[spans.len() - 1].start + spans[spans.len() - 1].tokens(merge) <= n);
    }
}

/// The spans of a conversation: those of the head, then those of the tail,
/// which starts behind the head's `n` tokens.
pub open spec fn joined(head: Seq<ImageSpan>, n: nat, tail: Seq<ImageSpan>) -> Seq<ImageSpan> {
    head + spans_from(tail, n)
}

/// Placing the tail's spans behind the head is placing them from the cursor
/// behind the head.
proof fn lemma_continued_walk(
    n: nat,
    head: Seq<ImageSpan>,
    more: nat,
    tail: Seq<ImageSpan>,
    merge: nat,
)
    requires
        in_order(n, head, merge),
        contained(n, head, merge),
        forall|i: int| 0 <= i < tail.len() ==> (#[trigger] tail[i]).start + n <= usize::MAX,
        tail.len() > 0,
    ensures
        ({
            let w = walk(n + more, joined(head, n, tail), merge);
            let t = walk(more, tail, merge);
            let base = end_cursor(n, head, merge);
            &&& w.token == n + t.token
            &&& w.cursor == base + t.cursor
            &&& w.positions == prompt_positions(n, head, merge) + positions_from(t.positions, base)
        }),
    decreases tail.len(),
{
    let spans = joined(head, n, tail);
    let front = tail.drop_last();
    let span = tail[tail.len() - 1];
    let w = walk(n + more, spans, merge);
    let t = walk(more, tail, merge);
    let base = end_cursor(n, head, merge);
    let head_walk = walk(n, head, merge);
    let moved = spans.last();
    assert(moved == (ImageSpan { start: (span.start + n) as usize, ..span }));
    assert(spans.drop_last() =~= joined(head, n, front));
    let fw = walk(n + more, joined(head, n, front), merge);
    let ft = walk(more, front, merge);
    let text = text_before(ft.token, span.start as int, more);
    let head_positions = prompt_positions(n, head, merge);
    lemma_contained_walk(n, head, merge, head.len() as int);
    assert(head.take(head.len() as int) =~= head);
    assert(moved.rows(merge) == span.rows(merge) && moved.cols(merge) == span.cols(merge));
    let block = span.block(ft.cursor + text, merge);
    assert(moved.block(base + ft.cursor + text, merge) =~= positions_from(block, base));
    if front.len() == 0 {
        assert(joined(head, n, front) =~= head);
        lemma_walk_in_longer_prompt(n, more, head, merge);
        let gap = trailing_text(n, head, merge);
        assert(text_before(fw.token, moved.start as int, n + more) == gap + text);
        assert(text_run(head_walk.cursor, gap + text) =~= text_run(head_walk.cursor, gap)
            + positions_from(text_run(0, text), base));
        assert(t.positions =~= text_run(0, text) + block);
    } else {
        lemma_continued_walk(n, head, more, front, merge);
        assert(text_before(fw.token, moved.start as int, n + more) == text);
        assert(text_run(base + ft.cursor, text) =~= positions_from(
            text_run(ft.cursor, text),
            base,
        ));
    }
    assert(w.positions =~= head_positions + positions_from(t.positions, base));
}

/// Framing a conversation is framing its head and then its tail from the cursor
/// behind the head.
proof fn lemma_continued_positions(
    n: nat,
    head: Seq<ImageSpan>,
    more: nat,
    tail: Seq<ImageSpan>,
    merge: nat,
)
    requires
        in_order(n, head, merge),
        contained(n, head, merge),
        forall|i: int| 0 <= i < tail.len() ==> (#[trigger] tail[i]).start + n <= usize::MAX,
    ensures
        prompt_positions(n + more, joined(head, n, tail), merge) == prompt_positions(
            n,
            head,
            merge,
        ) + positions_from(
            prompt_positions(more, tail, merge),
            end_cursor(n, head, merge),
        ),
        end_cursor(n + more, joined(head, n, tail), merge) == end_cursor(n, head, merge)
            + end_cursor(more, tail, merge),
{
    let spans = joined(head, n, tail);
    let w = walk(n + more, spans, merge);
    let t = walk(more, tail, merge);
    let base = end_cursor(n, head, merge);
    let tail_text = trailing_text(more, tail, merge);
    let whole = prompt_positions(n + more, spans, merge);
    let parts = prompt_positions(n, head, merge) + positions_from(
        prompt_positions(more, tail, merge),
        base,
    );
    lemma_contained_walk(n, head, merge, head.len() as int);
    assert(head.take(head.len() as int) =~= head);
    if tail.len() == 0 {
        assert(spans =~= head);
        lemma_walk_in_longer_prompt(n, more, head, merge);
        let gap = trailing_text(n, head, merge);
        assert(trailing_text(n + more, spans, merge) == gap + more);
        assert(text_run(w.cursor, gap + more) =~= text_run(w.cursor, gap) + positions_from(
            text_run(0, more),
            base,
        ));
        assert(prompt_positions(more, tail, merge) =~= text_run(0, more));
    } else {
        lemma_continued_walk(n, head, more, tail, merge);
        assert(trailing_text(n + more, spans, merge) == tail_text);
        assert(text_run(base + t.cursor, tail_text) =~= positions_from(
            text_run(t.cursor, tail_text),
            base,
        ));
    }
    assert(whole =~= parts);
}

/// Extending a conversation leaves the positions of what was there unchanged:
/// the framing of the longer prompt begins with the framing of the shorter.
pub proof fn extension_keeps_positions(
    n: nat,
    head: Seq<ImageSpan>,
    more: nat,
    tail: Seq<ImageSpan>,
    merge: nat,
)
    requires
        in_order(n, head, merge),
        contained(n, head, merge),
        forall|i: int| 0 <= i < tail.len() ==> (#[trigger] tail[i]).start + n <= usize::MAX,
    ensures
        framing(n + more, joined(head, n, tail), merge).positions.take(n as int) == framing(
            n,
            head,
            merge,
        ).positions,
{
    lemma_continued_positions(n, head, more, tail, merge);
    every_token_has_a_position(n, head, merge);
    assert(framing(n + more, joined(head, n, tail), merge).positions.take(n as int) =~= framing(
        n,
        head,
        merge,
    ).positions);
}

/// How far `spans` set positions apart from token indices: an image takes up its
/// tokens, but moves the cursor on by one grid dimension only.
pub open spec fn grid_shift(spans: Seq<ImageSpan>, merge: nat) -> int
    decreases spans.len(),
{
    if spans.len() == 0 {
        0
    } else {
        grid_shift(spans.drop_last(), merge) + spans.last().advance(merge) - spans.last().tokens(
            merge,
        )
    }
}

/// The cursor of a walk is its token index, shifted by the images.
proof fn lemma_walk_shift(n: nat, spans: Seq<ImageSpan>, merge: nat)
    ensures
        walk(n, spans, merge).cursor == walk(n, spans, merge).token + grid_shift(spans, merge),
    decreases spans.len(),
{
    if spans.len() > 0 {
        lemma_walk_shift(n, spans.drop_last(), merge);
    }
}

/// A text token takes the same value on all three axes: its index, shifted by
/// the `k` images before it.
pub proof fn text_tokens_are_uniform(n: nat, spans: Seq<ImageSpan>, merge: nat, k: int, i: int)
    requires
        in_order(n, spans, merge),
        contained(n, spans, merge),
        0 <= k <= spans.len(),
        (if k > 0 {
            spans[k - 1].start + spans[k - 1].tokens(merge)
        } else {
            0
        }) <= i < (if k < spans.len() {
            spans[k].start as int
        } else {
            n as int
        }),
    ensures
        ({
            let p = i + grid_shift(spans.take(k), merge);
            framing(n, spans, merge).positions[i] == (p, p, p)
        }),
{
    let before = walk(n, spans.take(k), merge);
    let p = i + grid_shift(spans.take(k), merge);
    lemma_contained_walk(n, spans, merge, k);
    lemma_walk_token_count(n, spans.take(k), merge);
    lemma_walk_shift(n, spans.take(k), merge);
    assert(k == 0 ==> before.token == 0);
    if k < spans.len() {
        assert(spans[k].start + spans[k].tokens(merge) <= n);
        lemma_walk_step(n, spans, merge, k);
        lemma_walk_prefix(n, spans, merge, k + 1);
        let after = walk(n, spans.take(k + 1), merge);
        assert(after.positions[i] == (p, p, p));
    } else {
        assert(spans.take(k) =~= spans);
    }
}

/// The rope delta is what all images together set positions apart from token
/// indices, wherever they stand.
pub proof fn rope_delta_is_the_shift_of_the_images(n: nat, spans: Seq<ImageSpan>, merge: nat)
    requires
        merge > 0,
        in_order(n, spans, merge),
        contained(n, spans, merge),
        ends_filled(n, spans, merge),
    ensures
        framing(n, spans, merge).rope_delta == grid_shift(spans, merge),
{
    next_cursor_is_end_cursor(n, spans, merge);
    lemma_walk_shift(n, spans, merge);
    lemma_contained_walk(n, spans, merge, spans.len() as int);
    assert(spans.take(spans.len() as int) =~= spans);
}

/// The largest component of two lists of positions, the second moved on by
/// `base`.
proof fn lemma_max_position_joined(a: Seq<Axes>, b: Seq<Axes>, base: int)
    requires
        all_below(a, base),
        all_below(b, max_position(b) + 1),
        b.len() > 0,
    ensures
        max_position(a + positions_from(b, base)) == base + max_position(b),
{
    let moved = positions_from(b, base);
    let both = a + moved;
    max_position_is_the_maximum(b);
    max_position_is_the_maximum(both);
    let top = choose|i: int| 0 <= i < b.len() && largest_axis(#[trigger] b[i]) == max_position(b);
    assert(both[a.len() + top] == moved[top]);
    assert(largest_axis(moved[top]) == base + max_position(b));
    let other = choose|i: int|
        0 <= i < both.len() && largest_axis(#[trigger] both[i]) == max_position(both);
    if other < a.len() {
        assert(both[other] == a[other]);
    } else {
        let k = other - a.len();
        assert(both[other] == moved[k]);
        assert(largest_axis(moved[k]) == base + largest_axis(b[k]));
    }
}

/// Concatenation equals continuation: framing a whole conversation from 0 is
/// framing its head, and then its tail moved on to the head's next cursor; and
/// the next cursors add up across the seam. So what was computed for the head
/// can be kept and only the tail computed.
///
/// The head must end filled, unless the tail has no position to move. An empty
/// tail leaves the next cursor of the whole where the head's is.
pub proof fn concatenation_equals_continuation(
    n: nat,
    head: Seq<ImageSpan>,
    more: nat,
    tail: Seq<ImageSpan>,
    merge: nat,
)
    requires
        merge > 0,
        in_order(n, head, merge),
        contained(n, head, merge),
        forall|i: int| 0 <= i < tail.len() ==> (#[trigger] tail[i]).start + n <= usize::MAX,
        ends_filled(n, head, merge) || framing(more, tail, merge).positions.len() == 0,
    ensures
        ({
            let whole = framing(n + more, joined(head, n, tail), merge);
            let first = framing(n, head, merge);
            let second = framing(more, tail, merge);
            let base = next_cursor(n, head, merge);
            &&& whole.positions == first.positions + positions_from(second.positions, base)
            &&& next_cursor(n + more, joined(head, n, tail), merge) == if second.positions.len()
                == 0 {
                base
            } else {
                base + next_cursor(more, tail, merge)
            }
        }),
{
    let first = prompt_positions(n, head, merge);
    let second = prompt_positions(more, tail, merge);
    let base = next_cursor(n, head, merge);
    lemma_continued_positions(n, head, more, tail, merge);
    next_cursor_is_end_cursor(n, head, merge);
    lemma_positions_below_cursor(n, head, merge);
    lemma_positions_below_cursor(more, tail, merge);
    if second.len() == 0 {
        assert(prompt_positions(n + more, joined(head, n, tail), merge) =~= first);
        assert(first =~= first + positions_from(second, base));
    } else {
        max_position_is_the_maximum(second);
        assert(all_below(second, max_position(second) + 1)) by {
            assert forall|i: int| 0 <= i < second.len() implies {
                let p = #[trigger] second[i];
                &&& 0 <= p.0 < max_position(second) + 1
                &&& 0 <= p.1 < max_position(second) + 1
                &&& 0 <= p.2 < max_position(second) + 1
            } by {
                assert(largest_axis(second[i]) <= max_position(second));
            }
        }
        lemma_max_position_joined(first, second, base);
    }
}

/// The rope delta added to the running sequence length is the position of a
/// decode step: where the token `step` places behind the prompt would stand, had
/// it been part of the prompt.
pub proof fn decode_steps_continue_the_prompt(
    n: nat,
    spans: Seq<ImageSpan>,
    merge: nat,
    step: nat,
)
    requires
        merge > 0,
        in_order(n, spans, merge),
        contained(n, spans, merge),
        ends_filled(n, spans, merge),
    ensures
        ({
            let p = n + step + framing(n, spans, merge).rope_delta;
            framing(n + step + 1, spans, merge).positions[(n + step) as int] == (p, p, p)
        }),
{
    let none = Seq::<ImageSpan>::empty();
    assert(joined(spans, n, none) =~= spans);
    concatenation_equals_continuation(n, spans, step + 1, none, merge);
    every_token_has_a_position(n, spans, merge);
    assert(framing(step + 1, none, merge).positions =~= text_run(0, step + 1));
}

/// A head with its spans inside it, and a tail behind it, both in order, make a
/// conversation in order.
pub proof fn joined_spans_stay_in_order(
    n: nat,
    head: Seq<ImageSpan>,
    more: nat,
    tail: Seq<ImageSpan>,
    merge: nat,
)
    requires
        in_order(n, head, merge),
        contained(n, head, merge),
        in_order(more, tail, merge),
        forall|i: int| 0 <= i < tail.len() ==> (#[trigger] tail[i]).start + n <= usize::MAX,
    ensures
        in_order(n + more, joined(head, n, tail), merge),
{
    let spans = joined(head, n, tail);
    assert forall|i: int| 0 <= i < spans.len() implies spans[i].start >= (#[trigger] walk(
        n + more,
        spans.take(i),
        merge,
    )).token by {
        if i < head.len() {
            let part = head.take(i);
            assert(spans.take(i) =~= part);
            assert(contained(n, part, merge)) by {
                assert forall|j: int| 0 <= j < part.len() implies (#[trigger] part[j]).start
                    + part[j].tokens(merge) <= n by {
                    assert(part[j] == head[j]);
                }
            }
            lemma_walk_in_longer_prompt(n, more, part, merge);
            assert(spans[i] == head[i]);
        } else {
            let j = i - head.len();
            let part = tail.take(j);
            assert(spans.take(i) =~= joined(head, n, part));
            assert(spans[i].start == tail[j].start + n);
            assert(tail[j].start >= walk(more, part, merge).token);
            lemma_contained_walk(n, head, merge, head.len() as int);
            assert(head.take(head.len() as int) =~= head);
            if j == 0 {
                assert(joined(head, n, part) =~= head);
                lemma_walk_in_longer_prompt(n, more, head, merge);
            } else {
                lemma_continued_walk(n, head, more, part, merge);
            }
        }
    }
}

/// The axis map is interleaved, not chunked: while both H and W have
/// frequencies left the axes take turns, and past both sections all is T.
pub proof fn axis_map_is_interleaved(d: int, h: int, w: int)
    requires
        0 <= d,
    ensures
        d < 3 * h && d < 3 * w ==> axis_for_freq(d, h, w) == d % 3,
        d >= 3 * h && d >= 3 * w ==> axis_for_freq(d, h, w) == 0,
{
}

/// How many of the first `pairs` frequencies read `axis`.
pub open spec fn axis_count(pairs: nat, axis: int, h: int, w: int) -> nat
    decreases pairs,
{
    if pairs == 0 {
        0
    } else {
        axis_count((pairs - 1) as nat, axis, h, w) + if axis_for_freq(pairs - 1, h, w) == axis {
            1nat
        } else {
            0nat
        }
    }
}

/// The smaller of two integers.
spec fn smaller(a: int, b: int) -> int {
    if a < b {
        a
    } else {
        b
    }
}

/// The counts in closed form.
proof fn lemma_axis_count(pairs: nat, h: int, w: int)
    requires
        0 <= h,
        0 <= w,
    ensures
        axis_count(pairs, 1, h, w) == smaller(h, (pairs as int + 1) / 3),
        axis_count(pairs, 2, h, w) == smaller(w, pairs as int / 3),
        axis_count(pairs, 0, h, w) + axis_count(pairs, 1, h, w) + axis_count(pairs, 2, h, w)
            == pairs,
    decreases pairs,
{
    if pairs > 0 {
        lemma_axis_count((pairs - 1) as nat, h, w);
    }
}

/// Each axis gets its section's share of the rotary pairs, provided that the
/// pairs last until the end of the H and W sections.
pub proof fn sections_are_honoured(t: int, h: int, w: int)
    requires
        0 <= t,
        0 <= h,
        0 <= w,
        3 * h <= t + h + w + 1,
        3 * w <= t + h + w,
    ensures
        axis_count((t + h + w) as nat, 0, h, w) == t,
        axis_count((t + h + w) as nat, 1, h, w) == h,
        axis_count((t + h + w) as nat, 2, h, w) == w,
{
    lemma_axis_count((t + h + w) as nat, h, w);
}

/// The view of stored positions keeps every component in its place.
pub proof fn views_keep_every_component(framed: MropePositions)
    ensures
        framed@.positions.len() == framed.positions@.len(),
        forall|i: int|
            0 <= i < framed.positions@.len() ==> {
                let p = #[trigger] framed@.positions[i];
                &&& p.0 == framed.positions@[i][0]
                &&& p.1 == framed.positions@[i][1]
                &&& p.2 == framed.positions@[i][2]
            },
        framed@.rope_delta == framed.rope_delta,
{
}

/// H reads the frequencies 1, 4, 7, ... as many as it has, W the frequencies
/// 2, 5, 8, ... as many as it has, each whatever the other has, and T all else.
pub proof fn axes_take_every_third_frequency(j: int, h: int, w: int)
    requires
        0 <= j,
    ensures
        axis_for_freq(3 * j, h, w) == 0,
        axis_for_freq(3 * j + 1, h, w) == if j < h {
            1int
        } else {
            0
        },
        axis_for_freq(3 * j + 2, h, w) == if j < w {
            2int
        } else {
            0
        },
{
}

/// In a prompt of text alone token `i` stands at `i` on all three axes.
pub proof fn text_alone_counts_up(n: nat, merge: nat)
    ensures
        framing(n, Seq::empty(), merge).positions.len() == n,
        forall|i: int|
            0 <= i < n ==> #[trigger] framing(n, Seq::empty(), merge).positions[i] == (i, i, i),
{
    assert(framing(n, Seq::empty(), merge).positions =~= text_run(0, n));
}

/// Where every span ends before the next begins, and all within the prompt, a
/// walk has consumed just the tokens up to the end of its last span.
proof fn lemma_laid_out_walk(n: nat, spans: Seq<ImageSpan>, merge: nat, k: int)
    requires
        merge > 0,
        0 <= k <= spans.len(),
        forall|i: int, j: int|
            #![trigger spans[i], spans[j]]
            0 <= i < j < spans.len() ==> spans[i].start + (spans[i].grid_h as nat / merge) * (
            spans[i].grid_w as nat / merge) <= spans[j].start,
        forall|i: int|
            0 <= i < spans.len() ==> (#[trigger] spans[i]).start + (spans[i].grid_h as nat / merge)
                * (spans[i].grid_w as nat / merge) <= n,
    ensures
        walk(n, spans.take(k), merge).token == if k > 0 {
            spans[k - 1].start + spans[k - 1].tokens(merge)
        } else {
            0
        },
    decreases k,
{
    if k > 0 {
        lemma_laid_out_walk(n, spans, merge, k - 1);
        lemma_walk_step(n, spans, merge, k - 1);
        let span = spans[k - 1];
        assert(span.tokens(merge) == (span.grid_h as nat / merge) * (span.grid_w as nat / merge));
        if k > 1 {
            let earlier = spans[k - 2];
            assert(earlier.tokens(merge) == (earlier.grid_h as nat / merge) * (
            earlier.grid_w as nat / merge));
        }
    }
}

/// Such spans are in order, and lie within the prompt.
proof fn lemma_laid_out(n: nat, spans: Seq<ImageSpan>, merge: nat)
    requires
        merge > 0,
        forall|i: int, j: int|
            #![trigger spans[i], spans[j]]
            0 <= i < j < spans.len() ==> spans[i].start + (spans[i].grid_h as nat / merge) * (
            spans[i].grid_w as nat / merge) <= spans[j].start,
        forall|i: int|
            0 <= i < spans.len() ==> (#[trigger] spans[i]).start + (spans[i].grid_h as nat / merge)
                * (spans[i].grid_w as nat / merge) <= n,
    ensures
        in_order(n, spans, merge),
        contained(n, spans, merge),
        walk(n, spans, merge).token <= n,
        spans.len() > 0 ==> walk(n, spans, merge).token == spans[spans.len() - 1].start + (
        spans[spans.len() - 1].grid_h as nat / merge) * (spans[spans.len() - 1].grid_w as nat
            / merge),
        spans.len() == 0 ==> walk(n, spans, merge).token == 0,
{
    assert forall|i: int| 0 <= i < spans.len() implies spans[i].start >= (#[trigger] walk(
        n,
        spans.take(i),
        merge,
    )).token by {
        lemma_laid_out_walk(n, spans, merge, i);
        if i > 0 {
            let earlier = spans[i - 1];
            assert(earlier.tokens(merge) == (earlier.grid_h as nat / merge) * (
            earlier.grid_w as nat / merge));
            assert(earlier.start + earlier.tokens(merge) <= spans[i].start);
        }
    }
    assert forall|i: int| 0 <= i < spans.len() implies (#[trigger] spans[i]).start
        + spans[i].tokens(merge) <= n by {
        let span = spans[i];
        assert(span.tokens(merge) == (span.grid_h as nat / merge) * (span.grid_w as nat / merge));
    }
    lemma_laid_out_walk(n, spans, merge, spans.len() as int);
    assert(spans.take(spans.len() as int) =~= spans);
}

/// The block of an image, cell by cell: `grid_h / merge` rows of
/// `grid_w / merge` tokens each.
proof fn lemma_block_cells(span: ImageSpan, cursor: int, merge: nat)
    requires
        merge > 0,
    ensures
        span.block(cursor, merge).len() == (span.grid_h as nat / merge) * (span.grid_w as nat
            / merge),
        forall|row: int, col: int|
            0 <= row < span.grid_h as nat / merge && 0 <= col < span.grid_w as nat / merge ==> {
                let index = #[trigger] (row * (span.grid_w as nat / merge) + col);
                &&& 0 <= index < (span.grid_h as nat / merge) * (span.grid_w as nat / merge)
                &&& span.block(cursor, merge)[index] == (cursor, cursor + row, cursor + col)
            },
{
    let rows = (span.grid_h as nat / merge) as int;
    let cols = (span.grid_w as nat / merge) as int;
    assert forall|row: int, col: int| 0 <= row < rows && 0 <= col < cols implies {
        let index = #[trigger] (row * cols + col);
        &&& 0 <= index < rows * cols
        &&& span.block(cursor, merge)[index] == (cursor, cursor + row, cursor + col)
    } by {
        lemma_grid_index(row, col, rows, cols);
    }
}

/// What one image more does to a prompt that it begins in. Let `p` be where the
/// text token at its start stood without it.
///
/// - What comes before the image stays where it was.
/// - The image holds `(grid_h / merge) * (grid_w / merge)` tokens, row by row:
///   `grid_h / merge` rows of `grid_w / merge` each. All have t at `p`; h is as
///   far behind `p` as the row is down, w as far as the column is across.
/// - Behind it text goes on, one position a token and the same on all axes, from
///   `p` moved on by the larger grid dimension, merged.
pub proof fn image_is_framed_where_it_begins(
    n: nat,
    spans: Seq<ImageSpan>,
    span: ImageSpan,
    merge: nat,
)
    requires
        merge > 0,
        forall|i: int, j: int|
            #![trigger spans[i], spans[j]]
            0 <= i < j < spans.len() ==> spans[i].start + (spans[i].grid_h as nat / merge) * (
            spans[i].grid_w as nat / merge) <= spans[j].start,
        forall|i: int|
            0 <= i < spans.len() ==> (#[trigger] spans[i]).start + (spans[i].grid_h as nat / merge)
                * (spans[i].grid_w as nat / merge) <= span.start,
        span.start < n,
    ensures
        ({
            let before = framing(n, spans, merge).positions;
            let after = framing(n, spans.push(span), merge).positions;
            let start = span.start as int;
            let rows = (span.grid_h as nat / merge) as int;
            let cols = (span.grid_w as nat / merge) as int;
            let end = start + rows * cols;
            let p = before[start].0;
            let q = p + (if span.grid_h < span.grid_w {
                span.grid_w as nat / merge
            } else {
                span.grid_h as nat / merge
            });
            &&& before.len() == n
            &&& before[start] == (p, p, p)
            &&& after.len() == if end < n {
                n as int
            } else {
                end
            }
            &&& forall|i: int| 0 <= i < start ==> #[trigger] after[i] == before[i]
            &&& forall|row: int, col: int|
                0 <= row < rows && 0 <= col < cols ==> after[start + #[trigger] (row * cols + col)]
                    == (p, p + row, p + col)
            &&& forall|i: int|
                end <= i < n ==> #[trigger] after[i] == (q + (i - end), q + (i - end), q + (i
                    - end))
        }),
{
    let start = span.start as int;
    assert forall|i: int| 0 <= i < spans.len() implies (#[trigger] spans[i]).start + (
    spans[i].grid_h as nat / merge) * (spans[i].grid_w as nat / merge) <= n by {}
    lemma_laid_out(n, spans, merge);
    let w = walk(n, spans, merge);
    let all = spans.push(span);
    assert(all.drop_last() =~= spans);
    assert(w.token <= start) by {
        if spans.len() > 0 {
            let last = spans[spans.len() - 1];
            assert(last.start + (last.grid_h as nat / merge) * (last.grid_w as nat / merge)
                <= span.start);
        }
    }
    lemma_walk_token_count(n, spans, merge);
    let text = text_before(w.token, start, n);
    let p = w.cursor + text;
    lemma_block_cells(span, p, merge);
    let block = span.block(p, merge);
    let run = text_run(w.cursor, text);
    assert(walk(n, all, merge) == place(w, span, n, merge));
    assert((w.positions + run).len() == start);
    let rows = (span.grid_h as nat / merge) as int;
    let cols = (span.grid_w as nat / merge) as int;
    let after = framing(n, all, merge).positions;
    assert forall|row: int, col: int| 0 <= row < rows && 0 <= col < cols implies after[start
        + #[trigger] (row * cols + col)] == (p, p + row, p + col) by {
        assert(0 <= row * cols + col < rows * cols);
        assert(block[row * cols + col] == (p, p + row, p + col));
        assert(after[start + (row * cols + col)] == block[row * cols + col]);
    }
}

/// An image that begins at the end of the prompt or behind it comes right behind
/// the prompt's text, and stands where the next text token would have.
pub proof fn image_behind_the_prompt_is_framed_at_its_end(
    n: nat,
    spans: Seq<ImageSpan>,
    span: ImageSpan,
    merge: nat,
)
    requires
        merge > 0,
        forall|i: int, j: int|
            #![trigger spans[i], spans[j]]
            0 <= i < j < spans.len() ==> spans[i].start + (spans[i].grid_h as nat / merge) * (
            spans[i].grid_w as nat / merge) <= spans[j].start,
        forall|i: int|
            0 <= i < spans.len() ==> (#[trigger] spans[i]).start + (spans[i].grid_h as nat / merge)
                * (spans[i].grid_w as nat / merge) <= n,
        span.start >= n,
    ensures
        ({
            let before = framing(n, spans, merge).positions;
            let longer = framing(n + 1, spans, merge).positions;
            let after = framing(n, spans.push(span), merge).positions;
            let rows = (span.grid_h as nat / merge) as int;
            let cols = (span.grid_w as nat / merge) as int;
            let p = longer[n as int].0;
            &&& before.len() == n
            &&& longer.len() == n + 1
            &&& after.len() == n + rows * cols
            &&& forall|i: int| 0 <= i < n ==> #[trigger] after[i] == before[i]
            &&& forall|row: int, col: int|
                0 <= row < rows && 0 <= col < cols ==> after[n + #[trigger] (row * cols + col)] == (
                    p,
                    p + row,
                    p + col,
                )
        }),
{
    lemma_laid_out(n, spans, merge);
    lemma_walk_in_longer_prompt(n, 1, spans, merge);
    let w = walk(n, spans, merge);
    let all = spans.push(span);
    assert(all.drop_last() =~= spans);
    lemma_walk_token_count(n, spans, merge);
    let text = text_before(w.token, span.start as int, n);
    let p = w.cursor + text;
    lemma_block_cells(span, p, merge);
    let block = span.block(p, merge);
    let run = text_run(w.cursor, text);
    assert(walk(n, all, merge) == place(w, span, n, merge));
    assert((w.positions + run).len() == n);
    let rows = (span.grid_h as nat / merge) as int;
    let cols = (span.grid_w as nat / merge) as int;
    let after = framing(n, all, merge).positions;
    assert forall|row: int, col: int| 0 <= row < rows && 0 <= col < cols implies after[n
        + #[trigger] (row * cols + col)] == (p, p + row, p + col) by {
        assert(0 <= row * cols + col < rows * cols);
        assert(block[row * cols + col] == (p, p + row, p + col));
        assert(after[n + (row * cols + col)] == block[row * cols + col]);
    }
}

/// An image behind one that reaches past the end of the prompt comes right behind
/// it, from the next cursor on.
pub proof fn image_behind_an_overlong_one_is_framed_behind_it(
    n: nat,
    spans: Seq<ImageSpan>,
    span: ImageSpan,
    merge: nat,
)
    requires
        merge > 0,
        in_order(n, spans.push(span), merge),
        framing(n, spans, merge).positions.len() > n,
        spans.len() > 0,
        0 < (spans[spans.len() - 1].grid_h as nat / merge) * (spans[spans.len() - 1].grid_w as nat
            / merge),
    ensures
        ({
            let before = framing(n, spans, merge);
            let after = framing(n, spans.push(span), merge).positions;
            let rows = (span.grid_h as nat / merge) as int;
            let cols = (span.grid_w as nat / merge) as int;
            let start = before.positions.len();
            let p = before.rope_delta + n;
            &&& after.len() == start + rows * cols
            &&& forall|i: int| 0 <= i < start ==> #[trigger] after[i] == before.positions[i]
            &&& forall|row: int, col: int|
                0 <= row < rows && 0 <= col < cols ==> after[start + #[trigger] (row * cols + col)]
                    == (p, p + row, p + col)
        }),
{
    let w = walk(n, spans, merge);
    let all = spans.push(span);
    let last = spans[spans.len() - 1];
    assert(last.tokens(merge) == (last.grid_h as nat / merge) * (last.grid_w as nat / merge));
    assert(all.drop_last() =~= spans);
    assert(all.take(spans.len() as int) =~= spans);
    assert(all[spans.len() as int].start >= walk(n, all.take(spans.len() as int), merge).token);
    lemma_walk_token_count(n, spans, merge);
    assert(framing(n, spans, merge).positions =~= w.positions);
    next_cursor_is_end_cursor(n, spans, merge);
    let p = w.cursor;
    lemma_block_cells(span, p, merge);
    let block = span.block(p, merge);
    assert(walk(n, all, merge) == place(w, span, n, merge));
    let start = w.positions.len();
    let rows = (span.grid_h as nat / merge) as int;
    let cols = (span.grid_w as nat / merge) as int;
    let after = framing(n, all, merge).positions;
    assert(after =~= w.positions + block);
    assert forall|row: int, col: int| 0 <= row < rows && 0 <= col < cols implies after[start
        + #[trigger] (row * cols + col)] == (p, p + row, p + col) by {
        assert(0 <= row * cols + col < rows * cols);
        assert(after[start + (row * cols + col)] == block[row * cols + col]);
    }
}

/// Every image of a prompt keeps its grid: of its tokens, row by row
/// `grid_w / merge` to a row, the one in row `row` and column `col` has h as far
/// behind t as the row is down and w as far as the column is across, and t is the
/// same for all.
pub proof fn images_keep_their_grid(
    n: nat,
    spans: Seq<ImageSpan>,
    merge: nat,
    k: int,
    row: int,
    col: int,
)
    requires
        merge > 0,
        forall|i: int, j: int|
            #![trigger spans[i], spans[j]]
            0 <= i < j < spans.len() ==> spans[i].start + (spans[i].grid_h as nat / merge) * (
            spans[i].grid_w as nat / merge) <= spans[j].start,
        forall|i: int|
            0 <= i < spans.len() ==> (#[trigger] spans[i]).start + (spans[i].grid_h as nat / merge)
                * (spans[i].grid_w as nat / merge) <= n,
        0 <= k < spans.len(),
        0 <= row < spans[k].grid_h as nat / merge,
        0 <= col < spans[k].grid_w as nat / merge,
    ensures
        ({
            let positions = framing(n, spans, merge).positions;
            let start = spans[k].start as int;
            let index = start + (row * (spans[k].grid_w as nat / merge) + col);
            let p = positions[index];
            &&& positions.len() == n
            &&& 0 <= index < n
            &&& p.1 - p.0 == row
            &&& p.2 - p.0 == col
            &&& p.0 == positions[start].0
        }),
{
    let cols = (spans[k].grid_w as nat / merge) as int;
    let rows = (spans[k].grid_h as nat / merge) as int;
    lemma_laid_out(n, spans, merge);
    every_token_has_a_position(n, spans, merge);
    let before = walk(n, spans.take(k), merge);
    let cursor = before.cursor + (spans[k].start - before.token);
    lemma_grid_index(row, col, rows, cols);
    lemma_grid_index(0, 0, rows, cols);
    assert(spans[k].tokens(merge) == rows * cols);
    lemma_block_cells(spans[k], cursor, merge);
    lemma_block_in_prompt(n, spans, merge, k, row * cols + col);
    lemma_block_in_prompt(n, spans, merge, k, 0 * cols + 0);
}

/// A prompt without any position has the rope delta of a greatest position 0.
pub proof fn empty_prompts_count_from_zero(n: nat, spans: Seq<ImageSpan>, merge: nat)
    requires
        framing(n, spans, merge).positions.len() == 0,
    ensures
        framing(n, spans, merge).rope_delta == 1 - n,
{
}

/// A merged grid that has cells is no longer on a side than it has cells.
proof fn lemma_side_within_area(rows: int, cols: int)
    requires
        0 <= rows,
        0 <= cols,
        0 < rows * cols,
    ensures
        rows <= rows * cols,
        cols <= rows * cols,
{
    assert(0 < rows && 0 < cols && rows <= rows * cols && cols <= rows * cols) by (nonlinear_arith)
        requires
            0 <= rows,
            0 <= cols,
            0 < rows * cols,
    ;
}

/// Images with tokens never move the cursor past the token count.
proof fn lemma_cursor_within_tokens(n: nat, spans: Seq<ImageSpan>, merge: nat)
    requires
        merge > 0,
        forall|i: int| 0 <= i < spans.len() ==> 0 < (#[trigger] spans[i]).tokens(merge),
    ensures
        walk(n, spans, merge).cursor <= walk(n, spans, merge).token,
    decreases spans.len(),
{
    if spans.len() > 0 {
        let span = spans[spans.len() - 1];
        let front = spans.drop_last();
        assert forall|i: int| 0 <= i < front.len() implies 0 < (#[trigger] front[i]).tokens(
            merge,
        ) by {
            assert(front[i] == spans[i]);
        }
        lemma_cursor_within_tokens(n, front, merge);
        lemma_advance(span, merge);
        lemma_side_within_area(span.rows(merge) as int, span.cols(merge) as int);
    }
}

/// Every prompt of a machine's size whose images have tokens, lie within it, and
/// end each before the next begins, can be framed.
pub proof fn laid_out_prompts_can_be_framed(n: nat, spans: Seq<ImageSpan>, merge: nat)
    requires
        merge > 0,
        n <= i32::MAX,
        forall|i: int, j: int|
            #![trigger spans[i], spans[j]]
            0 <= i < j < spans.len() ==> spans[i].start + (spans[i].grid_h as nat / merge) * (
            spans[i].grid_w as nat / merge) <= spans[j].start,
        forall|i: int|
            0 <= i < spans.len() ==> (#[trigger] spans[i]).start + (spans[i].grid_h as nat / merge)
                * (spans[i].grid_w as nat / merge) <= n,
        forall|i: int|
            0 <= i < spans.len() ==> 0 < ((#[trigger] spans[i]).grid_h as nat / merge) * (
            spans[i].grid_w as nat / merge),
    ensures
        framable(n, spans, merge),
{
    lemma_laid_out(n, spans, merge);
    assert forall|i: int| 0 <= i < spans.len() implies 0 < (#[trigger] spans[i]).tokens(merge) by {
        let span = spans[i];
        assert(span.tokens(merge) == (span.grid_h as nat / merge) * (span.grid_w as nat / merge));
    }
    lemma_cursor_within_tokens(n, spans, merge);
}

} // verus!
