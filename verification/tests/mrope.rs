use hipfire::mrope::{
    build_mrope_positions, mrope_axis_for_freq, ImageSpan, MropePositions, DEFAULT_MROPE_SECTION,
};

/// The position the NEXT token behind a prompt would take.
fn next_cursor(p: &MropePositions, n_tokens: usize) -> i32 {
    p.rope_delta + n_tokens as i32
}

fn span(start: usize, grid_h: usize, grid_w: usize, merge: usize) -> ImageSpan {
    ImageSpan {
        start,
        len: (grid_h / merge) * (grid_w / merge),
        grid_h,
        grid_w,
    }
}

fn shifted(positions: &[[i32; 3]], base: i32) -> Vec<[i32; 3]> {
    positions
        .iter()
        .map(|p| [p[0] + base, p[1] + base, p[2] + base])
        .collect()
}

#[test]
fn text_only_is_positionally_identical_to_1d_rope() {
    let p = build_mrope_positions(8, &[], 2);
    for (i, pos) in p.positions.iter().enumerate() {
        assert_eq!(*pos, [i as i32; 3], "text token {i} must be uniform");
    }
    assert_eq!(p.rope_delta, 0, "text-only must not skew the cursor");
    assert_eq!(next_cursor(&p, 8), 8);
}

#[test]
fn image_advances_cursor_by_grid_dimension() {
    let merge = 2;
    let s = span(1, 16, 16, merge); // 64 post-merge tokens
    let n = 1 + s.len + 1;
    let p = build_mrope_positions(n, std::slice::from_ref(&s), merge);

    assert_eq!(p.positions[0], [0; 3], "leading text token");
    // 8x8 merged grid: t constant, h slowest, w fastest.
    assert_eq!(p.positions[1], [1, 1, 1], "first visual token");
    assert_eq!(p.positions[2], [1, 1, 2], "w advances fastest");
    assert_eq!(p.positions[1 + 8], [1, 2, 1], "h advances every row");

    // Cursor advanced by max(16,16)/2 = 8, NOT by the 64 tokens consumed.
    assert_eq!(p.positions[1 + s.len], [9; 3], "trailing text resumes at 9");
    assert_eq!(
        next_cursor(&p, n),
        10,
        "66 tokens but only 10 positions consumed"
    );
}

#[test]
fn concatenation_equals_continuation() {
    let merge = 2;
    for (prefix_len, img_grid, suffix_len) in [
        (5usize, (16, 16), 7usize),
        (1, (8, 12), 3),
        (40, (32, 16), 11),
    ] {
        let img = span(prefix_len, img_grid.0, img_grid.1, merge);
        let whole_n = prefix_len + img.len + suffix_len;

        // One-shot: the whole conversation framed from scratch.
        let whole = build_mrope_positions(whole_n, std::slice::from_ref(&img), merge);

        // Incremental: prefix (text) framed, then the image+suffix framed
        // separately and shifted to the prefix's next cursor.
        let head = build_mrope_positions(prefix_len, &[], merge);
        let base = next_cursor(&head, prefix_len);
        let tail_span = span(0, img_grid.0, img_grid.1, merge);
        let tail_n = img.len + suffix_len;
        let tail = build_mrope_positions(tail_n, std::slice::from_ref(&tail_span), merge);

        let mut stitched: Vec<[i32; 3]> = head.positions.clone();
        stitched.extend(
            tail.positions
                .iter()
                .map(|p| [p[0] + base, p[1] + base, p[2] + base]),
        );

        assert_eq!(
            stitched, whole.positions,
            "prefix_len={prefix_len} grid={img_grid:?} suffix_len={suffix_len}: \
             continuation must reproduce one-shot framing exactly"
        );

        // And the cursors must agree, or turn N+2 drifts.
        assert_eq!(
            next_cursor(&whole, whole_n),
            base + next_cursor(&tail, tail_n),
            "cursor must compose across the seam"
        );
    }
}

#[test]
fn axis_map_is_interleaved_not_chunked() {
    let section = [11, 11, 10];
    assert_eq!(mrope_axis_for_freq(0, section), 0, "d=0 -> T");
    assert_eq!(mrope_axis_for_freq(1, section), 1, "d=1 -> H");
    assert_eq!(mrope_axis_for_freq(2, section), 2, "d=2 -> W");
    assert_eq!(mrope_axis_for_freq(3, section), 0, "d=3 -> T again");
    // Past 3*section[i] the axis falls back to T -- the trailing `TT`.
    assert_eq!(mrope_axis_for_freq(3 * 10 + 2, section), 0, "W exhausted");
}

#[test]
fn default_section_shares_out_all_pairs() {
    assert_eq!(DEFAULT_MROPE_SECTION, [11, 11, 10]);
    let mut counts = [0usize; 3];
    for d in 0..32 {
        counts[mrope_axis_for_freq(d, DEFAULT_MROPE_SECTION)] += 1;
    }
    assert_eq!(counts, DEFAULT_MROPE_SECTION);
    // The last H frequency is 31; the last W frequency is 29.
    assert_eq!(mrope_axis_for_freq(31, DEFAULT_MROPE_SECTION), 1);
    assert_eq!(mrope_axis_for_freq(29, DEFAULT_MROPE_SECTION), 2);
    assert_eq!(mrope_axis_for_freq(34, DEFAULT_MROPE_SECTION), 0);
}

#[test]
fn text_reads_the_same_on_every_axis() {
    let p = build_mrope_positions(5, &[], 2);
    for (i, pos) in p.positions.iter().enumerate() {
        for d in 0..40 {
            assert_eq!(pos[mrope_axis_for_freq(d, DEFAULT_MROPE_SECTION)], i as i32);
        }
    }
}

#[test]
fn small_image_is_framed_exactly() {
    // A merged grid of 2 rows and 3 columns behind one text token.
    let s = span(1, 4, 6, 2);
    let p = build_mrope_positions(9, &[s], 2);
    assert_eq!(
        p.positions,
        vec![
            [0, 0, 0],
            [1, 1, 1],
            [1, 1, 2],
            [1, 1, 3],
            [1, 2, 1],
            [1, 2, 2],
            [1, 2, 3],
            [4, 4, 4],
            [5, 5, 5],
        ]
    );
    assert_eq!(p.rope_delta, 5 + 1 - 9);
}

#[test]
fn grid_dimensions_are_merged_downwards() {
    // 5 / 2 = 2 rows, 7 / 2 = 3 columns.
    let s = ImageSpan { start: 0, len: 6, grid_h: 5, grid_w: 7 };
    let p = build_mrope_positions(6, &[s], 2);
    assert_eq!(p.positions.len(), 6);
    assert_eq!(p.positions[5], [0, 1, 2]);
    assert_eq!(next_cursor(&p, 6), 3);
}

#[test]
fn every_token_gets_one_position_across_two_images() {
    let a = span(2, 4, 4, 2);
    let b = span(8, 2, 6, 2);
    let p = build_mrope_positions(13, &[a, b], 2);
    assert_eq!(p.positions.len(), 13);
    // Two text tokens, a 2x2 image at 2, two text tokens at 4 and 5, a 1x3
    // image at 6, two text tokens at 9 and 10.
    assert_eq!(p.positions[2], [2, 2, 2]);
    assert_eq!(p.positions[5], [2, 3, 3]);
    assert_eq!(p.positions[6], [4; 3]);
    assert_eq!(p.positions[8], [6, 6, 6]);
    assert_eq!(p.positions[10], [6, 6, 8]);
    assert_eq!(p.positions[11], [9; 3]);
    assert_eq!(next_cursor(&p, 13), 11);
}

#[test]
fn extending_a_conversation_keeps_its_positions() {
    let a = span(2, 4, 4, 2);
    let b = span(8, 2, 6, 2);
    let short = build_mrope_positions(7, &[a], 2);
    let long = build_mrope_positions(13, &[a, b], 2);
    assert_eq!(long.positions[..7], short.positions[..]);

    // The tail framed by itself and moved to the head's next cursor.
    let tail = build_mrope_positions(6, &[span(1, 2, 6, 2)], 2);
    let base = next_cursor(&short, 7);
    assert_eq!(long.positions[7..], shifted(&tail.positions, base)[..]);
    assert_eq!(next_cursor(&long, 13), base + next_cursor(&tail, 6));
}

#[test]
fn empty_prompt_has_a_rope_delta_of_one() {
    let p = build_mrope_positions(0, &[], 1);
    assert!(p.positions.is_empty());
    assert_eq!(p.rope_delta, 1);
}

#[test]
fn image_without_tokens_still_moves_the_cursor() {
    // No columns: nothing is placed, yet the text behind stands at 1 + 8.
    let s = ImageSpan { start: 1, len: 0, grid_h: 16, grid_w: 0 };
    let p = build_mrope_positions(2, &[s], 2);
    assert_eq!(p.positions, vec![[0; 3], [9; 3]]);
    // At the end of a prompt the cursor it moved is not seen.
    let p = build_mrope_positions(1, &[s], 2);
    assert_eq!(p.positions, vec![[0; 3]]);
    assert_eq!(next_cursor(&p, 1), 1);
}

#[test]
fn span_behind_the_prompt_is_placed_at_its_end() {
    let s = span(5, 2, 2, 2);
    let p = build_mrope_positions(3, &[s], 2);
    assert_eq!(p.positions, vec![[0; 3], [1; 3], [2; 3], [3, 3, 3]]);
    assert_eq!(p.rope_delta, 3 + 1 - 3);
}

#[test]
fn spans_compare_and_print() {
    let s = span(1, 4, 6, 2);
    assert_eq!(s, s.clone());
    assert_ne!(s, span(2, 4, 6, 2));
    let p = build_mrope_positions(1, &[], 1);
    assert_eq!(p, p.clone());
    assert_eq!(
        format!("{p:?}"),
        "MropePositions { positions: [[0, 0, 0]], rope_delta: 0 }"
    );
}

#[test]
fn rope_delta_is_the_shift_of_the_images() {
    // 64 visual tokens, but an 8-wide grid advance.
    let one = build_mrope_positions(66, &[span(1, 16, 16, 2)], 2);
    assert_eq!(one.rope_delta, 8 - 64);
    // The same image elsewhere, and together with one of 4x6.
    let moved = build_mrope_positions(80, &[span(9, 16, 16, 2)], 2);
    assert_eq!(moved.rope_delta, 8 - 64);
    let two = build_mrope_positions(100, &[span(1, 16, 16, 2), span(70, 8, 12, 2)], 2);
    assert_eq!(two.rope_delta, (8 - 64) + (6 - 24));
    // Text between and behind them is shifted by the images before it.
    assert_eq!(two.positions[69], [69 - 56; 3]);
    assert_eq!(two.positions[94], [94 - 56 - 18; 3]);
}

#[test]
fn decode_steps_continue_the_prompt() {
    let spans = [span(3, 8, 12, 2)];
    let prompt = build_mrope_positions(30, &spans, 2);
    let longer = build_mrope_positions(35, &spans, 2);
    for len in 30..35 {
        assert_eq!(longer.positions[len], [len as i32 + prompt.rope_delta; 3]);
    }
}
