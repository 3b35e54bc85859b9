use vstd::prelude::*;
use crate::area::{mark_rel, GameArea};
use crate::game::Player;
use crate::lines::{
    is_direction, lemma_step_add, lemma_step_distinct, lemma_step_zero, line_through, owned_at,
    run_through, step_cell, window_owned,
};

verus! {

/// A board whose every occupied cell is one of four coordinates cannot hold
/// a run of five: the five cells of such a run are pairwise distinct.
proof fn lemma_four_cells_no_run(
    m: Map<(int, int), Player>,
    p: Player,
    c: (int, int),
    c0: (int, int),
    c1: (int, int),
    c2: (int, int),
    c3: (int, int),
)
    requires
        forall|cc: (int, int)| #[trigger] m.contains_key(cc) ==> cc == c0 || cc == c1 || cc == c2
            || cc == c3,
    ensures
        !run_through(m, p, c, 5),
{
    if run_through(m, p, c, 5) {
        let d = choose|d: (int, int)| #[trigger] is_direction(d) && line_through(m, p, c, d, 5);
        let off = choose|off: int|
            0 <= off < 5 && window_owned(m, p, #[trigger] step_cell(c, d, -off), d, 5);
        let s = step_cell(c, d, -off);
        assert(owned_at(m, p, step_cell(s, d, 0)));
        assert(owned_at(m, p, step_cell(s, d, 1)));
        assert(owned_at(m, p, step_cell(s, d, 2)));
        assert(owned_at(m, p, step_cell(s, d, 3)));
        assert(owned_at(m, p, step_cell(s, d, 4)));
        let w0 = step_cell(s, d, 0);
        let w1 = step_cell(s, d, 1);
        let w2 = step_cell(s, d, 2);
        let w3 = step_cell(s, d, 3);
        let w4 = step_cell(s, d, 4);
        assert(w0 != w1 && w0 != w2 && w0 != w3 && w0 != w4 && w1 != w2 && w1 != w3 && w1 != w4
            && w2 != w3 && w2 != w4 && w3 != w4) by {
            if d.0 == 1 && d.1 == 0 {
            } else if d.0 == 0 && d.1 == 1 {
            } else if d.0 == 1 && d.1 == 1 {
            } else {
                assert(d.0 == -1 && d.1 == 1);
            }
        }
        assert(false);
    }
}

/// Filling the five consecutive cells of one window, along any of the four
/// canonical directions, from any starting cell and in any marking order,
/// on an area that starts empty, wins exactly at the fifth mark: each of
/// the first four marks leaves the game open, and the fifth declares the
/// player the winner. The `i`-th mark lands on the window cell at offset
/// `o<i>` from the window's first cell (`sx`, `sy`).
pub proof fn lemma_five_window_marks_win(
    a0: GameArea,
    a1: GameArea,
    a2: GameArea,
    a3: GameArea,
    a4: GameArea,
    a5: GameArea,
    player: Player,
    sx: i128,
    sy: i128,
    dx: i128,
    dy: i128,
    o0: int,
    o1: int,
    o2: int,
    o3: int,
    o4: int,
    x0: i128,
    y0: i128,
    x1: i128,
    y1: i128,
    x2: i128,
    y2: i128,
    x3: i128,
    y3: i128,
    x4: i128,
    y4: i128,
)
    requires
        is_direction((dx as int, dy as int)),
        0 <= o0 < 5 && 0 <= o1 < 5 && 0 <= o2 < 5 && 0 <= o3 < 5 && 0 <= o4 < 5,
        o0 != o1 && o0 != o2 && o0 != o3 && o0 != o4 && o1 != o2 && o1 != o3 && o1 != o4 && o2
            != o3 && o2 != o4 && o3 != o4,
        ((x0 as int, y0 as int) == step_cell((sx as int, sy as int), (dx as int, dy as int), o0)),
        ((x1 as int, y1 as int) == step_cell((sx as int, sy as int), (dx as int, dy as int), o1)),
        ((x2 as int, y2 as int) == step_cell((sx as int, sy as int), (dx as int, dy as int), o2)),
        ((x3 as int, y3 as int) == step_cell((sx as int, sy as int), (dx as int, dy as int), o3)),
        ((x4 as int, y4 as int) == step_cell((sx as int, sy as int), (dx as int, dy as int), o4)),
        a0.board() == Map::<(int, int), Player>::empty(),
        a0.winner is None,
        mark_rel(a0, a1, player, x0, y0),
        mark_rel(a1, a2, player, x1, y1),
        mark_rel(a2, a3, player, x2, y2),
        mark_rel(a3, a4, player, x3, y3),
        mark_rel(a4, a5, player, x4, y4),
    ensures
        a1.winner is None,
        a2.winner is None,
        a3.winner is None,
        a4.winner is None,
        a5.winner == Some(player),
{
    let d = (dx as int, dy as int);
    let s = (sx as int, sy as int);
    let c0 = (x0 as int, y0 as int);
    let c1 = (x1 as int, y1 as int);
    let c2 = (x2 as int, y2 as int);
    let c3 = (x3 as int, y3 as int);
    let c4 = (x4 as int, y4 as int);
    lemma_step_distinct(s, d, o0, o1);
    lemma_step_distinct(s, d, o0, o2);
    lemma_step_distinct(s, d, o0, o3);
    lemma_step_distinct(s, d, o0, o4);
    lemma_step_distinct(s, d, o1, o2);
    lemma_step_distinct(s, d, o1, o3);
    lemma_step_distinct(s, d, o1, o4);
    lemma_step_distinct(s, d, o2, o3);
    lemma_step_distinct(s, d, o2, o4);
    lemma_step_distinct(s, d, o3, o4);
    // While at most four cells are occupied, no run of five exists.
    assert forall|cc: (int, int)| #[trigger] a1.board().contains_key(cc) implies cc == c0 || cc
        == c1 || cc == c2 || cc == c3 by {}
    lemma_four_cells_no_run(a1.board(), player, c0, c0, c1, c2, c3);
    assert(a1.winner is None);
    assert forall|cc: (int, int)| #[trigger] a2.board().contains_key(cc) implies cc == c0 || cc
        == c1 || cc == c2 || cc == c3 by {}
    lemma_four_cells_no_run(a2.board(), player, c1, c0, c1, c2, c3);
    assert(a2.winner is None);
    assert forall|cc: (int, int)| #[trigger] a3.board().contains_key(cc) implies cc == c0 || cc
        == c1 || cc == c2 || cc == c3 by {}
    lemma_four_cells_no_run(a3.board(), player, c2, c0, c1, c2, c3);
    assert(a3.winner is None);
    assert forall|cc: (int, int)| #[trigger] a4.board().contains_key(cc) implies cc == c0 || cc
        == c1 || cc == c2 || cc == c3 by {}
    lemma_four_cells_no_run(a4.board(), player, c3, c0, c1, c2, c3);
    assert(a4.winner is None);
    // The fifth mark completes the whole window.
    let m5 = a5.board();
    assert(owned_at(m5, player, c0));
    assert(owned_at(m5, player, c1));
    assert(owned_at(m5, player, c2));
    assert(owned_at(m5, player, c3));
    assert(owned_at(m5, player, c4));
    assert(window_owned(m5, player, s, d, 5)) by {
        assert forall|k: int| 0 <= k < 5 implies owned_at(m5, player, #[trigger] step_cell(
            s,
            d,
            k,
        )) by {
            // Five distinct offsets within 0..5 hit every offset.
            assert(o0 == k || o1 == k || o2 == k || o3 == k || o4 == k);
            if o0 == k {
                assert(step_cell(s, d, k) == c0);
            } else if o1 == k {
                assert(step_cell(s, d, k) == c1);
            } else if o2 == k {
                assert(step_cell(s, d, k) == c2);
            } else if o3 == k {
                assert(step_cell(s, d, k) == c3);
            } else {
                assert(step_cell(s, d, k) == c4);
            }
        }
    }
    lemma_step_add(s, d, o4, -o4);
    lemma_step_zero(s, d);
    assert(step_cell(c4, d, -o4) == s);
    assert(line_through(m5, player, c4, d, 5)) by {
        assert(0 <= o4 < 5 && window_owned(m5, player, step_cell(c4, d, -o4), d, 5));
    }
    assert(run_through(m5, player, c4, 5)) by {
        assert(is_direction(d) && line_through(m5, player, c4, d, 5));
    }
}

/// Once anything has been played, the bounding rectangle never loses
/// ground: a later mark can only move each side outward, so the width and
/// height never decrease.
pub proof fn lemma_box_never_shrinks(
    pre: GameArea,
    post: GameArea,
    player: Player,
    x: i128,
    y: i128,
)
    requires
        mark_rel(pre, post, player, x, y),
        pre.left < pre.right,
        pre.top < pre.bottom,
    ensures
        post.left <= pre.left,
        post.top <= pre.top,
        post.right >= pre.right,
        post.bottom >= pre.bottom,
{
    assert(pre.in_box((pre.left as int, pre.top as int)));
    assert(post.in_box((pre.left as int, pre.top as int)));
    assert(pre.in_box((pre.right - 1 as int, pre.bottom - 1 as int)));
    assert(post.in_box((pre.right - 1 as int, pre.bottom - 1 as int)));
}

/// Two tight rectangles around the same occupied cells are the same
/// rectangle.
proof fn lemma_box_unique(a: GameArea, b: GameArea)
    requires
        a.board() == b.board(),
        a.wf(),
        b.wf(),
    ensures
        a.left == b.left,
        a.right == b.right,
        a.top == b.top,
        a.bottom == b.bottom,
{
    if a.occupied() {
        let cw = choose|c: (int, int)| a.board().contains_key(c);
        assert(b.board().contains_key(cw));
        assert(b.occupied());
        let al = choose|c: (int, int)| a.board().contains_key(c) && c.0 == a.left;
        let ar = choose|c: (int, int)| a.board().contains_key(c) && c.0 == a.right - 1;
        let at = choose|c: (int, int)| a.board().contains_key(c) && c.1 == a.top;
        let ab = choose|c: (int, int)| a.board().contains_key(c) && c.1 == a.bottom - 1;
        assert(b.in_box(al) && b.in_box(ar) && b.in_box(at) && b.in_box(ab));
        let bl = choose|c: (int, int)| b.board().contains_key(c) && c.0 == b.left;
        let br = choose|c: (int, int)| b.board().contains_key(c) && c.0 == b.right - 1;
        let bt = choose|c: (int, int)| b.board().contains_key(c) && c.1 == b.top;
        let bb = choose|c: (int, int)| b.board().contains_key(c) && c.1 == b.bottom - 1;
        assert(a.in_box(bl) && a.in_box(br) && a.in_box(bt) && a.in_box(bb));
    } else {
        if b.occupied() {
            let cw = choose|c: (int, int)| b.board().contains_key(c);
            assert(a.board().contains_key(cw));
        }
    }
}

/// Marking the same coordinate with the same player a second time changes
/// nothing: the board, the bounding rectangle, and the winner all stay as
/// they were after the first mark.
pub proof fn lemma_mark_idempotent(
    a0: GameArea,
    a1: GameArea,
    a2: GameArea,
    player: Player,
    x: i128,
    y: i128,
)
    requires
        a0.wf(),
        a1.wf(),
        a2.wf(),
        mark_rel(a0, a1, player, x, y),
        mark_rel(a1, a2, player, x, y),
    ensures
        a2.board() == a1.board(),
        a2.left == a1.left,
        a2.right == a1.right,
        a2.top == a1.top,
        a2.bottom == a1.bottom,
        a2.winner == a1.winner,
{
    assert(a2.board() =~= a1.board());
    lemma_box_unique(a1, a2);
}

/// Two marks at distinct coordinates can be applied in either order: the
/// final board and the final bounding rectangle are the same either way.
pub proof fn lemma_mark_commutes(
    a0: GameArea,
    a1: GameArea,
    a2: GameArea,
    b1: GameArea,
    b2: GameArea,
    p1: Player,
    x1: i128,
    y1: i128,
    p2: Player,
    x2: i128,
    y2: i128,
)
    requires
        a0.wf(),
        a1.wf(),
        a2.wf(),
        b1.wf(),
        b2.wf(),
        mark_rel(a0, a1, p1, x1, y1),
        mark_rel(a1, a2, p2, x2, y2),
        mark_rel(a0, b1, p2, x2, y2),
        mark_rel(b1, b2, p1, x1, y1),
        !(x1 == x2 && y1 == y2),
    ensures
        a2.board() == b2.board(),
        a2.left == b2.left,
        a2.right == b2.right,
        a2.top == b2.top,
        a2.bottom == b2.bottom,
{
    assert(a2.board() =~= b2.board());
    lemma_box_unique(a2, b2);
}

} // verus!
