use vstd::prelude::*;
use crate::game::Player;

verus! {

/// The cell reached from `c` by `k` steps along direction `d`.
pub open spec fn step_cell(c: (int, int), d: (int, int), k: int) -> (int, int) {
    (c.0 + k * d.0, c.1 + k * d.1)
}

/// A unit step on the grid: each component in -1..=1 and not both zero.
pub open spec fn is_step(d: (int, int)) -> bool {
    &&& -1 <= d.0 <= 1
    &&& -1 <= d.1 <= 1
    &&& !(d.0 == 0 && d.1 == 0)
}

/// The four canonical direction families a run can lie along: horizontal,
/// vertical, main diagonal, and anti-diagonal.
pub open spec fn is_direction(d: (int, int)) -> bool {
    ||| (d.0 == 1 && d.1 == 0)
    ||| (d.0 == 0 && d.1 == 1)
    ||| (d.0 == 1 && d.1 == 1)
    ||| (d.0 == -1 && d.1 == 1)
}

/// Cell `c` is occupied by player `p` on board `m`.
pub open spec fn owned_at(m: Map<(int, int), Player>, p: Player, c: (int, int)) -> bool {
    m.contains_key(c) && m[c] == p
}

/// The `len` consecutive cells starting at `start` along `d` are all owned
/// by `p`.
pub open spec fn window_owned(
    m: Map<(int, int), Player>,
    p: Player,
    start: (int, int),
    d: (int, int),
    len: int,
) -> bool {
    forall|k: int| 0 <= k < len ==> owned_at(m, p, #[trigger] step_cell(start, d, k))
}

/// Some fully `p`-owned window of `len` consecutive cells along `d` passes
/// through `c`.
pub open spec fn line_through(
    m: Map<(int, int), Player>,
    p: Player,
    c: (int, int),
    d: (int, int),
    len: int,
) -> bool {
    exists|off: int|
        0 <= off < len && window_owned(m, p, #[trigger] step_cell(c, d, -off), d, len)
}

/// Some fully `p`-owned run of `len` consecutive cells passes through `c`
/// along one of the four canonical directions.
pub open spec fn run_through(m: Map<(int, int), Player>, p: Player, c: (int, int), len: int) -> bool {
    exists|d: (int, int)| #[trigger] is_direction(d) && line_through(m, p, c, d, len)
}

/// The plays in `v` are exactly the cells of one window along `d` that has
/// the cell `c` at offset `off`, all owned by `p`.
pub open spec fn plays_window(
    v: Seq<crate::game::Play>,
    p: Player,
    c: (int, int),
    d: (int, int),
    off: int,
) -> bool {
    forall|k: int|
        0 <= k < v.len() ==> (#[trigger] v[k]).player == p && v[k].coord() == step_cell(
            c,
            d,
            k - off,
        )
}

/// What a longest-line query at an occupied cell `c` of board `m` returns:
/// the plays `v` of one maximal fully owned window through `c`, in order,
/// whose length is the longest run through `c` in any canonical direction.
/// Every returned play is a cell the board really holds, owned by `c`'s
/// owner.
pub open spec fn longest_line_post(m: Map<(int, int), Player>, c: (int, int), v: Seq<crate::game::Play>) -> bool {
    let p = m[c];
    &&& 1 <= v.len()
    &&& run_through(m, p, c, v.len() as int)
    &&& !run_through(m, p, c, v.len() as int + 1)
    &&& forall|k: int| 0 <= k < v.len() ==> owned_at(m, p, (#[trigger] v[k]).coord())
    &&& exists|d: (int, int), off: int|
        is_direction(d) && 0 <= off < v.len() && #[trigger] plays_window(v, p, c, d, off)
}

/// Stepping `j` then `k` cells along `d` is stepping `j + k` cells.
pub proof fn lemma_step_add(c: (int, int), d: (int, int), j: int, k: int)
    ensures
        step_cell(step_cell(c, d, j), d, k) == step_cell(c, d, j + k),
{
    assert((j + k) * d.0 == j * d.0 + k * d.0) by (nonlinear_arith);
    assert((j + k) * d.1 == j * d.1 + k * d.1) by (nonlinear_arith);
}

/// Stepping zero cells stays put.
pub proof fn lemma_step_zero(c: (int, int), d: (int, int))
    ensures
        step_cell(c, d, 0) == c,
{
    assert(0 * d.0 == 0) by (nonlinear_arith);
    assert(0 * d.1 == 0) by (nonlinear_arith);
}

/// Distinct step counts along a unit step reach distinct cells.
pub proof fn lemma_step_distinct(c: (int, int), d: (int, int), k1: int, k2: int)
    requires
        is_step(d),
        k1 != k2,
    ensures
        step_cell(c, d, k1) != step_cell(c, d, k2),
{
    if d.0 == 1 || d.0 == -1 {
        assert(k1 * d.0 != k2 * d.0) by (nonlinear_arith)
            requires
                k1 != k2,
                d.0 == 1 || d.0 == -1,
        ;
    } else {
        assert(k1 * d.1 != k2 * d.1) by (nonlinear_arith)
            requires
                k1 != k2,
                d.1 == 1 || d.1 == -1,
        ;
    }
}

/// A single step along `d` moves by exactly `d`.
pub proof fn lemma_step_one(c: (int, int), d: (int, int))
    ensures
        step_cell(c, d, 1) == (c.0 + d.0, c.1 + d.1),
{
    assert(1 * d.0 == d.0) by (nonlinear_arith);
    assert(1 * d.1 == d.1) by (nonlinear_arith);
}

/// Stepping `k` cells against `d` is stepping `-k` cells along `d`.
pub proof fn lemma_step_neg(c: (int, int), d: (int, int), k: int)
    ensures
        step_cell(c, (-d.0, -d.1), k) == step_cell(c, d, -k),
{
    assert(k * (-d.0) == (-k) * d.0) by (nonlinear_arith);
    assert(k * (-d.1) == (-k) * d.1) by (nonlinear_arith);
}

/// Any sub-window of an owned window is itself owned.
pub proof fn lemma_window_sub(
    m: Map<(int, int), Player>,
    p: Player,
    start: (int, int),
    d: (int, int),
    j: int,
    len2: int,
    len: int,
)
    requires
        window_owned(m, p, start, d, len),
        0 <= j,
        0 <= len2,
        j + len2 <= len,
    ensures
        window_owned(m, p, step_cell(start, d, j), d, len2),
{
    let start2 = step_cell(start, d, j);
    assert forall|k: int| 0 <= k < len2 implies owned_at(m, p, #[trigger] step_cell(start2, d, k)) by {
        lemma_step_add(start, d, j, k);
        assert(owned_at(m, p, step_cell(start, d, j + k)));
    }
}

/// A line through a cell contains a shorter line through the same cell.
pub proof fn lemma_line_shorter(
    m: Map<(int, int), Player>,
    p: Player,
    c: (int, int),
    d: (int, int),
    len: int,
    len2: int,
)
    requires
        line_through(m, p, c, d, len),
        1 <= len2 <= len,
    ensures
        line_through(m, p, c, d, len2),
{
    let off = choose|off: int|
        0 <= off < len && window_owned(m, p, #[trigger] step_cell(c, d, -off), d, len);
    let j = if off <= len - len2 {
        off
    } else {
        len - len2
    };
    lemma_window_sub(m, p, step_cell(c, d, -off), d, j, len2, len);
    lemma_step_add(c, d, -off, j);
    let off2 = off - j;
    assert(step_cell(step_cell(c, d, -off), d, j) == step_cell(c, d, -off2));
    assert(0 <= off2 < len2 && window_owned(m, p, step_cell(c, d, -off2), d, len2));
}

/// A run through a cell contains a shorter run through the same cell.
pub proof fn lemma_run_shorter(
    m: Map<(int, int), Player>,
    p: Player,
    c: (int, int),
    len: int,
    len2: int,
)
    requires
        run_through(m, p, c, len),
        1 <= len2 <= len,
    ensures
        run_through(m, p, c, len2),
{
    let d = choose|d: (int, int)| #[trigger] is_direction(d) && line_through(m, p, c, d, len);
    lemma_line_shorter(m, p, c, d, len, len2);
}

/// Joining a backward window and a forward window that share the cell `c`
/// gives one window through `c`.
pub proof fn lemma_join_windows(
    m: Map<(int, int), Player>,
    p: Player,
    c: (int, int),
    d: (int, int),
    b: int,
    f: int,
)
    requires
        0 <= b,
        0 <= f,
        window_owned(m, p, c, (-d.0, -d.1), b + 1),
        window_owned(m, p, c, d, f + 1),
    ensures
        window_owned(m, p, step_cell(c, d, -b), d, b + f + 1),
{
    let start = step_cell(c, d, -b);
    assert forall|k: int| 0 <= k < b + f + 1 implies owned_at(
        m,
        p,
        #[trigger] step_cell(start, d, k),
    ) by {
        lemma_step_add(c, d, -b, k);
        assert(step_cell(start, d, k) == step_cell(c, d, k - b));
        if k <= b {
            lemma_step_neg(c, d, b - k);
            assert(step_cell(c, (-d.0, -d.1), b - k) == step_cell(c, d, k - b));
            assert(owned_at(m, p, step_cell(c, (-d.0, -d.1), b - k)));
        } else {
            assert(owned_at(m, p, step_cell(c, d, k - b)));
        }
    }
}

/// If the cells just beyond both ends of an owned window through `c` are not
/// owned by `p`, no longer line along that direction passes through `c`.
pub proof fn lemma_line_maximal(
    m: Map<(int, int), Player>,
    p: Player,
    c: (int, int),
    d: (int, int),
    b: int,
    f: int,
)
    requires
        0 <= b,
        0 <= f,
        !owned_at(m, p, step_cell(c, d, -(b + 1))),
        !owned_at(m, p, step_cell(c, d, f + 1)),
    ensures
        !line_through(m, p, c, d, b + f + 2),
{
    let len2 = b + f + 2;
    assert forall|off: int| 0 <= off < len2 implies !window_owned(
        m,
        p,
        #[trigger] step_cell(c, d, -off),
        d,
        len2,
    ) by {
        if window_owned(m, p, step_cell(c, d, -off), d, len2) {
            if off <= b {
                lemma_step_add(c, d, -off, off + f + 1);
                assert(owned_at(m, p, step_cell(step_cell(c, d, -off), d, off + f + 1)));
                assert(owned_at(m, p, step_cell(c, d, f + 1)));
            } else {
                lemma_step_add(c, d, -off, off - (b + 1));
                assert(owned_at(m, p, step_cell(step_cell(c, d, -off), d, off - (b + 1))));
                assert(owned_at(m, p, step_cell(c, d, -(b + 1))));
            }
        }
    }
}

} // verus!
