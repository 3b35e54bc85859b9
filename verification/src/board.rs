use vstd::prelude::*;
use crate::game::{Play, Player};
use crate::lines::{
    is_direction, is_step, lemma_join_windows, lemma_line_maximal, lemma_line_shorter,
    lemma_step_add, lemma_step_neg, lemma_step_one, line_through, longest_line_post, owned_at,
    plays_window, run_through, step_cell, window_owned,
};

verus! {

/// No two plays in the sequence occupy the same coordinate.
pub open spec fn unique_coords(s: Seq<Play>) -> bool {
    forall|i: int, j: int|
        0 <= i < s.len() && 0 <= j < s.len() && (#[trigger] s[i]).coord() == (#[trigger] s[j]).coord()
            ==> i == j
}

/// The occupancy map described by a sequence of plays: a coordinate is in the
/// domain exactly when some play occupies it, and maps to that play's player.
pub open spec fn board_of(s: Seq<Play>) -> Map<(int, int), Player> {
    Map::new(
        |c: (int, int)| exists|i: int| 0 <= i < s.len() && (#[trigger] s[i]).coord() == c,
        |c: (int, int)|
            s[choose|i: int| 0 <= i < s.len() && (#[trigger] s[i]).coord() == c].player,
    )
}

/// The sparse store of every play made so far: an ownership container keyed
/// by coordinate, with at most one play per coordinate.
pub struct PlayedGames {
    plays: Vec<Play>,
}

impl View for PlayedGames {
    type V = Map<(int, int), Player>;

    closed spec fn view(&self) -> Map<(int, int), Player> {
        board_of(self.plays@)
    }
}

/// Under uniqueness, the play at index `i` is the one the board maps its
/// coordinate to.
proof fn lemma_board_index(s: Seq<Play>, i: int)
    requires
        unique_coords(s),
        0 <= i < s.len(),
    ensures
        board_of(s).contains_key(s[i].coord()),
        board_of(s)[s[i].coord()] == s[i].player,
{
    let c = s[i].coord();
    assert(0 <= i < s.len() && s[i].coord() == c);
    let j = choose|j: int| 0 <= j < s.len() && (#[trigger] s[j]).coord() == c;
    assert(j == i);
}

/// Appending a play at a fresh coordinate inserts that coordinate.
proof fn lemma_board_push_new(s: Seq<Play>, p: Play)
    requires
        unique_coords(s),
        forall|i: int| 0 <= i < s.len() ==> (#[trigger] s[i]).coord() != p.coord(),
    ensures
        unique_coords(s.push(p)),
        board_of(s.push(p)) == board_of(s).insert(p.coord(), p.player),
{
    let s2 = s.push(p);
    let c0 = p.coord();
    assert forall|i: int, j: int|
        0 <= i < s2.len() && 0 <= j < s2.len() && (#[trigger] s2[i]).coord() == (
        #[trigger] s2[j]).coord() implies i == j by {
        if i < s.len() && j < s.len() {
            assert(s2[i] == s[i] && s2[j] == s[j]);
        } else if i < s.len() && j == s.len() {
            assert(s2[i] == s[i] && s2[j] == p);
        } else if i == s.len() && j < s.len() {
            assert(s2[i] == p && s2[j] == s[j]);
        }
    }
    let m1 = board_of(s2);
    let m2 = board_of(s).insert(c0, p.player);
    assert forall|c: (int, int)| #[trigger] m1.contains_key(c) implies m2.contains_key(c)
        && m1[c] == m2[c] by {
        let i = choose|i: int| 0 <= i < s2.len() && (#[trigger] s2[i]).coord() == c;
        lemma_board_index(s2, i);
        if c == c0 {
            assert(s2[s.len() as int] == p);
            assert(i == s.len());
            assert(m1[c] == p.player);
        } else {
            assert(i < s.len() && s2[i] == s[i]);
            lemma_board_index(s, i);
        }
    }
    assert forall|c: (int, int)| #[trigger] m2.contains_key(c) implies m1.contains_key(c) by {
        if c == c0 {
            assert(s2[s.len() as int] == p);
            assert(s2[s.len() as int].coord() == c);
        } else {
            let i = choose|i: int| 0 <= i < s.len() && (#[trigger] s[i]).coord() == c;
            assert(s2[i] == s[i]);
            assert(s2[i].coord() == c);
        }
    }
    assert(m1 =~= m2);
}

/// Removing the play at index `i` removes exactly its coordinate.
proof fn lemma_board_remove_at(s: Seq<Play>, i: int)
    requires
        unique_coords(s),
        0 <= i < s.len(),
    ensures
        unique_coords(s.remove(i)),
        forall|k: int|
            0 <= k < s.remove(i).len() ==> (#[trigger] s.remove(i)[k]).coord() != s[i].coord(),
        board_of(s.remove(i)) == board_of(s).remove(s[i].coord()),
{
    let sr = s.remove(i);
    let c0 = s[i].coord();
    assert forall|k: int| 0 <= k < sr.len() implies (#[trigger] sr[k]).coord() != c0 by {
        if k < i {
            assert(sr[k] == s[k]);
        } else {
            assert(sr[k] == s[k + 1]);
        }
    }
    assert forall|k1: int, k2: int|
        0 <= k1 < sr.len() && 0 <= k2 < sr.len() && (#[trigger] sr[k1]).coord() == (
        #[trigger] sr[k2]).coord() implies k1 == k2 by {
        let j1: int = if k1 < i { k1 } else { k1 + 1 };
        let j2: int = if k2 < i { k2 } else { k2 + 1 };
        assert(sr[k1] == s[j1] && sr[k2] == s[j2]);
    }
    let m1 = board_of(sr);
    let m2 = board_of(s).remove(c0);
    assert forall|c: (int, int)| #[trigger] m1.contains_key(c) implies m2.contains_key(c)
        && m1[c] == m2[c] by {
        let k = choose|k: int| 0 <= k < sr.len() && (#[trigger] sr[k]).coord() == c;
        lemma_board_index(sr, k);
        let j: int = if k < i { k } else { k + 1 };
        assert(sr[k] == s[j]);
        lemma_board_index(s, j);
    }
    assert forall|c: (int, int)| #[trigger] m2.contains_key(c) implies m1.contains_key(c) by {
        let j = choose|j: int| 0 <= j < s.len() && (#[trigger] s[j]).coord() == c;
        assert(j != i);
        let k: int = if j < i { j } else { j - 1 };
        assert(sr[k] == s[j]);
        assert(sr[k].coord() == c);
    }
    assert(m1 =~= m2);
}

impl Default for PlayedGames {
    /// An empty store: no coordinate is occupied.
    fn default() -> (r: Self)
        ensures
            r.wf(),
            r@ == Map::<(int, int), Player>::empty(),
    {
        let r = PlayedGames { plays: Vec::new() };
        proof {
            assert(r@ =~= Map::<(int, int), Player>::empty());
        }
        r
    }
}

impl PlayedGames {
    /// The store is well formed: at most one play per coordinate.
    pub closed spec fn wf(self) -> bool {
        unique_coords(self.plays@)
    }

    /// Insert or overwrite: after the call the coordinate is occupied by
    /// `player`, and nothing else changes.
    pub fn mark(&mut self, player: Player, point: (i128, i128))
        requires
            old(self).wf(),
        ensures
            final(self).wf(),
            final(self)@ == old(self)@.insert((point.0 as int, point.1 as int), player),
    {
        let play = Play { x: point.0, y: point.1, player };
        let ghost c = (point.0 as int, point.1 as int);
        let mut idx: usize = 0;
        while idx < self.plays.len()
            invariant
                self.plays@ == old(self).plays@,
                unique_coords(self.plays@),
                c == (point.0 as int, point.1 as int),
                play == (Play { x: point.0, y: point.1, player }),
                idx <= self.plays@.len(),
                forall|k: int| 0 <= k < idx ==> (#[trigger] self.plays@[k]).coord() != c,
            decreases self.plays@.len() - idx,
        {
            if self.plays[idx].x == point.0 && self.plays[idx].y == point.1 {
                proof {
                    assert(self.plays@[idx as int].coord() == c);
                    lemma_board_remove_at(self.plays@, idx as int);
                }
                let _replaced = self.plays.remove(idx);
                proof {
                    assert(play.coord() == c);
                    lemma_board_push_new(self.plays@, play);
                    assert(old(self)@.remove(c).insert(c, player) =~= old(self)@.insert(
                        c,
                        player,
                    ));
                }
                self.plays.push(play);
                return ;
            }
            proof {
                assert(self.plays@[idx as int].coord() != c);
            }
            idx += 1;
        }
        proof {
            lemma_board_push_new(self.plays@, play);
        }
        self.plays.push(play);
    }

    /// Point lookup: the play at `point`, if that coordinate is occupied.
    pub fn get(&self, point: &(i128, i128)) -> (r: Option<&Play>)
        requires
            self.wf(),
        ensures
            match r {
                Some(play) => {
                    &&& self@.contains_key((point.0 as int, point.1 as int))
                    &&& play.x == point.0
                    &&& play.y == point.1
                    &&& play.player == self@[(point.0 as int, point.1 as int)]
                },
                None => !self@.contains_key((point.0 as int, point.1 as int)),
            },
    {
        let ghost c = (point.0 as int, point.1 as int);
        let mut idx: usize = 0;
        while idx < self.plays.len()
            invariant
                self.wf(),
                c == (point.0 as int, point.1 as int),
                idx <= self.plays@.len(),
                forall|k: int| 0 <= k < idx ==> (#[trigger] self.plays@[k]).coord() != c,
            decreases self.plays@.len() - idx,
        {
            if self.plays[idx].x == point.0 && self.plays[idx].y == point.1 {
                proof {
                    lemma_board_index(self.plays@, idx as int);
                }
                return Some(&self.plays[idx]);
            }
            proof {
                assert(self.plays@[idx as int].coord() != c);
            }
            idx += 1;
        }
        None
    }
}

/// Every occupied coordinate came from a stored play, so it is representable
/// as a pair of 128-bit signed integers.
proof fn lemma_board_keys_bounded(s: Seq<Play>, c: (int, int))
    requires
        board_of(s).contains_key(c),
    ensures
        i128::MIN <= c.0 <= i128::MAX,
        i128::MIN <= c.1 <= i128::MAX,
{
    let i = choose|i: int| 0 <= i < s.len() && (#[trigger] s[i]).coord() == c;
}

/// The cells of a fully owned window are pairwise distinct occupied
/// coordinates, so the window cannot be longer than the store.
proof fn lemma_window_len_le(s: Seq<Play>, p: Player, start: (int, int), d: (int, int), len: int)
    requires
        is_step(d),
        0 <= len,
        window_owned(board_of(s), p, start, d, len),
    ensures
        len <= s.len(),
{
    broadcast use vstd::seq_lib::seq_to_set_is_finite;

    let m = board_of(s);
    let cells = Seq::new(len as nat, |k: int| step_cell(start, d, k));
    let coords = s.map_values(|pl: Play| pl.coord());
    assert forall|k1: int, k2: int|
        0 <= k1 < len && 0 <= k2 < len && k1 != k2 implies cells[k1] != cells[k2] by {
        if d.0 == 1 || d.0 == -1 {
            assert(k1 * d.0 != k2 * d.0) by (nonlinear_arith)
                requires
                    k1 != k2,
                    d.0 == 1 || d.0 == -1,
            ;
        } else {
            assert(k1 * d.1 != k2 * d.1) by (nonlinear_arith)
                requires
                    k1 != k2,
                    d.1 == 1 || d.1 == -1,
            ;
        }
    }
    assert(cells.no_duplicates());
    assert forall|k: int| 0 <= k < len implies coords.to_set().contains(#[trigger] cells[k]) by {
        assert(owned_at(m, p, step_cell(start, d, k)));
        let i = choose|i: int| 0 <= i < s.len() && (#[trigger] s[i]).coord() == cells[k];
        assert(coords[i] == cells[k]);
        assert(coords.contains(cells[k]));
    }
    assert forall|x: (int, int)| cells.to_set().contains(x) implies coords.to_set().contains(
        x,
    ) by {
        let k = choose|k: int| 0 <= k < cells.len() && cells[k] == x;
        assert(coords.to_set().contains(cells[k]));
    }
    cells.unique_seq_to_set();
    coords.lemma_cardinality_of_set();
    vstd::set_lib::lemma_len_subset(cells.to_set(), coords.to_set());
}

impl PlayedGames {
    /// Count how many consecutive cells owned by `p` follow (`x`, `y`) when
    /// stepping by (`dx`, `dy`), not counting the origin itself.
    fn scan_run(&self, p: Player, x: i128, y: i128, dx: i128, dy: i128) -> (cnt: usize)
        requires
            self.wf(),
            is_step((dx as int, dy as int)),
            owned_at(self@, p, (x as int, y as int)),
        ensures
            window_owned(
                self@,
                p,
                (x as int, y as int),
                (dx as int, dy as int),
                cnt + 1,
            ),
            !owned_at(
                self@,
                p,
                step_cell((x as int, y as int), (dx as int, dy as int), cnt + 1),
            ),
            cnt < self.plays@.len(),
    {
        let ghost c0 = (x as int, y as int);
        let ghost d = (dx as int, dy as int);
        let n = self.plays.len();
        let mut cnt: usize = 0;
        let mut cx = x;
        let mut cy = y;
        proof {
            assert(step_cell(c0, d, 0) == c0) by {
                assert(0 * d.0 == 0) by (nonlinear_arith);
                assert(0 * d.1 == 0) by (nonlinear_arith);
            }
            assert(window_owned(self@, p, c0, d, 1));
            lemma_window_len_le(self.plays@, p, c0, d, 1);
        }
        loop
            invariant
                self.wf(),
                is_step(d),
                d == (dx as int, dy as int),
                c0 == (x as int, y as int),
                owned_at(self@, p, c0),
                n == self.plays@.len(),
                (cx as int, cy as int) == step_cell(c0, d, cnt as int),
                window_owned(self@, p, c0, d, cnt + 1),
                cnt + 1 <= n,
            decreases self.plays@.len() - cnt,
        {
            if (dx == 1 && cx == i128::MAX) || (dx == -1 && cx == i128::MIN) || (dy == 1 && cy
                == i128::MAX) || (dy == -1 && cy == i128::MIN) {
                proof {
                    lemma_step_add(c0, d, cnt as int, 1);
                    lemma_step_one((cx as int, cy as int), d);
                    let nxt = step_cell(c0, d, cnt + 1);
                    assert(nxt == (cx as int + dx as int, cy as int + dy as int));
                    if self@.contains_key(nxt) {
                        lemma_board_keys_bounded(self.plays@, nxt);
                    }
                }
                return cnt;
            }
            let nx = cx + dx;
            let ny = cy + dy;
            proof {
                lemma_step_add(c0, d, cnt as int, 1);
                lemma_step_one((cx as int, cy as int), d);
                assert((nx as int, ny as int) == step_cell(c0, d, cnt + 1));
            }
            match self.get(&(nx, ny)) {
                Some(play) => {
                    if play.player == p {
                        proof {
                            assert(owned_at(self@, p, step_cell(c0, d, cnt + 1)));
                            assert forall|k: int|
                                0 <= k < cnt + 2 implies owned_at(
                                self@,
                                p,
                                #[trigger] step_cell(c0, d, k),
                            ) by {
                                if k < cnt + 1 {
                                } else {
                                    assert(k == cnt + 1);
                                }
                            }
                            lemma_window_len_le(self.plays@, p, c0, d, cnt + 2);
                        }
                        cnt = cnt + 1;
                        cx = nx;
                        cy = ny;
                    } else {
                        return cnt;
                    }
                },
                None => {
                    return cnt;
                },
            }
        }
    }

    /// The longest fully owned window through (`x`, `y`) along (`dx`, `dy`):
    /// how many owned cells lie behind the origin, and the window's length.
    fn direction_run(&self, p: Player, x: i128, y: i128, dx: i128, dy: i128) -> (r: (usize, usize))
        requires
            self.wf(),
            is_direction((dx as int, dy as int)),
            owned_at(self@, p, (x as int, y as int)),
        ensures
            ({
                let (back, len) = r;
                &&& back < len
                &&& len <= self.plays@.len()
                &&& window_owned(
                    self@,
                    p,
                    step_cell((x as int, y as int), (dx as int, dy as int), -(back as int)),
                    (dx as int, dy as int),
                    len as int,
                )
                &&& !line_through(
                    self@,
                    p,
                    (x as int, y as int),
                    (dx as int, dy as int),
                    len + 1,
                )
            }),
    {
        let ghost c0 = (x as int, y as int);
        let ghost d = (dx as int, dy as int);
        let n = self.plays.len();
        let back = self.scan_run(p, x, y, -dx, -dy);
        let forward = self.scan_run(p, x, y, dx, dy);
        proof {
            assert(((-dx) as int, (-dy) as int) == (-d.0, -d.1));
            lemma_join_windows(self@, p, c0, d, back as int, forward as int);
            lemma_window_len_le(
                self.plays@,
                p,
                step_cell(c0, d, -(back as int)),
                d,
                back + forward + 1,
            );
            lemma_step_neg(c0, d, back + 1);
            assert(!owned_at(self@, p, step_cell(c0, d, -(back as int + 1))));
            lemma_line_maximal(self@, p, c0, d, back as int, forward as int);
            assert(back + forward + 1 <= n);
        }
        (back, back + forward + 1)
    }

    /// The longest run of consecutive, identically owned cells that passes
    /// through `point`, along any of the four canonical directions, as the
    /// plays of one maximal window in order, each one a cell the board
    /// really holds; `None` when `point` is free.
    #[verifier::rlimit(50)]
    pub fn longest_consecutive_line(&self, point: &(i128, i128)) -> (r: Option<Vec<Play>>)
        requires
            self.wf(),
        ensures
            r is None <==> !self@.contains_key((point.0 as int, point.1 as int)),
            r matches Some(v) ==> longest_line_post(
                self@,
                (point.0 as int, point.1 as int),
                v@,
            ),
    {
        let x = point.0;
        let y = point.1;
        let p = match self.get(point) {
            None => {
                return None;
            },
            Some(play) => play.player,
        };
        let ghost c = (x as int, y as int);
        let ghost m = self@;

        let (b0, l0) = self.direction_run(p, x, y, 1, 0);
        let (b1, l1) = self.direction_run(p, x, y, 0, 1);
        let (b2, l2) = self.direction_run(p, x, y, 1, 1);
        let (b3, l3) = self.direction_run(p, x, y, -1, 1);

        let mut best_b = b0;
        let mut best_l = l0;
        let mut bdx: i128 = 1;
        let mut bdy: i128 = 0;
        if l1 > best_l {
            best_b = b1;
            best_l = l1;
            bdx = 0;
            bdy = 1;
        }
        if l2 > best_l {
            best_b = b2;
            best_l = l2;
            bdx = 1;
            bdy = 1;
        }
        if l3 > best_l {
            best_b = b3;
            best_l = l3;
            bdx = -1;
            bdy = 1;
        }
        let ghost d = (bdx as int, bdy as int);
        let ghost start = step_cell(c, d, -(best_b as int));

        proof {
            assert forall|dd: (int, int)| is_direction(dd) implies !line_through(
                m,
                p,
                c,
                dd,
                best_l + 1,
            ) by {
                if line_through(m, p, c, dd, best_l + 1) {
                    if dd.0 == 1 && dd.1 == 0 {
                        lemma_line_shorter(m, p, c, dd, best_l + 1, l0 + 1);
                    } else if dd.0 == 0 && dd.1 == 1 {
                        lemma_line_shorter(m, p, c, dd, best_l + 1, l1 + 1);
                    } else if dd.0 == 1 && dd.1 == 1 {
                        lemma_line_shorter(m, p, c, dd, best_l + 1, l2 + 1);
                    } else {
                        lemma_line_shorter(m, p, c, dd, best_l + 1, l3 + 1);
                    }
                }
            }
            assert(!run_through(m, p, c, best_l + 1));
            assert(window_owned(m, p, start, d, best_l as int));
            assert(line_through(m, p, c, d, best_l as int)) by {
                assert(0 <= best_b < best_l && window_owned(
                    m,
                    p,
                    step_cell(c, d, -(best_b as int)),
                    d,
                    best_l as int,
                ));
            }
            assert(is_direction(d));
            assert(run_through(m, p, c, best_l as int)) by {
                assert(is_direction(d) && line_through(m, p, c, d, best_l as int));
            }
            // The window's first cell is occupied, hence representable.
            assert(step_cell(start, d, 0) == start) by {
                assert(0 * d.0 == 0) by (nonlinear_arith);
                assert(0 * d.1 == 0) by (nonlinear_arith);
            }
            assert(owned_at(m, p, start));
            lemma_board_keys_bounded(self.plays@, start);
            assert(-(best_b as int) <= (best_b as int) * (bdx as int) <= best_b as int)
                by (nonlinear_arith)
                requires
                    -1 <= bdx as int <= 1,
                    0 <= best_b,
            ;
            assert(-(best_b as int) <= (best_b as int) * (bdy as int) <= best_b as int)
                by (nonlinear_arith)
                requires
                    -1 <= bdy as int <= 1,
                    0 <= best_b,
            ;
        }
        let sx = x - (best_b as i128) * bdx;
        let sy = y - (best_b as i128) * bdy;
        proof {
            assert((-(best_b as int)) * (bdx as int) == -((best_b as int) * (bdx as int)))
                by (nonlinear_arith);
            assert((-(best_b as int)) * (bdy as int) == -((best_b as int) * (bdy as int)))
                by (nonlinear_arith);
            assert((sx as int, sy as int) == start);
        }

        let mut v: Vec<Play> = Vec::new();
        let mut cx = sx;
        let mut cy = sy;
        let mut k: usize = 0;
        while k < best_l
            invariant
                k <= best_l,
                v@.len() == k,
                m == self@,
                self.wf(),
                is_direction(d),
                window_owned(m, p, start, d, best_l as int),
                k < best_l ==> (cx as int, cy as int) == step_cell(start, d, k as int),
                forall|j: int|
                    0 <= j < k ==> (#[trigger] v@[j]).player == p && v@[j].coord() == step_cell(
                        start,
                        d,
                        j,
                    ),
                d == (bdx as int, bdy as int),
            decreases best_l - k,
        {
            proof {
                assert(owned_at(m, p, step_cell(start, d, k as int)));
            }
            v.push(Play { x: cx, y: cy, player: p });
            if k + 1 < best_l {
                proof {
                    lemma_step_add(start, d, k as int, 1);
                    lemma_step_one((cx as int, cy as int), d);
                    assert(owned_at(m, p, step_cell(start, d, k + 1)));
                    lemma_board_keys_bounded(self.plays@, step_cell(start, d, k + 1));
                    assert(step_cell(start, d, k + 1) == (cx as int + bdx as int, cy as int
                        + bdy as int));
                }
                cx = cx + bdx;
                cy = cy + bdy;
            }
            k += 1;
        }
        proof {
            assert forall|j: int|
                0 <= j < v@.len() implies (#[trigger] v@[j]).player == p && v@[j].coord()
                == step_cell(c, d, j - best_b as int) by {
                lemma_step_add(c, d, -(best_b as int), j);
            }
            assert(plays_window(v@, p, c, d, best_b as int));
            assert(0 <= (best_b as int) < v@.len());
            assert forall|j: int| 0 <= j < v@.len() implies owned_at(
                self@,
                p,
                (#[trigger] v@[j]).coord(),
            ) by {
                assert(owned_at(m, p, step_cell(start, d, j)));
            }
            assert(longest_line_post(self@, c, v@));
        }
        Some(v)
    }
}

} // verus!
