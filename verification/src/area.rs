use vstd::prelude::*;
use crate::board::PlayedGames;
use crate::game::{Play, Player, WINNING_LENGTH};
use crate::lines::{lemma_run_shorter, longest_line_post, run_through};

verus! {

/// The playing area: one sparse store of plays, the minimal bounding
/// rectangle of everything played so far, and the cached winner.
///
/// The rectangle is inclusive on the left and top, exclusive on the right
/// and bottom. Before any mark it is degenerate at the origin.
pub struct GameArea {
    pub left: i128,
    pub top: i128,
    pub right: i128,
    pub bottom: i128,
    pub winner: Option<Player>,
    pub games: PlayedGames,
}

/// How one `mark` call relates the area after it to the area before it:
/// the mark is written over whatever was there, the rectangle only grows,
/// a winner already declared is kept forever, and in an open game `player`
/// becomes the winner exactly when the new mark lies on a fully owned run
/// of the winning length.
pub open spec fn mark_rel(pre: GameArea, post: GameArea, player: Player, x: i128, y: i128) -> bool {
    let c = (x as int, y as int);
    &&& post.board() == pre.board().insert(c, player)
    &&& forall|cc: (int, int)| pre.in_box(cc) ==> post.in_box(cc)
    &&& (pre.winner is Some ==> post.winner == pre.winner)
    &&& (pre.winner is None ==> post.winner == (if run_through(
        post.board(),
        player,
        c,
        WINNING_LENGTH as int,
    ) {
        Some(player)
    } else {
        Option::<Player>::None
    }))
}

impl GameArea {
    /// The abstract occupancy of the area: which player holds each cell.
    pub open spec fn board(self) -> Map<(int, int), Player> {
        self.games@
    }

    /// At least one cell is occupied.
    pub open spec fn occupied(self) -> bool {
        exists|c: (int, int)| self.board().contains_key(c)
    }

    /// `c` lies inside the bounding rectangle.
    pub open spec fn in_box(self, c: (int, int)) -> bool {
        self.left <= c.0 < self.right && self.top <= c.1 < self.bottom
    }

    /// The degenerate rectangle that stands for "nothing played yet".
    pub open spec fn box_degenerate(self) -> bool {
        self.left == 0 && self.right == 0 && self.top == 0 && self.bottom == 0
    }

    /// The rectangle is the smallest one enclosing every occupied cell:
    /// all occupied cells lie inside it, and each of its four sides
    /// touches one.
    pub open spec fn box_tight(self) -> bool {
        &&& forall|c: (int, int)| self.board().contains_key(c) ==> self.in_box(c)
        &&& exists|c: (int, int)| self.board().contains_key(c) && c.0 == self.left
        &&& exists|c: (int, int)| self.board().contains_key(c) && c.0 == self.right - 1
        &&& exists|c: (int, int)| self.board().contains_key(c) && c.1 == self.top
        &&& exists|c: (int, int)| self.board().contains_key(c) && c.1 == self.bottom - 1
    }

    /// Well-formedness: the store holds one play per coordinate, and the
    /// rectangle is tight around the occupied cells, or degenerate while
    /// nothing is played.
    pub open spec fn wf(self) -> bool {
        &&& self.games.wf()
        &&& if self.occupied() {
            self.box_tight()
        } else {
            self.box_degenerate()
        }
    }

    /// The occupant of the `i`-th cell of the rectangle in row-major order.
    pub open spec fn play_at(self, i: int) -> Option<Player> {
        let w = self.right - self.left;
        let cc = (self.left + i % w, self.top + i / w);
        if self.board().contains_key(cc) {
            Some(self.board()[cc])
        } else {
            None
        }
    }

    /// A well-formed rectangle never has its sides crossed.
    pub proof fn lemma_box_ordered(self)
        requires
            self.wf(),
        ensures
            self.left <= self.right,
            self.top <= self.bottom,
    {
        if self.occupied() {
            let cw = choose|c: (int, int)| self.board().contains_key(c) && c.0 == self.left;
            assert(self.in_box(cw));
            let ch = choose|c: (int, int)| self.board().contains_key(c) && c.1 == self.top;
            assert(self.in_box(ch));
        }
    }

    /// Apply one mark: grow the rectangle to cover (`x`, `y`), write the
    /// mark over whatever occupied that cell, and, while the game is still
    /// open, declare `player` the winner exactly when the new mark lies on
    /// a run of at least the winning length.
    ///
    /// The rectangle stores an exclusive right and bottom edge, so the
    /// coordinate must leave room for that edge: neither component may be
    /// the largest representable value.
    pub fn mark(&mut self, player: Player, x: i128, y: i128)
        requires
            old(self).wf(),
            x < i128::MAX,
            y < i128::MAX,
        ensures
            final(self).wf(),
            mark_rel(*old(self), *final(self), player, x, y),
    {
        let ghost c = (x as int, y as int);
        proof {
            if old(self).occupied() {
                // A tight rectangle around something is never degenerate.
                let cw = choose|cc: (int, int)|
                    old(self).board().contains_key(cc) && cc.0 == old(self).left;
                assert(old(self).in_box(cw));
            }
        }
        if self.left == 0 && self.right == 0 && self.top == 0 && self.bottom == 0 {
            // The first mark becomes the whole rectangle.
            self.left = x;
            self.right = x + 1;
            self.top = y;
            self.bottom = y + 1;
        } else {
            if x < self.left {
                self.left = x;
            } else if x >= self.right {
                self.right = x + 1;
            }
            if y < self.top {
                self.top = y;
            } else if y >= self.bottom {
                self.bottom = y + 1;
            }
        }
        self.games.mark(player, (x, y));
        proof {
            assert(self.board().contains_key(c));
            assert(self.occupied());
            if old(self).occupied() {
                assert forall|cc: (int, int)| self.board().contains_key(cc) implies self.in_box(
                    cc,
                ) by {
                    if cc != c {
                        assert(old(self).board().contains_key(cc));
                        assert(old(self).in_box(cc));
                    }
                }
                let cl = choose|cc: (int, int)|
                    old(self).board().contains_key(cc) && cc.0 == old(self).left;
                let cr = choose|cc: (int, int)|
                    old(self).board().contains_key(cc) && cc.0 == old(self).right - 1;
                let ct = choose|cc: (int, int)|
                    old(self).board().contains_key(cc) && cc.1 == old(self).top;
                let cb = choose|cc: (int, int)|
                    old(self).board().contains_key(cc) && cc.1 == old(self).bottom - 1;
                assert(self.left == x || (self.left == old(self).left
                    && self.board().contains_key(cl)));
                assert(self.right == x + 1 || (self.right == old(self).right
                    && self.board().contains_key(cr)));
                assert(self.top == y || (self.top == old(self).top
                    && self.board().contains_key(ct)));
                assert(self.bottom == y + 1 || (self.bottom == old(self).bottom
                    && self.board().contains_key(cb)));
                assert(self.box_tight());
            } else {
                assert forall|cc: (int, int)| self.board().contains_key(cc) implies cc == c by {
                    if cc != c {
                        assert(old(self).board().contains_key(cc));
                    }
                }
                assert(self.box_tight());
            }
        }
        let ghost mid = *self;
        if self.winner.is_none() {
            let line = self.games.longest_consecutive_line(&(x, y));
            match line {
                Some(v) => {
                    let ghost m = self.board();
                    if v.len() >= WINNING_LENGTH {
                        proof {
                            assert(m[c] == player);
                            lemma_run_shorter(m, player, c, v@.len() as int, WINNING_LENGTH as int);
                        }
                        self.winner = Some(player);
                    } else {
                        proof {
                            assert(m[c] == player);
                            if run_through(m, player, c, WINNING_LENGTH as int) {
                                lemma_run_shorter(
                                    m,
                                    player,
                                    c,
                                    WINNING_LENGTH as int,
                                    v@.len() as int + 1,
                                );
                            }
                        }
                    }
                },
                None => {
                    proof {
                        assert(self.board().contains_key(c));
                    }
                },
            }
        }
        proof {
            // Only the cached winner may have changed since `mid`, so the
            // rectangle is still tight around the same board.
            assert(self.games == mid.games && self.left == mid.left && self.right == mid.right
                && self.top == mid.top && self.bottom == mid.bottom);
            assert(mid.box_tight());
            assert(self.occupied()) by {
                assert(self.board().contains_key(c));
            }
            assert forall|cc: (int, int)| self.board().contains_key(cc) implies self.in_box(
                cc,
            ) by {
                assert(mid.board().contains_key(cc));
                assert(mid.in_box(cc));
            }
            let cl = choose|cc: (int, int)| mid.board().contains_key(cc) && cc.0 == mid.left;
            let cr = choose|cc: (int, int)|
                mid.board().contains_key(cc) && cc.0 == mid.right - 1;
            let ct = choose|cc: (int, int)| mid.board().contains_key(cc) && cc.1 == mid.top;
            let cb = choose|cc: (int, int)|
                mid.board().contains_key(cc) && cc.1 == mid.bottom - 1;
            assert(self.board().contains_key(cl) && cl.0 == self.left);
            assert(self.board().contains_key(cr) && cr.0 == self.right - 1);
            assert(self.board().contains_key(ct) && ct.1 == self.top);
            assert(self.board().contains_key(cb) && cb.1 == self.bottom - 1);
            assert(self.box_tight());
        }
    }

    /// The longest run of identically owned consecutive cells through
    /// (`x`, `y`), as the plays of one maximal window, each one a cell the
    /// board really holds; `None` when the cell is not occupied.
    pub fn longest_consecutive_line(&self, x: i128, y: i128) -> (r: Option<Vec<Play>>)
        requires
            self.wf(),
        ensures
            r is None <==> !self.board().contains_key((x as int, y as int)),
            r matches Some(v) ==> longest_line_post(self.board(), (x as int, y as int), v@),
    {
        self.games.longest_consecutive_line(&(x, y))
    }

    /// The winner declared so far, if any.
    pub fn winner(&self) -> (r: Option<Player>)
        ensures
            r == self.winner,
    {
        self.winner
    }

    /// The rectangle's width; zero before any mark.
    pub fn width(&self) -> (r: u128)
        requires
            self.wf(),
        ensures
            r == self.right - self.left,
    {
        proof {
            self.lemma_box_ordered();
        }
        sub_to_u128(self.left, self.right)
    }

    /// The rectangle's height; zero before any mark.
    pub fn height(&self) -> (r: u128)
        requires
            self.wf(),
        ensures
            r == self.bottom - self.top,
    {
        proof {
            self.lemma_box_ordered();
        }
        sub_to_u128(self.top, self.bottom)
    }

    /// The occupant of every cell of the bounding rectangle, row by row
    /// from the top, each row left to right.
    pub fn all_plays(&self) -> (r: Vec<Option<Player>>)
        requires
            self.wf(),
        ensures
            r@.len() == (self.right - self.left) * (self.bottom - self.top),
            forall|i: int| 0 <= i < r@.len() ==> r@[i] == self.play_at(i),
    {
        proof {
            self.lemma_box_ordered();
        }
        let ghost w = self.right as int - self.left as int;
        let mut plays: Vec<Option<Player>> = Vec::new();
        let mut cy = self.top;
        while cy < self.bottom
            invariant
                self.wf(),
                w == self.right - self.left,
                self.left <= self.right,
                self.top <= cy <= self.bottom,
                plays@.len() == (cy - self.top) * w,
                forall|i: int| 0 <= i < plays@.len() ==> plays@[i] == self.play_at(i),
            decreases self.bottom - cy,
        {
            let mut cx = self.left;
            proof {
                assert((cy - self.top) * w + (cx - self.left) == (cy - self.top) * w);
            }
            while cx < self.right
                invariant
                    self.wf(),
                    w == self.right - self.left,
                    self.left <= cx <= self.right,
                    self.top <= cy < self.bottom,
                    plays@.len() == (cy - self.top) * w + (cx - self.left),
                    forall|i: int| 0 <= i < plays@.len() ==> plays@[i] == self.play_at(i),
                decreases self.right - cx,
            {
                let val = match self.games.get(&(cx, cy)) {
                    None => None,
                    Some(play) => Some(play.player),
                };
                proof {
                    let i = plays@.len() as int;
                    vstd::arithmetic::div_mod::lemma_fundamental_div_mod_converse(
                        i,
                        w,
                        cy - self.top,
                        cx - self.left,
                    );
                    assert(val == self.play_at(i));
                }
                plays.push(val);
                cx = cx + 1;
            }
            proof {
                assert((cy + 1 - self.top) * w == (cy - self.top) * w + w) by (nonlinear_arith);
            }
            cy = cy + 1;
        }
        proof {
            assert(plays@.len() == (self.bottom - self.top) * w);
            assert((self.bottom - self.top) * w == w * (self.bottom - self.top))
                by (nonlinear_arith);
        }
        plays
    }
}

impl Default for GameArea {
    /// An empty area: nothing played, a degenerate rectangle, no winner.
    fn default() -> (r: Self)
        ensures
            r.wf(),
            r.board() == Map::<(int, int), Player>::empty(),
            r.winner is None,
            r.box_degenerate(),
    {
        let r = GameArea {
            left: 0,
            top: 0,
            right: 0,
            bottom: 0,
            winner: None,
            games: PlayedGames::default(),
        };
        proof {
            assert(!r.occupied());
        }
        r
    }
}

/// The exact difference `hi - lo`, which always fits an unsigned 128-bit
/// value even when the signed subtraction would not.
fn sub_to_u128(lo: i128, hi: i128) -> (r: u128)
    requires
        lo <= hi,
    ensures
        r == hi - lo,
{
    if lo >= 0 {
        (hi - lo) as u128
    } else if hi < 0 {
        (hi - lo) as u128
    } else {
        // lo < 0 <= hi: add the two distances to zero.
        (hi as u128) + (((-(lo + 1)) as u128) + 1)
    }
}

} // verus!
