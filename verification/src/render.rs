use vstd::prelude::*;
use vstd::string::StringExecFns;
use crate::area::GameArea;
use crate::game::Player;

verus! {

/// The glyph drawn for a cell: its occupant's letter, or a blank.
pub open spec fn glyph(o: Option<Player>) -> char {
    match o {
        Some(Player::Cross) => 'x',
        Some(Player::Naught) => 'o',
        None => ' ',
    }
}

/// `n` copies of one character.
pub open spec fn repeat_char(ch: char, n: nat) -> Seq<char> {
    Seq::new(n, |i: int| ch)
}

/// The glyphs of the grid row at height `cy`, left to right.
pub open spec fn row_chars(area: GameArea, cy: int) -> Seq<char> {
    Seq::new(
        (area.right - area.left) as nat,
        |i: int|
            glyph(
                if area.board().contains_key((area.left + i, cy)) {
                    Some(area.board()[(area.left + i, cy)])
                } else {
                    None
                },
            ),
    )
}

/// The framed grid rows from height `cy` down to the rectangle's bottom,
/// each preceded by a line break.
pub open spec fn rows_from(area: GameArea, cy: int) -> Seq<char>
    decreases area.bottom - cy,
{
    if cy >= area.bottom {
        Seq::<char>::empty()
    } else {
        seq!['\n', '|'] + row_chars(area, cy) + seq!['|'] + rows_from(area, cy + 1)
    }
}

/// The whole text picture of the area: a top border, one framed line of
/// glyphs per grid row, and a bottom border.
pub open spec fn render_spec(area: GameArea) -> Seq<char> {
    let w = (area.right - area.left) as nat;
    seq!['\u{231c}'] + repeat_char('\u{23ba}', w) + seq!['\u{231d}'] + rows_from(
        area,
        area.top as int,
    ) + seq!['\n', '\u{231e}'] + repeat_char('\u{23bd}', w) + seq!['\u{231f}']
}

impl GameArea {
    /// Draw the area as text: a bordered rectangle with one glyph per cell.
    pub fn render(&self) -> (r: String)
        requires
            self.wf(),
        ensures
            r@ == render_spec(*self),
    {
        proof {
            self.lemma_box_ordered();
            reveal_strlit("\u{231c}");
            reveal_strlit("\u{23ba}");
            reveal_strlit("\u{231d}");
            reveal_strlit("\n|");
            reveal_strlit("x");
            reveal_strlit("o");
            reveal_strlit(" ");
            reveal_strlit("|");
            reveal_strlit("\n\u{231e}");
            reveal_strlit("\u{23bd}");
            reveal_strlit("\u{231f}");
        }
        let w = self.width();
        let mut out = String::new();
        out.append("\u{231c}");
        let mut i: u128 = 0;
        while i < w
            invariant
                i <= w,
                w == self.right - self.left,
                out@ == seq!['\u{231c}'] + repeat_char('\u{23ba}', i as nat),
            decreases w - i,
        {
            out.append("\u{23ba}");
            proof {
                reveal_strlit("\u{23ba}");
                assert(repeat_char('\u{23ba}', (i + 1) as nat) =~= repeat_char(
                    '\u{23ba}',
                    i as nat,
                ).push('\u{23ba}'));
                assert(out@ =~= seq!['\u{231c}'] + repeat_char('\u{23ba}', (i + 1) as nat));
            }
            i = i + 1;
        }
        out.append("\u{231d}");
        let ghost header = seq!['\u{231c}'] + repeat_char(
            '\u{23ba}',
            (self.right - self.left) as nat,
        ) + seq!['\u{231d}'];
        proof {
            assert(out@ =~= header);
        }
        let mut cy = self.top;
        while cy < self.bottom
            invariant
                self.wf(),
                self.top <= cy <= self.bottom,
                self.left <= self.right,
                out@ + rows_from(*self, cy as int) =~= header + rows_from(
                    *self,
                    self.top as int,
                ),
            decreases self.bottom - cy,
        {
            out.append("\n|");
            proof {
                reveal_strlit("\n|");
            }
            let ghost row_base = out@;
            let mut cx = self.left;
            while cx < self.right
                invariant
                    self.wf(),
                    self.left <= cx <= self.right,
                    self.top <= cy < self.bottom,
                    out@ =~= row_base + row_chars(*self, cy as int).subrange(
                        0,
                        cx - self.left,
                    ),
                decreases self.right - cx,
            {
                let occupant = match self.games.get(&(cx, cy)) {
                    None => None,
                    Some(play) => Some(play.player),
                };
                let ghost idx = cx - self.left;
                proof {
                    assert(row_chars(*self, cy as int)[idx] == glyph(occupant));
                }
                match occupant {
                    Some(Player::Cross) => out.append("x"),
                    Some(Player::Naught) => out.append("o"),
                    None => out.append(" "),
                }
                proof {
                    reveal_strlit("x");
                    reveal_strlit("o");
                    reveal_strlit(" ");
                    assert(out@ =~= row_base + row_chars(*self, cy as int).subrange(
                        0,
                        idx + 1,
                    ));
                }
                cx = cx + 1;
            }
            out.append("|");
            proof {
                reveal_strlit("|");
                reveal_strlit("\n|");
                assert(row_chars(*self, cy as int).subrange(
                    0,
                    self.right - self.left,
                ) =~= row_chars(*self, cy as int));
                assert(rows_from(*self, cy as int) == seq!['\n', '|'] + row_chars(
                    *self,
                    cy as int,
                ) + seq!['|'] + rows_from(*self, cy as int + 1));
                assert(out@ + rows_from(*self, cy as int + 1) =~= header + rows_from(
                    *self,
                    self.top as int,
                ));
            }
            cy = cy + 1;
        }
        proof {
            assert(rows_from(*self, cy as int) =~= Seq::<char>::empty());
            assert(out@ =~= header + rows_from(*self, self.top as int));
        }
        out.append("\n\u{231e}");
        let ghost mid = out@;
        let mut j: u128 = 0;
        while j < w
            invariant
                j <= w,
                w == self.right - self.left,
                out@ == mid + repeat_char('\u{23bd}', j as nat),
            decreases w - j,
        {
            out.append("\u{23bd}");
            proof {
                reveal_strlit("\u{23bd}");
                assert(repeat_char('\u{23bd}', (j + 1) as nat) =~= repeat_char(
                    '\u{23bd}',
                    j as nat,
                ).push('\u{23bd}'));
                assert(out@ =~= mid + repeat_char('\u{23bd}', (j + 1) as nat));
            }
            j = j + 1;
        }
        out.append("\u{231f}");
        proof {
            reveal_strlit("\n\u{231e}");
            reveal_strlit("\u{231f}");
            assert(out@ =~= render_spec(*self));
        }
        out
    }
}

} // verus!
