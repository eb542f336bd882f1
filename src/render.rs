//! The text picture of a level in play, one row of symbols per board row.
use vstd::prelude::*;

use crate::board::{Bunny, Tile};
use crate::state::State;

verus! {

/// Some bunny but the player stands on `p`.
pub open spec fn sleepy_on(es: Seq<Bunny>, p: Bunny) -> bool {
    exists|k: int| 1 <= k < es.len() && es[k] == p
}

/// The symbol of a cell: 'T' for a tree; on grass 'b' for the player, 's'
/// for a sleepy bunny, ' ' when empty; on a bed 'p', 'z' and '_'.
pub open spec fn glyph(t: Tile, player_here: bool, sleepy_here: bool) -> u8 {
    match t {
        Tile::Tree => 84,
        Tile::Grass => if player_here { 98 } else if sleepy_here { 115 } else { 32 },
        Tile::Bed => if player_here { 112 } else if sleepy_here { 122 } else { 95 },
    }
}

fn has_sleepy_on(es: &Vec<Bunny>, p: Bunny) -> (r: bool)
    ensures
        r == sleepy_on(es@, p),
{
    let mut k: usize = 1;
    while k < es.len()
        invariant
            1 <= k,
            forall|j: int| 1 <= j < k && j < es@.len() ==> es@[j] != p,
        decreases es.len() - k,
    {
        if es[k] == p {
            assert(es@[k as int] == p);
            return true;
        }
        k += 1;
    }
    false
}


/// The decimal digits of `n`, most significant first.
pub open spec fn decimal(n: nat) -> Seq<u8>
    decreases n,
{
    if n < 10 {
        seq![(48 + n) as u8]
    } else {
        decimal(n / 10).push((48 + n % 10) as u8)
    }
}

/// The header line: "level <level>, move <move>."
pub open spec fn header_text(level_no: nat, move_no: nat) -> Seq<u8> {
    seq![108u8, 101, 118, 101, 108, 32] + decimal(level_no) + seq![44u8, 32, 109, 111, 118, 101, 32] + decimal(move_no)
        + seq![46u8]
}

fn push_decimal(out: &mut Vec<u8>, n: usize)
    ensures
        final(out)@ == old(out)@ + decimal(n as nat),
    decreases n,
{
    if n >= 10 {
        push_decimal(out, n / 10);
    }
    out.push(48 + (n % 10) as u8);
    proof {
        if n >= 10 {
            assert(old(out)@ + decimal(n as nat) =~= old(out)@ + decimal((n / 10) as nat) + seq![(48 + n % 10) as u8]);
        }
    }
}

fn push_bytes(out: &mut Vec<u8>, b: &[u8])
    ensures
        final(out)@ == old(out)@ + b@,
{
    let mut k: usize = 0;
    while k < b.len()
        invariant
            k <= b@.len(),
            out@ == old(out)@ + b@.subrange(0, k as int),
        decreases b.len() - k,
    {
        out.push(b[k]);
        k += 1;
        assert(out@ =~= old(out)@ + b@.subrange(0, k as int));
    }
    assert(b@.subrange(0, b@.len() as int) =~= b@);
}

impl State {
    /// The header line shown above the board: level number and move count.
    pub fn header_line(&self) -> (r: Vec<u8>)
        ensures
            r@ == header_text(self.level_no as nat, self.move_no as nat),
    {
        let mut out: Vec<u8> = Vec::new();
        push_bytes(&mut out, &[108u8, 101, 118, 101, 108, 32]);
        push_decimal(&mut out, self.level_no);
        push_bytes(&mut out, &[44u8, 32, 109, 111, 118, 101, 32]);
        push_decimal(&mut out, self.move_no);
        push_bytes(&mut out, &[46u8]);
        assert(out@ =~= header_text(self.level_no as nat, self.move_no as nat));
        out
    }

    /// The line that says whether the level is won.
    pub fn status_message(&self) -> (r: &'static str)
        ensures
            r@ == (if self.won { "you got the sleepy bunnies to bed."@ } else { "please get the sleepy bunnies to bed."@ }),
    {
        if self.won {
            "you got the sleepy bunnies to bed."
        } else {
            "please get the sleepy bunnies to bed."
        }
    }

    /// The board as rows of symbols, bunnies drawn on their cells.
    pub fn render_rows(&self) -> (r: Vec<Vec<u8>>)
        requires
            self.bunnies@.len() >= 1,
        ensures
            r@.len() == self.board@.len(),
            forall|i: int| 0 <= i < r@.len() ==> (#[trigger] r@[i])@.len() == self.board@[i]@.len(),
            forall|i: int, j: int|
                0 <= i < r@.len() && 0 <= j < r@[i]@.len() ==> #[trigger] r@[i]@[j] == glyph(
                    self.board@[i]@[j],
                    self.bunnies@[0] == Bunny { row: i as usize, col: j as usize },
                    sleepy_on(self.bunnies@, Bunny { row: i as usize, col: j as usize }),
                ),
    {
        let mut out: Vec<Vec<u8>> = Vec::with_capacity(self.board.len());
        let player = self.bunnies[0];
        let mut i: usize = 0;
        while i < self.board.len()
            invariant
                self.bunnies@.len() >= 1,
                player == self.bunnies@[0],
                i <= self.board@.len(),
                out@.len() == i,
                forall|a: int| 0 <= a < i ==> (#[trigger] out@[a])@.len() == self.board@[a]@.len(),
                forall|a: int, b: int|
                    0 <= a < i && 0 <= b < out@[a]@.len() ==> #[trigger] out@[a]@[b] == glyph(
                        self.board@[a]@[b],
                        self.bunnies@[0] == Bunny { row: a as usize, col: b as usize },
                        sleepy_on(self.bunnies@, Bunny { row: a as usize, col: b as usize }),
                    ),
            decreases self.board.len() - i,
        {
            let row = &self.board[i];
            let mut line: Vec<u8> = Vec::with_capacity(row.len());
            let mut j: usize = 0;
            while j < row.len()
                invariant
                    self.bunnies@.len() >= 1,
                    player == self.bunnies@[0],
                    i < self.board@.len(),
                    *row == self.board@[i as int],
                    j <= row@.len(),
                    line@.len() == j,
                    forall|b: int|
                        0 <= b < j ==> #[trigger] line@[b] == glyph(
                            self.board@[i as int]@[b],
                            self.bunnies@[0] == Bunny { row: i, col: b as usize },
                            sleepy_on(self.bunnies@, Bunny { row: i, col: b as usize }),
                        ),
                decreases row.len() - j,
            {
                let here = Bunny { row: i, col: j };
                let on_player = player == here;
                let on_sleepy = has_sleepy_on(&self.bunnies, here);
                let g: u8 = match row[j] {
                    Tile::Tree => 84,
                    Tile::Grass => if on_player { 98 } else if on_sleepy { 115 } else { 32 },
                    Tile::Bed => if on_player { 112 } else if on_sleepy { 122 } else { 95 },
                };
                line.push(g);
                j += 1;
            }
            out.push(line);
            i += 1;
        }
        out
    }
}

} // verus!
