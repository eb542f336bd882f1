//! Reading a level from its text: one row of symbols per line.
use vstd::prelude::*;

use crate::board::{on_board, Bunny, PushPolicy, Tile};
use crate::state::{all_in_beds, copy_bunnies, State};

verus! {

/// Why a level could not be read.
#[derive(Clone, Copy, Debug, PartialEq, Eq, Structural)]
pub enum LoadError {
    /// The level has no rows.
    Empty,
    /// The symbol at this row and column means nothing.
    UnknownSymbol { row: usize, col: usize },
    /// No cell holds the player.
    NoPlayer,
}

/// The tile that a symbol stands for; `None` for an unknown symbol.
pub open spec fn tile_of(b: u8) -> Option<Tile> {
    if b == 35 || b == 84 {
        // '#' 'T'
        Some(Tile::Tree)
    } else if b == 32 || b == 64 || b == 98 || b == 36 || b == 115 {
        // ' ' '@' 'b' '$' 's'
        Some(Tile::Grass)
    } else if b == 46 || b == 95 || b == 43 || b == 112 || b == 42 || b == 122 {
        // '.' '_' '+' 'p' '*' 'z'
        Some(Tile::Bed)
    } else {
        None
    }
}

/// The symbol puts the player on its cell: '@' 'b' '+' 'p'.
pub open spec fn is_player(b: u8) -> bool {
    b == 64 || b == 98 || b == 43 || b == 112
}

/// The symbol puts a sleepy bunny on its cell: '$' 's' '*' 'z'.
pub open spec fn is_sleepy(b: u8) -> bool {
    b == 36 || b == 115 || b == 42 || b == 122
}

/// The symbol of column `c` of a row, short rows read as padded with spaces.
pub open spec fn cell(row: Seq<u8>, c: int) -> u8 {
    if c < row.len() { row[c] } else { 32 }
}

/// The length of the longest of the first `n` rows.
pub open spec fn width(rows: Seq<Vec<u8>>, n: int) -> nat
    decreases n,
{
    if n <= 0 {
        0
    } else {
        let w = width(rows, n - 1);
        if rows[n - 1]@.len() > w { rows[n - 1]@.len() } else { w }
    }
}

/// Every symbol of the first `n` rows is known.
pub open spec fn symbols_known(rows: Seq<Vec<u8>>, n: int) -> bool {
    forall|r: int, c: int| 0 <= r < n && 0 <= c < rows[r]@.len() ==> tile_of(#[trigger] rows[r]@[c]) is Some
}

/// The sleepy bunnies among the first `n` columns of row `r`, left to right.
pub open spec fn row_sleepies(row: Seq<u8>, r: usize, n: int) -> Seq<Bunny>
    decreases n,
{
    if n <= 0 {
        seq![]
    } else if is_sleepy(row[n - 1]) {
        row_sleepies(row, r, n - 1).push(Bunny { row: r, col: (n - 1) as usize })
    } else {
        row_sleepies(row, r, n - 1)
    }
}

/// The sleepy bunnies of the first `n` rows, in reading order.
pub open spec fn sleepies_upto(rows: Seq<Vec<u8>>, n: int) -> Seq<Bunny>
    decreases n,
{
    if n <= 0 {
        seq![]
    } else {
        sleepies_upto(rows, n - 1) + row_sleepies(rows[n - 1]@, (n - 1) as usize, rows[n - 1]@.len() as int)
    }
}

/// The last player symbol among the first `n` columns of row `r`.
pub open spec fn row_player(row: Seq<u8>, r: usize, n: int) -> Option<Bunny>
    decreases n,
{
    if n <= 0 {
        None
    } else if is_player(row[n - 1]) {
        Some(Bunny { row: r, col: (n - 1) as usize })
    } else {
        row_player(row, r, n - 1)
    }
}

/// The last player symbol of the first `n` rows, in reading order.
pub open spec fn player_upto(rows: Seq<Vec<u8>>, n: int) -> Option<Bunny>
    decreases n,
{
    if n <= 0 {
        None
    } else {
        match row_player(rows[n - 1]@, (n - 1) as usize, rows[n - 1]@.len() as int) {
            Some(p) => Some(p),
            None => player_upto(rows, n - 1),
        }
    }
}

/// The cell `p` of the level read from `rows` is a bed.
pub open spec fn is_bed_cell(rows: Seq<Vec<u8>>, p: Bunny) -> bool {
    &&& p.row < rows.len()
    &&& p.col < width(rows, rows.len() as int)
    &&& tile_of(cell(rows[p.row as int]@, p.col as int)) == Some(Tile::Bed)
}

/// The bunnies of the level read from `rows`: the player first, then the
/// sleepy bunnies in reverse reading order.
pub open spec fn start_bunnies(rows: Seq<Vec<u8>>) -> Seq<Bunny> {
    sleepies_upto(rows, rows.len() as int).push(player_upto(rows, rows.len() as int)->Some_0).reverse()
}

/// `s` is the fresh state of level `level_no` read from `rows`.
pub open spec fn loaded(rows: Seq<Vec<u8>>, level_no: usize, s: State) -> bool {
    let w = width(rows, rows.len() as int);
    &&& s.board@.len() == rows.len()
    &&& forall|r: int| 0 <= r < rows.len() ==> (#[trigger] s.board@[r])@.len() == w
    &&& forall|r: int, c: int|
        0 <= r < rows.len() && 0 <= c < w ==> Some(#[trigger] s.board@[r]@[c]) == tile_of(cell(rows[r]@, c))
    &&& forall|p: Bunny| s.beds@.contains(p) <==> is_bed_cell(rows, p)
    &&& s.bunny_starts@ == start_bunnies(rows)
    &&& s.bunnies@ == start_bunnies(rows)
    &&& s.level_no == level_no
    &&& s.move_no == 0
    &&& s.history@.len() == 0
    &&& s.won == all_in_beds(s.beds@, s.bunnies@)
    &&& s.policy == PushPolicy::PlayerOnly
}

/// The bunnies found in the first `n` columns of a row stand on cells of it.
proof fn lemma_row_cells(row: Seq<u8>, r: usize, n: int)
    requires
        0 <= n <= row.len(),
    ensures
        forall|i: int|
            0 <= i < row_sleepies(row, r, n).len() ==> (#[trigger] row_sleepies(row, r, n)[i]).row == r
                && row_sleepies(row, r, n)[i].col < n,
        row_player(row, r, n) is Some ==> row_player(row, r, n)->Some_0.row == r && row_player(row, r, n)->Some_0.col < n,
    decreases n,
{
    if n > 0 {
        lemma_row_cells(row, r, n - 1);
        let prev = row_sleepies(row, r, n - 1);
        assert forall|i: int| 0 <= i < row_sleepies(row, r, n).len() implies (#[trigger] row_sleepies(row, r, n)[i]).row == r
            && row_sleepies(row, r, n)[i].col < n by {
            if i < prev.len() {
                assert(row_sleepies(row, r, n)[i] == prev[i]);
            }
        }
    }
}

/// The bunnies found in the first `n` rows stand on cells of those rows.
proof fn lemma_found_cells(rows: Seq<Vec<u8>>, n: int)
    requires
        0 <= n <= rows.len(),
        rows.len() <= usize::MAX,
    ensures
        forall|i: int|
            0 <= i < sleepies_upto(rows, n).len() ==> {
                let b = #[trigger] sleepies_upto(rows, n)[i];
                b.row < n && b.col < rows[b.row as int]@.len()
            },
        player_upto(rows, n) is Some ==> {
            let b = player_upto(rows, n)->Some_0;
            b.row < n && b.col < rows[b.row as int]@.len()
        },
    decreases n,
{
    if n > 0 {
        lemma_found_cells(rows, n - 1);
        let row = rows[n - 1]@;
        lemma_row_cells(row, (n - 1) as usize, row.len() as int);
        let a = sleepies_upto(rows, n - 1);
        let b = row_sleepies(row, (n - 1) as usize, row.len() as int);
        assert forall|i: int| 0 <= i < sleepies_upto(rows, n).len() implies {
            let x = #[trigger] sleepies_upto(rows, n)[i];
            x.row < n && x.col < rows[x.row as int]@.len()
        } by {
            if i < a.len() {
                assert(sleepies_upto(rows, n)[i] == a[i]);
            } else {
                assert(sleepies_upto(rows, n)[i] == b[i - a.len()]);
            }
        }
    }
}

fn symbol_tile(b: u8) -> (r: Option<Tile>)
    ensures
        r == tile_of(b),
{
    if b == 35 || b == 84 {
        Some(Tile::Tree)
    } else if b == 32 || b == 64 || b == 98 || b == 36 || b == 115 {
        Some(Tile::Grass)
    } else if b == 46 || b == 95 || b == 43 || b == 112 || b == 42 || b == 122 {
        Some(Tile::Bed)
    } else {
        None
    }
}

/// Reads row `r`, padded to `w` columns: returns its tiles, or the column
/// of its first unknown symbol. Sleepy bunnies are appended to `sleepies`
/// and beds to `beds` in reading order; a player symbol replaces `player`.
fn read_row(
    row: &Vec<u8>,
    r: usize,
    w: usize,
    sleepies: &mut Vec<Bunny>,
    player: &mut Option<Bunny>,
    beds: &mut Vec<Bunny>,
) -> (res: Result<Vec<Tile>, usize>)
    requires
        row@.len() <= w,
    ensures
        match res {
            Ok(tiles) => {
                &&& tiles@.len() == w
                &&& forall|c: int| 0 <= c < w ==> Some(#[trigger] tiles@[c]) == tile_of(cell(row@, c))
                &&& forall|c: int| 0 <= c < row@.len() ==> tile_of(#[trigger] row@[c]) is Some
                &&& final(sleepies)@ == old(sleepies)@ + row_sleepies(row@, r, row@.len() as int)
                &&& *final(player) == match row_player(row@, r, row@.len() as int) {
                    Some(p) => Some(p),
                    None => *old(player),
                }
                &&& forall|p: Bunny|
                    final(beds)@.contains(p) <==> (old(beds)@.contains(p) || (p.row == r && p.col < w && tile_of(
                        cell(row@, p.col as int),
                    ) == Some(Tile::Bed)))
            },
            Err(c) => c < row@.len() && tile_of(row@[c as int]) is None,
        },
{
    let mut tiles: Vec<Tile> = Vec::with_capacity(w);
    let mut c: usize = 0;
    while c < w
        invariant
            row@.len() <= w,
            c <= w,
            tiles@.len() == c,
            forall|j: int| 0 <= j < c ==> Some(#[trigger] tiles@[j]) == tile_of(cell(row@, j)),
            forall|j: int| 0 <= j < c && j < row@.len() ==> tile_of(#[trigger] row@[j]) is Some,
            sleepies@ == old(sleepies)@ + row_sleepies(row@, r, if c < row@.len() { c as int } else { row@.len() as int }),
            *player == match row_player(row@, r, if c < row@.len() { c as int } else { row@.len() as int }) {
                Some(p) => Some(p),
                None => *old(player),
            },
            forall|p: Bunny|
                beds@.contains(p) <==> (old(beds)@.contains(p) || (p.row == r && p.col < c && tile_of(cell(row@, p.col as int))
                    == Some(Tile::Bed))),
        decreases w - c,
    {
        let b: u8 = if c < row.len() { row[c] } else { 32 };
        let t = match symbol_tile(b) {
            None => return Err(c),
            Some(t) => t,
        };
        let here = Bunny { row: r, col: c };
        let ghost sl0 = sleepies@;
        let ghost beds0 = beds@;
        if b == 64 || b == 98 || b == 43 || b == 112 {
            *player = Some(here);
        }
        if b == 36 || b == 115 || b == 42 || b == 122 {
            sleepies.push(here);
        }
        if t == Tile::Bed {
            beds.push(here);
        }
        proof {
            if c < row@.len() {
                assert(sleepies@ =~= old(sleepies)@ + row_sleepies(row@, r, c + 1));
            }
            assert forall|p: Bunny|
                beds@.contains(p) <==> (old(beds)@.contains(p) || (p.row == r && p.col < c + 1 && tile_of(
                    cell(row@, p.col as int),
                ) == Some(Tile::Bed))) by {
                if t == Tile::Bed {
                    if p == here {
                        assert(beds@[beds0.len() as int] == here);
                    }
                    if beds@.contains(p) && p != here {
                        let i = choose|i: int| 0 <= i < beds@.len() && beds@[i] == p;
                        assert(beds0[i] == p);
                    }
                    if beds0.contains(p) {
                        let i = choose|i: int| 0 <= i < beds0.len() && beds0[i] == p;
                        assert(beds@[i] == p);
                    }
                }
            }
        }
        tiles.push(t);
        c += 1;
    }
    Ok(tiles)
}

/// A copy of `v`, back to front.
fn reversed(v: &Vec<Bunny>) -> (r: Vec<Bunny>)
    ensures
        r@ == v@.reverse(),
{
    let mut r: Vec<Bunny> = Vec::with_capacity(v.len());
    let mut k: usize = v.len();
    while k > 0
        invariant
            k <= v@.len(),
            r@.len() == v@.len() - k,
            forall|i: int| 0 <= i < r@.len() ==> #[trigger] r@[i] == v@[v@.len() - 1 - i],
        decreases k,
    {
        k -= 1;
        r.push(v[k]);
    }
    assert(r@ =~= v@.reverse());
    r
}

impl State {
    /// Reads level `level_no` from its rows of symbols. Rows shorter than
    /// the longest are padded with floor. The player comes first among the
    /// bunnies, then the sleepy bunnies in reverse reading order. Fails on
    /// a level without rows, on an unknown symbol, and on a level without a
    /// player; where several cells hold the player, the last one counts.
    pub fn from_level_no(level_no: usize, rows: &Vec<Vec<u8>>) -> (r: Result<State, LoadError>)
        ensures
            match r {
                Err(LoadError::Empty) => rows@.len() == 0,
                Err(LoadError::UnknownSymbol { row, col }) => {
                    &&& rows@.len() > 0
                    &&& row < rows@.len()
                    &&& col < rows@[row as int]@.len()
                    &&& tile_of(rows@[row as int]@[col as int]) is None
                },
                Err(LoadError::NoPlayer) => {
                    &&& rows@.len() > 0
                    &&& symbols_known(rows@, rows@.len() as int)
                    &&& player_upto(rows@, rows@.len() as int) is None
                },
                Ok(s) => {
                    &&& rows@.len() > 0
                    &&& symbols_known(rows@, rows@.len() as int)
                    &&& player_upto(rows@, rows@.len() as int) is Some
                    &&& loaded(rows@, level_no, s)
                    &&& s.wf()
                },
            },
    {
        if rows.len() == 0 {
            return Err(LoadError::Empty);
        }
        let mut w: usize = 0;
        let mut i: usize = 0;
        while i < rows.len()
            invariant
                i <= rows@.len(),
                w == width(rows@, i as int),
                forall|j: int| 0 <= j < i ==> (#[trigger] rows@[j])@.len() <= w,
            decreases rows.len() - i,
        {
            if rows[i].len() > w {
                w = rows[i].len();
            }
            i += 1;
        }
        let mut board: Vec<Vec<Tile>> = Vec::with_capacity(rows.len());
        let mut sleepies: Vec<Bunny> = Vec::new();
        let mut player: Option<Bunny> = None;
        let mut beds: Vec<Bunny> = Vec::new();
        let mut r: usize = 0;
        while r < rows.len()
            invariant
                r <= rows@.len(),
                w == width(rows@, rows@.len() as int),
                forall|j: int| 0 <= j < rows@.len() ==> (#[trigger] rows@[j])@.len() <= w,
                board@.len() == r,
                forall|j: int| 0 <= j < r ==> (#[trigger] board@[j])@.len() == w,
                forall|j: int, c: int| 0 <= j < r && 0 <= c < w ==> Some(#[trigger] board@[j]@[c]) == tile_of(cell(rows@[j]@, c)),
                symbols_known(rows@, r as int),
                sleepies@ == sleepies_upto(rows@, r as int),
                player == player_upto(rows@, r as int),
                forall|p: Bunny| beds@.contains(p) <==> (p.row < r && is_bed_cell(rows@, p)),
            decreases rows.len() - r,
        {
            let ghost b0 = beds@;
            match read_row(&rows[r], r, w, &mut sleepies, &mut player, &mut beds) {
                Err(c) => {
                    return Err(LoadError::UnknownSymbol { row: r, col: c });
                },
                Ok(tiles) => {
                    board.push(tiles);
                },
            }
            proof {
                assert forall|j: int, c: int| 0 <= j < r + 1 && 0 <= c < rows@[j]@.len() implies tile_of(
                    #[trigger] rows@[j]@[c],
                ) is Some by {
                    if j < r {
                        assert(symbols_known(rows@, r as int));
                    }
                }
                assert forall|p: Bunny| beds@.contains(p) <==> (p.row < r + 1 && is_bed_cell(rows@, p)) by {
                    if p.row < r {
                        assert(b0.contains(p) <==> is_bed_cell(rows@, p));
                    }
                }
            }
            r += 1;
        }
        let p = match player {
            None => return Err(LoadError::NoPlayer),
            Some(p) => p,
        };
        sleepies.push(p);
        let bunnies = reversed(&sleepies);
        let starts = copy_bunnies(&bunnies);
        let mut s = State {
            board,
            bunny_starts: starts,
            beds,
            bunnies,
            level_no,
            move_no: 0,
            history: Vec::new(),
            won: false,
            policy: PushPolicy::PlayerOnly,
        };
        s.check_win();
        proof {
            let n = rows@.len() as int;
            lemma_found_cells(rows@, n);
            let pre = sleepies_upto(rows@, n).push(p);
            assert forall|k: int| 0 <= k < s.bunnies@.len() implies on_board(s.board@, #[trigger] s.bunnies@[k]) by {
                let j = pre.len() - 1 - k;
                assert(s.bunnies@[k] == pre[j]);
                if j < pre.len() - 1 {
                    assert(pre[j] == sleepies_upto(rows@, n)[j]);
                }
                let x = pre[j];
                assert(rows@[x.row as int]@.len() <= w);
            }
            assert(s.bunnies@.len() >= 1);
        }
        Ok(s)
    }

    /// Sets which bunnies may push others.
    pub fn set_push_policy(&mut self, policy: PushPolicy)
        ensures
            *final(self) == (State { policy, ..*old(self) }),
    {
        self.policy = policy;
    }
}

} // verus!
