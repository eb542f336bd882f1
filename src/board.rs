//! Tiles, positions, directions, and the rule that moves one bunny one cell.
use vstd::prelude::*;

verus! {

/// What a cell of the board is.
#[derive(Clone, Copy, Debug, PartialEq, Eq, Structural)]
pub enum Tile {
    /// A wall: nothing ever enters it.
    Tree,
    /// Plain floor.
    Grass,
    /// A goal cell: the level is won when every sleepy bunny lies on one.
    Bed,
}

/// A position: row, then column, counted from the top left.
#[derive(Clone, Copy, Debug, PartialEq, Eq, Hash, Structural)]
pub struct Bunny {
    pub row: usize,
    pub col: usize,
}

/// One of the four directions a bunny can hop in.
#[derive(Clone, Copy, Debug, PartialEq, Eq, Structural)]
pub enum Move {
    Up,
    Down,
    Left,
    Right,
}

/// Which bunnies may start a push onto an occupied cell.
#[derive(Clone, Copy, Debug, PartialEq, Eq, Structural)]
pub enum PushPolicy {
    /// Only the player pushes; a pushed sleepy cannot push another one.
    PlayerOnly,
    /// Any bunny pushes, so whole rows of sleepies move together.
    Chains,
}

/// The player is always the first bunny of the vector.
pub const PLAYER_INDEX: usize = 0;

pub open spec fn chains(p: PushPolicy) -> bool {
    p == PushPolicy::Chains
}

/// `p` names a cell of the board.
pub open spec fn on_board(board: Seq<Vec<Tile>>, p: Bunny) -> bool {
    p.row < board.len() && p.col < board[p.row as int]@.len()
}

pub open spec fn tile_at(board: Seq<Vec<Tile>>, p: Bunny) -> Tile {
    board[p.row as int]@[p.col as int]
}

/// The cell one hop from `p` in direction `m`, if that cell is on the board.
pub open spec fn target(board: Seq<Vec<Tile>>, p: Bunny, m: Move) -> Option<Bunny> {
    let d = match m {
        Move::Up => if p.row == 0 { None } else { Some(Bunny { row: (p.row - 1) as usize, col: p.col }) },
        Move::Down => if p.row >= usize::MAX || p.row + 1 >= board.len() { None } else { Some(Bunny { row: (p.row + 1) as usize, col: p.col }) },
        Move::Left => if p.col == 0 { None } else { Some(Bunny { row: p.row, col: (p.col - 1) as usize }) },
        Move::Right => if p.col >= usize::MAX || p.row >= board.len() || p.col + 1 >= board[p.row as int]@.len() {
            None
        } else {
            Some(Bunny { row: p.row, col: (p.col + 1) as usize })
        },
    };
    match d {
        Some(q) => if on_board(board, q) { Some(q) } else { None },
        None => None,
    }
}

/// How many hops are left before the edge of the board in direction `m`.
pub open spec fn room(board: Seq<Vec<Tile>>, p: Bunny, m: Move) -> int {
    match m {
        Move::Up => p.row as int,
        Move::Down => board.len() - p.row,
        Move::Left => p.col as int,
        Move::Right => if p.row < board.len() { board[p.row as int]@.len() - p.col } else { 0 },
    }
}

/// The first bunny standing on `p`, if any.
pub open spec fn occupant(es: Seq<Bunny>, p: Bunny) -> Option<int> {
    if exists|k: int| 0 <= k < es.len() && es[k] == p {
        Some(choose|k: int| first_at(es, p, k))
    } else {
        None
    }
}

pub open spec fn first_at(es: Seq<Bunny>, p: Bunny, k: int) -> bool {
    &&& 0 <= k < es.len()
    &&& es[k] == p
    &&& forall|j: int| 0 <= j < k ==> es[j] != p
}

/// Bunny `i`, standing on `from`, hops one cell in direction `m`, pushing
/// whoever stands in its way. `None` when a tree, the edge, or a blocked
/// push stops it; otherwise the new positions of every bunny.
pub open spec fn shove(
    board: Seq<Vec<Tile>>,
    policy: PushPolicy,
    es: Seq<Bunny>,
    i: int,
    from: Bunny,
    m: Move,
) -> Option<Seq<Bunny>>
    decreases room(board, from, m),
    via shove_decreases
{
    match target(board, from, m) {
        None => None,
        Some(dest) => if tile_at(board, dest) == Tile::Tree {
            None
        } else {
            match occupant(es, dest) {
                None => Some(es.update(i, dest)),
                Some(j) => if i != PLAYER_INDEX && !chains(policy) {
                    None
                } else {
                    match shove(board, policy, es, j, dest, m) {
                        None => None,
                        Some(pushed) => Some(pushed.update(i, dest)),
                    }
                },
            }
        },
    }
}

#[via_fn]
proof fn shove_decreases(
    board: Seq<Vec<Tile>>,
    policy: PushPolicy,
    es: Seq<Bunny>,
    i: int,
    from: Bunny,
    m: Move,
) {
    if let Some(dest) = target(board, from, m) {
        match m {
            Move::Up => assert(0 <= room(board, dest, m) < room(board, from, m)),
            Move::Down => assert(0 <= room(board, dest, m) < room(board, from, m)),
            Move::Left => assert(0 <= room(board, dest, m) < room(board, from, m)),
            Move::Right => assert(0 <= room(board, dest, m) < room(board, from, m)),
        }
    }
}

/// The outcome of bunny `i` hopping in direction `m`.
#[verifier::opaque]
pub open spec fn moved(board: Seq<Vec<Tile>>, policy: PushPolicy, es: Seq<Bunny>, i: int, m: Move) -> Option<Seq<Bunny>> {
    shove(board, policy, es, i, es[i], m)
}

/// Where some bunny stands on `p`, a first one does.
proof fn lemma_first_exists(es: Seq<Bunny>, p: Bunny, w: int)
    requires
        0 <= w < es.len(),
        es[w] == p,
    ensures
        exists|k: int| first_at(es, p, k),
        first_at(es, p, choose|k: int| first_at(es, p, k)),
    decreases w,
{
    if exists|j: int| 0 <= j < w && es[j] == p {
        let j = choose|j: int| 0 <= j < w && es[j] == p;
        lemma_first_exists(es, p, j);
    } else {
        assert(first_at(es, p, w));
    }
}

proof fn shove_shape(board: Seq<Vec<Tile>>, policy: PushPolicy, es: Seq<Bunny>, i: int, m: Move)
    requires
        0 <= i < es.len(),
    ensures
        match shove(board, policy, es, i, es[i], m) {
            Some(after) => {
                &&& after.len() == es.len()
                &&& target(board, es[i], m) == Some(after[i])
                &&& forall|k: int| 0 <= k < es.len() ==> after[k] == es[k] || target(board, es[k], m) == Some(#[trigger] after[k])
            },
            None => true,
        },
    decreases room(board, es[i], m),
{
    if let Some(dest) = target(board, es[i], m) {
        if tile_at(board, dest) != Tile::Tree {
            if let Some(j) = occupant(es, dest) {
                let w = choose|w: int| 0 <= w < es.len() && es[w] == dest;
                lemma_first_exists(es, dest, w);
                assert(0 <= room(board, dest, m) < room(board, es[i], m)) by {
                    match m {
                        Move::Up => {},
                        Move::Down => {},
                        Move::Left => {},
                        Move::Right => {},
                    }
                }
                shove_shape(board, policy, es, j, m);
            }
        }
    }
}

/// A push chain is atomic: when a hop succeeds, the hopping bunny lands one
/// cell further in its direction and every other bunny either stays put or
/// advances exactly one cell the same way; when it fails, nothing is
/// produced at all.
pub proof fn push_chain_is_atomic(board: Seq<Vec<Tile>>, policy: PushPolicy, es: Seq<Bunny>, i: int, m: Move)
    requires
        0 <= i < es.len(),
    ensures
        match moved(board, policy, es, i, m) {
            Some(after) => {
                &&& after.len() == es.len()
                &&& target(board, es[i], m) == Some(after[i])
                &&& forall|k: int| 0 <= k < es.len() ==> after[k] == es[k] || target(board, es[k], m) == Some(#[trigger] after[k])
            },
            None => true,
        },
{
    reveal(moved);
    shove_shape(board, policy, es, i, m);
}

/// A hop keeps the number of bunnies.
pub proof fn moved_keeps_count(board: Seq<Vec<Tile>>, policy: PushPolicy, es: Seq<Bunny>, i: int, m: Move)
    requires
        0 <= i < es.len(),
    ensures
        moved(board, policy, es, i, m) is Some ==> moved(board, policy, es, i, m)->Some_0.len() == es.len(),
{
    push_chain_is_atomic(board, policy, es, i, m);
}

/// Index of the first bunny standing on `p`.
pub fn find_bunny(es: &Vec<Bunny>, p: Bunny) -> (r: Option<usize>)
    ensures
        match r {
            None => occupant(es@, p) is None,
            Some(k) => occupant(es@, p) == Some(k as int) && first_at(es@, p, k as int),
        },
{
    let mut k: usize = 0;
    while k < es.len()
        invariant
            k <= es.len(),
            forall|j: int| 0 <= j < k ==> es@[j] != p,
        decreases es.len() - k,
    {
        if es[k] == p {
            assert(first_at(es@, p, k as int));
            let ghost c = choose|c: int| first_at(es@, p, c);
            assert(c == k as int) by {
                if c < k {
                } else if c > k {
                    assert(es@[k as int] == p);
                }
            }
            return Some(k);
        }
        k += 1;
    }
    None
}

/// The cell one hop away, if it is on the board.
pub fn next_cell(board: &Vec<Vec<Tile>>, p: Bunny, m: Move) -> (r: Option<Bunny>)
    ensures
        r == target(board@, p, m),
{
    let d = match m {
        Move::Up => if p.row == 0 { None } else { Some(Bunny { row: p.row - 1, col: p.col }) },
        Move::Down => if board.len() == 0 || p.row >= board.len() - 1 { None } else { Some(Bunny { row: p.row + 1, col: p.col }) },
        Move::Left => if p.col == 0 { None } else { Some(Bunny { row: p.row, col: p.col - 1 }) },
        Move::Right => if p.row >= board.len() || board[p.row].len() == 0 || p.col >= board[p.row].len() - 1 {
            None
        } else {
            Some(Bunny { row: p.row, col: p.col + 1 })
        },
    };
    match d {
        Some(q) => if q.row < board.len() && q.col < board[q.row].len() { Some(q) } else { None },
        None => None,
    }
}

} // verus!
