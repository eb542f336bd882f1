//! The state of one level in play: where the bunnies are, the move count,
//! the win flag and the undo history.
use vstd::prelude::*;

use crate::board::{
    find_bunny, moved, next_cell, on_board, push_chain_is_atomic, room, Bunny, Move, PushPolicy, Tile,
    PLAYER_INDEX,
};

verus! {

/// An entry of the undo history: the move count and the bunnies as they
/// were just before a move or a reset.
pub struct PreviousState {
    pub move_no: usize,
    pub bunnies: Vec<Bunny>,
}

/// The mathematical content of a history entry.
pub struct Snapshot {
    pub move_no: usize,
    pub bunnies: Seq<Bunny>,
}

/// The part of a `State` that moves, undo and reset change.
pub struct Progress {
    pub bunnies: Seq<Bunny>,
    pub move_no: usize,
    pub history: Seq<Snapshot>,
    pub won: bool,
}

/// A level in play. The first bunny is the player; the others are the
/// sleepy bunnies that must all end up in beds.
pub struct State {
    pub board: Vec<Vec<Tile>>,
    pub bunny_starts: Vec<Bunny>,
    pub beds: Vec<Bunny>,
    pub bunnies: Vec<Bunny>,
    pub level_no: usize,
    pub move_no: usize,
    pub history: Vec<PreviousState>,
    pub won: bool,
    pub policy: PushPolicy,
}

/// Every position of `es` is a cell of the board.
pub open spec fn all_on_board(board: Seq<Vec<Tile>>, es: Seq<Bunny>) -> bool {
    forall|k: int| 0 <= k < es.len() ==> on_board(board, #[trigger] es[k])
}

/// Every sleepy bunny (every bunny but the first) lies on a bed.
pub open spec fn all_in_beds(beds: Seq<Bunny>, es: Seq<Bunny>) -> bool {
    forall|k: int| 1 <= k < es.len() ==> beds.contains(#[trigger] es[k])
}

pub open spec fn snapshot_of(h: PreviousState) -> Snapshot {
    Snapshot { move_no: h.move_no, bunnies: h.bunnies@ }
}

/// What undo makes of `p`: the last history entry comes back, or nothing
/// changes when the history is empty.
pub open spec fn undo_progress(p: Progress, beds: Seq<Bunny>) -> Progress {
    if p.history.len() == 0 {
        p
    } else {
        let last = p.history.last();
        Progress {
            bunnies: last.bunnies,
            move_no: last.move_no,
            history: p.history.drop_last(),
            won: all_in_beds(beds, last.bunnies),
        }
    }
}

/// A copy of a vector of positions.
pub fn copy_bunnies(v: &Vec<Bunny>) -> (r: Vec<Bunny>)
    ensures
        r@ == v@,
{
    let mut r: Vec<Bunny> = Vec::with_capacity(v.len());
    let mut k: usize = 0;
    while k < v.len()
        invariant
            k <= v.len(),
            r@ == v@.subrange(0, k as int),
        decreases v.len() - k,
    {
        r.push(v[k]);
        k += 1;
        assert(r@ =~= v@.subrange(0, k as int));
    }
    assert(r@ =~= v@);
    r
}

/// Whether `p` is one of the beds.
pub fn in_beds(beds: &Vec<Bunny>, p: Bunny) -> (r: bool)
    ensures
        r == beds@.contains(p),
{
    let mut k: usize = 0;
    while k < beds.len()
        invariant
            k <= beds.len(),
            forall|j: int| 0 <= j < k ==> beds@[j] != p,
        decreases beds.len() - k,
    {
        if beds[k] == p {
            assert(beds@[k as int] == p);
            return true;
        }
        k += 1;
    }
    false
}

impl State {
    pub open spec fn snapshots(&self) -> Seq<Snapshot> {
        self.history@.map_values(|h: PreviousState| snapshot_of(h))
    }

    pub open spec fn progress(&self) -> Progress {
        Progress {
            bunnies: self.bunnies@,
            move_no: self.move_no,
            history: self.snapshots(),
            won: self.won,
        }
    }

    /// The invariant of a level in play.
    pub open spec fn wf(&self) -> bool {
        &&& self.bunnies@.len() >= 1
        &&& self.bunny_starts@.len() == self.bunnies@.len()
        &&& self.move_no <= self.history@.len()
        &&& forall|k: int|
            0 <= k < self.history@.len() ==> {
                &&& (#[trigger] self.history@[k]).bunnies@.len() == self.bunnies@.len()
                &&& self.history@[k].move_no <= k
            }
        &&& self.won == all_in_beds(self.beds@, self.bunnies@)
        &&& all_on_board(self.board@, self.bunnies@)
        &&& all_on_board(self.board@, self.bunny_starts@)
        &&& forall|k: int| 0 <= k < self.history@.len() ==> all_on_board(self.board@, (#[trigger] self.history@[k]).bunnies@)
        &&& forall|p: Bunny| self.beds@.contains(p) ==> on_board(self.board@, p)
    }

    /// The level itself: what moves, undo and reset leave alone.
    pub open spec fn same_level(&self, other: &State) -> bool {
        &&& self.board == other.board
        &&& self.bunny_starts == other.bunny_starts
        &&& self.beds == other.beds
        &&& self.level_no == other.level_no
        &&& self.policy == other.policy
    }

    /// What bunny `i` hopping in direction `m` makes of the state: `None`
    /// when the hop is refused. A hop of the player is recorded in the
    /// history and counted.
    pub open spec fn after_move(&self, i: int, m: Move) -> Option<Progress> {
        match moved(self.board@, self.policy, self.bunnies@, i, m) {
            None => None,
            Some(es) => Some(
                Progress {
                    bunnies: es,
                    move_no: if i == PLAYER_INDEX { (self.move_no + 1) as usize } else { self.move_no },
                    history: if i == PLAYER_INDEX {
                        self.snapshots().push(Snapshot { move_no: self.move_no, bunnies: self.bunnies@ })
                    } else {
                        self.snapshots()
                    },
                    won: all_in_beds(self.beds@, es),
                },
            ),
        }
    }

    /// What reset makes of the state.
    pub open spec fn after_reset(&self) -> Progress {
        Progress {
            bunnies: self.bunny_starts@,
            move_no: 0,
            history: self.snapshots().push(Snapshot { move_no: self.move_no, bunnies: self.bunnies@ }),
            won: all_in_beds(self.beds@, self.bunny_starts@),
        }
    }

    /// Where every bunny would stand after bunny `bunny_index` hops in
    /// direction `m`, pushing whoever is in the way; `None` when a tree,
    /// the edge of the board or a blocked push stops it. Leaves `self` alone.
    pub fn move_bunny_solve(&self, bunnies: &Vec<Bunny>, bunny_index: usize, m: Move) -> (r: Option<Vec<Bunny>>)
        requires
            bunny_index < bunnies@.len(),
        ensures
            match r {
                None => moved(self.board@, self.policy, bunnies@, bunny_index as int, m) is None,
                Some(v) => moved(self.board@, self.policy, bunnies@, bunny_index as int, m) == Some(v@)
                    && v@.len() == bunnies@.len(),
            },
        decreases room(self.board@, bunnies@[bunny_index as int], m),
    {
        proof {
            reveal(moved);
        }
        let from = bunnies[bunny_index];
        let dest = match next_cell(&self.board, from, m) {
            None => return None,
            Some(d) => d,
        };
        if self.board[dest.row][dest.col] == Tile::Tree {
            return None;
        }
        match find_bunny(bunnies, dest) {
            None => {
                let mut v = copy_bunnies(bunnies);
                v.set(bunny_index, dest);
                Some(v)
            },
            Some(j) => {
                if bunny_index != PLAYER_INDEX && self.policy != PushPolicy::Chains {
                    return None;
                }
                assert(bunnies@[j as int] == dest);
                assert(0 <= room(self.board@, dest, m) < room(self.board@, from, m)) by {
                    match m {
                        Move::Up => {},
                        Move::Down => {},
                        Move::Left => {},
                        Move::Right => {},
                    }
                }
                match self.move_bunny_solve(bunnies, j, m) {
                    None => None,
                    Some(v) => {
                        let mut v = v;
                        v.set(bunny_index, dest);
                        Some(v)
                    },
                }
            },
        }
    }

    /// Whether every sleepy bunny of `bunnies` lies on a bed of this level.
    pub fn check_win_solve(&self, bunnies: &Vec<Bunny>) -> (r: bool)
        ensures
            r == all_in_beds(self.beds@, bunnies@),
    {
        let mut k: usize = 1;
        while k < bunnies.len()
            invariant
                1 <= k,
                forall|j: int| 1 <= j < k && j < bunnies@.len() ==> self.beds@.contains(#[trigger] bunnies@[j]),
            decreases bunnies.len() - k,
        {
            if !in_beds(&self.beds, bunnies[k]) {
                return false;
            }
            k += 1;
        }
        true
    }

    /// Recomputes the win flag from where the bunnies are now.
    pub fn check_win(&mut self)
        ensures
            *final(self) == (State { won: all_in_beds(old(self).beds@, old(self).bunnies@), ..*old(self) }),
    {
        self.won = self.check_win_solve(&self.bunnies);
    }
    /// Bunny `bunny_index` hops in direction `m`, pushing whoever is in the
    /// way. Returns whether it moved; a refused hop changes nothing. A hop
    /// of the player first records the state before it in the history and
    /// then counts one move. The win flag is recomputed.
    pub fn move_bunny(&mut self, bunny_index: usize, m: Move) -> (r: bool)
        requires
            old(self).wf(),
            bunny_index < old(self).bunnies@.len(),
        ensures
            final(self).wf(),
            final(self).same_level(old(self)),
            match old(self).after_move(bunny_index as int, m) {
                None => !r && final(self).progress() == old(self).progress(),
                Some(p) => r && final(self).progress() == p,
            },
    {
        proof {
            push_chain_is_atomic(self.board@, self.policy, self.bunnies@, bunny_index as int, m);
        }
        match self.move_bunny_solve(&self.bunnies, bunny_index, m) {
            None => false,
            Some(v) => {
                let mut before = v;
                std::mem::swap(&mut self.bunnies, &mut before);
                if bunny_index == PLAYER_INDEX {
                    let ghost snaps = self.snapshots();
                    self.history.push(PreviousState { move_no: self.move_no, bunnies: before });
                    assert(self.snapshots() =~= snaps.push(Snapshot { move_no: self.move_no, bunnies: before@ }));
                    // The history's length is a usize and bounds the move count,
                    // so counting this move cannot overflow.
                    let recorded = self.history.len();
                    assert(self.move_no < recorded);
                    self.move_no = self.move_no + 1;
                }
                self.check_win();
                true
            },
        }
    }

    /// Takes back the last move or reset; does nothing when the history is
    /// empty.
    pub fn undo(&mut self)
        requires
            old(self).wf(),
        ensures
            final(self).wf(),
            final(self).same_level(old(self)),
            final(self).progress() == undo_progress(old(self).progress(), old(self).beds@),
    {
        let ghost snaps = self.snapshots();
        match self.history.pop() {
            None => {},
            Some(last) => {
                assert(self.snapshots() =~= snaps.drop_last());
                self.bunnies = last.bunnies;
                self.move_no = last.move_no;
                self.check_win();
            },
        }
    }

    /// Puts every bunny back where the level starts and sets the move count
    /// to zero. The state before is recorded, so a reset can be undone.
    pub fn reset(&mut self)
        requires
            old(self).wf(),
        ensures
            final(self).wf(),
            final(self).same_level(old(self)),
            final(self).progress() == old(self).after_reset(),
    {
        let mut before = copy_bunnies(&self.bunny_starts);
        std::mem::swap(&mut self.bunnies, &mut before);
        let ghost snaps = self.snapshots();
        self.history.push(PreviousState { move_no: self.move_no, bunnies: before });
        assert(self.snapshots() =~= snaps.push(Snapshot { move_no: self.move_no, bunnies: before@ }));
        self.move_no = 0;
        self.check_win();
    }
}

/// A move is a function of the state: two states of one level that agree
/// on their bunnies, move count and history come out of the same move the
/// same way.
pub proof fn move_is_deterministic(s1: &State, s2: &State, i: int, m: Move)
    requires
        s1.board@ == s2.board@,
        s1.beds@ == s2.beds@,
        s1.policy == s2.policy,
        s1.progress() == s2.progress(),
    ensures
        s1.after_move(i, m) == s2.after_move(i, m),
{
}

/// Undo right after a successful move of the player restores exactly the
/// bunnies, move count, history and win flag from before the move.
pub proof fn undo_reverses_move(s: &State, m: Move)
    requires
        s.wf(),
        s.after_move(PLAYER_INDEX as int, m) is Some,
    ensures
        undo_progress(s.after_move(PLAYER_INDEX as int, m)->Some_0, s.beds@) == s.progress(),
{
    let p = s.after_move(PLAYER_INDEX as int, m)->Some_0;
    assert(p.history.drop_last() =~= s.snapshots());
}

/// Moving one sleepy bunny off the beds, to a cell that is no bed, loses a
/// won position.
pub proof fn leaving_a_bed_loses(beds: Seq<Bunny>, es: Seq<Bunny>, k: int, p: Bunny)
    requires
        all_in_beds(beds, es),
        1 <= k < es.len(),
        !beds.contains(p),
    ensures
        !all_in_beds(beds, es.update(k, p)),
{
    assert(es.update(k, p)[k] == p);
}

} // verus!
