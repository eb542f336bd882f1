//! Breadth-first search for the shortest sequence of player moves that
//! puts every sleepy bunny in a bed.
use vstd::prelude::*;

use crate::board::{moved, moved_keeps_count, Bunny, Move, PushPolicy, Tile, PLAYER_INDEX};
use crate::state::{all_in_beds, copy_bunnies, State};
use std::collections::HashMap;
use vstd::wrapping::u64_specs;

verus! {

broadcast use vstd::std_specs::hash::group_hash_axioms;

/// Counters reported by the solver.
#[derive(Clone, Copy, Debug, PartialEq, Eq, Structural)]
pub struct SolveStats {
    /// States taken off the queue.
    pub iters: usize,
    /// States still waiting in the queue when the search stopped.
    pub queue_len: usize,
}

/// A solution: the positions from the start to the won position, the
/// player moves between them, and the search counters.
pub struct Solution {
    pub path: Vec<Vec<Bunny>>,
    pub moves: Vec<Move>,
    pub stats: SolveStats,
}

/// The player makes the moves `ms` in turn from `es`; `None` when one of
/// them is refused.
pub open spec fn play(board: Seq<Vec<Tile>>, policy: PushPolicy, es: Seq<Bunny>, ms: Seq<Move>) -> Option<Seq<Bunny>>
    decreases ms.len(),
{
    if ms.len() == 0 {
        Some(es)
    } else {
        match play(board, policy, es, ms.drop_last()) {
            None => None,
            Some(e) => moved(board, policy, e, PLAYER_INDEX as int, ms.last()),
        }
    }
}

/// The moves `ms` take the player from `es` to a won position.
pub open spec fn solves(board: Seq<Vec<Tile>>, policy: PushPolicy, beds: Seq<Bunny>, es: Seq<Bunny>, ms: Seq<Move>) -> bool {
    &&& play(board, policy, es, ms) is Some
    &&& all_in_beds(beds, play(board, policy, es, ms)->Some_0)
}

/// Each position of `path` comes from the one before by the player move
/// of the same rank in `moves`.
pub open spec fn follows(board: Seq<Vec<Tile>>, policy: PushPolicy, path: Seq<Vec<Bunny>>, moves: Seq<Move>) -> bool {
    &&& path.len() == moves.len() + 1
    &&& forall|t: int|
        0 <= t < moves.len() ==> moved(board, policy, path[t]@, PLAYER_INDEX as int, #[trigger] moves[t]) == Some(path[t + 1]@)
}

/// Every player move out of a state taken off the queue before `head`,
/// unless that state lies at the depth limit, leads to a state already
/// found, at most one level deeper.
pub open spec fn arena_closed(
    board: Seq<Vec<Tile>>,
    policy: PushPolicy,
    states: Seq<Vec<Bunny>>,
    depths: Seq<usize>,
    head: int,
    max_moves: usize,
) -> bool {
    forall|k: int, m: Move|
        0 <= k < head && depths[k] != max_moves && (#[trigger] moved(board, policy, states[k]@, PLAYER_INDEX as int, m)) is Some
            ==> exists|c: int|
            0 <= c < states.len() && states[c]@ == moved(board, policy, states[k]@, PLAYER_INDEX as int, m)->Some_0
                && depths[c] <= depths[k] + 1
}

/// The position in the search order of each direction.
pub open spec fn rank(m: Move) -> int {
    match m {
        Move::Up => 0,
        Move::Down => 1,
        Move::Left => 2,
        Move::Right => 3,
    }
}

fn direction(d: usize) -> (m: Move)
    requires
        d < 4,
    ensures
        rank(m) == d,
{
    if d == 0 {
        Move::Up
    } else if d == 1 {
        Move::Down
    } else if d == 2 {
        Move::Left
    } else {
        Move::Right
    }
}

/// Whether two vectors of positions are equal.
fn same_bunnies(a: &Vec<Bunny>, b: &Vec<Bunny>) -> (r: bool)
    ensures
        r == (a@ == b@),
{
    if a.len() != b.len() {
        return false;
    }
    let mut k: usize = 0;
    while k < a.len()
        invariant
            a@.len() == b@.len(),
            k <= a.len(),
            forall|j: int| 0 <= j < k ==> a@[j] == b@[j],
        decreases a.len() - k,
    {
        if a[k] != b[k] {
            return false;
        }
        k += 1;
    }
    assert(a@ =~= b@);
    true
}

/// One step of the fingerprint: multiply by a prime and add, modulo 2^64.
pub open spec fn mix(h: u64, x: usize) -> u64 {
    u64_specs::wrapping_add(u64_specs::wrapping_mul(h, 1000003), x as u64)
}

/// A 64-bit digest of a vector of positions, used to file states.
pub open spec fn fingerprint_of(es: Seq<Bunny>) -> u64
    decreases es.len(),
{
    if es.len() == 0 {
        0
    } else {
        mix(mix(fingerprint_of(es.drop_last()), es.last().row), es.last().col)
    }
}

fn fingerprint(es: &Vec<Bunny>) -> (r: u64)
    ensures
        r == fingerprint_of(es@),
{
    let mut h: u64 = 0;
    let mut k: usize = 0;
    while k < es.len()
        invariant
            k <= es@.len(),
            h == fingerprint_of(es@.subrange(0, k as int)),
        decreases es.len() - k,
    {
        assert(es@.subrange(0, k as int + 1).drop_last() =~= es@.subrange(0, k as int));
        h = h.wrapping_mul(1000003).wrapping_add(es[k].row as u64);
        h = h.wrapping_mul(1000003).wrapping_add(es[k].col as u64);
        k += 1;
    }
    assert(es@.subrange(0, es@.len() as int) =~= es@);
    h
}

/// The index files every state of the arena under its fingerprint, and
/// holds nothing but arena indices.
pub open spec fn index_ok(index: Map<u64, Vec<usize>>, states: Seq<Vec<Bunny>>) -> bool {
    &&& forall|c: int|
        0 <= c < states.len() ==> index.contains_key(fingerprint_of(#[trigger] states[c]@)) && index[fingerprint_of(
            states[c]@,
        )]@.contains(c as usize)
    &&& forall|h: u64, i: int|
        index.contains_key(h) && 0 <= i < index[h]@.len() ==> (#[trigger] index[h]@[i]) < states.len()
}

/// Files the last state of the arena in the index.
fn record(states: &Vec<Vec<Bunny>>, index: &mut HashMap<u64, Vec<usize>>)
    requires
        states@.len() >= 1,
        index_ok(old(index)@, states@.drop_last()),
    ensures
        index_ok(final(index)@, states@),
{
    let c = states.len() - 1;
    let h = fingerprint(&states[c]);
    let ghost m0 = index@;
    let mut bucket = match index.remove(&h) {
        Some(b) => b,
        None => Vec::new(),
    };
    let ghost b0 = bucket@;
    bucket.push(c);
    index.insert(h, bucket);
    proof {
        let old_states = states@.drop_last();
        assert forall|cc: int| 0 <= cc < states@.len() implies index@.contains_key(fingerprint_of(#[trigger] states@[cc]@))
            && index@[fingerprint_of(states@[cc]@)]@.contains(cc as usize) by {
            if cc < c {
                assert(old_states[cc] == states@[cc]);
                let f = fingerprint_of(states@[cc]@);
                if f == h {
                    let i = choose|i: int| 0 <= i < m0[f]@.len() && m0[f]@[i] == cc as usize;
                    assert(index@[f]@[i] == cc as usize);
                }
            } else {
                assert(index@[h]@[b0.len() as int] == c);
            }
        }
        assert forall|hh: u64, i: int| index@.contains_key(hh) && 0 <= i < index@[hh]@.len() implies (#[trigger] index@[hh]@[i])
            < states@.len() by {
            if hh == h && i < b0.len() {
                assert(index@[hh]@[i] == b0[i]);
                assert(m0[hh]@[i] < old_states.len());
            }
        }
    }
}

/// Index of a state equal to `e`, if one was found already.
fn find_state(states: &Vec<Vec<Bunny>>, index: &HashMap<u64, Vec<usize>>, e: &Vec<Bunny>) -> (r: Option<usize>)
    requires
        index_ok(index@, states@),
    ensures
        match r {
            Some(c) => c < states@.len() && states@[c as int]@ == e@,
            None => forall|c: int| 0 <= c < states@.len() ==> states@[c]@ != e@,
        },
{
    let h = fingerprint(e);
    let n = states.len();
    match index.get(&h) {
        None => {
            assert forall|c: int| 0 <= c < states@.len() implies states@[c]@ != e@ by {
                if states@[c]@ == e@ {
                    assert(index@.contains_key(fingerprint_of(states@[c]@)));
                }
            }
            None
        },
        Some(bucket) => {
            let mut i: usize = 0;
            while i < bucket.len()
                invariant
                    index_ok(index@, states@),
                    index@.contains_key(h),
                    *bucket == index@[h],
                    h == fingerprint_of(e@),
                    i <= bucket@.len(),
                    n == states@.len(),
                    forall|j: int| 0 <= j < i ==> states@[bucket@[j] as int]@ != e@,
                decreases bucket.len() - i,
            {
                let c = bucket[i];
                assert(index@[h]@[i as int] < states@.len());
                if same_bunnies(&states[c], e) {
                    return Some(c);
                }
                i += 1;
            }
            assert forall|c: int| 0 <= c < states@.len() implies states@[c]@ != e@ by {
                if states@[c]@ == e@ {
                    assert(index@[h]@.contains(c as usize));
                    let j = choose|j: int| 0 <= j < bucket@.len() && bucket@[j] == c as usize;
                    assert(states@[bucket@[j] as int]@ != e@);
                }
            }
            None
        },
    }
}

/// `a` comes before `b`: of two move sequences of one length, the first
/// that differs at the first rank where they differ, in the order up,
/// down, left, right.
pub open spec fn lex_lt(a: Seq<Move>, b: Seq<Move>) -> bool
    decreases a.len(),
{
    if a.len() == 0 || a.len() != b.len() {
        false
    } else {
        lex_lt(a.drop_last(), b.drop_last()) || (a.drop_last() == b.drop_last() && rank(a.last()) < rank(b.last()))
    }
}

pub open spec fn lex_le(a: Seq<Move>, b: Seq<Move>) -> bool {
    a == b || lex_lt(a, b)
}

proof fn lemma_lex_irreflexive(a: Seq<Move>)
    ensures
        !lex_lt(a, a),
    decreases a.len(),
{
    if a.len() > 0 {
        lemma_lex_irreflexive(a.drop_last());
    }
}

proof fn lemma_lex_transitive(a: Seq<Move>, b: Seq<Move>, c: Seq<Move>)
    requires
        lex_lt(a, b),
        lex_lt(b, c),
    ensures
        lex_lt(a, c),
    decreases a.len(),
{
    if lex_lt(a.drop_last(), b.drop_last()) && lex_lt(b.drop_last(), c.drop_last()) {
        lemma_lex_transitive(a.drop_last(), b.drop_last(), c.drop_last());
    }
}

proof fn lemma_lex_push(a: Seq<Move>, b: Seq<Move>, x: Move, y: Move)
    requires
        lex_lt(a, b) || (a == b && rank(x) < rank(y)),
    ensures
        lex_lt(a.push(x), b.push(y)),
{
    assert(a.push(x).drop_last() =~= a);
    assert(b.push(y).drop_last() =~= b);
}

/// The moves that led the search from the first state to state `c`.
pub open spec fn path_to(parents: Seq<usize>, via: Seq<Move>, c: int) -> Seq<Move>
    decreases c,
{
    if c <= 0 || c >= parents.len() || c >= via.len() || parents[c] >= c {
        seq![]
    } else {
        path_to(parents, via, parents[c] as int).push(via[c])
    }
}

proof fn lemma_path_to_grows(parents: Seq<usize>, via: Seq<Move>, p: usize, m: Move, c: int)
    requires
        0 <= c < parents.len(),
        parents.len() == via.len(),
    ensures
        path_to(parents.push(p), via.push(m), c) == path_to(parents, via, c),
    decreases c,
{
    if c > 0 && parents[c] < c {
        lemma_path_to_grows(parents, via, p, m, parents[c] as int);
    }
}

/// The search order: the arena lists its states by depth, then by the
/// order of the moves that found them; each state is there once, and the
/// moves that found it are the first, in that order, of all the shortest
/// ways to reach it.
#[verifier::opaque]
pub open spec fn arena_ordered(
    board: Seq<Vec<Tile>>,
    policy: PushPolicy,
    states: Seq<Vec<Bunny>>,
    parents: Seq<usize>,
    depths: Seq<usize>,
    via: Seq<Move>,
) -> bool {
    &&& forall|c: int|
        0 <= c < states.len() ==> (#[trigger] path_to(parents, via, c)).len() + 1 == depths[c] && play(
            board,
            policy,
            states[0]@,
            path_to(parents, via, c),
        ) == Some(states[c]@)
    &&& forall|a: int, b: int|
        #![trigger depths[a], depths[b]]
        0 <= a < b < states.len() ==> depths[a] < depths[b] || (depths[a] == depths[b] && lex_lt(
            path_to(parents, via, a),
            path_to(parents, via, b),
        ))
    &&& forall|a: int, b: int|
        #![trigger states[a], states[b]]
        0 <= a < states.len() && 0 <= b < states.len() && a != b ==> states[a]@ != states[b]@
    &&& forall|c: int, ms: Seq<Move>|
        #![trigger states[c], play(board, policy, states[0]@, ms)]
        0 <= c < states.len() && play(board, policy, states[0]@, ms) == Some(states[c]@) && ms.len() + 1 == depths[c]
            ==> lex_le(path_to(parents, via, c), ms)
}

/// Appending the state that move `m` finds from state `k`, when it is new
/// and every earlier move out of `k` was tried, keeps the search order.
proof fn lemma_order_grows(
    board: Seq<Vec<Tile>>,
    policy: PushPolicy,
    max_moves: usize,
    states: Seq<Vec<Bunny>>,
    parents: Seq<usize>,
    depths: Seq<usize>,
    via: Seq<Move>,
    k: int,
    m: Move,
    cand: Vec<Bunny>,
)
    requires
        arena_ok(board, policy, states[0]@, max_moves, states, parents, depths, via),
        arena_ordered(board, policy, states, parents, depths, via),
        arena_closed(board, policy, states, depths, k, max_moves),
        0 <= k < states.len(),
        states.len() < usize::MAX,
        depths[k] != max_moves,
        depths[states.len() - 1] <= depths[k] + 1,
        forall|a: int| 1 <= a < states.len() ==> #[trigger] parents[a] <= k,
        forall|a: int| 1 <= a < states.len() && parents[a] == k ==> rank(#[trigger] via[a]) < rank(m),
        forall|mm: Move|
            rank(mm) < rank(m) && (#[trigger] moved(board, policy, states[k]@, PLAYER_INDEX as int, mm)) is Some
                ==> exists|c: int|
                0 <= c < states.len() && states[c]@ == moved(board, policy, states[k]@, PLAYER_INDEX as int, mm)->Some_0,
        moved(board, policy, states[k]@, PLAYER_INDEX as int, m) == Some(cand@),
        forall|c: int| 0 <= c < states.len() ==> states[c]@ != cand@,
    ensures
        arena_ordered(
            board,
            policy,
            states.push(cand),
            parents.push(k as usize),
            depths.push((depths[k] + 1) as usize),
            via.push(m),
        ),
{
    reveal(arena_ordered);
    let n = states.len() as int;
    let s2 = states.push(cand);
    let p2 = parents.push(k as usize);
    let d2 = depths.push((depths[k] + 1) as usize);
    let v2 = via.push(m);
    let start = states[0]@;
    let dk = depths[k];
    assert(s2[0] == states[0]);
    assert forall|c: int| 0 <= c < n implies path_to(p2, v2, c) == path_to(parents, via, c) by {
        lemma_path_to_grows(parents, via, k as usize, m, c);
    }
    let pk = path_to(parents, via, k);
    assert(path_to(p2, v2, n) == pk.push(m));
    assert(pk.push(m).drop_last() =~= pk);
    // the new state is reached by its moves
    assert forall|c: int| 0 <= c < s2.len() implies (#[trigger] path_to(p2, v2, c)).len() + 1 == d2[c] && play(
        board,
        policy,
        s2[0]@,
        path_to(p2, v2, c),
    ) == Some(s2[c]@) by {
        if c < n {
            assert(s2[c] == states[c]);
            assert(path_to(parents, via, c).len() + 1 == depths[c]);
        }
    }
    // the order
    assert forall|a: int, b: int|
        #![trigger d2[a], d2[b]]
        0 <= a < b < s2.len() implies d2[a] < d2[b] || (d2[a] == d2[b] && lex_lt(path_to(p2, v2, a), path_to(p2, v2, b))) by {
        if b == n {
            assert(d2[a] == depths[a]);
            assert(depths[a] <= depths[n - 1]);
            if depths[a] == dk + 1 {
                assert(a >= 1);
                let pa = parents[a] as int;
                assert(path_to(parents, via, a) == path_to(parents, via, pa).push(via[a]));
                assert(depths[pa] == dk);
                if pa < k {
                    assert(depths[pa] < depths[k] || lex_lt(path_to(parents, via, pa), pk));
                    lemma_lex_push(path_to(parents, via, pa), pk, via[a], m);
                } else {
                    lemma_lex_push(path_to(parents, via, pa), pk, via[a], m);
                }
            }
        } else {
            assert(d2[a] == depths[a] && d2[b] == depths[b]);
        }
    }
    // each state once
    assert forall|a: int, b: int|
        #![trigger s2[a], s2[b]]
        0 <= a < s2.len() && 0 <= b < s2.len() && a != b implies s2[a]@ != s2[b]@ by {
        if a < n && b < n {
            assert(s2[a] == states[a] && s2[b] == states[b]);
        } else if a < n {
            assert(s2[a] == states[a]);
        } else {
            assert(s2[b] == states[b]);
        }
    }
    // first shortest way
    assert forall|c: int, ms: Seq<Move>|
        #![trigger s2[c], play(board, policy, s2[0]@, ms)]
        0 <= c < s2.len() && play(board, policy, s2[0]@, ms) == Some(s2[c]@) && ms.len() + 1 == d2[c] implies lex_le(
            path_to(p2, v2, c),
            ms,
        ) by {
        if c < n {
            assert(s2[c] == states[c]);
        } else {
            let pre = ms.drop_last();
            let last = ms.last();
            let e = play(board, policy, start, pre);
            assert(e is Some);
            assert(moved(board, policy, e->Some_0, PLAYER_INDEX as int, last) == Some(cand@));
            assert forall|c: int| 0 <= c < states.len() && depths[c] < dk implies c < k && depths[c] != max_moves by {
                if c >= k {
                    assert(depths[k] <= depths[c]);
                }
            }
            lemma_reached(board, policy, states, depths, k, max_moves, pre, dk as int);
            let c1 = choose|c1: int| 0 <= c1 < states.len() && states[c1]@ == e->Some_0 && depths[c1] <= pre.len() + 1;
            if c1 < k {
                assert(depths[c1] <= depths[k]);
                assert(moved(board, policy, states[c1]@, PLAYER_INDEX as int, last) is Some);
            } else {
                assert(depths[k] <= depths[c1]);
                assert(play(board, policy, states[0]@, pre) == Some(states[c1]@));
                assert(lex_le(path_to(parents, via, c1), pre));
                if c1 == k {
                    if pk == pre {
                        if rank(last) < rank(m) {
                            assert(moved(board, policy, states[k]@, PLAYER_INDEX as int, last) is Some);
                        } else if rank(last) == rank(m) {
                            assert(last == m);
                            assert(ms =~= pk.push(m));
                        } else {
                            lemma_lex_push(pk, pre, m, last);
                            assert(ms =~= pre.push(last));
                        }
                    } else {
                        lemma_lex_push(pk, pre, m, last);
                        assert(ms =~= pre.push(last));
                    }
                } else {
                    assert(lex_lt(pk, path_to(parents, via, c1)));
                    if path_to(parents, via, c1) != pre {
                        lemma_lex_transitive(pk, path_to(parents, via, c1), pre);
                    }
                    lemma_lex_push(pk, pre, m, last);
                    assert(ms =~= pre.push(last));
                }
            }
        }
    }
}

/// Whatever a sequence of moves reaches from the first state, within the
/// depth that the search has fully expanded, was found, no deeper than the
/// number of moves plus one.
proof fn lemma_reached(
    board: Seq<Vec<Tile>>,
    policy: PushPolicy,
    states: Seq<Vec<Bunny>>,
    depths: Seq<usize>,
    head: int,
    max_moves: usize,
    ms: Seq<Move>,
    limit: int,
)
    requires
        arena_closed(board, policy, states, depths, head, max_moves),
        states.len() == depths.len(),
        1 <= states.len(),
        depths[0] == 1,
        head <= states.len(),
        forall|c: int| 0 <= c < states.len() && depths[c] < limit ==> c < head && depths[c] != max_moves,
        play(board, policy, states[0]@, ms) is Some,
        ms.len() + 1 <= limit,
    ensures
        exists|c: int|
            0 <= c < states.len() && states[c]@ == play(board, policy, states[0]@, ms)->Some_0 && depths[c] <= ms.len() + 1,
    decreases ms.len(),
{
    if ms.len() == 0 {
        assert(states[0]@ == play(board, policy, states[0]@, ms)->Some_0);
    } else {
        let pre = ms.drop_last();
        lemma_reached(board, policy, states, depths, head, max_moves, pre, limit);
        let c0 = choose|c: int|
            0 <= c < states.len() && states[c]@ == play(board, policy, states[0]@, pre)->Some_0 && depths[c] <= pre.len() + 1;
        assert(moved(board, policy, states[c0]@, PLAYER_INDEX as int, ms.last()) is Some);
    }
}


/// The search arena is consistent: every state but the first was found by
/// one player move from its parent, one level deeper; depths never
/// decrease along the arena and stay within the depth budget.
pub open spec fn arena_ok(
    board: Seq<Vec<Tile>>,
    policy: PushPolicy,
    start: Seq<Bunny>,
    max_moves: usize,
    states: Seq<Vec<Bunny>>,
    parents: Seq<usize>,
    depths: Seq<usize>,
    via: Seq<Move>,
) -> bool {
    &&& states.len() == parents.len()
    &&& states.len() == depths.len()
    &&& states.len() == via.len()
    &&& 1 <= states.len()
    &&& states[0]@ == start
    &&& depths[0] == 1
    &&& forall|c: int|
        1 <= c < states.len() ==> {
            &&& #[trigger] parents[c] < c
            &&& depths[c] == depths[parents[c] as int] + 1
            &&& moved(board, policy, states[parents[c] as int]@, PLAYER_INDEX as int, via[c]) == Some(states[c]@)
        }
    &&& forall|c: int| 0 <= c < states.len() ==> (#[trigger] states[c])@.len() == start.len()
    &&& forall|a: int, b: int| 0 <= a <= b < states.len() ==> depths[a] <= depths[b]
    &&& forall|c: int|
        0 <= c < states.len() ==> 1 <= #[trigger] depths[c] <= c + 1 && (max_moves >= 1 ==> depths[c] <= max_moves)
}

/// Closure of the expanded states survives the growth of the arena.
proof fn lemma_closed_grows(
    board: Seq<Vec<Tile>>,
    policy: PushPolicy,
    s1: Seq<Vec<Bunny>>,
    d1: Seq<usize>,
    s2: Seq<Vec<Bunny>>,
    d2: Seq<usize>,
    head: int,
    max_moves: usize,
)
    requires
        arena_closed(board, policy, s1, d1, head, max_moves),
        head <= s1.len(),
        s1.len() == d1.len(),
        s1.len() <= s2.len(),
        s1.len() <= d2.len(),
        forall|c: int| 0 <= c < s1.len() ==> s2[c] == s1[c] && d2[c] == d1[c],
    ensures
        arena_closed(board, policy, s2, d2, head, max_moves),
{
    assert forall|k: int, m: Move|
        0 <= k < head && d2[k] != max_moves && (#[trigger] moved(board, policy, s2[k]@, PLAYER_INDEX as int, m)) is Some
            implies exists|c: int|
            0 <= c < s2.len() && s2[c]@ == moved(board, policy, s2[k]@, PLAYER_INDEX as int, m)->Some_0
                && d2[c] <= d2[k] + 1 by {
        assert(s2[k] == s1[k]);
        assert(moved(board, policy, s1[k]@, PLAYER_INDEX as int, m) is Some);
        let c = choose|c: int|
            0 <= c < s1.len() && s1[c]@ == moved(board, policy, s1[k]@, PLAYER_INDEX as int, m)->Some_0
                && d1[c] <= d1[k] + 1;
        assert(s2[c] == s1[c]);
    }
}

/// Appends `cand`, found by move `m` from state `k`, to the arena.
/// Appending a state found by one move from state `k` keeps the arena
/// consistent.
proof fn lemma_push_ok(
    board: Seq<Vec<Tile>>,
    policy: PushPolicy,
    start: Seq<Bunny>,
    max_moves: usize,
    s0: Seq<Vec<Bunny>>,
    p0: Seq<usize>,
    d0: Seq<usize>,
    v0: Seq<Move>,
    k: int,
    m: Move,
    cand: Vec<Bunny>,
)
    requires
        arena_ok(board, policy, start, max_moves, s0, p0, d0, v0),
        0 <= k < s0.len(),
        s0.len() < usize::MAX,
        start.len() >= 1,
        d0[k] != max_moves,
        d0[s0.len() - 1] <= d0[k] + 1,
        moved(board, policy, s0[k]@, PLAYER_INDEX as int, m) == Some(cand@),
    ensures
        arena_ok(board, policy, start, max_moves, s0.push(cand), p0.push(k as usize), d0.push((d0[k] + 1) as usize), v0.push(m)),
{
    moved_keeps_count(board, policy, s0[k]@, PLAYER_INDEX as int, m);
    let n = s0.len() as int;
    let states = s0.push(cand);
    let parents = p0.push(k as usize);
    let depths = d0.push((d0[k] + 1) as usize);
    let via = v0.push(m);
    assert(states[n] == cand);
    assert forall|cc: int|
        1 <= cc < states.len() implies {
            &&& #[trigger] parents[cc] < cc
            &&& depths[cc] == depths[parents[cc] as int] + 1
            &&& moved(board, policy, states[parents[cc] as int]@, PLAYER_INDEX as int, via[cc]) == Some(states[cc]@)
        } by {
        if cc < n {
            assert(states[cc] == s0[cc]);
            assert(states[parents[cc] as int] == s0[p0[cc] as int]);
        } else {
            assert(parents[cc] == k);
            assert(states[k] == s0[k]);
            assert(depths[k] == d0[k]);
        }
    }
    assert forall|cc: int| 0 <= cc < states.len() implies (#[trigger] states[cc])@.len() == start.len() by {
        if cc < n {
            assert(states[cc] == s0[cc]);
        }
    }
    assert forall|a: int, b: int| 0 <= a <= b < states.len() implies depths[a] <= depths[b] by {
        if b == n && a < n {
            assert(depths[a] == d0[a]);
            assert(d0[a] <= d0[n - 1]);
        } else if b < n {
            assert(depths[a] == d0[a]);
            assert(depths[b] == d0[b]);
        }
    }
    assert forall|cc: int| 0 <= cc < states.len() implies 1 <= #[trigger] depths[cc] <= cc + 1 && (max_moves >= 1 ==> depths[cc] <= max_moves) by {
        if cc < n {
            assert(depths[cc] == d0[cc]);
        }
    }
}

fn add_state(
    state: &State,
    max_moves: usize,
    states: &mut Vec<Vec<Bunny>>,
    parents: &mut Vec<usize>,
    depths: &mut Vec<usize>,
    via: &mut Vec<Move>,
    index: &mut HashMap<u64, Vec<usize>>,
    k: usize,
    m: Move,
    cand: Vec<Bunny>,
)
    requires
        index_ok(old(index)@, old(states)@),
        arena_ok(state.board@, state.policy, state.bunnies@, max_moves, old(states)@, old(parents)@, old(depths)@, old(via)@),
        arena_ordered(state.board@, state.policy, old(states)@, old(parents)@, old(depths)@, old(via)@),
        arena_closed(state.board@, state.policy, old(states)@, old(depths)@, k as int, max_moves),
        forall|a: int| 1 <= a < old(states)@.len() ==> #[trigger] old(parents)@[a] <= k,
        forall|a: int| 1 <= a < old(states)@.len() && old(parents)@[a] == k ==> rank(#[trigger] old(via)@[a]) < rank(m),
        forall|mm: Move|
            rank(mm) < rank(m) && (#[trigger] moved(state.board@, state.policy, old(states)@[k as int]@, PLAYER_INDEX as int, mm)) is Some
                ==> exists|c: int|
                0 <= c < old(states)@.len() && old(states)@[c]@ == moved(
                    state.board@,
                    state.policy,
                    old(states)@[k as int]@,
                    PLAYER_INDEX as int,
                    mm,
                )->Some_0,
        forall|c: int| 0 <= c < old(states)@.len() ==> old(states)@[c]@ != cand@,
        k < old(states)@.len(),
        state.bunnies@.len() >= 1,
        old(depths)@[k as int] != max_moves,
        old(depths)@[old(states)@.len() - 1] <= old(depths)@[k as int] + 1,
        moved(state.board@, state.policy, old(states)@[k as int]@, PLAYER_INDEX as int, m) == Some(cand@),
    ensures
        arena_ok(state.board@, state.policy, state.bunnies@, max_moves, final(states)@, final(parents)@, final(depths)@, final(via)@),
        final(states)@ == old(states)@.push(cand),
        final(depths)@ == old(depths)@.push((old(depths)@[k as int] + 1) as usize),
        index_ok(final(index)@, final(states)@),
        arena_ordered(state.board@, state.policy, final(states)@, final(parents)@, final(depths)@, final(via)@),
        final(parents)@ == old(parents)@.push(k),
        final(via)@ == old(via)@.push(m),
{
    let ghost s0 = states@;
    let ghost p0 = parents@;
    let ghost d0 = depths@;
    let ghost v0 = via@;
    let dk = depths[k];
    let ghost cv = cand;
    states.push(cand);
    let c = states.len() - 1;
    proof {
        lemma_push_ok(state.board@, state.policy, state.bunnies@, max_moves, s0, p0, d0, v0, k as int, m, cv);
        lemma_order_grows(state.board@, state.policy, max_moves, s0, p0, d0, v0, k as int, m, cv);
    }
    parents.push(k);
    depths.push(dk + 1);
    via.push(m);
    proof {
        assert(states@.drop_last() =~= s0);
    }
    record(states, index);
}

/// Tries the four player moves out of state `k`, in the order up, down,
/// left, right, and appends each new state to the arena.
fn expand(
    state: &State,
    max_moves: usize,
    states: &mut Vec<Vec<Bunny>>,
    parents: &mut Vec<usize>,
    depths: &mut Vec<usize>,
    via: &mut Vec<Move>,
    index: &mut HashMap<u64, Vec<usize>>,
    k: usize,
)
    requires
        index_ok(old(index)@, old(states)@),
        arena_ok(state.board@, state.policy, state.bunnies@, max_moves, old(states)@, old(parents)@, old(depths)@, old(via)@),
        arena_ordered(state.board@, state.policy, old(states)@, old(parents)@, old(depths)@, old(via)@),
        arena_closed(state.board@, state.policy, old(states)@, old(depths)@, k as int, max_moves),
        forall|a: int| 1 <= a < old(states)@.len() ==> #[trigger] old(parents)@[a] < k,
        k < old(states)@.len(),
        old(depths)@[k as int] != max_moves,
        old(depths)@[old(states)@.len() - 1] <= old(depths)@[k as int] + 1,
        state.bunnies@.len() >= 1,
    ensures
        arena_ok(state.board@, state.policy, state.bunnies@, max_moves, final(states)@, final(parents)@, final(depths)@, final(via)@),
        index_ok(final(index)@, final(states)@),
        arena_ordered(state.board@, state.policy, final(states)@, final(parents)@, final(depths)@, final(via)@),
        forall|a: int| 1 <= a < final(states)@.len() ==> #[trigger] final(parents)@[a] <= k,
        old(states)@.len() <= final(states)@.len(),
        forall|c: int| 0 <= c < old(states)@.len() ==> final(states)@[c] == old(states)@[c] && final(depths)@[c] == old(depths)@[c],
        final(depths)@[final(states)@.len() - 1] <= final(depths)@[k as int] + 1,
        forall|m: Move|
            (#[trigger] moved(state.board@, state.policy, final(states)@[k as int]@, PLAYER_INDEX as int, m)) is Some
                ==> exists|c: int|
                0 <= c < final(states)@.len() && final(states)@[c]@ == moved(
                    state.board@,
                    state.policy,
                    final(states)@[k as int]@,
                    PLAYER_INDEX as int,
                    m,
                )->Some_0 && final(depths)@[c] <= final(depths)@[k as int] + 1,
{
    let ghost board = state.board@;
    let ghost policy = state.policy;
    let ghost s0 = states@;
    let ghost d0 = depths@;
    let mut d: usize = 0;
    while d < 4
        invariant
            arena_ok(board, policy, state.bunnies@, max_moves, states@, parents@, depths@, via@),
            index_ok(index@, states@),
            arena_ordered(board, policy, states@, parents@, depths@, via@),
            arena_closed(board, policy, states@, depths@, k as int, max_moves),
            forall|a: int| 1 <= a < states@.len() ==> #[trigger] parents@[a] <= k,
            forall|a: int| 1 <= a < states@.len() && parents@[a] == k ==> rank(#[trigger] via@[a]) < d,
            board == state.board@,
            policy == state.policy,
            state.bunnies@.len() >= 1,
            k < s0.len(),
            s0.len() <= states@.len(),
            forall|c: int| 0 <= c < s0.len() ==> states@[c] == s0[c] && depths@[c] == d0[c],
            depths@[k as int] != max_moves,
            depths@[states@.len() - 1] <= depths@[k as int] + 1,
            forall|m: Move|
                rank(m) < d && (#[trigger] moved(board, policy, states@[k as int]@, PLAYER_INDEX as int, m)) is Some
                    ==> exists|c: int|
                    0 <= c < states@.len() && states@[c]@ == moved(board, policy, states@[k as int]@, PLAYER_INDEX as int, m)->Some_0
                        && depths@[c] <= depths@[k as int] + 1,
        decreases 4 - d,
    {
        let m = direction(d);
        assert(states@[k as int]@.len() >= 1);
        match state.move_bunny_solve(&states[k], PLAYER_INDEX, m) {
            None => {},
            Some(cand) => {
                match find_state(states, index, &cand) {
                    Some(c) => {
                        assert(depths@[c as int] <= depths@[states@.len() - 1]);
                    },
                    None => {
                        let ghost s1 = states@;
                        let ghost d1 = depths@;
                        add_state(state, max_moves, states, parents, depths, via, index, k, m, cand);
                        proof {
                            lemma_closed_grows(board, policy, s1, d1, states@, depths@, k as int, max_moves);
                        }
                        assert forall|mm: Move|
                            rank(mm) <= d && (#[trigger] moved(board, policy, states@[k as int]@, PLAYER_INDEX as int, mm)) is Some
                                implies exists|cc: int|
                            0 <= cc < states@.len() && states@[cc]@ == moved(
                                board,
                                policy,
                                states@[k as int]@,
                                PLAYER_INDEX as int,
                                mm,
                            )->Some_0 && depths@[cc] <= depths@[k as int] + 1 by {
                            assert(states@[k as int] == s1[k as int]);
                            if rank(mm) < d {
                                let cc = choose|cc: int|
                                    0 <= cc < s1.len() && s1[cc]@ == moved(board, policy, s1[k as int]@, PLAYER_INDEX as int, mm)->Some_0
                                        && d1[cc] <= d1[k as int] + 1;
                                assert(states@[cc] == s1[cc]);
                            } else {
                                assert(mm == m);
                                assert(states@[s1.len() as int] == cand);
                            }
                        }
                    },
                }
            },
        }
        d = d + 1;
    }
    assert forall|m: Move|
        (#[trigger] moved(board, policy, states@[k as int]@, PLAYER_INDEX as int, m)) is Some
            implies exists|c: int|
            0 <= c < states@.len() && states@[c]@ == moved(board, policy, states@[k as int]@, PLAYER_INDEX as int, m)->Some_0
                && depths@[c] <= depths@[k as int] + 1 by {
        assert(rank(m) < 4);
    }
}

/// When the queue runs dry without a win, no sequence of moves within the
/// depth budget wins.
proof fn lemma_exhausted(
    board: Seq<Vec<Tile>>,
    policy: PushPolicy,
    beds: Seq<Bunny>,
    max_moves: usize,
    states: Seq<Vec<Bunny>>,
    parents: Seq<usize>,
    depths: Seq<usize>,
    via: Seq<Move>,
    head: int,
)
    requires
        arena_ok(board, policy, states[0]@, max_moves, states, parents, depths, via),
        head == states.len(),
        arena_closed(board, policy, states, depths, head, max_moves),
        forall|k: int| 0 <= k < head ==> !all_in_beds(beds, (#[trigger] states[k])@),
    ensures
        forall|ms: Seq<Move>|
            (max_moves == 0 || ms.len() + 1 <= max_moves) ==> !solves(board, policy, beds, states[0]@, ms),
{
    assert forall|ms: Seq<Move>| (max_moves == 0 || ms.len() + 1 <= max_moves) implies !solves(
        board,
        policy,
        beds,
        states[0]@,
        ms,
    ) by {
        if solves(board, policy, beds, states[0]@, ms) {
            let limit: int = if max_moves == 0 { ms.len() + 1int } else { max_moves as int };
            lemma_reached(board, policy, states, depths, head, max_moves, ms, limit);
        }
    }
}

/// The first won state taken off the queue lies at the least depth of any
/// won position: no shorter sequence of moves wins.
proof fn lemma_shortest(
    board: Seq<Vec<Tile>>,
    policy: PushPolicy,
    beds: Seq<Bunny>,
    max_moves: usize,
    states: Seq<Vec<Bunny>>,
    parents: Seq<usize>,
    depths: Seq<usize>,
    via: Seq<Move>,
    k: int,
)
    requires
        arena_ok(board, policy, states[0]@, max_moves, states, parents, depths, via),
        0 <= k < states.len(),
        arena_closed(board, policy, states, depths, k, max_moves),
        forall|j: int| 0 <= j < k ==> !all_in_beds(beds, (#[trigger] states[j])@),
    ensures
        forall|ms: Seq<Move>| solves(board, policy, beds, states[0]@, ms) ==> depths[k] <= ms.len() + 1,
{
    assert forall|ms: Seq<Move>| solves(board, policy, beds, states[0]@, ms) implies depths[k] <= ms.len() + 1 by {
        if ms.len() + 1 < depths[k] {
            assert forall|c: int| 0 <= c < states.len() && depths[c] < depths[k] implies c < k && depths[c] != max_moves by {
                if c >= k {
                    assert(depths[k] <= depths[c]);
                }
            }
            lemma_reached(board, policy, states, depths, k, max_moves, ms, depths[k] as int);
            let c = choose|c: int|
                0 <= c < states.len() && states[c]@ == play(board, policy, states[0]@, ms)->Some_0 && depths[c] <= ms.len() + 1;
            if c >= k {
                assert(depths[k] <= depths[c]);
            }
        }
    }
}

/// The first won state taken off the queue was found by the first, in the
/// order up, down, left, right, of the shortest winning sequences.
proof fn lemma_first_of_shortest(
    board: Seq<Vec<Tile>>,
    policy: PushPolicy,
    beds: Seq<Bunny>,
    max_moves: usize,
    states: Seq<Vec<Bunny>>,
    parents: Seq<usize>,
    depths: Seq<usize>,
    via: Seq<Move>,
    f: int,
)
    requires
        arena_ok(board, policy, states[0]@, max_moves, states, parents, depths, via),
        arena_ordered(board, policy, states, parents, depths, via),
        0 <= f < states.len(),
        arena_closed(board, policy, states, depths, f, max_moves),
        forall|j: int| 0 <= j < f ==> !all_in_beds(beds, (#[trigger] states[j])@),
    ensures
        forall|ms: Seq<Move>|
            solves(board, policy, beds, states[0]@, ms) && ms.len() + 1 == depths[f] ==> lex_le(path_to(parents, via, f), ms),
{
    reveal(arena_ordered);
    assert forall|ms: Seq<Move>| solves(board, policy, beds, states[0]@, ms) && ms.len() + 1 == depths[f] implies lex_le(
        path_to(parents, via, f),
        ms,
    ) by {
        assert forall|c: int| 0 <= c < states.len() && depths[c] < depths[f] implies c < f && depths[c] != max_moves by {
            if c >= f {
                assert(depths[f] <= depths[c]);
            }
        }
        lemma_reached(board, policy, states, depths, f, max_moves, ms, depths[f] as int);
        let c = choose|c: int|
            0 <= c < states.len() && states[c]@ == play(board, policy, states[0]@, ms)->Some_0 && depths[c] <= ms.len() + 1;
        if c < f {
            assert(!all_in_beds(beds, states[c]@));
        } else {
            assert(depths[f] <= depths[c]);
            assert(lex_le(path_to(parents, via, c), ms));
            if c > f {
                assert(lex_lt(path_to(parents, via, f), path_to(parents, via, c)));
                if path_to(parents, via, c) != ms {
                    lemma_lex_transitive(path_to(parents, via, f), path_to(parents, via, c), ms);
                }
            }
        }
    }
}

/// Positions that follow the same moves from the same start are the same.
proof fn lemma_follows_agree(
    board: Seq<Vec<Tile>>,
    policy: PushPolicy,
    a: Seq<Vec<Bunny>>,
    b: Seq<Vec<Bunny>>,
    moves: Seq<Move>,
    t: int,
)
    requires
        follows(board, policy, a, moves),
        follows(board, policy, b, moves),
        a[0]@ == b[0]@,
        0 <= t < a.len(),
    ensures
        a[t]@ == b[t]@,
    decreases t,
{
    if t > 0 {
        lemma_follows_agree(board, policy, a, b, moves, t - 1);
        assert(moved(board, policy, a[t - 1]@, PLAYER_INDEX as int, moves[t - 1]) == Some(a[t]@));
    }
}

/// The solver's answer is a function of the level: two answers from one
/// start that both win in the fewest moves, and whose moves both come
/// first in the order up, down, left, right among such sequences, have the
/// same moves and pass through the same positions.
pub proof fn solutions_agree(
    board: Seq<Vec<Tile>>,
    policy: PushPolicy,
    beds: Seq<Bunny>,
    start: Seq<Bunny>,
    path_a: Seq<Vec<Bunny>>,
    moves_a: Seq<Move>,
    path_b: Seq<Vec<Bunny>>,
    moves_b: Seq<Move>,
)
    requires
        path_a.len() >= 1 && path_a[0]@ == start && follows(board, policy, path_a, moves_a),
        path_b.len() >= 1 && path_b[0]@ == start && follows(board, policy, path_b, moves_b),
        solves(board, policy, beds, start, moves_a),
        solves(board, policy, beds, start, moves_b),
        forall|ms: Seq<Move>| solves(board, policy, beds, start, ms) ==> moves_a.len() <= ms.len(),
        forall|ms: Seq<Move>| solves(board, policy, beds, start, ms) ==> moves_b.len() <= ms.len(),
        forall|ms: Seq<Move>| solves(board, policy, beds, start, ms) && ms.len() == moves_a.len() ==> lex_le(moves_a, ms),
        forall|ms: Seq<Move>| solves(board, policy, beds, start, ms) && ms.len() == moves_b.len() ==> lex_le(moves_b, ms),
    ensures
        moves_a == moves_b,
        path_a.len() == path_b.len(),
        forall|t: int| 0 <= t < path_a.len() ==> (#[trigger] path_a[t])@ == path_b[t]@,
{
    assert(moves_a.len() == moves_b.len());
    assert(lex_le(moves_a, moves_b));
    assert(lex_le(moves_b, moves_a));
    if moves_a != moves_b {
        lemma_lex_transitive(moves_a, moves_b, moves_a);
        lemma_lex_irreflexive(moves_a);
    }
    assert forall|t: int| 0 <= t < path_a.len() implies (#[trigger] path_a[t])@ == path_b[t]@ by {
        lemma_follows_agree(board, policy, path_a, path_b, moves_a, t);
    }
}

/// Some sequence of at most `n` player moves leads from `start` to `e`.
pub open spec fn reached_in(board: Seq<Vec<Tile>>, policy: PushPolicy, start: Seq<Bunny>, e: Seq<Bunny>, n: int) -> bool {
    exists|ps: Seq<Move>| ps.len() <= n && play(board, policy, start, ps) == Some(e)
}

/// A sequence of `n` moves stays within the depth budget: the start counts
/// as one level, and 0 means no budget.
pub open spec fn within_depth(max_moves: usize, n: int) -> bool {
    max_moves == 0 || n + 1 <= max_moves
}

/// Some sequence of player moves within the depth budget leads from
/// `start` to `e`.
pub open spec fn reachable(board: Seq<Vec<Tile>>, policy: PushPolicy, start: Seq<Bunny>, max_moves: usize, e: Seq<Bunny>) -> bool {
    exists|ps: Seq<Move>| within_depth(max_moves, ps.len() as int) && play(board, policy, start, ps) == Some(e)
}

/// The positions of the states of an arena.
pub open spec fn views(states: Seq<Vec<Bunny>>) -> Seq<Seq<Bunny>> {
    states.map_values(|v: Vec<Bunny>| v@)
}

/// `seen` lists once each the states taken off the queue before a won one
/// found in `n` moves: none is won, each is reached in at most `n` moves,
/// and every state reached in fewer than `n` moves is among them.
#[verifier::opaque]
pub open spec fn dequeued_before_win(
    board: Seq<Vec<Tile>>,
    policy: PushPolicy,
    beds: Seq<Bunny>,
    start: Seq<Bunny>,
    seen: Seq<Seq<Bunny>>,
    n: int,
) -> bool {
    &&& seen.no_duplicates()
    &&& forall|i: int|
        0 <= i < seen.len() ==> !all_in_beds(beds, #[trigger] seen[i]) && reached_in(board, policy, start, seen[i], n)
    &&& forall|e: Seq<Bunny>| #[trigger] reached_in(board, policy, start, e, n - 1) ==> seen.contains(e)
}

/// `seen` lists once each states that are not won, each reachable within
/// the depth budget and in no more moves than any winning sequence.
#[verifier::opaque]
pub open spec fn dequeued_unwon(
    board: Seq<Vec<Tile>>,
    policy: PushPolicy,
    beds: Seq<Bunny>,
    start: Seq<Bunny>,
    max_moves: usize,
    seen: Seq<Seq<Bunny>>,
) -> bool {
    &&& seen.no_duplicates()
    &&& forall|i: int|
        0 <= i < seen.len() ==> {
            &&& !all_in_beds(beds, #[trigger] seen[i])
            &&& reachable(board, policy, start, max_moves, seen[i])
            &&& forall|ms: Seq<Move>|
                #[trigger] solves(board, policy, beds, start, ms) ==> reached_in(board, policy, start, seen[i], ms.len() as int)
        }
}

/// `seen` lists once each exactly the states reachable within the depth
/// budget.
#[verifier::opaque]
pub open spec fn all_reachable(board: Seq<Vec<Tile>>, policy: PushPolicy, start: Seq<Bunny>, max_moves: usize, seen: Seq<Seq<Bunny>>) -> bool {
    &&& seen.no_duplicates()
    &&& forall|e: Seq<Bunny>| seen.contains(e) <==> #[trigger] reachable(board, policy, start, max_moves, e)
}

/// What the solver owes when it gives up: either the iteration budget, a
/// real one, ran out on `max_iters` distinct unwon states that no winning
/// sequence could have skipped; or the queue ran dry, no sequence within
/// the depth budget wins, and `iters` counts exactly the states reachable
/// within that budget.
#[verifier::opaque]
pub open spec fn gave_up(
    board: Seq<Vec<Tile>>,
    policy: PushPolicy,
    beds: Seq<Bunny>,
    start: Seq<Bunny>,
    max_moves: usize,
    max_iters: usize,
    stats: SolveStats,
) -> bool {
    ({
        &&& max_iters != 0
        &&& stats.iters == max_iters
        &&& exists|seen: Seq<Seq<Bunny>>|
            seen.len() == max_iters && #[trigger] dequeued_unwon(board, policy, beds, start, max_moves, seen)
    }) || ({
        &&& stats.queue_len == 0
        &&& forall|ms: Seq<Move>| within_depth(max_moves, ms.len() as int) ==> !solves(board, policy, beds, start, ms)
        &&& exists|seen: Seq<Seq<Bunny>>| seen.len() == stats.iters && #[trigger] all_reachable(board, policy, start, max_moves, seen)
    })
}

/// The counters of a search that found a win in `n` moves: `iters` states
/// were taken off the queue, within the budget, and the ones before the
/// won state are exactly those listed by `dequeued_before_win`.
#[verifier::opaque]
pub open spec fn found_after(
    board: Seq<Vec<Tile>>,
    policy: PushPolicy,
    beds: Seq<Bunny>,
    start: Seq<Bunny>,
    max_iters: usize,
    n: int,
    iters: usize,
) -> bool {
    &&& 1 <= iters
    &&& max_iters != 0 ==> iters <= max_iters
    &&& exists|seen: Seq<Seq<Bunny>>| seen.len() + 1 == iters && #[trigger] dequeued_before_win(board, policy, beds, start, seen, n)
}

/// When the queue runs dry, the arena holds each state reachable within the
/// depth budget exactly once.
proof fn lemma_exhausted_count(
    board: Seq<Vec<Tile>>,
    policy: PushPolicy,
    max_moves: usize,
    states: Seq<Vec<Bunny>>,
    parents: Seq<usize>,
    depths: Seq<usize>,
    via: Seq<Move>,
)
    requires
        arena_ok(board, policy, states[0]@, max_moves, states, parents, depths, via),
        arena_ordered(board, policy, states, parents, depths, via),
        arena_closed(board, policy, states, depths, states.len() as int, max_moves),
    ensures
        views(states).len() == states.len(),
        all_reachable(board, policy, states[0]@, max_moves, views(states)),
{
    reveal(arena_ordered);
    reveal(all_reachable);
    let seen = views(states);
    let start = states[0]@;
    assert forall|i: int, j: int| 0 <= i < seen.len() && 0 <= j < seen.len() && i != j implies seen[i] != seen[j] by {
        assert(states[i]@ != states[j]@);
    }
    assert forall|e: Seq<Bunny>| seen.contains(e) <==> #[trigger] reachable(board, policy, start, max_moves, e) by {
        if seen.contains(e) {
            let i = choose|i: int| 0 <= i < seen.len() && seen[i] == e;
            let ps = path_to(parents, via, i);
            assert(play(board, policy, start, ps) == Some(states[i]@));
            assert(within_depth(max_moves, ps.len() as int));
        }
        if reachable(board, policy, start, max_moves, e) {
            let ps = choose|ps: Seq<Move>| within_depth(max_moves, ps.len() as int) && play(board, policy, start, ps) == Some(e);
            let limit: int = if max_moves == 0 { ps.len() + 1int } else { max_moves as int };
            lemma_reached(board, policy, states, depths, states.len() as int, max_moves, ps, limit);
            let c = choose|c: int| 0 <= c < states.len() && states[c]@ == play(board, policy, states[0]@, ps)->Some_0 && depths[c] <= ps.len() + 1;
            assert(seen[c] == e);
        }
    }
}

/// The states taken off the queue before the iteration budget ran out are
/// distinct, not won, within the depth budget, and no deeper than any
/// winning sequence.
proof fn lemma_cut_count(
    board: Seq<Vec<Tile>>,
    policy: PushPolicy,
    beds: Seq<Bunny>,
    max_moves: usize,
    states: Seq<Vec<Bunny>>,
    parents: Seq<usize>,
    depths: Seq<usize>,
    via: Seq<Move>,
    k: int,
)
    requires
        arena_ok(board, policy, states[0]@, max_moves, states, parents, depths, via),
        arena_ordered(board, policy, states, parents, depths, via),
        0 <= k < states.len(),
        arena_closed(board, policy, states, depths, k, max_moves),
        forall|j: int| 0 <= j <= k ==> !all_in_beds(beds, (#[trigger] states[j])@),
    ensures
        views(states.subrange(0, k + 1)).len() == k + 1,
        dequeued_unwon(board, policy, beds, states[0]@, max_moves, views(states.subrange(0, k + 1))),
{
    lemma_shortest(board, policy, beds, max_moves, states, parents, depths, via, k);
    reveal(arena_ordered);
    reveal(dequeued_unwon);
    let seen = views(states.subrange(0, k + 1));
    let start = states[0]@;
    assert forall|i: int, j: int| 0 <= i < seen.len() && 0 <= j < seen.len() && i != j implies seen[i] != seen[j] by {
        assert(states[i]@ != states[j]@);
    }
    assert forall|i: int| 0 <= i < seen.len() implies {
        &&& !all_in_beds(beds, #[trigger] seen[i])
        &&& reachable(board, policy, start, max_moves, seen[i])
        &&& forall|ms: Seq<Move>|
            #[trigger] solves(board, policy, beds, start, ms) ==> reached_in(board, policy, start, seen[i], ms.len() as int)
    } by {
        assert(seen[i] == states[i]@);
        let ps = path_to(parents, via, i);
        assert(play(board, policy, start, ps) == Some(states[i]@));
        assert(within_depth(max_moves, ps.len() as int));
        assert(depths[i] <= depths[k]);
        assert forall|ms: Seq<Move>| #[trigger] solves(board, policy, beds, start, ms) implies reached_in(
            board,
            policy,
            start,
            seen[i],
            ms.len() as int,
        ) by {
            assert(depths[k] <= ms.len() + 1);
        }
    }
}

/// Before the won state `f`, the queue gave exactly the states found in at
/// most as many moves and not won, including every state found in fewer.
proof fn lemma_win_count(
    board: Seq<Vec<Tile>>,
    policy: PushPolicy,
    beds: Seq<Bunny>,
    max_moves: usize,
    states: Seq<Vec<Bunny>>,
    parents: Seq<usize>,
    depths: Seq<usize>,
    via: Seq<Move>,
    f: int,
)
    requires
        arena_ok(board, policy, states[0]@, max_moves, states, parents, depths, via),
        arena_ordered(board, policy, states, parents, depths, via),
        0 <= f < states.len(),
        arena_closed(board, policy, states, depths, f, max_moves),
        forall|j: int| 0 <= j < f ==> !all_in_beds(beds, (#[trigger] states[j])@),
    ensures
        views(states.subrange(0, f)).len() == f,
        dequeued_before_win(board, policy, beds, states[0]@, views(states.subrange(0, f)), depths[f] - 1),
{
    reveal(arena_ordered);
    reveal(dequeued_before_win);
    let seen = views(states.subrange(0, f));
    let start = states[0]@;
    let n = depths[f] - 1;
    assert forall|i: int, j: int| 0 <= i < seen.len() && 0 <= j < seen.len() && i != j implies seen[i] != seen[j] by {
        assert(states[i]@ != states[j]@);
    }
    assert forall|i: int| 0 <= i < seen.len() implies !all_in_beds(beds, #[trigger] seen[i]) && reached_in(
        board,
        policy,
        start,
        seen[i],
        n,
    ) by {
        assert(seen[i] == states[i]@);
        let ps = path_to(parents, via, i);
        assert(play(board, policy, start, ps) == Some(states[i]@));
        assert(depths[i] <= depths[f]);
    }
    assert forall|e: Seq<Bunny>| #[trigger] reached_in(board, policy, start, e, n - 1) implies seen.contains(e) by {
        let ps = choose|ps: Seq<Move>| ps.len() <= n - 1 && play(board, policy, start, ps) == Some(e);
        assert forall|c: int| 0 <= c < states.len() && depths[c] < depths[f] implies c < f && depths[c] != max_moves by {
            if c >= f {
                assert(depths[f] <= depths[c]);
            }
        }
        lemma_reached(board, policy, states, depths, f, max_moves, ps, depths[f] as int);
        let c = choose|c: int| 0 <= c < states.len() && states[c]@ == play(board, policy, states[0]@, ps)->Some_0 && depths[c] <= ps.len() + 1;
        if c >= f {
            assert(depths[f] <= depths[c]);
        }
        assert(seen[c] == e);
    }
}

impl State {
    /// Searches breadth-first, from where the bunnies stand now, for the
    /// fewest player moves that win the level. States at depth `max_moves`
    /// (the start is at depth one) are not expanded, and the search stops
    /// after `max_iters` states have been taken off the queue. Directions
    /// are tried in the order up, down, left, right. `Err` carries the
    /// counters when no solution was found: either the iteration budget ran
    /// out, or no sequence of moves within the depth budget wins at all.
    #[verifier::rlimit(100)]
    #[verifier::spinoff_prover]
    pub fn solve(state: &State, max_moves: usize, max_iters: usize) -> (r: Result<Solution, SolveStats>)
        requires
            state.bunnies@.len() >= 1,
        ensures
            match r {
                Ok(sol) => {
                    &&& sol.path@.len() >= 1
                    &&& sol.path@[0]@ == state.bunnies@
                    &&& follows(state.board@, state.policy, sol.path@, sol.moves@)
                    &&& all_in_beds(state.beds@, sol.path@.last()@)
                    &&& max_moves >= 1 ==> sol.path@.len() <= max_moves
                    &&& forall|ms: Seq<Move>|
                        solves(state.board@, state.policy, state.beds@, state.bunnies@, ms) ==> sol.moves@.len() <= ms.len()
                    &&& forall|ms: Seq<Move>|
                        solves(state.board@, state.policy, state.beds@, state.bunnies@, ms) && ms.len() == sol.moves@.len()
                            ==> lex_le(sol.moves@, ms)
                    &&& found_after(
                        state.board@,
                        state.policy,
                        state.beds@,
                        state.bunnies@,
                        max_iters,
                        sol.moves@.len() as int,
                        sol.stats.iters,
                    )
                },
                Err(stats) => gave_up(state.board@, state.policy, state.beds@, state.bunnies@, max_moves, max_iters, stats),
            },
    {
        let ghost board = state.board@;
        let ghost policy = state.policy;
        let ghost beds = state.beds@;
        let ghost start = state.bunnies@;
        let mut states: Vec<Vec<Bunny>> = Vec::new();
        let mut parents: Vec<usize> = Vec::new();
        let mut depths: Vec<usize> = Vec::new();
        let mut via: Vec<Move> = Vec::new();
        states.push(copy_bunnies(&state.bunnies));
        parents.push(0);
        depths.push(1);
        via.push(Move::Up);
        let mut index: HashMap<u64, Vec<usize>> = HashMap::new();
        proof {
            assert(states@.drop_last() =~= Seq::<Vec<Bunny>>::empty());
        }
        record(&states, &mut index);
        proof {
            assert(arena_ordered(board, policy, states@, parents@, depths@, via@)) by {
                reveal(arena_ordered);
                assert forall|c: int, ms: Seq<Move>|
                    #![trigger states@[c], play(board, policy, states@[0]@, ms)]
                    0 <= c < states@.len() && play(board, policy, states@[0]@, ms) == Some(states@[c]@) && ms.len() + 1
                        == depths@[c] implies lex_le(path_to(parents@, via@, c), ms) by {
                    assert(ms =~= Seq::<Move>::empty());
                }
            }
        }
        let mut head: usize = 0;
        loop
            invariant
                arena_ok(board, policy, start, max_moves, states@, parents@, depths@, via@),
                index_ok(index@, states@),
                arena_ordered(board, policy, states@, parents@, depths@, via@),
                forall|a: int| 1 <= a < states@.len() ==> #[trigger] parents@[a] < head,
                head <= states@.len(),
                max_iters != 0 ==> head < max_iters,
                head < states@.len() ==> depths@[states@.len() - 1] <= depths@[head as int] + 1,
                arena_closed(board, policy, states@, depths@, head as int, max_moves),
                forall|k: int| 0 <= k < head ==> !all_in_beds(beds, (#[trigger] states@[k])@),
                board == state.board@,
                policy == state.policy,
                beds == state.beds@,
                start == state.bunnies@,
            decreases usize::MAX - head,
        {
            if head == states.len() {
                proof {
                    lemma_exhausted(board, policy, beds, max_moves, states@, parents@, depths@, via@, head as int);
                    lemma_exhausted_count(board, policy, max_moves, states@, parents@, depths@, via@);
                    assert(all_reachable(board, policy, start, max_moves, views(states@)));
                    reveal(gave_up);
                    assert(gave_up(board, policy, beds, start, max_moves, max_iters, SolveStats { iters: head, queue_len: 0 }));
                }
                return Err(SolveStats { iters: head, queue_len: 0 });
            }
            let k = head;
            head = head + 1;
            if state.check_win_solve(&states[k]) {
                let (path, moves) = trace_back(state, &states, &parents, &depths, &via, max_moves, k);
                proof {
                    lemma_shortest(board, policy, beds, max_moves, states@, parents@, depths@, via@, k as int);
                    lemma_first_of_shortest(board, policy, beds, max_moves, states@, parents@, depths@, via@, k as int);
                    lemma_win_count(board, policy, beds, max_moves, states@, parents@, depths@, via@, k as int);
                    assert(dequeued_before_win(board, policy, beds, start, views(states@.subrange(0, k as int)), moves@.len() as int));
                    reveal(found_after);
                    assert(found_after(board, policy, beds, start, max_iters, moves@.len() as int, head));
                }
                return Ok(Solution { path, moves, stats: SolveStats { iters: head, queue_len: states.len() - head } });
            }
            if head == max_iters {
                proof {
                    lemma_cut_count(board, policy, beds, max_moves, states@, parents@, depths@, via@, k as int);
                    assert(dequeued_unwon(board, policy, beds, start, max_moves, views(states@.subrange(0, k as int + 1))));
                    reveal(gave_up);
                    assert(gave_up(
                        board,
                        policy,
                        beds,
                        start,
                        max_moves,
                        max_iters,
                        SolveStats { iters: head, queue_len: (states@.len() - head) as usize },
                    ));
                }
                return Err(SolveStats { iters: head, queue_len: states.len() - head });
            }
            if depths[k] == max_moves {
                if head < states.len() {
                    assert(depths@[k as int] <= depths@[head as int]);
                }
                continue;
            }
            let ghost s0 = states@;
            let ghost d0 = depths@;
            expand(state, max_moves, &mut states, &mut parents, &mut depths, &mut via, &mut index, k);
            proof {
                lemma_closed_grows(board, policy, s0, d0, states@, depths@, k as int, max_moves);
                assert forall|kk: int, mm: Move|
                    0 <= kk < head && depths@[kk] != max_moves && (#[trigger] moved(
                        board,
                        policy,
                        states@[kk]@,
                        PLAYER_INDEX as int,
                        mm,
                    )) is Some implies exists|cc: int|
                    0 <= cc < states@.len() && states@[cc]@ == moved(board, policy, states@[kk]@, PLAYER_INDEX as int, mm)->Some_0
                        && depths@[cc] <= depths@[kk] + 1 by {
                }
                if head < states@.len() {
                    assert(depths@[k as int] <= depths@[head as int]);
                }
            }
        }
    }
}

/// Follows the parents from state `f` back to the first state and returns
/// the positions and moves from there to `f`, in playing order.
fn trace_back(
    state: &State,
    states: &Vec<Vec<Bunny>>,
    parents: &Vec<usize>,
    depths: &Vec<usize>,
    via: &Vec<Move>,
    max_moves: usize,
    f: usize,
) -> (r: (Vec<Vec<Bunny>>, Vec<Move>))
    requires
        f < states@.len(),
        arena_ok(state.board@, state.policy, state.bunnies@, max_moves, states@, parents@, depths@, via@),
    ensures
        r.0@.len() == depths@[f as int],
        r.0@[0]@ == states@[0]@,
        r.0@.last()@ == states@[f as int]@,
        follows(state.board@, state.policy, r.0@, r.1@),
        r.1@ == path_to(parents@, via@, f as int),
{
    let ghost board = state.board@;
    let ghost policy = state.policy;
    let mut rev_states: Vec<Vec<Bunny>> = Vec::new();
    let mut rev_moves: Vec<Move> = Vec::new();
    rev_states.push(copy_bunnies(&states[f]));
    let mut c: usize = f;
    while c != 0
        invariant
            c < states@.len(),
            arena_ok(board, policy, state.bunnies@, max_moves, states@, parents@, depths@, via@),
            rev_states@.len() == rev_moves@.len() + 1,
            rev_states@[0]@ == states@[f as int]@,
            rev_states@.last()@ == states@[c as int]@,
            rev_states@.len() + depths@[c as int] == depths@[f as int] + 1,
            path_to(parents@, via@, f as int) == path_to(parents@, via@, c as int) + rev_moves@.reverse(),
            forall|t: int|
                0 <= t < rev_moves@.len() ==> moved(board, policy, rev_states@[t + 1]@, PLAYER_INDEX as int, #[trigger] rev_moves@[t])
                    == Some(rev_states@[t]@),
            board == state.board@,
            policy == state.policy,
        decreases c,
    {
        let p = parents[c];
        let ghost rm0 = rev_moves@;
        rev_moves.push(via[c]);
        rev_states.push(copy_bunnies(&states[p]));
        proof {
            assert(rev_moves@.reverse() =~= seq![via@[c as int]] + rm0.reverse());
            assert(path_to(parents@, via@, c as int) == path_to(parents@, via@, p as int).push(via@[c as int]));
            assert(path_to(parents@, via@, p as int) + rev_moves@.reverse() =~= path_to(parents@, via@, p as int).push(
                via@[c as int],
            ) + rm0.reverse());
        }
        c = p;
    }
    let n = rev_states.len();
    let mut path: Vec<Vec<Bunny>> = Vec::new();
    let mut moves: Vec<Move> = Vec::new();
    let mut t: usize = 0;
    while t < n
        invariant
            n == rev_states@.len(),
            n == rev_moves@.len() + 1,
            t <= n,
            path@.len() == t,
            t >= 1 ==> moves@.len() == t - 1,
            t == 0 ==> moves@.len() == 0,
            forall|u: int| 0 <= u < t ==> (#[trigger] path@[u])@ == rev_states@[n - 1 - u]@,
            forall|u: int| 0 <= u < moves@.len() ==> #[trigger] moves@[u] == rev_moves@[n - 2 - u],
            path_to(parents@, via@, f as int) == rev_moves@.reverse(),
            forall|u: int|
                0 <= u < rev_moves@.len() ==> moved(board, policy, rev_states@[u + 1]@, PLAYER_INDEX as int, #[trigger] rev_moves@[u])
                    == Some(rev_states@[u]@),
        decreases n - t,
    {
        if t >= 1 {
            moves.push(rev_moves[n - 1 - t]);
        }
        path.push(copy_bunnies(&rev_states[n - 1 - t]));
        t = t + 1;
    }
    assert forall|u: int| 0 <= u < moves@.len() implies moved(board, policy, path@[u]@, PLAYER_INDEX as int, #[trigger] moves@[u])
        == Some(path@[u + 1]@) by {
        let w = n - 2 - u;
        assert(moved(board, policy, rev_states@[w + 1]@, PLAYER_INDEX as int, rev_moves@[w]) == Some(rev_states@[w]@));
    }
    assert(moves@ =~= rev_moves@.reverse());
    (path, moves)
}

} // verus!
