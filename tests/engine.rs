use sleepy_bunnies::board::{Bunny, Move, PushPolicy, Tile};
use sleepy_bunnies::level::LoadError;
use sleepy_bunnies::state::State;

fn rows(lines: &[&str]) -> Vec<Vec<u8>> {
    lines.iter().map(|l| l.as_bytes().to_vec()).collect()
}

fn load(lines: &[&str]) -> State {
    State::from_level_no(1, &rows(lines)).expect("level should load")
}

fn at(row: usize, col: usize) -> Bunny {
    Bunny { row, col }
}

#[test]
fn push_onto_bed_wins() {
    let mut s = load(&["#####", "#@$.#", "#####"]);
    assert!(!s.won);
    assert!(s.move_bunny(0, Move::Right));
    assert_eq!(s.bunnies, vec![at(1, 2), at(1, 3)]);
    assert!(s.won);
    assert_eq!(s.move_no, 1);
    assert_eq!(s.history.len(), 1);
}

#[test]
fn plain_step_counts_without_winning() {
    let mut s = load(&["######", "# @$.#", "######"]);
    assert!(s.move_bunny(0, Move::Left));
    assert_eq!(s.bunnies, vec![at(1, 1), at(1, 3)]);
    assert_eq!(s.move_no, 1);
    assert!(!s.won);
}

#[test]
fn push_against_tree_fails() {
    let mut s = load(&["#####", "#@$##", "#####"]);
    assert!(!s.move_bunny(0, Move::Right));
    assert_eq!(s.bunnies, vec![at(1, 1), at(1, 2)]);
    assert_eq!(s.move_no, 0);
    assert!(s.history.is_empty());
}

#[test]
fn hop_into_tree_fails() {
    let mut s = load(&["#####", "#@$.#", "#####"]);
    assert!(!s.move_bunny(0, Move::Up));
    assert!(!s.move_bunny(0, Move::Left));
    assert_eq!(s.bunnies, vec![at(1, 1), at(1, 2)]);
    assert_eq!(s.move_no, 0);
}

#[test]
fn solve_corridor_in_one_move() {
    let s = load(&["#####", "#@$.#", "#####"]);
    let sol = match State::solve(&s, 5, 1000) {
        Ok(sol) => sol,
        Err(_) => panic!("corridor should be solved"),
    };
    assert_eq!(sol.moves, vec![Move::Right]);
    assert_eq!(sol.path, vec![vec![at(1, 1), at(1, 2)], vec![at(1, 2), at(1, 3)]]);
    assert_eq!(sol.stats.iters, 2);
    assert_eq!(sol.stats.queue_len, 0);
}

#[test]
fn stuck_sleepy_has_no_solution() {
    let s = load(&["#####", "#$  #", "#  @#", "#  .#", "#####"]);
    match State::solve(&s, 150, 1000) {
        Ok(_) => panic!("a cornered sleepy cannot reach a bed"),
        Err(stats) => {
            assert_eq!(stats.iters, 8);
            assert_eq!(stats.queue_len, 0);
        }
    }
}

#[test]
fn solve_stops_at_iteration_budget() {
    let s = load(&["#####", "#$  #", "#  @#", "#  .#", "#####"]);
    match State::solve(&s, 150, 3) {
        Ok(_) => panic!("no solution exists"),
        Err(stats) => assert_eq!(stats.iters, 3),
    }
}

#[test]
fn solve_respects_depth_budget() {
    let lines = ["#######", "#@ $ .#", "#######"];
    let s = load(&lines);
    // Three moves are needed: a step and two pushes.
    match State::solve(&s, 3, 1000) {
        Ok(_) => panic!("three positions are not enough"),
        Err(stats) => assert_eq!(stats.queue_len, 0),
    }
    let sol = match State::solve(&s, 4, 1000) {
        Ok(sol) => sol,
        Err(_) => panic!("four positions are enough"),
    };
    assert_eq!(sol.moves, vec![Move::Right, Move::Right, Move::Right]);
    assert_eq!(sol.path.len(), 4);
}

#[test]
fn solution_is_shortest_and_replays() {
    let lines = ["######", "#    #", "# $@ #", "#.   #", "######"];
    let s = load(&lines);
    let sol = match State::solve(&s, 150, 100000) {
        Ok(sol) => sol,
        Err(_) => panic!("level is solvable"),
    };
    let mut replay = load(&lines);
    for m in &sol.moves {
        assert!(replay.move_bunny(0, *m));
    }
    assert!(replay.won);
    assert_eq!(replay.bunnies, *sol.path.last().unwrap());
    assert_eq!(sol.moves, vec![Move::Left, Move::Up, Move::Left, Move::Down]);
}

#[test]
fn solve_is_repeatable() {
    let lines = ["######", "#    #", "# $@ #", "#.   #", "######"];
    let s = load(&lines);
    let a = State::solve(&s, 150, 100000).ok().unwrap();
    let b = State::solve(&s, 150, 100000).ok().unwrap();
    assert_eq!(a.moves, b.moves);
    assert_eq!(a.path, b.path);
    assert_eq!(a.stats, b.stats);
}

#[test]
fn solved_level_needs_no_moves() {
    let s = load(&["####", "#@*#", "####"]);
    assert!(s.won);
    let sol = State::solve(&s, 5, 10).ok().unwrap();
    assert!(sol.moves.is_empty());
    assert_eq!(sol.path.len(), 1);
    assert_eq!(sol.stats.iters, 1);
}

#[test]
fn undo_restores_state_before_move() {
    let mut s = load(&["######", "# @$.#", "######"]);
    assert!(s.move_bunny(0, Move::Right));
    assert!(s.won);
    s.undo();
    assert_eq!(s.bunnies, vec![at(1, 2), at(1, 3)]);
    assert_eq!(s.move_no, 0);
    assert!(s.history.is_empty());
    assert!(!s.won);
}

#[test]
fn undo_on_empty_history_does_nothing() {
    let mut s = load(&["######", "# @$.#", "######"]);
    s.undo();
    assert_eq!(s.bunnies, vec![at(1, 2), at(1, 3)]);
    assert_eq!(s.move_no, 0);
}

#[test]
fn reset_returns_to_start_and_can_be_undone() {
    let mut s = load(&["######", "# @$.#", "######"]);
    assert!(s.move_bunny(0, Move::Left));
    assert!(s.move_bunny(0, Move::Right));
    assert_eq!(s.move_no, 2);
    s.reset();
    assert_eq!(s.bunnies, vec![at(1, 2), at(1, 3)]);
    assert_eq!(s.move_no, 0);
    assert_eq!(s.history.len(), 3);
    s.undo();
    assert_eq!(s.bunnies, vec![at(1, 2), at(1, 3)]);
    assert_eq!(s.move_no, 2);
}

#[test]
fn sleepy_cannot_push_under_player_only_rule() {
    let mut s = load(&["#######", "#@$$ .#", "#######"]);
    assert!(!s.move_bunny(0, Move::Right));
    assert_eq!(s.move_no, 0);
    assert!(s.history.is_empty());
}

#[test]
fn chains_move_together_when_allowed() {
    let mut s = load(&["#######", "#@$$ .#", "#######"]);
    s.set_push_policy(PushPolicy::Chains);
    assert!(s.move_bunny(0, Move::Right));
    // Sleepies come in reverse reading order after the player.
    assert_eq!(s.bunnies, vec![at(1, 2), at(1, 4), at(1, 3)]);
    assert_eq!(s.move_no, 1);
    assert!(s.move_bunny(0, Move::Right));
    assert_eq!(s.bunnies, vec![at(1, 3), at(1, 5), at(1, 4)]);
    assert!(!s.won);
}

#[test]
fn sleepy_moved_alone_is_not_recorded() {
    let mut s = load(&["######", "#@ $ #", "######"]);
    assert!(s.move_bunny(1, Move::Right));
    assert_eq!(s.bunnies, vec![at(1, 1), at(1, 4)]);
    assert_eq!(s.move_no, 0);
    assert!(s.history.is_empty());
}

#[test]
fn leaving_a_bed_loses_the_win() {
    let mut s = load(&["######", "#@*  #", "######"]);
    assert!(s.won);
    assert!(s.move_bunny(0, Move::Right));
    assert!(!s.won);
}

#[test]
fn extra_beds_are_not_required() {
    let s = load(&["######", "#@*..#", "######"]);
    assert!(s.won);
    assert!(s.check_win_solve(&vec![at(1, 1), at(1, 2)]));
    assert!(!s.check_win_solve(&vec![at(1, 1), at(1, 1)]));
}

#[test]
fn reads_both_notations_and_pads_rows() {
    let s = load(&["TTTTT", "Tb s", "T_pzT", "#"]);
    assert_eq!(s.board.len(), 4);
    assert!(s.board.iter().all(|r| r.len() == 5));
    assert_eq!(s.board[1], vec![Tile::Tree, Tile::Grass, Tile::Grass, Tile::Grass, Tile::Grass]);
    assert_eq!(s.board[2], vec![Tile::Tree, Tile::Bed, Tile::Bed, Tile::Bed, Tile::Tree]);
    assert_eq!(s.board[3], vec![Tile::Tree, Tile::Grass, Tile::Grass, Tile::Grass, Tile::Grass]);
    // The last player symbol wins; sleepies follow in reverse reading order.
    assert_eq!(s.bunnies, vec![at(2, 2), at(2, 3), at(1, 3)]);
    assert_eq!(s.bunny_starts, s.bunnies);
    let mut beds = s.beds.clone();
    beds.sort_by_key(|b| (b.row, b.col));
    assert_eq!(beds, vec![at(2, 1), at(2, 2), at(2, 3)]);
    assert_eq!(s.level_no, 1);
}

#[test]
fn empty_level_is_refused() {
    assert!(matches!(State::from_level_no(3, &Vec::new()), Err(LoadError::Empty)));
}

#[test]
fn unknown_symbol_is_refused() {
    match State::from_level_no(1, &rows(&["#####", "#@$x#", "#####"])) {
        Err(e) => assert_eq!(e, LoadError::UnknownSymbol { row: 1, col: 3 }),
        Ok(_) => panic!("x is no symbol"),
    }
}

#[test]
fn level_without_player_is_refused() {
    match State::from_level_no(1, &rows(&["#####", "# $.#", "#####"])) {
        Err(e) => assert_eq!(e, LoadError::NoPlayer),
        Ok(_) => panic!("no player"),
    }
}

#[test]
fn renders_symbols() {
    let mut s = load(&["######", "#@$. #", "#*   #", "######"]);
    assert!(s.move_bunny(0, Move::Right));
    let text: Vec<String> = s.render_rows().into_iter().map(|r| String::from_utf8(r).unwrap()).collect();
    assert_eq!(text, vec!["TTTTTT", "T bz T", "Tz   T", "TTTTTT"]);
    s.undo();
    let text: Vec<String> = s.render_rows().into_iter().map(|r| String::from_utf8(r).unwrap()).collect();
    assert_eq!(text[1], "Tbs_ T");
}

#[test]
fn pure_move_leaves_state_alone() {
    let s = load(&["#####", "#@$.#", "#####"]);
    let after = s.move_bunny_solve(&s.bunnies, 0, Move::Right);
    assert_eq!(after, Some(vec![at(1, 2), at(1, 3)]));
    assert_eq!(s.move_bunny_solve(&s.bunnies, 0, Move::Left), None);
    assert_eq!(s.bunnies, vec![at(1, 1), at(1, 2)]);
    assert_eq!(s.move_no, 0);
}

#[test]
fn dead_end_counts_reachable_states() {
    let s = load(&["#####", "#@ $#", "#.###", "#####"]);
    match State::solve(&s, 150, 1000) {
        Ok(_) => panic!("the sleepy is stuck in its corner"),
        Err(stats) => {
            assert_eq!(stats.iters, 3);
            assert_eq!(stats.queue_len, 0);
        }
    }
}

#[test]
fn status_lines_follow_the_state() {
    let mut s = State::from_level_no(12, &rows(&["#####", "#@$.#", "#####"])).expect("level should load");
    assert_eq!(String::from_utf8(s.header_line()).unwrap(), "level 12, move 0.");
    assert_eq!(s.status_message(), "please get the sleepy bunnies to bed.");
    assert!(s.move_bunny(0, Move::Right));
    assert_eq!(String::from_utf8(s.header_line()).unwrap(), "level 12, move 1.");
    assert_eq!(s.status_message(), "you got the sleepy bunnies to bed.");
}
