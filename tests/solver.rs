use sokoban::board::{path_to_string, Action, Board, BoardState, LevelError};
use sokoban::search::{find_path, search, SearchOutcome};
use std::collections::hash_map::DefaultHasher;
use std::hash::{Hash, Hasher};

const TRIVIAL: &str = "#####\n#@$.#\n#####\n";

// The only push moves the crate into a corner; the goal is walled off.
const CORNER: &str = "#######\n#@$ #.#\n#######\n";

// Pushing the lower crate up puts it beside the upper one against the wall.
const FROZEN: &str = "########\n#. $   #\n#   $  #\n#   @ .#\n########\n";

// The crates move in a room whose goal is walled off.
const UNREACHABLE: &str = "#########\n#@$   #.#\n#     ###\n#########\n";

const ROOM: &str = "#######\n#     #\n# $ . #\n#  @  #\n#######\n";

const TWO: &str = "########\n#      #\n# $$ @ #\n# ..   #\n########\n";

fn parse(text: &str) -> (Board, BoardState) {
    match Board::parse_level_string(&text.to_string()) {
        Ok(pair) => pair,
        Err(e) => panic!("level refused: {}", e.message()),
    }
}

fn solve(board: &Board, start: &BoardState) -> Option<Vec<Action>> {
    match find_path(board, start) {
        SearchOutcome::Solved(p) => Some(p),
        _ => None,
    }
}

fn hash_of(s: &BoardState) -> u64 {
    let mut h = DefaultHasher::new();
    s.hash(&mut h);
    h.finish()
}

/// Uniform-cost search over the same push model, as a baseline.
fn baseline_cost(board: &Board, start: &BoardState) -> Option<usize> {
    let mut frontier: Vec<(usize, BoardState)> = vec![(0, start.clone())];
    let mut seen: Vec<BoardState> = Vec::new();
    while !frontier.is_empty() {
        let mut best = 0;
        for i in 1..frontier.len() {
            if frontier[i].0 < frontier[best].0 {
                best = i;
            }
        }
        let (cost, state) = frontier.remove(best);
        if seen.contains(&state) {
            continue;
        }
        if board.is_goal_state(&state) {
            return Some(cost);
        }
        for (child, acts) in board.create_children(&state) {
            frontier.push((cost + acts.len(), child));
        }
        seen.push(state);
    }
    None
}

#[test]
fn trivial_solve() {
    let (board, start) = parse(TRIVIAL);
    let path = solve(&board, &start).expect("solvable");
    assert_eq!(path, vec![Action::Right]);
    assert_eq!(path_to_string(&path), "r");
    match search(&board, &start, 100) {
        SearchOutcome::Solved(p) => assert_eq!(p.len(), 1),
        _ => panic!("expected a solution"),
    }
}

#[test]
fn trivial_children_and_goal_test() {
    let (board, start) = parse(TRIVIAL);
    assert!(!board.is_goal_state(&start));
    let children = board.create_children(&start);
    assert_eq!(children.len(), 1);
    let (child, acts) = &children[0];
    assert_eq!(acts, &vec![Action::Right]);
    assert!(board.is_goal_state(child));
    assert_eq!(child.player(), (2, 1));
    assert!(board.has_crate(child, 3, 1));
    assert!(!board.has_crate(child, 2, 1));
}

#[test]
fn goal_test_flips_with_one_goal_tile() {
    let (board, start) = parse("#######\n#@$.$.#\n#######\n");
    assert!(!board.is_goal_state(&start));
    let (b2, s2) = parse("#######\n#@ * *#\n#######\n");
    assert!(b2.is_goal_state(&s2));
    let (b3, s3) = parse("#######\n#@ *$.#\n#######\n");
    assert!(!b3.is_goal_state(&s3));
}

#[test]
fn heuristic_values() {
    let (board, start) = parse(TRIVIAL);
    assert_eq!(board.heuristic(&start), 1);
    let children = board.create_children(&start);
    assert_eq!(board.heuristic(&children[0].0), 0);
    let (b2, s2) = parse("#######\n#@ * *#\n#######\n");
    assert_eq!(b2.heuristic(&s2), 0);
}

#[test]
fn heuristic_never_exceeds_solution_length() {
    for level in [TRIVIAL, ROOM, TWO] {
        let (board, start) = parse(level);
        let path = solve(&board, &start).expect("solvable");
        assert!(board.heuristic(&start) as usize <= path.len());
    }
}

#[test]
fn corner_deadlock() {
    let (board, start) = parse(CORNER);
    assert!(board.is_dead(3, 1));
    assert!(board.create_children(&start).is_empty());
    assert!(matches!(find_path(&board, &start), SearchOutcome::Unsolvable));
    assert!(matches!(search(&board, &start, 1000), SearchOutcome::Unsolvable));
}

#[test]
fn frozen_pair_is_not_generated() {
    let (board, start) = parse(FROZEN);
    assert!(!board.is_dead(4, 1));
    let children = board.create_children(&start);
    assert!(!children.is_empty());
    for (child, acts) in &children {
        assert!(!(board.has_crate(child, 3, 1) && board.has_crate(child, 4, 1)));
        assert_ne!(acts, &vec![Action::Up]);
    }
}

#[test]
fn unreachable_goal() {
    let (board, start) = parse(UNREACHABLE);
    assert!(matches!(find_path(&board, &start), SearchOutcome::Unsolvable));
    assert!(matches!(search(&board, &start, 100000), SearchOutcome::Unsolvable));
}

#[test]
fn generated_states_avoid_dead_tiles() {
    for level in [ROOM, TWO, FROZEN] {
        let (board, start) = parse(level);
        for (child, _) in board.create_children(&start) {
            for (x, y) in board.iter_crates(&child) {
                assert!(!board.is_dead(x, y));
            }
        }
    }
}

#[test]
fn state_equality_ignores_layout_details() {
    let (_, a) = parse(ROOM);
    let (_, b) = parse("#######\n#-----#\n#_$_._#\n#__@__#\n#######\n");
    assert!(a == b);
    assert_eq!(hash_of(&a), hash_of(&b));
    let c = a.clone();
    assert!(c == a);
    assert_eq!(hash_of(&c), hash_of(&a));
    let (_, d) = parse("#######\n#     #\n# $ . #\n#   @ #\n#######\n");
    assert!(a != d);
}

#[test]
fn search_is_deterministic() {
    let (board, start) = parse(TWO);
    let first = solve(&board, &start).expect("solvable");
    let second = solve(&board, &start).expect("solvable");
    assert_eq!(first.len(), second.len());
}

#[test]
fn search_matches_uniform_cost_baseline() {
    for level in [TRIVIAL, ROOM, TWO] {
        let (board, start) = parse(level);
        let path = solve(&board, &start).expect("solvable");
        assert_eq!(Some(path.len()), baseline_cost(&board, &start));
    }
}

#[test]
fn solved_start_needs_no_actions() {
    let (board, start) = parse("#####\n#@* #\n#   #\n#####\n");
    assert_eq!(solve(&board, &start), Some(vec![]));
}

#[test]
fn budget_exceeded() {
    let (board, start) = parse(TWO);
    assert!(matches!(search(&board, &start, 1), SearchOutcome::BudgetExceeded));
    assert!(matches!(search(&board, &start, 0), SearchOutcome::BudgetExceeded));
}

#[test]
fn path_letters() {
    let p = vec![Action::Up, Action::Down, Action::Left, Action::Right];
    assert_eq!(path_to_string(&p), "udlr");
    assert_eq!(path_to_string(&vec![]), "");
}

#[test]
fn error_invalid_character() {
    let r = Board::parse_level_string(&"###\n#@x\n###".to_string());
    assert!(matches!(r, Err(LevelError::InvalidCharacter)));
}

#[test]
fn error_empty() {
    assert!(matches!(Board::parse_level_string(&"".to_string()), Err(LevelError::Empty)));
    assert!(matches!(Board::parse_level_string(&"\n  \n\n".to_string()), Err(LevelError::Empty)));
}

#[test]
fn error_no_player() {
    let r = Board::parse_level_string(&"#####\n# $.#\n#####".to_string());
    assert!(matches!(r, Err(LevelError::NoPlayer)));
}

#[test]
fn error_multiple_players() {
    let r = Board::parse_level_string(&"######\n#@$.@#\n######".to_string());
    assert!(matches!(r, Err(LevelError::MultiplePlayers)));
}

#[test]
fn error_count_mismatch() {
    let r = Board::parse_level_string(&"######\n#@$..#\n######".to_string());
    assert!(matches!(r, Err(LevelError::CountMismatch)));
}

#[test]
fn error_not_enclosed() {
    let r = Board::parse_level_string(&"#####\n#@$. \n#####".to_string());
    assert!(matches!(r, Err(LevelError::NotEnclosed)));
    let r = Board::parse_level_string(&"@$.".to_string());
    assert!(matches!(r, Err(LevelError::NotEnclosed)));
}

#[test]
fn error_messages() {
    assert_eq!(LevelError::Empty.message(), "Level is empty");
    assert_eq!(LevelError::NoPlayer.message(), "Level has no player");
    assert_eq!(LevelError::NotEnclosed.message(), "Player is not enclosed in walls");
}

#[test]
fn analyze_checks_shape() {
    let r = Board::analyze(0, 3, vec![], vec![], vec![], (0, 0));
    assert!(matches!(r, Err(LevelError::TooLarge)));
    let r = Board::analyze(70000, 1, vec![false; 70000], vec![], vec![false; 70000], (0, 0));
    assert!(matches!(r, Err(LevelError::TooLarge)));
    let r = Board::analyze(3, 3, vec![false; 8], vec![], vec![false; 9], (1, 1));
    assert!(matches!(r, Err(LevelError::Malformed)));
    let mut walls = vec![true; 9];
    walls[4] = false;
    let mut crates = vec![false; 9];
    crates[0] = true;
    let r = Board::analyze(3, 3, walls.clone(), vec![(1, 1)], crates, (1, 1));
    assert!(matches!(r, Err(LevelError::Malformed)));
    let r = Board::analyze(3, 3, walls, vec![(1, 1)], vec![false; 9], (1, 1));
    assert!(r.is_ok());
}

#[test]
fn analyze_builds_trivial_level() {
    let walls = vec![
        true, true, true, true, true, //
        true, false, false, false, true, //
        true, true, true, true, true,
    ];
    let mut crates = vec![false; 15];
    crates[7] = true;
    let (board, start) = match Board::analyze(5, 3, walls, vec![(3, 1)], crates, (1, 1)) {
        Ok(pair) => pair,
        Err(_) => panic!("level refused"),
    };
    assert_eq!(solve(&board, &start), Some(vec![Action::Right]));
    assert!(board.is_dead(1, 1));
    assert!(!board.is_dead(3, 1));
}

#[test]
fn dead_runs_along_walls() {
    // the top row runs from corner to corner along the wall with no goal
    let (board, _) = parse("#######\n#     #\n# @$  #\n#   . #\n#######\n");
    for x in 1..6 {
        assert!(board.is_dead(x, 1));
    }
    assert!(!board.is_dead(2, 2));
    assert!(!board.is_dead(4, 3));
}

/// Fewest pushes from `start` to a solved state, by breadth-first search over
/// generated states.
fn min_pushes(board: &Board, start: &BoardState) -> Option<usize> {
    let mut layer: Vec<BoardState> = vec![start.clone()];
    let mut seen: Vec<BoardState> = vec![start.clone()];
    let mut depth = 0;
    while !layer.is_empty() {
        let mut next: Vec<BoardState> = Vec::new();
        for state in &layer {
            if board.is_goal_state(state) {
                return Some(depth);
            }
            for (child, _) in board.create_children(state) {
                if !seen.contains(&child) {
                    seen.push(child.clone());
                    next.push(child);
                }
            }
        }
        layer = next;
        depth += 1;
    }
    None
}

#[test]
fn heuristic_is_admissible_on_small_levels() {
    for level in [TRIVIAL, ROOM, TWO] {
        let (board, start) = parse(level);
        let mut todo: Vec<BoardState> = vec![start.clone()];
        let mut seen: Vec<BoardState> = vec![start];
        while let Some(state) = todo.pop() {
            if let Some(n) = min_pushes(&board, &state) {
                assert!(board.heuristic(&state) as usize <= n);
            }
            for (child, _) in board.create_children(&state) {
                if !seen.contains(&child) {
                    seen.push(child.clone());
                    todo.push(child);
                }
            }
        }
    }
}

#[test]
fn room_has_exactly_one_allowed_push() {
    // every push but the one towards the goal lands on a dead tile
    let (board, start) = parse(ROOM);
    let children = board.create_children(&start);
    assert_eq!(children.len(), 1);
    let (child, acts) = &children[0];
    assert!(board.has_crate(child, 3, 2));
    assert_eq!(child.player(), (2, 2));
    assert_eq!(acts.last(), Some(&Action::Right));
    assert_eq!(acts.len(), 4);
}

#[test]
fn children_are_distinct() {
    for level in [ROOM, TWO, FROZEN] {
        let (board, start) = parse(level);
        let children = board.create_children(&start);
        for i in 0..children.len() {
            for j in (i + 1)..children.len() {
                assert!(children[i].0 != children[j].0);
            }
        }
    }
}

#[test]
fn mixed_side_pair_is_generated() {
    // pushing the right crate left puts it beside the other one, with a wall
    // above the left crate and below the right one: not frozen
    let level = "#########\n#.. #   #\n#   $ $@#\n#    #  #\n#########\n";
    let (board, start) = parse(level);
    assert!(!board.is_dead(5, 2));
    let children = board.create_children(&start);
    assert!(children
        .iter()
        .any(|(c, acts)| acts == &vec![Action::Left] && board.has_crate(c, 4, 2) && board.has_crate(c, 5, 2)));
}

#[test]
fn push_into_corner_is_unsolvable() {
    let (board, start) = parse("######\n#.@$ #\n######\n");
    assert!(board.is_dead(4, 1));
    assert!(board.create_children(&start).is_empty());
    assert!(matches!(find_path(&board, &start), SearchOutcome::Unsolvable));
}

#[test]
fn crate_on_goal_needs_no_actions() {
    let (board, start) = parse("####\n#@*#\n####\n");
    assert_eq!(solve(&board, &start), Some(vec![]));
}

#[test]
fn walk_comes_before_push() {
    let (board, start) = parse("#####\n#@  #\n# $ #\n# . #\n#####\n");
    assert_eq!(solve(&board, &start), Some(vec![Action::Right, Action::Down]));
}

#[test]
fn pair_under_wall_with_one_goal_is_frozen() {
    // pushing the lower crate up puts it beside the upper one under the top
    // wall; only one of the two tiles is a goal
    let (board, start) = parse("######\n# $. #\n#  $ #\n#  @ #\n#.   #\n######\n");
    for (child, _) in board.create_children(&start) {
        assert!(!(board.has_crate(&child, 2, 1) && board.has_crate(&child, 3, 1)));
    }
}

#[test]
fn large_budget_never_runs_out_on_small_levels() {
    for level in [TRIVIAL, CORNER, UNREACHABLE] {
        let (board, start) = parse(level);
        assert!(!matches!(find_path(&board, &start), SearchOutcome::BudgetExceeded));
    }
}
