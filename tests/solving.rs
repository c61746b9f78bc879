use block_puzzle::board::{Arrow, Block, Direction};
use block_puzzle::game::Game;
use block_puzzle::search::astar;

fn names(moves: &[&str]) -> Vec<String> {
    moves.iter().map(|m| m.to_string()).collect()
}

#[test]
fn puzzle_without_goals_is_solved_at_once() {
    let mut game = Game::new();
    game.add_block("red".to_string(), Direction::Right, [0, 0], None);
    game.add_block("blue".to_string(), Direction::Up, [1, 0], None);
    assert_eq!(game.solve(50), Some(Vec::new()));
    assert_eq!(game.solve(0), Some(Vec::new()));
    assert_eq!(game.solve(-3), Some(Vec::new()));
}

#[test]
fn empty_puzzle_is_solved_at_once() {
    let game = Game::new();
    assert_eq!(game.solve(5), Some(Vec::new()));
}

#[test]
fn single_block_walks_to_its_goal() {
    let mut game = Game::new();
    game.add_block("red".to_string(), Direction::Right, [0, 0], Some([3, 0]));
    assert_eq!(game.solve(50), Some(names(&["red", "red", "red"])));
}

#[test]
fn budget_too_small_gives_no_solution() {
    let mut game = Game::new();
    game.add_block("red".to_string(), Direction::Right, [0, 0], Some([10, 0]));
    assert_eq!(game.solve(5), None);
    assert_eq!(game.solve(9), None);
    let solved = game.solve(10).unwrap();
    assert_eq!(solved.len(), 10);
}

#[test]
fn unreachable_goal_gives_no_solution() {
    let mut game = Game::new();
    game.add_block("red".to_string(), Direction::Right, [0, 0], Some([-1, 0]));
    assert_eq!(game.solve(30), None);
}

#[test]
fn search_ends_on_a_cycle_of_arrows() {
    let mut game = Game::new();
    game.add_block("red".to_string(), Direction::Right, [0, 0], Some([5, 5]));
    game.add_arrow(Direction::Up, [1, 0]);
    game.add_arrow(Direction::Left, [1, 1]);
    game.add_arrow(Direction::Down, [0, 1]);
    game.add_arrow(Direction::Right, [0, 0]);
    assert_eq!(game.solve(i32::MAX), None);
}

#[test]
fn arrow_steers_a_block_onto_its_goal() {
    let mut game = Game::new();
    game.add_block("red".to_string(), Direction::Right, [0, 0], Some([1, 2]));
    game.add_arrow(Direction::Up, [1, 0]);
    assert_eq!(game.solve(10), Some(names(&["red", "red", "red"])));
}

#[test]
fn block_without_goal_is_only_moved_when_useful() {
    let mut game = Game::new();
    game.add_block("red".to_string(), Direction::Right, [0, 0], Some([2, 0]));
    game.add_block("blue".to_string(), Direction::Up, [5, 5], None);
    assert_eq!(game.solve(10), Some(names(&["red", "red"])));
}

#[test]
fn pushing_one_block_carries_another_to_its_goal() {
    let mut game = Game::new();
    game.add_block("red".to_string(), Direction::Down, [0, 0], None);
    game.add_block("blue".to_string(), Direction::Left, [1, 0], Some([2, 0]));
    game.add_block("green".to_string(), Direction::Right, [0, 0], None);
    let moves = game.solve(10).unwrap();
    assert_eq!(moves, names(&["green"]));
}

#[test]
fn re_adding_a_block_replaces_it() {
    let mut game = Game::new();
    game.add_block("red".to_string(), Direction::Left, [0, 0], Some([-9, 0]));
    game.add_block("red".to_string(), Direction::Right, [0, 0], Some([2, 0]));
    assert_eq!(game.solve(10), Some(names(&["red", "red"])));
}

#[test]
fn later_arrow_replaces_an_earlier_one() {
    let mut game = Game::new();
    game.add_block("red".to_string(), Direction::Right, [0, 0], Some([1, 1]));
    game.add_arrow(Direction::Down, [1, 0]);
    game.add_arrow(Direction::Up, [1, 0]);
    assert_eq!(game.solve(10), Some(names(&["red", "red"])));
}

#[test]
fn two_runs_give_the_same_moves() {
    let mut game = Game::new();
    game.add_block("red".to_string(), Direction::Right, [0, 0], Some([2, 1]));
    game.add_block("blue".to_string(), Direction::Up, [1, -1], Some([1, 2]));
    game.add_arrow(Direction::Up, [2, 0]);
    let first = game.solve(12);
    let second = game.solve(12);
    assert!(first.is_some());
    assert_eq!(first, second);
}

#[test]
fn solution_is_a_valid_sequence_within_budget() {
    let mut game = Game::new();
    game.add_block("red".to_string(), Direction::Right, [0, 0], Some([2, 1]));
    game.add_block("blue".to_string(), Direction::Up, [1, -1], Some([1, 2]));
    game.add_arrow(Direction::Up, [2, 0]);
    let moves = game.solve(12).unwrap();
    assert!(moves.len() <= 12);
    assert!(moves.iter().all(|m| m == "red" || m == "blue"));
}

#[test]
fn engine_returns_block_indices() {
    let start = vec![
        Block { x: 0, y: 0, direction: Direction::Up },
        Block { x: 3, y: 0, direction: Direction::Left },
    ];
    let arrows: Vec<Arrow> = Vec::new();
    let goals = vec![None, Some((1, 0))];
    assert_eq!(astar(start, &arrows, &goals, 5), Some(vec![1, 1]));
}

#[test]
fn cheaper_duplicate_is_dropped_when_generated() {
    let mut game = Game::new();
    game.add_block("red".to_string(), Direction::Up, [2, 2], Some([3, 2]));
    game.add_block("blue".to_string(), Direction::Up, [2, 1], None);
    game.add_block("green".to_string(), Direction::Right, [1, 3], Some([4, 4]));
    game.add_arrow(Direction::Right, [1, 0]);
    game.add_arrow(Direction::Down, [3, 3]);
    game.add_arrow(Direction::Left, [1, 1]);

    // Six moves do solve the puzzle ...
    let arrows = vec![
        Arrow { x: 1, y: 0, direction: Direction::Right },
        Arrow { x: 3, y: 3, direction: Direction::Down },
        Arrow { x: 1, y: 1, direction: Direction::Left },
    ];
    let goals = vec![Some((3, 2)), None, Some((4, 4))];
    let mut squares = vec![
        Block { x: 2, y: 2, direction: Direction::Up },
        Block { x: 2, y: 1, direction: Direction::Up },
        Block { x: 1, y: 3, direction: Direction::Right },
    ];
    for m in [1, 2, 0, 1, 2, 2] {
        squares = block_puzzle::board::move_square(&squares, &arrows, m);
    }
    assert_eq!(block_puzzle::board::distance_to_goal(&squares, &goals), 0);

    // ... but a configuration on that path was first generated at a higher cost, and the
    // cheaper copy is dropped, so a budget of six finds nothing and seven finds seven moves.
    assert_eq!(game.solve(6), None);
    assert_eq!(
        game.solve(7),
        Some(names(&["red", "green", "red", "blue", "blue", "green", "green"]))
    );
}
