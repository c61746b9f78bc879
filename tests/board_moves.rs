use block_puzzle::board::{
    arrow_lookup, distance_to_goal, find_collision_with, manhattan_distance, move_square, Arrow,
    Block, Direction,
};

fn block(x: i64, y: i64, direction: Direction) -> Block {
    Block { x, y, direction }
}

fn at(b: &Block) -> (i64, i64) {
    (b.x, b.y)
}

#[test]
fn manhattan_distance_of_integer_points() {
    assert_eq!(manhattan_distance(&[1, 2, 3], &[4, 5, 6]), 9);
    assert_eq!(manhattan_distance(&[-3, 7], &[2, -1]), 13);
    assert_eq!(manhattan_distance::<0>(&[], &[]), 0);
}

#[test]
fn manhattan_distance_of_extreme_coordinates() {
    assert_eq!(
        manhattan_distance(&[i64::MIN, i64::MAX], &[i64::MAX, i64::MIN]),
        2 * (u64::MAX as u128)
    );
}

#[test]
fn chain_push_moves_the_block_in_front() {
    let squares = vec![block(0, 0, Direction::Right), block(1, 0, Direction::Up)];
    let next = move_square(&squares, &Vec::new(), 0);
    assert_eq!(at(&next[0]), (1, 0));
    assert_eq!(at(&next[1]), (2, 0));
    assert_eq!(next[1].direction, Direction::Up);
    assert_eq!(at(&squares[0]), (0, 0));
}

#[test]
fn chain_push_through_a_line_of_blocks() {
    let squares = vec![
        block(0, 3, Direction::Down),
        block(0, 2, Direction::Left),
        block(0, 1, Direction::Right),
        block(5, 5, Direction::Up),
    ];
    let next = move_square(&squares, &Vec::new(), 0);
    assert_eq!(at(&next[0]), (0, 2));
    assert_eq!(at(&next[1]), (0, 1));
    assert_eq!(at(&next[2]), (0, 0));
    assert_eq!(at(&next[3]), (5, 5));
}

#[test]
fn move_without_collision_moves_one_block() {
    let squares = vec![block(0, 0, Direction::Left), block(2, 0, Direction::Left)];
    let next = move_square(&squares, &Vec::new(), 1);
    assert_eq!(at(&next[0]), (0, 0));
    assert_eq!(at(&next[1]), (1, 0));
}

#[test]
fn arrow_turns_a_block_for_its_next_move() {
    let arrows = vec![Arrow { x: 1, y: 0, direction: Direction::Up }];
    let squares = vec![block(0, 0, Direction::Right)];
    let once = move_square(&squares, &arrows, 0);
    assert_eq!(at(&once[0]), (1, 0));
    assert_eq!(once[0].direction, Direction::Up);
    let twice = move_square(&once, &arrows, 0);
    assert_eq!(at(&twice[0]), (1, 1));
    assert_eq!(twice[0].direction, Direction::Up);
}

#[test]
fn arrow_does_not_bend_a_chain_in_progress() {
    let arrows = vec![Arrow { x: 2, y: 0, direction: Direction::Up }];
    let squares = vec![
        block(0, 0, Direction::Right),
        block(1, 0, Direction::Right),
        block(2, 0, Direction::Down),
    ];
    let next = move_square(&squares, &arrows, 0);
    assert_eq!(at(&next[0]), (1, 0));
    assert_eq!(at(&next[1]), (2, 0));
    assert_eq!(next[1].direction, Direction::Up);
    assert_eq!(at(&next[2]), (3, 0));
    assert_eq!(next[2].direction, Direction::Down);
}

#[test]
fn later_arrow_on_a_cell_wins() {
    let arrows = vec![
        Arrow { x: 4, y: 4, direction: Direction::Up },
        Arrow { x: 1, y: 1, direction: Direction::Left },
        Arrow { x: 4, y: 4, direction: Direction::Down },
    ];
    assert_eq!(arrow_lookup(&arrows, 4, 4), Some(Direction::Down));
    assert_eq!(arrow_lookup(&arrows, 1, 1), Some(Direction::Left));
    assert_eq!(arrow_lookup(&arrows, 0, 0), None);
}

#[test]
fn collision_finds_the_first_other_block() {
    let squares = vec![
        block(3, 3, Direction::Up),
        block(1, 1, Direction::Up),
        block(3, 3, Direction::Left),
        block(3, 3, Direction::Right),
    ];
    assert_eq!(find_collision_with(&squares, 0), Some(2));
    assert_eq!(find_collision_with(&squares, 2), Some(0));
    assert_eq!(find_collision_with(&squares, 1), None);
}

#[test]
fn distance_counts_only_blocks_with_goals() {
    let squares = vec![
        block(0, 0, Direction::Up),
        block(5, -2, Direction::Up),
        block(9, 9, Direction::Up),
    ];
    let goals = vec![Some((3, 4)), Some((5, -2)), None];
    assert_eq!(distance_to_goal(&squares, &goals), 7);
    let none: Vec<Option<(i64, i64)>> = vec![None, None, None];
    assert_eq!(distance_to_goal(&squares, &none), 0);
}
