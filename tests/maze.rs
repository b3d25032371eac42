use grid_games::{generate_maze, Direction, Maze, MazeError};
use rand::rngs::StdRng;
use rand::SeedableRng;
use std::collections::{HashSet, VecDeque};

fn open_cells(m: &Maze) -> HashSet<(i64, i64)> {
    let mut s = HashSet::new();
    for y in 0..m.height() as i64 {
        for x in 0..m.width() as i64 {
            if m.is_open(x, y) {
                s.insert((x, y));
            }
        }
    }
    s
}

fn bfs_from_origin(open: &HashSet<(i64, i64)>) -> HashSet<(i64, i64)> {
    let mut seen = HashSet::new();
    let mut queue = VecDeque::new();
    seen.insert((1, 1));
    queue.push_back((1, 1));
    while let Some((x, y)) = queue.pop_front() {
        for (dx, dy) in [(1, 0), (-1, 0), (0, 1), (0, -1)] {
            let n = (x + dx, y + dy);
            if open.contains(&n) && seen.insert(n) {
                queue.push_back(n);
            }
        }
    }
    seen
}

fn adjacent_pairs(open: &HashSet<(i64, i64)>) -> usize {
    open.iter()
        .map(|&(x, y)| {
            open.contains(&(x + 1, y)) as usize + open.contains(&(x, y + 1)) as usize
        })
        .sum()
}

#[test]
fn maze_is_connected_from_origin() {
    for seed in 0..5u64 {
        let m = generate_maze(31, 15, &mut StdRng::seed_from_u64(seed)).unwrap();
        let open = open_cells(&m);
        assert_eq!(bfs_from_origin(&open), open);
    }
}

#[test]
fn maze_is_a_tree() {
    for seed in 0..5u64 {
        let m = generate_maze(21, 11, &mut StdRng::seed_from_u64(seed)).unwrap();
        let open = open_cells(&m);
        assert_eq!(adjacent_pairs(&open), open.len() - 1);
    }
}

#[test]
fn maze_opens_every_room_and_keeps_the_border() {
    let m = generate_maze(31, 15, &mut StdRng::seed_from_u64(3)).unwrap();
    for y in 0..15i64 {
        for x in 0..31i64 {
            let border = x == 0 || y == 0 || x == 30 || y == 14;
            if border || (x % 2 == 0 && y % 2 == 0) {
                assert!(!m.is_open(x, y), "({x}, {y}) should be closed");
            }
            if x % 2 == 1 && y % 2 == 1 {
                assert!(m.is_open(x, y), "room ({x}, {y}) should be open");
            }
        }
    }
    // 15 x 7 rooms, and one wall fewer than rooms.
    assert_eq!(open_cells(&m).len(), 105 + 104);
}

#[test]
fn maze_same_seed_same_maze() {
    let a = generate_maze(31, 15, &mut StdRng::seed_from_u64(42)).unwrap();
    let b = generate_maze(31, 15, &mut StdRng::seed_from_u64(42)).unwrap();
    assert_eq!(open_cells(&a), open_cells(&b));
}

#[test]
fn maze_seeds_give_different_mazes() {
    let first = open_cells(&generate_maze(31, 15, &mut StdRng::seed_from_u64(0)).unwrap());
    let differs = (1..10u64).any(|seed| {
        open_cells(&generate_maze(31, 15, &mut StdRng::seed_from_u64(seed)).unwrap()) != first
    });
    assert!(differs);
}

#[test]
fn maze_smallest_is_one_room() {
    let m = generate_maze(3, 3, &mut StdRng::seed_from_u64(1)).unwrap();
    assert_eq!(open_cells(&m), HashSet::from([(1, 1)]));
}

#[test]
fn maze_rejects_bad_sizes() {
    let mut rng = StdRng::seed_from_u64(1);
    assert_eq!(generate_maze(2, 15, &mut rng).err(), Some(MazeError::TooSmall));
    assert_eq!(generate_maze(31, 1, &mut rng).err(), Some(MazeError::TooSmall));
    assert_eq!(generate_maze(30, 15, &mut rng).err(), Some(MazeError::EvenSize));
    assert_eq!(generate_maze(31, 14, &mut rng).err(), Some(MazeError::EvenSize));
    assert_eq!(generate_maze(usize::MAX, 3, &mut rng).err(), Some(MazeError::TooLarge));
}

#[test]
fn maze_is_open_off_grid_is_false() {
    let m = generate_maze(5, 5, &mut StdRng::seed_from_u64(1)).unwrap();
    assert!(!m.is_open(-1, 1));
    assert!(!m.is_open(1, -1));
    assert!(!m.is_open(5, 1));
    assert!(!m.is_open(1, 5));
    assert!(!m.is_open(i64::MAX, i64::MIN));
}

#[test]
fn maze_player_moves_only_into_open_cells() {
    let m = generate_maze(7, 7, &mut StdRng::seed_from_u64(9)).unwrap();
    assert_eq!(m.start(), (1, 1));
    assert_eq!(m.target(), (5, 5));
    // The border above the first room stops the player.
    assert_eq!(m.move_player((1, 1), Direction::Up), (1, 1));
    assert_eq!(m.move_player((1, 1), Direction::Left), (1, 1));
    for d in [Direction::Right, Direction::Down] {
        let (dx, dy) = if d == Direction::Right { (1, 0) } else { (0, 1) };
        let next = (1 + dx, 1 + dy);
        let expected = if m.is_open(next.0, next.1) { next } else { (1, 1) };
        assert_eq!(m.move_player((1, 1), d), expected);
    }
}
