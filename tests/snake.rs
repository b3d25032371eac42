use grid_games::{Direction, SnakeGame};
use rand::rngs::StdRng;
use rand::SeedableRng;

fn body(g: &SnakeGame) -> Vec<(i32, i32)> {
    g.segments().iter().copied().collect()
}

#[test]
fn snake_starts_in_the_middle() {
    for seed in 0..20u64 {
        let g = SnakeGame::new(100, 15, &mut StdRng::seed_from_u64(seed));
        assert_eq!(body(&g), vec![(50, 7)]);
        assert_eq!(g.direction(), Direction::Right);
        assert_eq!(g.score(), 0);
        let (fx, fy) = g.food();
        assert!((1..99).contains(&fx) && (1..14).contains(&fy));
    }
}

#[test]
fn snake_food_is_drawn_at_random() {
    let foods: Vec<(i32, i32)> =
        (0..20u64).map(|s| SnakeGame::new(100, 15, &mut StdRng::seed_from_u64(s)).food()).collect();
    assert!(foods.iter().any(|&f| f != foods[0]));
}

#[test]
fn snake_moves_and_hits_the_wall() {
    let mut g = SnakeGame::new(6, 3, &mut StdRng::seed_from_u64(5));
    // Interior columns 1..=4 in the one row y = 1; the snake starts at (3, 1).
    let ate_first = g.food() == (4, 1);
    assert!(g.update());
    assert_eq!(body(&g)[0], (4, 1));
    assert_eq!(body(&g).len(), if ate_first { 2 } else { 1 });
    assert!(!g.update());
    assert_eq!(body(&g)[0], (4, 1));
}

#[test]
fn snake_cannot_reverse() {
    let mut g = SnakeGame::new(20, 20, &mut StdRng::seed_from_u64(1));
    g.change_direction(Direction::Left);
    assert_eq!(g.direction(), Direction::Right);
    g.change_direction(Direction::Up);
    assert_eq!(g.direction(), Direction::Up);
    g.change_direction(Direction::Down);
    assert_eq!(g.direction(), Direction::Up);
    g.change_direction(Direction::Left);
    assert_eq!(g.direction(), Direction::Left);
}

#[test]
fn snake_eats_grows_and_food_moves() {
    let mut found = false;
    for seed in 0..200u64 {
        let mut g = SnakeGame::new(5, 3, &mut StdRng::seed_from_u64(seed));
        if g.food() != (3, 1) {
            continue;
        }
        found = true;
        assert!(g.update());
        assert_eq!(body(&g), vec![(3, 1), (2, 1)]);
        assert_eq!(g.score(), 1);
        assert_eq!(g.food(), (1, 1));
        assert!(!g.update());
    }
    assert!(found);
}
