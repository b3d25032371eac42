use grid_games::{CellView, Direction, Minefield, MinesweeperGame, Outcome, Phase};

fn game(w: usize, h: usize, mines: &[(usize, usize)]) -> MinesweeperGame {
    MinesweeperGame::new(Minefield::from_mines(w, h, &mines.to_vec()).unwrap())
}

#[test]
fn game_won_after_all_safe_cells() {
    let mut g = game(2, 2, &[(0, 0)]);
    assert_eq!(g.outcome(), Outcome::InProgress);
    g.reveal_cell(1, 0);
    assert_eq!(g.outcome(), Outcome::InProgress);
    g.reveal_cell(0, 1);
    assert_eq!(g.outcome(), Outcome::InProgress);
    g.reveal_cell(1, 1);
    assert_eq!(g.outcome(), Outcome::Won);
}

#[test]
fn game_lost_on_a_mine() {
    let mut g = game(3, 3, &[(1, 1)]);
    g.reveal_cell(1, 1);
    assert_eq!(g.outcome(), Outcome::Lost);
    assert!(g.is_revealed(1, 1));
    for y in 0..3 {
        for x in 0..3 {
            if (x, y) != (1, 1) {
                assert!(!g.is_revealed(x, y));
            }
        }
    }
}

#[test]
fn game_ends_stay_ended() {
    let mut g = game(3, 1, &[(0, 0)]);
    g.reveal_cell(0, 0);
    assert_eq!(g.outcome(), Outcome::Lost);
    g.reveal_cell(2, 0);
    g.toggle_flag(1, 0);
    assert!(!g.is_revealed(2, 0));
    assert!(!g.is_flagged(1, 0));
    assert_eq!(g.outcome(), Outcome::Lost);
}

#[test]
fn game_all_mines_is_won_at_once() {
    let g = game(1, 2, &[(0, 0), (0, 1)]);
    assert_eq!(g.outcome(), Outcome::Won);
}

#[test]
fn game_flagged_cell_is_not_revealed() {
    let mut g = game(3, 1, &[(2, 0)]);
    g.toggle_flag(0, 0);
    g.reveal_cell(0, 0);
    assert!(!g.is_revealed(0, 0));
    g.toggle_flag(0, 0);
    g.reveal_cell(0, 0);
    assert!(g.is_revealed(0, 0));
    assert!(g.is_revealed(1, 0));
    assert!(!g.is_revealed(2, 0));
}

#[test]
fn game_cursor_stops_at_edges() {
    let mut g = game(3, 2, &[]);
    assert_eq!(g.cursor_position(), (0, 0));
    g.move_cursor(Direction::Up);
    g.move_cursor(Direction::Left);
    assert_eq!(g.cursor_position(), (0, 0));
    for _ in 0..5 {
        g.move_cursor(Direction::Right);
        g.move_cursor(Direction::Down);
    }
    assert_eq!(g.cursor_position(), (2, 1));
    g.move_cursor(Direction::Left);
    g.move_cursor(Direction::Up);
    assert_eq!(g.cursor_position(), (1, 0));
}

#[test]
fn game_actions_at_cursor() {
    let mut g = game(3, 3, &[(0, 0), (2, 0)]);
    g.move_cursor(Direction::Right);
    g.toggle_flag_at_cursor();
    assert!(g.is_flagged(1, 0));
    g.reveal_at_cursor();
    assert!(!g.is_revealed(1, 0));
    g.toggle_flag_at_cursor();
    g.reveal_at_cursor();
    assert!(g.is_revealed(1, 0));
    assert_eq!(g.outcome(), Outcome::InProgress);
}

#[test]
fn game_cell_views() {
    let mut g = game(3, 3, &[(0, 0), (2, 0)]);
    g.toggle_flag(2, 0);
    g.reveal_cell(1, 0);
    assert_eq!(g.cell_view(0, 0), CellView::Cursor);
    assert_eq!(g.cell_view(2, 0), CellView::Flag);
    assert_eq!(g.cell_view(1, 0), CellView::Count(2));
    assert_eq!(g.cell_view(1, 1), CellView::Hidden);
    assert_eq!(g.end_view(0, 0), Some(CellView::Mine));
    assert_eq!(g.end_view(1, 0), Some(CellView::Count(2)));
    assert_eq!(g.end_view(1, 2), None);
    g.reveal_cell(0, 0);
    assert_eq!(g.outcome(), Outcome::Lost);
    g.move_cursor(Direction::Right);
    assert_eq!(g.cell_view(0, 0), CellView::Mine);
}

#[test]
fn game_flag_matching_mines_chords_to_a_win() {
    let mut g = game(3, 1, &[(2, 0)]);
    g.toggle_flag(2, 0);
    g.reveal_cell(1, 0);
    assert!(g.is_revealed(0, 0));
    assert_eq!(g.phase(), Phase::Won);
}

#[test]
fn game_phase_moves_from_ready() {
    let mut g = game(3, 1, &[(2, 0)]);
    assert_eq!(g.phase(), Phase::Ready);
    g.toggle_flag(2, 0);
    assert_eq!(g.phase(), Phase::Ready);
    g.toggle_flag(2, 0);
    g.reveal_cell(1, 0);
    assert_eq!(g.phase(), Phase::InProgress);
    g.reveal_cell(0, 0);
    assert_eq!(g.phase(), Phase::Won);
}
