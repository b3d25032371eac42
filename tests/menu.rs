use grid_games::menu::{select_next, select_previous};

#[test]
fn menu_wraps_both_ways() {
    assert_eq!(select_previous(0, 4), 3);
    assert_eq!(select_previous(2, 4), 1);
    assert_eq!(select_next(3, 4), 0);
    assert_eq!(select_next(1, 4), 2);
    assert_eq!(select_next(0, 1), 0);
    assert_eq!(select_previous(0, 1), 0);
}
