use grid_games::{
    count_adjacent_mines, generate_minefield, place_mines, reveal_adjacent_zeros, toggle_flag,
    CellSet, Minefield, MinefieldError,
};
use rand::rngs::StdRng;
use rand::SeedableRng;

fn field(w: usize, h: usize, mines: &[(usize, usize)]) -> Minefield {
    Minefield::from_mines(w, h, &mines.to_vec()).unwrap()
}

fn cells(s: &CellSet) -> Vec<(usize, usize)> {
    let mut v = Vec::new();
    for y in 0..s.height() {
        for x in 0..s.width() {
            if s.contains(x, y) {
                v.push((x, y));
            }
        }
    }
    v
}

fn mine_count(f: &Minefield) -> usize {
    let mut n = 0;
    for y in 0..f.height() {
        for x in 0..f.width() {
            if f.is_mine(x, y) {
                n += 1;
            }
        }
    }
    n
}

#[test]
fn minefield_has_exactly_the_asked_mines() {
    for (seed, m) in [(1u64, 10usize), (2, 0), (3, 1), (4, 50), (5, 100)] {
        let f = generate_minefield(10, 10, m, &mut StdRng::seed_from_u64(seed)).unwrap();
        assert_eq!(f.width(), 10);
        assert_eq!(f.height(), 10);
        assert_eq!(mine_count(&f), m);
    }
}

#[test]
fn minefield_rejects_too_many_mines() {
    let r = generate_minefield(3, 3, 10, &mut StdRng::seed_from_u64(1));
    assert_eq!(r.err(), Some(MinefieldError::TooManyMines));
    let r = generate_minefield(usize::MAX, 2, 1, &mut StdRng::seed_from_u64(1));
    assert_eq!(r.err(), Some(MinefieldError::TooLarge));
}

#[test]
fn minefield_from_mines_checks_bounds() {
    let r = Minefield::from_mines(3, 3, &vec![(0, 0), (3, 0)]);
    assert_eq!(r.err(), Some(MinefieldError::OutOfBounds));
    let f = field(3, 3, &[(0, 0), (0, 0), (2, 1)]);
    assert_eq!(mine_count(&f), 2);
    assert!(f.is_mine(2, 1));
    assert!(!f.is_mine(1, 1));
    assert!(!f.is_mine(7, 7));
}

#[test]
fn adjacent_count_exact_values() {
    let f = field(3, 3, &[(0, 0), (2, 0)]);
    assert_eq!(count_adjacent_mines(&f, 1, 0), 2);
    assert_eq!(count_adjacent_mines(&f, 1, 1), 2);
    assert_eq!(count_adjacent_mines(&f, 0, 1), 1);
    assert_eq!(count_adjacent_mines(&f, 1, 2), 0);
    assert_eq!(count_adjacent_mines(&f, 0, 0), 0);
    let full = field(3, 3, &[(0, 0), (1, 0), (2, 0), (0, 1), (2, 1), (0, 2), (1, 2), (2, 2)]);
    assert_eq!(count_adjacent_mines(&full, 1, 1), 8);
}

#[test]
fn adjacent_count_off_grid_is_zero() {
    let f = field(3, 3, &[(2, 2)]);
    assert_eq!(count_adjacent_mines(&f, 3, 2), 0);
    assert_eq!(count_adjacent_mines(&f, 2, 3), 0);
    assert_eq!(count_adjacent_mines(&f, usize::MAX, usize::MAX), 0);
}

#[test]
fn adjacency_counts_each_neighbouring_mine() {
    let f = field(4, 4, &[(1, 1)]);
    for y in 0..4usize {
        for x in 0..4usize {
            let near = (x as i64 - 1).abs() <= 1 && (y as i64 - 1).abs() <= 1 && (x, y) != (1, 1);
            assert_eq!(count_adjacent_mines(&f, x, y), near as u8, "at ({x}, {y})");
        }
    }
}

#[test]
fn reveal_chords_when_flags_match() {
    let f = field(3, 3, &[(0, 0), (2, 0)]);
    let mut revealed = CellSet::new(3, 3);
    let mut flagged = CellSet::new(3, 3);
    flagged.insert(0, 0);
    flagged.insert(2, 0);
    assert_eq!(count_adjacent_mines(&f, 1, 0), 2);
    reveal_adjacent_zeros(&f, &mut revealed, &flagged, 1, 0);
    for (x, y) in [(1, 0), (0, 1), (1, 1), (2, 1)] {
        assert!(revealed.contains(x, y), "({x}, {y}) should be revealed");
    }
    assert!(!revealed.contains(0, 0));
    assert!(!revealed.contains(2, 0));
}

#[test]
fn reveal_without_flags_stops_at_a_number() {
    let f = field(3, 3, &[(0, 0), (2, 0)]);
    let mut revealed = CellSet::new(3, 3);
    let flagged = CellSet::new(3, 3);
    reveal_adjacent_zeros(&f, &mut revealed, &flagged, 1, 0);
    assert_eq!(cells(&revealed), vec![(1, 0)]);
}

#[test]
fn reveal_floods_zero_cells() {
    let f = field(4, 3, &[(3, 0)]);
    let mut revealed = CellSet::new(4, 3);
    let flagged = CellSet::new(4, 3);
    reveal_adjacent_zeros(&f, &mut revealed, &flagged, 0, 2);
    let mut expected = Vec::new();
    for y in 0..3 {
        for x in 0..4 {
            if (x, y) != (3, 0) {
                expected.push((x, y));
            }
        }
    }
    assert_eq!(cells(&revealed), expected);
}

#[test]
fn reveal_skips_flagged_cells() {
    let f = field(3, 1, &[]);
    let mut revealed = CellSet::new(3, 1);
    let mut flagged = CellSet::new(3, 1);
    flagged.insert(1, 0);
    reveal_adjacent_zeros(&f, &mut revealed, &flagged, 0, 0);
    assert_eq!(cells(&revealed), vec![(0, 0)]);
    reveal_adjacent_zeros(&f, &mut revealed, &flagged, 1, 0);
    assert_eq!(cells(&revealed), vec![(0, 0)]);
}

#[test]
fn reveal_a_mine_goes_no_further() {
    let f = field(3, 3, &[(1, 1)]);
    let mut revealed = CellSet::new(3, 3);
    let flagged = CellSet::new(3, 3);
    reveal_adjacent_zeros(&f, &mut revealed, &flagged, 1, 1);
    assert_eq!(cells(&revealed), vec![(1, 1)]);
    let lone = field(3, 3, &[(0, 0)]);
    let mut revealed = CellSet::new(3, 3);
    reveal_adjacent_zeros(&lone, &mut revealed, &flagged, 0, 0);
    assert_eq!(cells(&revealed), vec![(0, 0)]);
}

#[test]
fn reveal_twice_changes_nothing() {
    let f = field(5, 5, &[(4, 4), (0, 4)]);
    let mut revealed = CellSet::new(5, 5);
    let flagged = CellSet::new(5, 5);
    reveal_adjacent_zeros(&f, &mut revealed, &flagged, 2, 0);
    let once = cells(&revealed);
    reveal_adjacent_zeros(&f, &mut revealed, &flagged, 2, 0);
    assert_eq!(cells(&revealed), once);
}

#[test]
fn reveal_off_grid_does_nothing() {
    let f = field(2, 2, &[]);
    let mut revealed = CellSet::new(2, 2);
    let flagged = CellSet::new(2, 2);
    reveal_adjacent_zeros(&f, &mut revealed, &flagged, 2, 0);
    assert!(cells(&revealed).is_empty());
}

#[test]
fn flag_toggles_on_hidden_cells_only() {
    let mut flagged = CellSet::new(2, 2);
    let mut revealed = CellSet::new(2, 2);
    revealed.insert(1, 1);
    toggle_flag(&mut flagged, &revealed, 0, 0);
    assert!(flagged.contains(0, 0));
    toggle_flag(&mut flagged, &revealed, 0, 0);
    assert!(!flagged.contains(0, 0));
    toggle_flag(&mut flagged, &revealed, 1, 1);
    assert!(!flagged.contains(1, 1));
    toggle_flag(&mut flagged, &revealed, 5, 0);
    assert!(cells(&flagged).is_empty());
}

#[test]
fn cell_set_insert_remove() {
    let mut s = CellSet::new(3, 2);
    assert!(cells(&s).is_empty());
    s.insert(2, 1);
    s.insert(0, 0);
    assert_eq!(cells(&s), vec![(0, 0), (2, 1)]);
    s.remove(2, 1);
    assert_eq!(cells(&s), vec![(0, 0)]);
    assert!(!s.contains(3, 0));
}

#[test]
fn place_mines_puts_each_index_on_its_cell() {
    let f = place_mines(4, 3, &vec![0, 5, 11, 5]).unwrap();
    assert_eq!(mine_count(&f), 3);
    assert!(f.is_mine(0, 0));
    assert!(f.is_mine(1, 1));
    assert!(f.is_mine(3, 2));
    assert_eq!(place_mines(4, 3, &vec![12]).err(), Some(MinefieldError::OutOfBounds));
    assert_eq!(place_mines(usize::MAX, 2, &vec![]).err(), Some(MinefieldError::TooLarge));
}
