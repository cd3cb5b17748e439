use lifegame::board::{Board, BoardError};
use lifegame::geom::{Point, Size};
use rand::rngs::StdRng;
use rand::{Rng, SeedableRng};

fn board(w: i32, h: i32) -> Board {
    Board::new_empty(Size(w, h)).ok().expect("positive size")
}

fn with_cells(w: i32, h: i32, cells: &[(i32, i32)]) -> Board {
    let mut b = board(w, h);
    for &(x, y) in cells {
        b.set(Point(x, y), true);
    }
    b
}

fn snapshot(b: &Board) -> Vec<Vec<bool>> {
    let Size(w, h) = b.size();
    (0..h)
        .map(|y| (0..w).map(|x| b.get(Point(x, y))).collect())
        .collect()
}

fn live_cells(b: &Board) -> Vec<(i32, i32)> {
    let Size(w, h) = b.size();
    let mut v = Vec::new();
    for y in 0..h {
        for x in 0..w {
            if b.get(Point(x, y)) {
                v.push((x, y));
            }
        }
    }
    v
}

/// The Life rule cell by cell, with every cell beyond the edges dead.
fn scalar_step(g: &[Vec<bool>]) -> Vec<Vec<bool>> {
    let h = g.len() as i64;
    let w = g[0].len() as i64;
    let alive = |x: i64, y: i64| x >= 0 && y >= 0 && x < w && y < h && g[y as usize][x as usize];
    let mut next = vec![vec![false; w as usize]; h as usize];
    for y in 0..h {
        for x in 0..w {
            let mut n = 0;
            for dy in -1..=1 {
                for dx in -1..=1 {
                    if (dx, dy) != (0, 0) && alive(x + dx, y + dy) {
                        n += 1;
                    }
                }
            }
            next[y as usize][x as usize] = n == 3 || (alive(x, y) && n == 2);
        }
    }
    next
}

#[test]
fn new_empty_refuses_non_positive_sizes() {
    assert_eq!(Board::new_empty(Size(0, 5)).err(), Some(BoardError::InvalidSize));
    assert_eq!(Board::new_empty(Size(5, 0)).err(), Some(BoardError::InvalidSize));
    assert_eq!(Board::new_empty(Size(-3, 4)).err(), Some(BoardError::InvalidSize));
    assert_eq!(Board::new_empty(Size(4, -1)).err(), Some(BoardError::InvalidSize));
}

#[test]
fn new_empty_is_all_dead() {
    for &(w, h) in &[(1, 1), (63, 2), (64, 3), (65, 4), (200, 7)] {
        let b = board(w, h);
        assert_eq!(b.size(), Size(w, h));
        assert!(live_cells(&b).is_empty());
    }
}

#[test]
fn contains_matches_the_bounds() {
    let b = board(10, 4);
    assert!(b.contains(Point(0, 0)));
    assert!(b.contains(Point(9, 3)));
    assert!(!b.contains(Point(10, 0)));
    assert!(!b.contains(Point(0, 4)));
    assert!(!b.contains(Point(-1, 2)));
    assert!(!b.contains(Point(3, -1)));
}

#[test]
fn set_then_get_round_trip() {
    let mut b = board(130, 5);
    for &(x, y) in &[(0, 0), (63, 1), (64, 1), (127, 4), (129, 2)] {
        b.set(Point(x, y), true);
        assert!(b.get(Point(x, y)));
        b.set(Point(x, y), false);
        assert!(!b.get(Point(x, y)));
    }
    b.set(Point(70, 3), true);
    assert_eq!(live_cells(&b), vec![(70, 3)]);
}

#[test]
fn set_off_the_board_changes_nothing() {
    let mut b = with_cells(64, 4, &[(1, 1), (63, 3)]);
    let before = snapshot(&b);
    for &(x, y) in &[(-1, 0), (64, 0), (0, -1), (0, 4), (100, 100), (i32::MIN, i32::MAX)] {
        b.set(Point(x, y), true);
        assert_eq!(snapshot(&b), before);
    }
}

#[test]
fn clear_kills_every_cell_and_is_idempotent() {
    let mut b = with_cells(70, 6, &[(0, 0), (69, 5), (33, 2)]);
    b.clear();
    assert!(live_cells(&b).is_empty());
    let once = snapshot(&b);
    b.clear();
    assert_eq!(snapshot(&b), once);
    assert_eq!(b.size(), Size(70, 6));
}

#[test]
fn block_is_a_still_life() {
    let cells = vec![(3, 3), (4, 3), (3, 4), (4, 4)];
    let mut b = with_cells(10, 10, &cells);
    b.grow();
    assert_eq!(live_cells(&b), cells);
}

#[test]
fn blinker_has_period_two() {
    let cells = vec![(4, 5), (5, 5), (6, 5)];
    let mut b = with_cells(12, 12, &cells);
    b.grow();
    assert_eq!(live_cells(&b), vec![(5, 4), (5, 5), (5, 6)]);
    b.grow();
    assert_eq!(live_cells(&b), cells);
}

#[test]
fn glider_moves_one_cell_diagonally_in_four_generations() {
    let glider = [(1, 0), (2, 1), (0, 2), (1, 2), (2, 2)];
    let mut b = with_cells(20, 20, &glider.iter().map(|&(x, y)| (x + 5, y + 5)).collect::<Vec<_>>());
    for _ in 0..4 {
        b.grow();
    }
    let mut expected: Vec<(i32, i32)> = glider.iter().map(|&(x, y)| (x + 6, y + 6)).collect();
    expected.sort_by_key(|&(x, y)| (y, x));
    assert_eq!(live_cells(&b), expected);
}

#[test]
fn grow_agrees_with_the_scalar_rule_on_random_boards() {
    let mut rng = StdRng::seed_from_u64(7);
    for &(w, h) in &[(1, 1), (3, 2), (63, 5), (64, 6), (65, 7), (128, 4), (130, 9), (200, 3)] {
        for _ in 0..4 {
            let mut b = board(w, h);
            for y in 0..h {
                for x in 0..w {
                    b.set(Point(x, y), rng.gen_bool(0.4));
                }
            }
            let mut expected = snapshot(&b);
            for _ in 0..6 {
                b.grow();
                expected = scalar_step(&expected);
                assert_eq!(snapshot(&b), expected, "board {}x{}", w, h);
            }
        }
    }
}

#[test]
fn nothing_grows_past_the_right_edge() {
    // A vertical blinker in the last column of a board whose width fills its
    // words exactly: the cells it would give birth to lie off the board.
    let mut b = with_cells(64, 5, &[(63, 1), (63, 2), (63, 3)]);
    b.grow();
    assert_eq!(live_cells(&b), vec![(62, 2), (63, 2)]);
    b.grow();
    assert!(live_cells(&b).is_empty());
}

#[test]
fn nothing_grows_past_the_last_word_of_a_short_row() {
    let mut b = with_cells(10, 5, &[(9, 1), (9, 2), (9, 3)]);
    b.grow();
    assert_eq!(live_cells(&b), vec![(8, 2), (9, 2)]);
    b.grow();
    assert!(live_cells(&b).is_empty());
}

#[test]
fn edges_count_as_dead() {
    // A full 3x3 board: only the corners survive (three neighbours each).
    let mut b = board(3, 3);
    for y in 0..3 {
        for x in 0..3 {
            b.set(Point(x, y), true);
        }
    }
    b.grow();
    assert_eq!(live_cells(&b), vec![(0, 0), (2, 0), (0, 2), (2, 2)]);
}

#[test]
fn random_init_fills_column_by_column() {
    let mut b = board(3, 2);
    // cell (x, y) takes bits[x * 2 + y]
    let bits = vec![true, false, false, false, false, true];
    b.random_init(&bits);
    assert_eq!(live_cells(&b), vec![(0, 0), (2, 1)]);
}

#[test]
fn random_init_is_reproducible_for_a_seeded_source() {
    let draw = |seed: u64| -> Vec<bool> {
        let mut rng = StdRng::seed_from_u64(seed);
        (0..70 * 9).map(|_| rng.gen()).collect()
    };
    let mut a = board(70, 9);
    let mut b = board(70, 9);
    a.random_init(&draw(11));
    b.random_init(&draw(11));
    assert_eq!(snapshot(&a), snapshot(&b));
    assert!(!live_cells(&a).is_empty());
}

#[test]
fn randomize_keeps_the_size() {
    let mut b = board(33, 17);
    b.randomize();
    assert_eq!(b.size(), Size(33, 17));
    b.grow();
    assert_eq!(b.size(), Size(33, 17));
}
