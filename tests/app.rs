use lifegame::app::{clamp, App, AppSettings};
use lifegame::board::BoardError;
use lifegame::geom::{Move, Point, Size};

fn app(win: Size, board: Size, rect: i32) -> App {
    let settings = AppSettings { win_size: win, board_size: board, rect_size: rect };
    App::new(&settings).ok().expect("positive board size")
}

fn live_cells(a: &App) -> Vec<(i32, i32)> {
    let Size(w, h) = a.board.size();
    let mut v = Vec::new();
    for y in 0..h {
        for x in 0..w {
            if a.board.get(Point(x, y)) {
                v.push((x, y));
            }
        }
    }
    v
}

#[test]
fn clamp_raises_then_lowers() {
    assert_eq!(clamp(5, 0, 10), 5);
    assert_eq!(clamp(-3, 0, 10), 0);
    assert_eq!(clamp(12, 0, 10), 10);
    assert_eq!(clamp(5, 10, 0), 0);
    assert_eq!(clamp(-100, -640, 0), -100);
}

#[test]
fn default_settings_fill_the_window() {
    let s = AppSettings::default();
    assert_eq!(s.win_size, Size(640, 480));
    assert_eq!(s.rect_size, 4);
    assert_eq!(s.board_size, Size(160, 120));
}

#[test]
fn new_starts_running_over_a_dead_board() {
    let a = app(Size(640, 480), Size(160, 120), 4);
    assert!(a.running);
    assert!(a.invalidated);
    assert_eq!(a.offset, Move(0, 0));
    assert_eq!(a.board.size(), Size(160, 120));
    assert!(live_cells(&a).is_empty());
    let bad = AppSettings { win_size: Size(10, 10), board_size: Size(0, 3), rect_size: 1 };
    assert_eq!(App::new(&bad).err(), Some(BoardError::InvalidSize));
}

#[test]
fn step_only_advances_a_paused_board() {
    let mut a = app(Size(40, 40), Size(10, 10), 4);
    for x in 3..6 {
        a.board.set(Point(x, 4), true);
    }
    a.invalidated = false;
    a.step();
    assert_eq!(live_cells(&a), vec![(3, 4), (4, 4), (5, 4)]);
    assert!(!a.invalidated);
    a.toggle_running();
    assert!(!a.running);
    a.step();
    assert_eq!(live_cells(&a), vec![(4, 3), (4, 4), (4, 5)]);
    assert!(a.invalidated);
}

#[test]
fn update_slides_and_advances() {
    let mut a = app(Size(40, 40), Size(10, 10), 4);
    for x in 3..6 {
        a.board.set(Point(x, 4), true);
    }
    a.slide(Move(1, 0));
    a.slide(Move(0, -1));
    assert_eq!(a.slide, Move(1, -1));
    a.update();
    assert_eq!(a.offset, Move(-4, 4));
    assert_eq!(live_cells(&a), vec![(4, 3), (4, 4), (4, 5)]);
    a.toggle_running();
    a.slide(Move(-1, 1));
    a.invalidated = false;
    a.update();
    assert_eq!(a.offset, Move(-4, 4));
    assert_eq!(live_cells(&a), vec![(4, 3), (4, 4), (4, 5)]);
    assert!(!a.invalidated);
}

#[test]
fn set_win_size_reports_a_change() {
    let mut a = app(Size(40, 40), Size(10, 10), 4);
    a.invalidated = false;
    assert!(!a.set_win_size(Size(40, 40)));
    assert!(!a.invalidated);
    assert!(a.set_win_size(Size(80, 40)));
    assert_eq!(a.win_size, Size(80, 40));
    assert!(a.invalidated);
}

#[test]
fn drawing_paints_the_stroke_between_mouse_positions() {
    let mut a = app(Size(20, 20), Size(20, 20), 1);
    a.drawing(true);
    assert_eq!(live_cells(&a), vec![(0, 0)]);
    a.mouse_move(Point(4, 2));
    assert_eq!(a.onmouse_cell, Point(4, 2));
    assert_eq!(live_cells(&a), vec![(0, 0), (1, 0), (2, 1), (3, 1), (4, 2)]);
    a.drawing(false);
    a.mouse_move(Point(9, 9));
    assert_eq!(live_cells(&a).len(), 5);
}

#[test]
fn erasing_clears_the_stroke_and_both_buttons_do_nothing() {
    let mut a = app(Size(20, 20), Size(20, 20), 2);
    for x in 0..10 {
        a.board.set(Point(x, 3), true);
    }
    a.mouse_move(Point(2, 7));
    assert_eq!(a.onmouse_cell, Point(1, 3));
    a.erasing(true);
    a.mouse_move(Point(9, 7));
    assert_eq!(live_cells(&a), vec![(0, 3), (5, 3), (6, 3), (7, 3), (8, 3), (9, 3)]);
    a.drawing(true);
    a.mouse_move(Point(19, 7));
    assert_eq!(live_cells(&a), vec![(0, 3), (5, 3), (6, 3), (7, 3), (8, 3), (9, 3)]);
}

#[test]
fn strokes_off_the_board_are_ignored() {
    let mut a = app(Size(20, 20), Size(5, 5), 1);
    a.mouse_move(Point(-3, 2));
    a.drawing(true);
    a.mouse_move(Point(8, 2));
    assert_eq!(live_cells(&a), vec![(0, 2), (1, 2), (2, 2), (3, 2), (4, 2)]);
}

#[test]
fn dragging_moves_the_view() {
    let mut a = app(Size(40, 40), Size(10, 10), 4);
    a.mouse_move(Point(10, 10));
    a.moving(true);
    assert_eq!(a.moving, Some((Point(10, 10), Move(0, 0))));
    a.mouse_move(Point(25, 4));
    assert_eq!(a.offset, Move(15, -6));
    a.moving(false);
    a.mouse_move(Point(0, 0));
    assert_eq!(a.offset, Move(15, -6));
}

#[test]
fn zoom_keeps_the_point_under_the_mouse() {
    let mut a = app(Size(640, 480), Size(160, 120), 4);
    a.mouse_move(Point(100, 50));
    a.zoom(1);
    assert_eq!(a.rect_size, 8);
    assert_eq!(a.offset, Move(-100, -50));
    a.zoom(10);
    assert_eq!(a.rect_size, 32);
    a.zoom(-10);
    assert_eq!(a.rect_size, 1);
    assert!(a.invalidated);
}

#[test]
fn zoom_out_from_an_odd_offset_rounds_toward_zero() {
    let mut a = app(Size(640, 480), Size(160, 120), 4);
    a.offset = Move(-7, 3);
    a.mouse_move(Point(10, 10));
    a.zoom(-1);
    assert_eq!(a.rect_size, 2);
    // x: 10 - (10 + 7) / 4 * 2 = 1.5, y: 10 - (10 - 3) / 4 * 2 = 6.5
    assert_eq!(a.offset, Move(1, 6));
}

#[test]
fn fit_to_win_size_centres_a_smaller_board() {
    let mut a = app(Size(40, 24), Size(4, 2), 4);
    a.board.set(Point(0, 0), true);
    a.board.set(Point(3, 1), true);
    assert_eq!(a.fit_to_win_size(), Ok(()));
    assert_eq!(a.board.size(), Size(10, 6));
    assert_eq!(live_cells(&a), vec![(3, 2), (6, 3)]);
}

#[test]
fn fit_to_win_size_keeps_the_top_left_of_a_larger_board() {
    let mut a = app(Size(12, 8), Size(10, 10), 4);
    a.board.set(Point(1, 1), true);
    a.board.set(Point(5, 5), true);
    assert_eq!(a.fit_to_win_size(), Ok(()));
    assert_eq!(a.board.size(), Size(3, 2));
    assert_eq!(live_cells(&a), vec![(1, 1)]);
}

#[test]
fn fit_to_win_size_refuses_a_window_smaller_than_a_cell() {
    let mut a = app(Size(3, 40), Size(10, 10), 4);
    a.board.set(Point(1, 1), true);
    assert_eq!(a.fit_to_win_size(), Err(BoardError::InvalidSize));
    assert_eq!(a.board.size(), Size(10, 10));
    assert_eq!(live_cells(&a), vec![(1, 1)]);
}

#[test]
fn adjust_offset_centres_or_clamps() {
    let mut a = app(Size(800, 600), Size(160, 120), 4);
    a.adjust_offset();
    assert_eq!(a.offset, Move(80, 60));
    let mut b = app(Size(100, 100), Size(50, 50), 4);
    b.offset = Move(20, -500);
    b.adjust_offset();
    assert_eq!(b.offset, Move(0, -100));
}

#[test]
fn pixel_color_shows_off_board_live_and_dead() {
    let mut a = app(Size(100, 100), Size(10, 10), 4);
    a.board.set(Point(2, 3), true);
    assert_eq!(a.pixel_color(Point(9, 13)), [255, 255, 255, 255]);
    assert_eq!(a.pixel_color(Point(1, 1)), [0, 0, 0, 255]);
    assert_eq!(a.pixel_color(Point(41, 1)), [128, 128, 128, 255]);
}

#[test]
fn app_random_init_and_clear() {
    let mut a = app(Size(8, 8), Size(2, 2), 4);
    a.random_init(&vec![true, false, false, true]);
    assert_eq!(live_cells(&a), vec![(0, 0), (1, 1)]);
    a.clear();
    assert!(live_cells(&a).is_empty());
    a.randomize();
    assert_eq!(a.board.size(), Size(2, 2));
}
