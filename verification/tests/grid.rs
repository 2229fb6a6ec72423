use hub::grid::{Grid, GAP, MARGIN, MAX_COL, MIN_COL};
use hub::term::{truncate_middle, width, Key};

#[test]
fn a_wide_window_shows_the_whole_list_in_columns() {
    let g = Grid::lay(78, 45, 240, 40, 0, 0);
    assert!(g.cols >= 2, "{g:?}");
    assert!(g.colw >= MIN_COL);
    assert!(g.all_visible(), "{g:?}");
    assert_eq!(g.status(), None);
    assert!(MARGIN + g.cols * g.colw + (g.cols - 1) * GAP <= 240);
}

#[test]
fn a_long_list_pages_and_says_how_to_see_more() {
    let g = Grid::lay(1000, 40, 120, 20, 0, 0);
    assert!(!g.all_visible());
    let s = g.status().unwrap();
    assert!(s.starts_with("Showing 1 to "), "{s}");
    assert!(s.contains("Page Down"), "{s}");
    let end = g.step(Key::End, 0).unwrap();
    let g2 = Grid::lay(1000, 40, 120, 20, end, g.first_col);
    let (a, b) = g2.shown();
    assert!(a <= end && end < b, "{g2:?}");
    assert!(g2.status().unwrap().contains("Page Up"));
}

#[test]
fn the_cursor_is_never_off_screen() {
    let mut sel = 0;
    let mut first = 0;
    for k in [
        Key::Down,
        Key::Right,
        Key::PageDown,
        Key::Right,
        Key::End,
        Key::Left,
        Key::PageUp,
        Key::Up,
        Key::Home,
    ] {
        for _ in 0..7 {
            let g = Grid::lay(500, 30, 100, 12, sel, first);
            sel = g.step(k, sel).unwrap_or(sel);
            let g = Grid::lay(500, 30, 100, 12, sel, g.first_col);
            first = g.first_col;
            let (a, b) = g.shown();
            assert!(a <= sel && sel < b, "{k:?} put {sel} outside {a}..{b}");
        }
    }
}

#[test]
fn left_and_right_are_free_in_a_single_column() {
    let g = Grid::lay(5, 20, 80, 20, 0, 0);
    assert_eq!(g.cols, 1);
    assert_eq!(g.step(Key::Left, 2), None);
    assert_eq!(g.step(Key::Right, 2), None);
    assert_eq!(g.step(Key::Down, 2), Some(3));
}

#[test]
fn a_long_path_keeps_its_file_name() {
    let cut = truncate_middle("Lessons/Year 7/science/week 3/notes.txt", 28);
    assert!(cut.ends_with("notes.txt"), "{cut}");
    assert!(cut.starts_with("Lessons"), "{cut}");
    assert!(width(&cut) <= 28);
}

#[test]
fn the_selected_cell_is_marked_and_lines_fit() {
    let cells: Vec<String> = (0..10).map(|i| format!("file-{i}.txt")).collect();
    let g = Grid::lay(10, 12, 80, 4, 5, 0);
    let lines = g.lines(&cells, Some(5));
    assert!(lines.iter().any(|l| l.contains("\x1b[7mfile-5.txt")));
    for l in &lines {
        let visible = l.replace("\x1b[7m", "").replace("\x1b[0m", "");
        assert!(width(&visible) <= 80);
    }
}

#[test]
fn a_column_is_neither_a_stub_nor_a_prairie() {
    let g = Grid::lay(100, 10, 200, 10, 0, 0);
    assert!(g.colw >= MIN_COL && g.colw <= MAX_COL);
    let wide = Grid::lay(100, 500, 200, 10, 0, 0);
    assert!(wide.colw <= MAX_COL);
}

#[test]
fn an_empty_list_has_no_moves() {
    let g = Grid::lay(0, 0, 80, 20, 0, 0);
    assert_eq!(g.step(Key::Down, 0), None);
    assert_eq!(g.status(), None);
    assert_eq!(g.shown(), (0, 0));
}
