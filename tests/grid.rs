use tanin::grid::{
    find_position, grid_cols, grid_layout, horizontal_step, revalidated_cursor, row_top,
    scroll_by, scroll_into_view, vertical_step,
};

fn cats(names: &[&str]) -> Vec<String> {
    names.iter().map(|s| s.to_string()).collect()
}

#[test]
fn columns_fit_the_width() {
    assert_eq!(grid_cols(80), 3);
    assert_eq!(grid_cols(52), 2);
    assert_eq!(grid_cols(20), 1);
    assert_eq!(grid_cols(0), 1);
}

#[test]
fn categories_start_new_rows() {
    let c = cats(&["A", "A", "A", "B", "B", "C"]);
    assert_eq!(
        grid_layout(&c, 2),
        vec![(0, 0), (1, 0), (0, 1), (0, 2), (1, 2), (0, 3)]
    );
    assert_eq!(grid_layout(&Vec::new(), 3), Vec::<(u16, u16)>::new());
}

#[test]
fn row_tops_count_headers_and_rows() {
    let c = cats(&["A", "A", "A", "B", "B", "C"]);
    assert_eq!(row_top(&c, 2, 0), 2);
    assert_eq!(row_top(&c, 2, 1), 2);
    assert_eq!(row_top(&c, 2, 2), 8);
    assert_eq!(row_top(&c, 2, 3), 16);
    assert_eq!(row_top(&c, 2, 5), 24);
}

#[test]
fn scrolling_brings_rows_into_view() {
    // row above the view: scroll up to show its header too
    assert_eq!(scroll_into_view(10, 30, 20), 8);
    // row below the view: scroll so its bottom is the last line
    assert_eq!(scroll_into_view(40, 30, 0), 21);
    // row in view: no change
    assert_eq!(scroll_into_view(10, 30, 5), 5);
}

#[test]
fn scrolling_stays_within_content() {
    assert_eq!(scroll_by(0, -2, 40, 30), 0);
    assert_eq!(scroll_by(10, 2, 40, 30), 12);
    assert_eq!(scroll_by(20, 5, 40, 30), 22);
    assert_eq!(scroll_by(4, 2, 2, 30), 0);
}

#[test]
fn vertical_steps_pick_the_nearest_column() {
    let layout = vec![(0, 0), (1, 0), (2, 0), (0, 1), (1, 1), (0, 2)];
    assert_eq!(vertical_step(&layout, 2, true), Some(4));
    assert_eq!(vertical_step(&layout, 4, true), Some(5));
    assert_eq!(vertical_step(&layout, 5, false), Some(3));
    assert_eq!(vertical_step(&layout, 0, false), None);
    assert_eq!(vertical_step(&layout, 5, true), None);
}

#[test]
fn horizontal_steps_follow_the_list() {
    let shown = vec![3, 5, 9];
    assert_eq!(horizontal_step(&shown, 5, true), Some(9));
    assert_eq!(horizontal_step(&shown, 5, false), Some(3));
    assert_eq!(horizontal_step(&shown, 9, true), None);
    assert_eq!(horizontal_step(&shown, 3, false), None);
    assert_eq!(horizontal_step(&shown, 4, true), Some(3));
    assert_eq!(horizontal_step(&Vec::new(), 4, true), None);
    assert_eq!(find_position(&shown, 9), Some(2));
}

#[test]
fn hidden_cursor_moves_to_the_first_shown() {
    assert_eq!(revalidated_cursor(&vec![3, 5], 4), Some(3));
    assert_eq!(revalidated_cursor(&vec![3, 5], 5), None);
    assert_eq!(revalidated_cursor(&Vec::new(), 5), None);
}

#[test]
fn cells_find_their_card_and_slider() {
    let c = cats(&["A", "A", "B"]);
    // first card: rows 5..10 on screen (grid starts at line 3, header takes 2)
    assert_eq!(tanin::grid::card_at(&c, 2, 0, 80, 3, 5), Some((0, None)));
    // its slider row is the fourth line of the card
    assert_eq!(tanin::grid::card_at(&c, 2, 0, 80, 6, 8), Some((0, Some(2))));
    // second card sits one pitch to the right
    assert_eq!(tanin::grid::card_at(&c, 2, 0, 80, 28, 6), Some((1, None)));
    // the gap between cards hits nothing
    assert_eq!(tanin::grid::card_at(&c, 2, 0, 80, 26, 6), None);
    // the next category starts after a row and a header: lines 13..18
    assert_eq!(tanin::grid::card_at(&c, 2, 0, 80, 3, 13), Some((2, None)));
    // scrolled by 8, it moves up 8 lines
    assert_eq!(tanin::grid::card_at(&c, 2, 8, 80, 3, 5), Some((2, None)));
    // a card that does not fit the width is not hit
    assert_eq!(tanin::grid::card_at(&c, 2, 0, 40, 28, 6), None);
}
