use longcut::geometry::{Dimensions, Position};
use longcut::layout::{
    column_extent, column_placements, row_extent, row_placements, subregion, table_cell_width,
    table_columns, table_measure, window_geometry, Alignment,
};

#[test]
fn the_window_is_cut_to_the_screen_and_aligned() {
    let screen = Dimensions::new(1920, 1080);
    let (size, position) = window_geometry(
        screen,
        Dimensions::new(1280, 360),
        Alignment::Center,
        Alignment::End,
    );
    assert_eq!(size, Dimensions::new(1280, 360));
    assert_eq!(position, Position::new(320, 720));

    let (size, position) = window_geometry(
        Dimensions::new(800, 600),
        Dimensions::new(1280, 360),
        Alignment::Beginning,
        Alignment::Center,
    );
    assert_eq!(size, Dimensions::new(800, 360));
    assert_eq!(position, Position::new(0, 120));
}

#[test]
fn a_subregion_is_cut_to_its_parent() {
    let placed = subregion(
        Position::new(10, 10),
        Dimensions::new(100, 50),
        Position::new(20, 30),
        Dimensions::new(200, 10),
    );
    assert_eq!(placed, Some((Position::new(30, 40), Dimensions::new(80, 10))));
    let outside = subregion(
        Position::new(0, 0),
        Dimensions::new(100, 50),
        Position::new(0, 60),
        Dimensions::new(10, 10),
    );
    assert_eq!(outside, None);
}

#[test]
fn columns_stack_heights_and_rows_stack_widths() {
    let children = vec![Dimensions::new(10, 5), Dimensions::new(30, 2), Dimensions::new(20, 7)];
    assert_eq!(column_extent(&children), Dimensions::new(30, 14));
    assert_eq!(row_extent(&children), Dimensions::new(60, 7));
    assert_eq!(column_extent(&vec![]), Dimensions::new(0, 0));
}

#[test]
fn column_children_follow_one_another_down_the_column() {
    let placed = column_placements(Dimensions::new(100, 50), &vec![5, 0, 12]);
    assert_eq!(
        placed,
        vec![
            (Position::new(0, 0), Dimensions::new(100, 5)),
            (Position::new(0, 5), Dimensions::new(100, 0)),
            (Position::new(0, 5), Dimensions::new(100, 12)),
        ]
    );
    assert!(column_placements(Dimensions::new(100, 50), &vec![]).is_empty());
}

#[test]
fn row_children_follow_one_another_across_the_row() {
    let placed = row_placements(Dimensions::new(100, 50), &vec![30, 40]);
    assert_eq!(
        placed,
        vec![
            (Position::new(0, 0), Dimensions::new(30, 50)),
            (Position::new(30, 0), Dimensions::new(40, 50)),
        ]
    );
}

#[test]
fn a_table_holds_as_many_columns_as_fit_and_at_least_one() {
    assert_eq!(table_columns(1000, 300), 3);
    assert_eq!(table_columns(100, 300), 1);
    assert_eq!(table_columns(0, 300), 1);
    assert_eq!(table_cell_width(1000, 300), 333);
    assert_eq!(table_cell_width(100, 300), 100);
}

#[test]
fn a_table_is_as_high_as_its_rows_each_as_high_as_its_highest_cell() {
    let region = Dimensions::new(1000, 400);
    // Three columns: rows [4, 9, 2], [7, 1].
    let measured = table_measure(region, 300, &vec![4, 9, 2, 7, 1]);
    assert_eq!(measured, Dimensions::new(1000, 16));
    // Narrower than two columns: the cells stack.
    let measured = table_measure(Dimensions::new(500, 400), 300, &vec![4, 9, 2]);
    assert_eq!(measured, Dimensions::new(500, 15));
    assert_eq!(table_measure(region, 300, &vec![]), Dimensions::new(1000, 0));
}

#[test]
fn a_table_height_saturates_at_u32_max() {
    let measured = table_measure(Dimensions::new(10, 10), 10, &vec![u32::MAX, 1]);
    assert_eq!(measured, Dimensions::new(10, u32::MAX));
}
