use minefield::field::{Field, FieldState};

#[test]
fn test_pos_index_works() {
    assert_eq!(Field::pos_to_index((3, 6), 7), 45);
    assert_eq!(Field::pos_to_index((6, 3), 7), 27);
    assert_eq!(Field::pos_to_index((2, 0), 5), 2);
    assert_eq!(Field::pos_to_index((0, 2), 3), 6);
    assert_eq!(Field::pos_to_index((0, 0), 5), 0);

    let field = Field::new(false, 3);
    assert_eq!(field.get_pos(5), (3, 0));

    let field = Field::new(false, 10);
    assert_eq!(field.get_pos(5), (0, 2));

    let field = Field::new(false, 12);
    assert_eq!(field.get_pos(5), (2, 2));

    let field = Field::new(false, 0);
    assert_eq!(field.get_pos(5), (0, 0));
}

#[test]
fn pos_to_index_largest_values() {
    assert_eq!(Field::pos_to_index((255, 255), 255), 255 + 255 * 255);
}

#[test]
fn new_field_is_closed() {
    let field = Field::new(true, 7);
    assert_eq!(field.state, FieldState::Closed);
    assert!(field.is_mine);
    assert_eq!(field.index, 7);
    assert_eq!(field.adjacent_mines, 0);
    assert_eq!(FieldState::default(), FieldState::Closed);
}

#[test]
fn field_open_only_from_closed() {
    let mut field = Field::new(false, 0);
    assert!(field.open());
    assert_eq!(field.state, FieldState::Opened);
    assert!(!field.open());
    assert_eq!(field.state, FieldState::Opened);

    let mut flagged = Field::new(false, 1);
    assert_eq!(flagged.toggle_flag(), FieldState::Flagged);
    assert!(!flagged.open());
    assert_eq!(flagged.state, FieldState::Flagged);
}

#[test]
fn field_toggle_flag_cycles() {
    let mut field = Field::new(false, 0);
    assert_eq!(field.toggle_flag(), FieldState::Flagged);
    assert_eq!(field.toggle_flag(), FieldState::Closed);
    field.open();
    assert_eq!(field.toggle_flag(), FieldState::Opened);
    assert_eq!(field.state, FieldState::Opened);
}

#[test]
fn field_neighbour_indexes() {
    // 4 columns, 3 rows; index 5 is (1, 1).
    assert_eq!(Field::new(false, 5).get_neighbour_indixes(4, 3), vec![0, 1, 2, 4, 6, 8, 9, 10]);
    // index 0 is a corner.
    assert_eq!(Field::new(false, 0).get_neighbour_indixes(4, 3), vec![1, 4, 5]);
    // index 11 is the opposite corner.
    assert_eq!(Field::new(false, 11).get_neighbour_indixes(4, 3), vec![6, 7, 10]);
}
