use order_book::cursor::Cursor;

#[test]
fn next_wraps_around_the_row_count() {
    let mut cursor = Cursor::new();
    assert_eq!(cursor.selected, None);
    cursor.next(3);
    assert_eq!(cursor.selected, Some(0));
    cursor.next(3);
    assert_eq!(cursor.selected, Some(1));
    cursor.next(3);
    assert_eq!(cursor.selected, Some(2));
    cursor.next(3);
    assert_eq!(cursor.selected, Some(0));
}

#[test]
fn previous_wraps_around_the_row_count() {
    let mut cursor = Cursor::new();
    cursor.previous(3);
    assert_eq!(cursor.selected, Some(0));
    cursor.previous(3);
    assert_eq!(cursor.selected, Some(2));
    cursor.previous(3);
    assert_eq!(cursor.selected, Some(1));
}

#[test]
fn empty_table_pins_selection_to_the_top() {
    let mut cursor = Cursor::new();
    cursor.next(0);
    assert_eq!(cursor.selected, Some(0));
    cursor.next(0);
    assert_eq!(cursor.selected, Some(0));
    cursor.previous(0);
    assert_eq!(cursor.selected, Some(0));
}

#[test]
fn selection_follows_a_shrinking_table() {
    let mut cursor = Cursor::new();
    cursor.next(5);
    cursor.next(5);
    cursor.next(5);
    assert_eq!(cursor.selected, Some(2));
    // The table shrank to two rows: the next move wraps to the top.
    cursor.next(2);
    assert_eq!(cursor.selected, Some(0));
}
