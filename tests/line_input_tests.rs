use wrapedit::line_input::LineInput;

#[test]
fn field_typing_and_motion() {
    let mut f = LineInput::from_str("héllo");
    assert_eq!(f.cursor(), 5);
    f.move_home(false);
    assert_eq!(f.cursor(), 0);
    f.move_right(false);
    f.insert_char('X');
    assert_eq!(f.text(), "hXéllo");
    assert_eq!(f.cursor(), 2);
    f.backspace();
    assert_eq!(f.text(), "héllo");
    f.delete();
    assert_eq!(f.text(), "hllo");
    assert_eq!(f.cursor(), 1);
    f.move_end(false);
    f.delete();
    assert_eq!(f.text(), "hllo");
    f.move_left(false);
    assert_eq!(f.cursor(), 3);
}

#[test]
fn field_selection() {
    let mut f = LineInput::from_str("abcdef");
    f.move_left(true);
    f.move_left(true);
    assert_eq!(f.selection_range(), Some((4, 6)));
    assert_eq!(f.selected_text(), Some("ef".to_string()));
    f.insert_str("XYZ");
    assert_eq!(f.text(), "abcdXYZ");
    assert_eq!(f.cursor(), 7);
    assert!(!f.has_selection());
    f.select_all();
    assert_eq!(f.selected_text(), Some("abcdXYZ".to_string()));
    f.move_left(false);
    assert_eq!(f.cursor(), 0);
    assert!(!f.has_selection());
    f.move_end(true);
    assert!(f.delete_selection());
    assert_eq!(f.text(), "");
    assert!(!f.delete_selection());
    f.move_home(true);
    assert_eq!(f.selected_text(), None);
}

#[test]
fn field_click_and_scroll() {
    let mut f = LineInput::from_str("a日bc");
    f.click(2, false);
    assert_eq!(f.cursor(), 2);
    assert_eq!(f.selection_range(), Some((2, 2)));
    f.drag(4);
    assert_eq!(f.cursor(), 3);
    assert_eq!(f.selection_range(), Some((2, 3)));
    f.click(99, true);
    assert_eq!(f.cursor(), 4);
    assert_eq!(f.cursor_columns(), 5);
    f.update_scroll_offset(3);
    assert_eq!(f.scroll_offset(), 3);
    f.move_home(false);
    f.update_scroll_offset(3);
    assert_eq!(f.scroll_offset(), 0);
}
