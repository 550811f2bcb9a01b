use wrapedit::buffer::Buffer;
use wrapedit::editor::Editor;
use wrapedit::layout::{build_rows, calculate_indent, wrap_line};

fn editor_with(text: &str) -> Editor {
    let mut e = Editor::new();
    e.load_text(text);
    e
}

fn rows_of(e: &mut Editor, width: usize) -> Vec<(usize, usize, bool, usize)> {
    let n = e.visual_line_count(width);
    let mut out = Vec::new();
    for row in 0..n {
        if let Some(vl) = e.visual_line(row) {
            out.push((vl.start_byte, vl.end_byte, vl.is_continuation, vl.indent));
        }
    }
    out
}

#[test]
fn empty_query_has_no_matches() {
    let mut e = editor_with("abc abc");
    e.update_find_matches("abc", false);
    assert_eq!(e.find_matches().len(), 2);
    e.update_find_matches("", false);
    assert!(e.find_matches().is_empty());
    assert_eq!(e.current_match_index(), None);
}

#[test]
fn matches_are_non_overlapping_left_to_right() {
    let mut e = editor_with("ababab");
    e.update_find_matches("ab", false);
    assert_eq!(e.find_matches().clone(), vec![(0, 2), (2, 4), (4, 6)]);
    assert_eq!(e.current_match_index(), Some(0));
    let mut e = editor_with("aaaa");
    e.update_find_matches("aa", false);
    assert_eq!(e.find_matches().clone(), vec![(0, 2), (2, 4)]);
}

#[test]
fn matches_report_byte_offsets() {
    let mut e = editor_with("éa éa");
    e.update_find_matches("a", false);
    assert_eq!(e.find_matches().clone(), vec![(2, 3), (6, 7)]);
}

#[test]
fn current_match_follows_caret_and_wraps() {
    let mut e = editor_with("x1 x2 x3");
    e.move_right(80, false);
    e.move_right(80, false);
    e.move_right(80, false);
    e.update_find_matches("x", true);
    assert_eq!(e.current_match_index(), Some(1));
    assert_eq!(e.caret(), 3);
    e.find_next();
    assert_eq!(e.current_match_index(), Some(2));
    assert_eq!(e.caret(), 6);
    e.find_next();
    assert_eq!(e.current_match_index(), Some(0));
    e.find_previous();
    assert_eq!(e.current_match_index(), Some(2));
    e.update_find_matches("x", false);
    assert_eq!(e.current_match_index(), Some(2));
}

#[test]
fn pause_splits_undo_groups() {
    let mut e = Editor::new();
    e.insert_char('a', 80, 0);
    e.insert_char('b', 80, 100);
    e.insert_char('c', 80, 2000);
    assert_eq!(e.contents(), "abc");
    e.undo();
    assert_eq!(e.contents(), "ab");
    assert_eq!(e.caret(), 2);
    e.undo();
    assert_eq!(e.contents(), "");
    assert!(!e.can_undo());
}

#[test]
fn indent_selection_is_one_undo_unit() {
    let mut e = editor_with("one\ntwo");
    e.select_all();
    assert_eq!(e.caret(), 7);
    e.indent(80, 10);
    assert_eq!(e.contents(), "    one\n    two");
    assert_eq!(e.caret(), 15);
    assert_eq!(e.selection_anchor(), Some(4));
    e.undo();
    assert_eq!(e.contents(), "one\ntwo");
    assert_eq!(e.caret(), 7);
    assert_eq!(e.selection_anchor(), Some(0));
    assert!(!e.can_undo());
}

#[test]
fn replace_all_replaces_every_match() {
    let mut e = editor_with("foo foo foo");
    e.replace_all("foo", "bar", 0);
    assert_eq!(e.contents(), "bar bar bar");
    assert!(e.find_matches().is_empty());
    e.undo();
    assert_eq!(e.contents(), "foo foo foo");
}

#[test]
fn replace_all_terminates_when_replacement_holds_query() {
    let mut e = editor_with("a-a");
    e.replace_all("a", "aa", 0);
    assert_eq!(e.contents(), "aa-aa");
    assert_eq!(e.find_matches().len(), 4);
}

#[test]
fn undo_all_restores_starting_text_and_caret() {
    let mut e = editor_with("hello");
    e.move_right(80, false);
    e.insert_char('x', 80, 0);
    e.paste("yz", 80, 5000);
    e.backspace(80, 9000);
    e.move_right(80, false);
    e.delete(80, 20000);
    e.select_all();
    e.cut(30000);
    e.paste("new", 80, 40000);
    assert_eq!(e.contents(), "new");
    while e.can_undo() {
        e.undo();
    }
    assert_eq!(e.contents(), "hello");
    assert_eq!(e.caret(), 1);
}

#[test]
fn undo_then_redo_round_trips() {
    let mut e = editor_with("abc");
    e.move_right(80, false);
    e.insert_char('X', 80, 0);
    e.insert_char('Y', 80, 10);
    let after = e.contents();
    let caret = e.caret();
    e.undo();
    assert_eq!(e.contents(), "abc");
    assert_eq!(e.caret(), 1);
    e.redo();
    assert_eq!(e.contents(), after);
    assert_eq!(e.caret(), caret);
    assert!(!e.can_redo());
}

#[test]
fn new_edit_drops_redo() {
    let mut e = editor_with("abc");
    e.insert_char('X', 80, 0);
    e.undo();
    assert!(e.can_redo());
    e.insert_char('Z', 80, 5000);
    assert!(!e.can_redo());
    assert_eq!(e.contents(), "Zabc");
}

#[test]
fn wrap_breaks_after_spaces() {
    let mut e = editor_with("hello world foo");
    assert_eq!(
        rows_of(&mut e, 6),
        vec![(0, 6, false, 0), (6, 12, true, 0), (12, 15, true, 0)]
    );
}

#[test]
fn wrap_indents_list_continuations() {
    let mut e = editor_with("- item one two three");
    assert_eq!(
        rows_of(&mut e, 10),
        vec![(0, 7, false, 0), (7, 11, true, 4), (11, 15, true, 4), (15, 20, true, 4)]
    );
}

#[test]
fn wide_characters_take_own_rows() {
    let mut e = editor_with("日本語");
    assert_eq!(
        rows_of(&mut e, 1),
        vec![(0, 3, false, 0), (3, 6, true, 0), (6, 9, true, 0)]
    );
}

#[test]
fn hard_break_without_soft_break() {
    let mut e = editor_with("abcdefgh");
    assert_eq!(rows_of(&mut e, 3), vec![(0, 3, false, 0), (3, 6, true, 0), (6, 8, true, 0)]);
}

#[test]
fn empty_lines_and_no_wrap() {
    let mut e = editor_with("ab\n\ncd");
    assert_eq!(rows_of(&mut e, 80), vec![(0, 2, false, 0), (3, 3, false, 0), (4, 6, false, 0)]);
    e.set_word_wrap(false);
    assert_eq!(rows_of(&mut e, 1), vec![(0, 2, false, 0), (3, 3, false, 0), (4, 6, false, 0)]);
}

#[test]
fn rows_rebuild_text_and_fit() {
    let text = "The quick brown fox - jumps/over the lazy dog\n  * nested item with words\n\n1. first";
    let chars: Vec<char> = text.chars().collect();
    for width in 1..30usize {
        let rows = build_rows(&chars, width, true);
        let mut rebuilt = String::new();
        let mut prev_end = 0usize;
        for r in &rows {
            let gap: String = chars[prev_end..r.start_char].iter().collect();
            assert!(gap.chars().all(|c| c == ' ' || c == '\n'));
            let seg: String = chars[r.start_char..r.end_char].iter().collect();
            let avail = if r.is_continuation { width.saturating_sub(r.indent).max(1) } else { width };
            assert!(r.end_char - r.start_char == 1 || seg.chars().count() <= avail);
            rebuilt.push_str(&gap);
            rebuilt.push_str(&seg);
            prev_end = r.end_char;
        }
        let tail: String = chars[prev_end..].iter().collect();
        rebuilt.push_str(&tail);
        assert_eq!(rebuilt, text);
    }
}

#[test]
fn list_indent_rules() {
    let c = |s: &str| -> usize {
        let v: Vec<char> = s.chars().collect();
        calculate_indent(&v, 0, v.len())
    };
    assert_eq!(c("- a"), 4);
    assert_eq!(c("  * a"), 6);
    assert_eq!(c("+ a"), 4);
    assert_eq!(c("12. a"), 4);
    assert_eq!(c("b) a"), 4);
    assert_eq!(c("  plain"), 2);
    assert_eq!(c("-a"), 0);
    assert_eq!(c("1.a"), 0);
}

#[test]
fn wrap_line_segments() {
    let v: Vec<char> = "aa bb cc".chars().collect();
    assert_eq!(wrap_line(&v, 0, v.len(), 5, 0), vec![(0, 3), (3, 8)]);
}

#[test]
fn visual_position_round_trip() {
    let mut e = editor_with("hello world foo");
    assert_eq!(e.get_visual_position(6, 6), (3, 0));
    assert_eq!(e.get_visual_position(3, 6), (2, 3));
    assert_eq!(e.get_visual_position(15, 6), (4, 3));
    assert_eq!(e.visual_to_byte(3, 2, 6), 8);
    assert_eq!(e.visual_to_byte(0, 2, 6), 15);
}

#[test]
fn continuation_indent_clamps_column() {
    let mut e = editor_with("- item one two three");
    assert_eq!(e.visual_to_byte(3, 1, 10), 7);
    assert_eq!(e.visual_to_byte(3, 6, 10), 9);
    assert_eq!(e.get_visual_position(7, 10), (3, 4));
}

#[test]
fn vertical_moves_keep_preferred_column() {
    let mut e = editor_with("abcdef\nxy\nlmnopq");
    e.move_right(80, false);
    e.move_right(80, false);
    e.move_right(80, false);
    assert_eq!(e.caret(), 3);
    e.move_down(80, false);
    assert_eq!(e.caret(), 9);
    e.move_down(80, false);
    assert_eq!(e.caret(), 13);
    e.move_up(80, true);
    assert_eq!(e.caret(), 9);
    assert_eq!(e.selection_anchor(), Some(13));
    e.move_up(80, false);
    assert_eq!(e.caret(), 3);
    assert_eq!(e.selection_anchor(), None);
    e.move_up(80, false);
    assert_eq!(e.caret(), 0);
}

#[test]
fn horizontal_moves_collapse_selection() {
    let mut e = editor_with("héllo");
    e.move_right(80, true);
    e.move_right(80, true);
    assert_eq!(e.caret(), 3);
    assert_eq!(e.get_selection_range(), Some((0, 3)));
    e.move_left(80, false);
    assert_eq!(e.caret(), 0);
    assert!(!e.has_selection());
    e.move_right(80, true);
    e.move_right(80, true);
    e.move_right(80, false);
    assert_eq!(e.caret(), 3);
    e.move_left(80, false);
    assert_eq!(e.caret(), 1);
    e.move_left(80, false);
    e.move_left(80, false);
    assert_eq!(e.caret(), 0);
}

#[test]
fn typing_over_selection_and_deleting() {
    let mut e = editor_with("hello world");
    e.move_right(80, true);
    e.move_right(80, true);
    e.insert_char('J', 80, 0);
    assert_eq!(e.contents(), "Jllo world");
    assert_eq!(e.caret(), 1);
    e.backspace(80, 10);
    assert_eq!(e.contents(), "llo world");
    assert_eq!(e.caret(), 0);
    e.backspace(80, 20);
    assert_eq!(e.contents(), "llo world");
    e.delete(80, 30);
    assert_eq!(e.contents(), "lo world");
    assert_eq!(e.caret(), 0);
    e.insert_char('é', 80, 40);
    assert_eq!(e.caret(), 2);
    e.backspace(80, 50);
    assert_eq!(e.caret(), 0);
    assert_eq!(e.contents(), "lo world");
}

#[test]
fn clipboard_operations() {
    let mut e = editor_with("abc def");
    assert_eq!(e.copy(), None);
    e.move_right(80, true);
    e.move_right(80, true);
    e.move_right(80, true);
    assert_eq!(e.copy(), Some("abc".to_string()));
    assert_eq!(e.cut(0), Some("abc".to_string()));
    assert_eq!(e.contents(), " def");
    assert_eq!(e.caret(), 0);
    e.move_right(80, false);
    e.move_right(80, false);
    e.move_right(80, false);
    e.move_right(80, false);
    e.paste("XY", 80, 10);
    assert_eq!(e.contents(), " defXY");
    assert_eq!(e.caret(), 6);
    assert_eq!(e.cut(20), None);
}

#[test]
fn dedent_removes_up_to_four_spaces() {
    let mut e = editor_with("      x\n  y");
    e.move_down(80, false);
    e.move_down(80, false);
    e.move_right(80, false);
    e.move_right(80, false);
    e.move_right(80, false);
    assert_eq!(e.get_position(), (2, 4));
    e.dedent(80, 0);
    assert_eq!(e.contents(), "      x\ny");
    assert_eq!(e.caret(), 9);
    e.dedent(80, 100);
    assert_eq!(e.contents(), "      x\ny");
    e.select_all();
    e.dedent(80, 5000);
    assert_eq!(e.contents(), "  x\ny");
    e.undo();
    assert_eq!(e.contents(), "      x\ny");
}

#[test]
fn indent_single_line_moves_caret() {
    let mut e = editor_with("ab\ncd");
    e.move_down(80, false);
    e.move_right(80, false);
    e.indent(80, 0);
    assert_eq!(e.contents(), "ab\n    cd");
    assert_eq!(e.caret(), 8);
    assert_eq!(e.get_position(), (2, 6));
}

#[test]
fn replace_current_moves_to_next_match() {
    let mut e = editor_with("cat hat cat");
    e.update_find_matches("cat", true);
    assert_eq!(e.current_match_index(), Some(0));
    e.replace_current("dog", 0);
    assert_eq!(e.contents(), "dog hat cat");
    assert_eq!(e.find_matches().clone(), vec![(8, 11)]);
    assert_eq!(e.current_match_index(), Some(0));
    assert_eq!(e.caret(), 8);
    e.replace_current("cow", 10);
    assert_eq!(e.contents(), "dog hat cow");
    assert!(e.find_matches().is_empty());
    assert_eq!(e.caret(), 11);
    assert_eq!(e.selection_anchor(), None);
    e.undo();
    assert_eq!(e.contents(), "dog hat cat");
    e.undo();
    assert_eq!(e.contents(), "cat hat cat");
}

#[test]
fn position_is_one_based() {
    let mut e = editor_with("ab\nc日d");
    assert_eq!(e.get_position(), (1, 1));
    e.move_down(80, false);
    e.move_right(80, false);
    e.move_right(80, false);
    assert_eq!(e.caret(), 7);
    assert_eq!(e.get_position(), (2, 3));
}

#[test]
fn viewport_scrolls_with_caret() {
    let text = (0..30).map(|i| format!("line{}", i)).collect::<Vec<_>>().join("\n");
    let mut e = editor_with(&text);
    for _ in 0..20 {
        e.move_down(80, false);
    }
    e.update_viewport(10, 80);
    assert_eq!(e.viewport_offset(), (16, 0));
    for _ in 0..15 {
        e.move_up(80, false);
    }
    e.update_viewport(10, 80);
    assert_eq!(e.viewport_offset(), (4, 0));
}

#[test]
fn click_places_caret() {
    let mut e = editor_with("hello world foo");
    e.handle_click(3, 3, 0, 0, 6, false);
    assert_eq!(e.caret(), 9);
    e.handle_click(1, 2, 0, 0, 6, true);
    assert_eq!(e.caret(), 1);
    assert_eq!(e.selection_anchor(), Some(9));
    e.handle_click(1, 0, 0, 0, 6, false);
    assert_eq!(e.caret(), 1);
}

#[test]
fn buffer_conversions() {
    let mut b = Buffer::from_str("aé\nb");
    assert_eq!(b.len_bytes(), 5);
    assert_eq!(b.len_chars(), 4);
    assert_eq!(b.len_lines(), 2);
    assert_eq!(b.byte_to_char(3), 2);
    assert_eq!(b.char_to_byte(2), 3);
    assert_eq!(b.char_to_line(3), 1);
    assert_eq!(b.line_to_char(1), 3);
    assert_eq!(b.byte_to_line(4), 1);
    assert_eq!(b.byte_to_line(1), 0);
    assert_eq!(b.line_to_byte(1), 4);
    b.insert(1, "XY");
    assert_eq!(b.slice(0, 7), "aXYé\nb");
    let removed = b.remove(1, 5);
    assert_eq!(removed, "XYé");
    assert_eq!(b.slice(0, b.len_bytes()), "a\nb");
    assert_eq!(b.char_at(1), '\n');
}

#[test]
fn load_resets_history_and_modified() {
    let mut e = Editor::new();
    e.insert_char('q', 80, 0);
    assert!(e.is_modified_flag());
    e.load_text("fresh");
    assert!(!e.is_modified_flag());
    assert!(!e.can_undo());
    assert_eq!(e.caret(), 0);
    e.mark_saved();
    assert!(!e.is_modified_flag());
}

#[test]
fn undo_restores_selection_after_indent() {
    let mut e = editor_with("ab\ncd");
    e.select_all();
    e.indent(80, 0);
    assert_eq!(e.contents(), "    ab\n    cd");
    assert_eq!(e.caret(), 13);
    assert_eq!(e.selection_anchor(), Some(4));
    e.undo();
    assert_eq!(e.contents(), "ab\ncd");
    assert_eq!(e.caret(), 5);
    assert_eq!(e.selection_anchor(), Some(0));
    e.redo();
    assert_eq!(e.contents(), "    ab\n    cd");
}

#[test]
fn typing_updates_preferred_column() {
    let mut e = editor_with("abcdef\nxyz");
    e.move_down(80, false);
    e.move_up(80, false);
    assert_eq!(e.caret(), 0);
    e.insert_char('Q', 80, 0);
    e.insert_char('R', 80, 10);
    e.move_down(80, false);
    assert_eq!(e.caret(), 11);
}

#[test]
fn display_names() {
    let mut e = Editor::new();
    assert_eq!(e.get_display_name(None), "[No Name]");
    e.insert_char('x', 80, 0);
    assert_eq!(e.get_display_name(Some("notes.txt")), "notes.txt*");
    e.mark_saved();
    assert_eq!(e.get_display_name(Some("notes.txt")), "notes.txt");
}

#[test]
fn wrap_line_empty_content() {
    let v: Vec<char> = "ab".chars().collect();
    assert_eq!(wrap_line(&v, 1, 1, 5, 0), vec![(1, 1)]);
}

#[test]
fn dedent_without_spaces_adds_no_group() {
    let mut e = editor_with("x\ny");
    e.insert_char('a', 80, 0);
    e.dedent(80, 5000);
    e.undo();
    assert_eq!(e.contents(), "x\ny");
    assert!(!e.can_undo());
}

#[test]
fn dedent_selection_moves_caret_and_anchor() {
    let mut e = editor_with("      a\n  b");
    e.select_all();
    assert_eq!(e.caret(), 11);
    e.dedent(80, 0);
    assert_eq!(e.contents(), "  a\nb");
    assert_eq!(e.caret(), 5);
    assert_eq!(e.selection_anchor(), Some(0));
    e.undo();
    assert_eq!(e.contents(), "      a\n  b");
    assert_eq!(e.caret(), 11);
    assert_eq!(e.selection_anchor(), Some(0));
}
