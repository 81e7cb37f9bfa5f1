use reflex::filebuffer::Direction;
use reflex::FileBuffer;
use reflex::Mode;
use reflex::Position;
use reflex::Selection;
use reflex::Size;
use reflex::Terminal;

fn pos(x: usize, y: usize) -> Position {
    Position { x, x_preferred: x, y }
}

fn sel(x: usize, y: usize) -> Selection {
    Selection { anchor: pos(x, y), cursor: pos(x, y) }
}

#[test]
fn round_trip_plain_text() {
    assert_eq!(FileBuffer::load("abc\ndef\n").serialize(), "abc\ndef\n");
}

#[test]
fn round_trip_no_trailing_newline() {
    assert_eq!(FileBuffer::load("abc\ndef").serialize(), "abc\ndef");
}

#[test]
fn round_trip_empty() {
    assert_eq!(FileBuffer::load("").serialize(), "");
}

#[test]
fn round_trip_helper_matches() {
    assert_eq!(FileBuffer::load_round_trip("one\r\ntwo\n"), "one\r\ntwo\n");
}

#[test]
fn load_sets_flags() {
    let b = FileBuffer::load("hi");
    assert!(!b.buffer_is_empty);
    assert!(!b.file_is_dirty);
    assert!(b.file_path.is_none());
    let e = FileBuffer::load("");
    assert!(e.buffer_is_empty);
}

#[test]
fn len_counts_lines() {
    assert_eq!(FileBuffer::load("").len(), 0);
    assert_eq!(FileBuffer::load("abc").len(), 1);
    assert_eq!(FileBuffer::load("abc\n").len(), 1);
    assert_eq!(FileBuffer::load("abc\ndef").len(), 2);
    assert_eq!(FileBuffer::load("abc\ndef\n").len(), 2);
    assert_eq!(FileBuffer::load("\n\n").len(), 2);
}

#[test]
fn is_empty_reports_content() {
    assert!(FileBuffer::load("").is_empty());
    assert!(FileBuffer::default().is_empty());
    assert!(!FileBuffer::load("\n").is_empty());
}

#[test]
fn row_returns_lines_with_terminators() {
    let b = FileBuffer::load("ab\ncd");
    assert_eq!(b.row(0).as_deref(), Some("ab\n"));
    assert_eq!(b.row(1).as_deref(), Some("cd"));
    assert_eq!(b.row(2), None);
}

#[test]
fn insert_newline_splits_line() {
    // one selection at {y: 0, x: 3} in "abc\ndef\n"
    let mut b = FileBuffer::load("abc\ndef\n");
    b.selections = vec![sel(3, 0)];
    b.insert('\n');
    assert_eq!(b.serialize(), "abc\n\ndef\n");
    assert_eq!(b.selections[0].cursor.y, 1);
    assert_eq!(b.selections[0].cursor.x, 0);
    assert_eq!(b.len(), 3);
    assert!(b.file_is_dirty);
}

#[test]
fn insert_into_empty_buffer() {
    let mut b = FileBuffer::default();
    assert!(b.buffer_is_empty);
    b.insert('x');
    assert!(!b.buffer_is_empty);
    assert_eq!(b.len(), 1);
    assert_eq!(b.selections[0].cursor.x, 1);
    assert_eq!(b.selections[0].cursor.y, 0);
}

#[test]
fn backspace_at_origin_is_a_no_op() {
    let mut b = FileBuffer::load("abc");
    b.delete(true);
    assert_eq!(b.serialize(), "abc");
    assert_eq!(b.selections[0].cursor.x, 0);
    assert_eq!(b.selections[0].cursor.y, 0);
    assert!(!b.file_is_dirty);
}

#[test]
fn insert_then_backspace_restores() {
    let mut b = FileBuffer::load("hello\nworld\n");
    b.selections = vec![sel(2, 1)];
    b.insert('Z');
    assert_eq!(b.serialize(), "hello\nwoZrld\n");
    b.delete(true);
    assert_eq!(b.serialize(), "hello\nworld\n");
    assert_eq!(b.selections[0].cursor.x, 2);
    assert_eq!(b.selections[0].cursor.y, 1);
}

#[test]
fn newline_then_backspace_restores() {
    let mut b = FileBuffer::load("hello\n");
    b.selections = vec![sel(3, 0)];
    b.insert('\n');
    assert_eq!(b.serialize(), "hel\nlo\n");
    b.delete(true);
    assert_eq!(b.serialize(), "hello\n");
    assert_eq!(b.selections[0].cursor.x, 3);
    assert_eq!(b.selections[0].cursor.y, 0);
}

#[test]
fn multi_cursor_insert_shifts_later_selection() {
    let mut b = FileBuffer::load("abcdef\n");
    b.selections = vec![sel(1, 0), sel(4, 0)];
    b.insert('X');
    assert_eq!(b.serialize(), "aXbcdXef\n");
    assert_eq!(b.selections[0].cursor.x, 2);
    assert_eq!(b.selections[1].cursor.x, 6);
}

#[test]
fn multi_cursor_backspace_shifts_later_selection() {
    let mut b = FileBuffer::load("abcdef\n");
    b.selections = vec![sel(2, 0), sel(4, 0)];
    b.delete(true);
    assert_eq!(b.serialize(), "acef\n");
    assert_eq!(b.selections[0].cursor.x, 1);
    assert_eq!(b.selections[1].cursor.x, 2);
}

#[test]
fn backspace_joins_lines() {
    let mut b = FileBuffer::load("ab\ncd\n");
    b.selections = vec![sel(0, 1)];
    b.delete(true);
    assert_eq!(b.serialize(), "abcd\n");
    assert_eq!(b.len(), 1);
    assert_eq!(b.selections[0].cursor.y, 0);
    assert_eq!(b.selections[0].cursor.x, 2);
}

#[test]
fn forward_delete_joins_lines() {
    let mut b = FileBuffer::load("ab\ncd\n");
    b.selections = vec![sel(2, 0)];
    b.delete(false);
    assert_eq!(b.serialize(), "abcd\n");
    assert_eq!(b.selections[0].cursor.y, 0);
    assert_eq!(b.selections[0].cursor.x, 2);
}

#[test]
fn forward_delete_under_cursor() {
    let mut b = FileBuffer::load("abc\n");
    b.selections = vec![sel(1, 0)];
    b.delete(false);
    assert_eq!(b.serialize(), "ac\n");
    assert_eq!(b.selections[0].cursor.x, 1);
    assert!(b.file_is_dirty);
}

#[test]
fn preferred_column_survives_short_line() {
    let mut b = FileBuffer::load("abcd\nx\nefgh");
    b.move_cursors(Direction::Right);
    b.move_cursors(Direction::Right);
    b.move_cursors(Direction::Right);
    assert_eq!(b.selections[0].cursor.x, 3);
    b.move_cursors(Direction::Down);
    assert_eq!(b.selections[0].cursor.y, 1);
    assert_eq!(b.selections[0].cursor.x, 1);
    b.move_cursors(Direction::Down);
    assert_eq!(b.selections[0].cursor.y, 2);
    assert_eq!(b.selections[0].cursor.x, 3);
}

#[test]
fn movement_stops_at_edges() {
    let mut b = FileBuffer::load("ab\ncd");
    b.move_cursors(Direction::Up);
    assert_eq!(b.selections[0].cursor.y, 0);
    b.move_cursors(Direction::Left);
    assert_eq!(b.selections[0].cursor.x, 0);
    b.move_cursors(Direction::Down);
    b.move_cursors(Direction::Down);
    assert_eq!(b.selections[0].cursor.y, 1);
    b.move_cursors(Direction::Right);
    b.move_cursors(Direction::Right);
    b.move_cursors(Direction::Right);
    assert_eq!(b.selections[0].cursor.x, 1);
}

#[test]
fn movement_snaps_anchor_to_cursor() {
    let mut b = FileBuffer::load("abc\n");
    b.selections = vec![Selection { anchor: pos(0, 0), cursor: pos(2, 0) }];
    b.move_cursors(Direction::Left);
    assert_eq!(b.selections[0].anchor, b.selections[0].cursor);
}

#[test]
fn viewport_follows_cursor_right_and_back() {
    let mut b = FileBuffer::load("abcdefghijklmnop\n");
    b.selections = vec![sel(10, 0)];
    let size = Size { width: 4, height: 3 };
    b.shift_viewport(&size);
    assert_eq!(b.offset.x, 7);
    let p = b.get_primary_selection_cursor_pos();
    assert_eq!(p.x, 3);
    assert!(p.x < 4);
    b.selections = vec![sel(2, 0)];
    b.shift_viewport(&size);
    assert_eq!(b.offset.x, 2);
    assert_eq!(b.get_primary_selection_cursor_pos().x, 0);
}

#[test]
fn viewport_follows_cursor_down() {
    let mut b = FileBuffer::load("a\nb\nc\nd\ne\nf\n");
    b.selections = vec![sel(0, 5)];
    let size = Size { width: 8, height: 3 };
    b.shift_viewport(&size);
    assert_eq!(b.offset.y, 3);
    let p = b.get_primary_selection_cursor_pos();
    assert!(p.y < 3);
}

#[test]
fn screen_cursor_position_reports_visibility() {
    let mut b = FileBuffer::load("abc\ndef\n");
    b.offset = Position { x: 2, x_preferred: 0, y: 1 };
    let size = Size { width: 10, height: 10 };
    let on = b.get_screen_cursor_pos(&pos(5, 1), &size).unwrap();
    assert_eq!((on.x, on.y), (3, 0));
    assert!(b.get_screen_cursor_pos(&pos(1, 1), &size).is_none());
    assert!(b.get_screen_cursor_pos(&pos(5, 0), &size).is_none());
}

#[test]
fn char_under_cursor() {
    let b = FileBuffer::load("ab\ncd");
    assert_eq!(b.get_char_under_cursor(&pos(1, 0)), 'b');
    assert_eq!(b.get_char_under_cursor(&pos(2, 0)), ' ');
    assert_eq!(b.get_char_under_cursor(&pos(0, 1)), 'c');
    assert_eq!(b.get_char_under_cursor(&pos(9, 9)), ' ');
}

#[test]
fn typing_at_end_of_fragment_line() {
    // a line break typed inside an unterminated line splits it
    let mut b = FileBuffer::load("ab");
    b.move_cursors(Direction::Right);
    assert_eq!(b.selections[0].cursor.x, 1);
    b.insert('\n');
    assert_eq!(b.serialize(), "a\nb");
    assert_eq!(b.selections[0].cursor.y, 1);
    assert_eq!(b.selections[0].cursor.x, 0);
}

#[test]
fn carriage_return_is_not_a_line_break() {
    let b = FileBuffer::load("a\rb");
    assert_eq!(b.len(), 1);
    assert_eq!(b.row(0).as_deref(), Some("a\rb"));
    assert_eq!(b.serialize(), "a\rb");
}

#[test]
fn multi_cursor_newline_relocates_later_selection() {
    let mut b = FileBuffer::load("abcd\n");
    b.selections = vec![sel(1, 0), sel(3, 0)];
    b.insert('\n');
    assert_eq!(b.serialize(), "a\nbc\nd\n");
    assert_eq!((b.selections[0].cursor.x, b.selections[0].cursor.y), (0, 1));
    assert_eq!((b.selections[1].cursor.x, b.selections[1].cursor.y), (0, 2));
}

#[test]
fn default_buffer_is_untitled() {
    let b = FileBuffer::default();
    assert!(b.file_path.is_none());
    assert!(!b.file_is_dirty);
    assert_eq!(b.selections.len(), 1);
    assert_eq!(b.primary_selection_idx, 0);
    assert_eq!(b.len(), 0);
}

#[test]
fn mode_labels() {
    assert_eq!(Mode::default(), Mode::Normal);
    assert_eq!(Mode::Normal.label(), "NORMAL");
    assert_eq!(Mode::Insert.label(), "INSERT");
    assert_eq!(Mode::Visual.label(), "VISUAL");
    assert_eq!(Mode::Command.label(), "COMMAND");
}

#[test]
fn terminal_reports_its_size() {
    let t = Terminal { size: Size { width: 80, height: 24 }, raw_mode: true, alt_screen: false };
    assert_eq!(t.size().width, 80);
    assert_eq!(t.size().height, 24);
}
