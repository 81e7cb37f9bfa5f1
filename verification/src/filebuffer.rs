//! The buffer engine: text storage, the multi-cursor selection model, and
//! the viewport offset, with the operations a key dispatcher calls.

use vstd::prelude::*;
use vstd::pervasive::VecAdditionalExecFns;
use crate::terminal::Size;
use crate::storage::rope_char_at;
use crate::storage::rope_from_str;
use crate::storage::rope_insert_char;
use crate::storage::rope_remove_char;
use crate::storage::rope_len_chars;
use crate::storage::rope_len_lines;
use crate::storage::rope_line_to_char;
use crate::storage::rope_new;
use crate::storage::rope_slice_string;
use crate::storage::rope_text;
use crate::storage::rope_to_string;
use crate::text::line_at;
use crate::text::line_count;
use crate::text::line_len;
use crate::text::line_start;
use crate::text::newline_count;
use crate::text::terminated;
use crate::text::next_line_start;
use crate::text::lemma_append_newline;
use crate::text::lemma_insert_char_facts;
use crate::text::lemma_insert_char_in_line;
use crate::text::lemma_insert_newline_in_line;
use crate::text::lemma_line_count_bounds;
use crate::text::lemma_line_start_at_count;
use crate::text::lemma_line_start_monotone;
use crate::text::lemma_newlines_remove;
use crate::text::lemma_next_line_start_chars;
use crate::text::lemma_remove_char_facts;
use crate::text::lemma_starts_line;
use crate::text::lemma_remove_char_in_line;
use crate::text::lemma_remove_terminator;
use crate::text::lemma_line_len_pos;
use crate::text::lemma_line_start_bounds;
use crate::text::lemma_lines_left_start;
use crate::text::lemma_newlines_from_bounds;

verus! {

/// A cursor location: `y` is a zero-based line index, `x` a zero-based
/// column within that line, and `x_preferred` the column the cursor wants
/// to regain after passing through shorter lines.
#[derive(Clone, Copy, PartialEq, Eq, Structural, Debug)]
pub struct Position {
    pub x: usize,
    pub x_preferred: usize,
    pub y: usize,
}

/// A cursor paired with an anchor; the cursor is the active end.
#[derive(Clone, Copy, PartialEq, Eq, Structural, Debug)]
pub struct Selection {
    pub anchor: Position,
    pub cursor: Position,
}

/// The origin position.
pub open spec fn origin() -> Position {
    Position { x: 0, x_preferred: 0, y: 0 }
}

impl Default for Position {
    /// The origin, with no remembered horizontal intent.
    fn default() -> (p: Position)
        ensures
            p == origin(),
    {
        Position { x: 0, x_preferred: 0, y: 0 }
    }
}

impl Default for Selection {
    /// Both ends at the origin.
    fn default() -> (s: Selection)
        ensures
            s == (Selection { anchor: origin(), cursor: origin() }),
    {
        Selection { anchor: Position::default(), cursor: Position::default() }
    }
}

/// A valid cursor location: on an existing line at a column no further than
/// the line's last character, or — when the text is terminated — on the
/// virtual line just past the end, at column zero.
pub open spec fn pos_ok(t: Seq<char>, p: Position) -> bool {
    if (p.y as int) < line_count(t) {
        p.x + 1 <= line_len(t, p.y as int)
    } else {
        p.y as int == line_count(t) && p.x == 0 && terminated(t)
    }
}

/// A buffer over one file: the text, its path if it has one, the dirty and
/// empty flags, the selections with a designated primary one, and the
/// viewport offset.
pub struct FileBuffer {
    pub file_contents: ropey::Rope,
    pub file_path: Option<String>,
    pub buffer_is_empty: bool,
    pub file_is_dirty: bool,
    pub selections: Vec<Selection>,
    pub primary_selection_idx: usize,
    pub offset: Position,
}

impl FileBuffer {
    /// The characters the buffer holds.
    pub open spec fn text(self) -> Seq<char> {
        rope_text(self.file_contents)
    }

    /// Well-formed: at least one selection, a primary index in range, and
    /// every cursor valid for the current text.
    pub open spec fn wf(self) -> bool {
        &&& self.selections@.len() >= 1
        &&& (self.primary_selection_idx as int) < self.selections@.len()
        &&& forall|i: int|
            0 <= i < self.selections@.len() ==> pos_ok(
                self.text(),
                (#[trigger] self.selections@[i]).cursor,
            )
    }
}

/// The origin cursor is valid for any text.
proof fn lemma_origin_ok(t: Seq<char>)
    ensures
        pos_ok(t, origin()),
{
    lemma_line_count_bounds(t);
    if line_count(t) > 0 {
        lemma_line_len_pos(t, 0);
    } else {
        if t.len() > 0 {
            lemma_newlines_from_bounds(t, 0);
            assert(terminated(t));
            crate::text::lemma_newlines_from_last(t, 0);
            assert(false);
        }
    }
}

/// A text has no lines exactly when it has no characters.
pub proof fn lemma_count_zero_iff_empty(t: Seq<char>)
    ensures
        (line_count(t) == 0) == (t.len() == 0),
{
    lemma_line_count_bounds(t);
    if t.len() > 0 && line_count(t) == 0 {
        lemma_newlines_from_bounds(t, 0);
        assert(terminated(t));
        crate::text::lemma_newlines_from_last(t, 0);
        assert(false);
    }
}

impl Default for FileBuffer {
    /// An empty, untitled buffer with a single selection at the origin.
    fn default() -> (b: FileBuffer)
        ensures
            b.wf(),
            b.text() == Seq::<char>::empty(),
            b.file_path is None,
            b.buffer_is_empty,
            !b.file_is_dirty,
            b.selections@ == seq![Selection { anchor: origin(), cursor: origin() }],
            b.primary_selection_idx == 0,
            b.offset == origin(),
    {
        let b = FileBuffer {
            file_contents: rope_new(),
            file_path: None,
            buffer_is_empty: true,
            file_is_dirty: false,
            selections: vec![Selection::default()],
            primary_selection_idx: 0,
            offset: Position::default(),
        };
        proof {
            lemma_origin_ok(b.text());
            assert(b.selections@ =~= seq![Selection { anchor: origin(), cursor: origin() }]);
        }
        b
    }
}

impl FileBuffer {
    /// Builds a buffer holding the given text, as persistence hands it over
    /// after reading a file; the empty flag is set only for empty content.
    pub fn load(text: &str) -> (b: FileBuffer)
        ensures
            b.wf(),
            b.text() == text@,
            b.file_path is None,
            b.buffer_is_empty == (text@.len() == 0),
            !b.file_is_dirty,
            b.selections@ == seq![Selection { anchor: origin(), cursor: origin() }],
            b.primary_selection_idx == 0,
            b.offset == origin(),
    {
        let rope = rope_from_str(text);
        let empty = rope_len_chars(&rope) == 0;
        let b = FileBuffer {
            file_contents: rope,
            file_path: None,
            buffer_is_empty: empty,
            file_is_dirty: false,
            selections: vec![Selection::default()],
            primary_selection_idx: 0,
            offset: Position::default(),
        };
        proof {
            lemma_origin_ok(b.text());
            assert(b.selections@ =~= seq![Selection { anchor: origin(), cursor: origin() }]);
        }
        b
    }

    /// The whole text as one string: exactly the characters the buffer holds.
    pub fn serialize(&self) -> (out: String)
        ensures
            out@ == self.text(),
    {
        rope_to_string(&self.file_contents)
    }

    /// The persistence round trip: a buffer loaded from any text serializes
    /// back to exactly that text.
    pub fn load_round_trip(text: &str) -> (out: String)
        ensures
            out@ == text@,
    {
        FileBuffer::load(text).serialize()
    }

    /// Number of lines, a trailing unterminated fragment counting as one.
    pub fn len(&self) -> (n: usize)
        ensures
            n == line_count(self.text()),
    {
        let total = rope_len_chars(&self.file_contents);
        proof {
            lemma_newlines_from_bounds(self.text(), 0);
            lemma_line_count_bounds(self.text());
        }
        if total == 0 {
            0
        } else {
            let breaks_plus_one = rope_len_lines(&self.file_contents);
            let last = rope_char_at(&self.file_contents, total - 1);
            if last == '\n' {
                breaks_plus_one - 1
            } else {
                breaks_plus_one
            }
        }
    }

    /// Whether the buffer holds no characters at all.
    pub fn is_empty(&self) -> (e: bool)
        ensures
            e == (self.text().len() == 0),
    {
        rope_len_chars(&self.file_contents) == 0
    }

    /// The characters of line `index`, terminator included, or nothing when
    /// no such line exists.
    pub fn row(&self, index: usize) -> (r: Option<String>)
        ensures
            match r {
                Some(line) => index < line_count(self.text()) && line@ == line_at(
                    self.text(),
                    index as int,
                ),
                None => index >= line_count(self.text()),
            },
    {
        let n = self.len();
        if index < n {
            proof {
                lemma_line_len_pos(self.text(), index as int);
                lemma_line_start_bounds(self.text(), index as int);
                lemma_newlines_from_bounds(self.text(), 0);
            }
            let from = rope_line_to_char(&self.file_contents, index);
            let to = rope_line_to_char(&self.file_contents, index + 1);
            Some(rope_slice_string(&self.file_contents, from, to))
        } else {
            None
        }
    }
}

/// The character shown under a position: the character at its absolute
/// index, a blank for a terminator or for a position holding no character.
pub open spec fn char_under(t: Seq<char>, p: Position) -> char {
    if (p.y as int) < line_count(t) && (p.x as int) < line_len(t, p.y as int) {
        let c = t[line_start(t, p.y as int) + p.x];
        if c == '\n' {
            ' '
        } else {
            c
        }
    } else {
        ' '
    }
}

/// A cursor movement direction.
#[derive(Clone, Copy, PartialEq, Eq, Structural, Debug)]
pub enum Direction {
    Up,
    Down,
    Left,
    Right,
}

/// A position translated by the viewport offset, clamped at zero.
pub open spec fn screen_pos(c: Position, off: Position) -> Position {
    Position { x: c.x.saturating_sub(off.x), x_preferred: 0, y: c.y.saturating_sub(off.y) }
}

/// Whether a position falls within the window the viewport offset opens.
pub open spec fn on_screen(c: Position, off: Position, size: Size) -> bool {
    &&& off.x <= c.x
    &&& c.x < off.x.saturating_add(size.width as usize)
    &&& off.y <= c.y
    &&& c.y < off.y.saturating_add(size.height as usize)
}

/// One axis of the viewport shift: scroll just enough that the cursor falls
/// inside a window of the given extent, and scroll back at once when the
/// cursor lies before the offset.
pub open spec fn shifted_axis(cur: usize, off: usize, extent: usize) -> usize {
    if cur.saturating_sub(off) >= extent {
        cur.saturating_sub(extent).saturating_add(1)
    } else if off > cur {
        cur
    } else {
        off
    }
}

/// A cursor after one movement step, before clamping: vertical keys change
/// the line, horizontal keys change only the preferred column.
pub open spec fn moved_cursor(t: Seq<char>, c: Position, dir: Direction) -> Position {
    match dir {
        Direction::Up => Position { x: c.x, x_preferred: c.x_preferred, y: c.y.saturating_sub(1) },
        Direction::Down => if (c.y as int) < line_count(t) - 1 {
            Position { x: c.x, x_preferred: c.x_preferred, y: (c.y + 1) as usize }
        } else {
            c
        },
        Direction::Left => Position { x: c.x, x_preferred: c.x.saturating_sub(1), y: c.y },
        Direction::Right => if (c.y as int) < line_count(t) && (c.x as int) + 1 < line_len(
            t,
            c.y as int,
        ) {
            Position { x: c.x, x_preferred: (c.x + 1) as usize, y: c.y }
        } else {
            c
        },
    }
}

/// A cursor with its column restored from the preferred column, clamped to
/// the last character of its line.
pub open spec fn clamped_cursor(t: Seq<char>, c: Position) -> Position {
    if (c.y as int) < line_count(t) {
        let m = (line_len(t, c.y as int) - 1) as usize;
        Position {
            x: if c.x_preferred <= m {
                c.x_preferred
            } else {
                m
            },
            x_preferred: c.x_preferred,
            y: c.y,
        }
    } else {
        Position { x: 0, x_preferred: c.x_preferred, y: c.y }
    }
}

/// A selection after one movement: the cursor moves and is clamped, and the
/// anchor snaps onto it.
pub open spec fn moved_selection(t: Seq<char>, s: Selection, dir: Direction) -> Selection {
    let c = clamped_cursor(t, moved_cursor(t, s.cursor, dir));
    Selection { anchor: c, cursor: c }
}

impl FileBuffer {
    /// Length of line `y`, terminator included.
    fn line_len_at(&self, y: usize) -> (n: usize)
        requires
            (y as int) < line_count(self.text()),
        ensures
            n == line_len(self.text(), y as int),
            n >= 1,
    {
        let total = rope_len_chars(&self.file_contents);
        proof {
            lemma_line_len_pos(self.text(), y as int);
            lemma_line_start_bounds(self.text(), y as int);
            lemma_newlines_from_bounds(self.text(), 0);
            lemma_line_count_bounds(self.text());
        }
        let from = rope_line_to_char(&self.file_contents, y);
        let to = rope_line_to_char(&self.file_contents, y + 1);
        to - from
    }

    /// Moves every cursor one step in the given direction, restores each
    /// column from the preferred column clamped to its line, and snaps each
    /// anchor onto its cursor.
    pub fn move_cursors(&mut self, dir: Direction)
        requires
            old(self).wf(),
        ensures
            final(self).wf(),
            final(self).selections@.len() == old(self).selections@.len(),
            forall|j: int|
                0 <= j < old(self).selections@.len() ==> final(self).selections@[j]
                    == moved_selection(old(self).text(), #[trigger] old(self).selections@[j], dir),
            final(self).file_contents == old(self).file_contents,
            final(self).file_path == old(self).file_path,
            final(self).buffer_is_empty == old(self).buffer_is_empty,
            final(self).file_is_dirty == old(self).file_is_dirty,
            final(self).primary_selection_idx == old(self).primary_selection_idx,
            final(self).offset == old(self).offset,
    {
        let ghost orig = *self;
        let n = self.selections.len();
        let count = self.len();
        proof {
            lemma_count_zero_iff_empty(self.text());
        }
        let mut i: usize = 0;
        while i < n
            invariant
                i <= n,
                n == self.selections@.len(),
                n == orig.selections@.len(),
                orig.wf(),
                self.file_contents == orig.file_contents,
                self.file_path == orig.file_path,
                self.buffer_is_empty == orig.buffer_is_empty,
                self.file_is_dirty == orig.file_is_dirty,
                self.primary_selection_idx == orig.primary_selection_idx,
                self.offset == orig.offset,
                count == line_count(orig.text()),
                line_count(orig.text()) == 0 ==> orig.text().len() == 0,
                forall|j: int| i <= j < n ==> self.selections@[j] == orig.selections@[j],
                forall|j: int|
                    0 <= j < i ==> self.selections@[j] == moved_selection(
                        orig.text(),
                        #[trigger] orig.selections@[j],
                        dir,
                    ),
                forall|j: int|
                    0 <= j < n ==> pos_ok(orig.text(), (#[trigger] self.selections@[j]).cursor),
            decreases n - i,
        {
            let sel = self.selections[i];
            let c0 = sel.cursor;
            let c1 = match dir {
                Direction::Up => Position {
                    x: c0.x,
                    x_preferred: c0.x_preferred,
                    y: c0.y.saturating_sub(1),
                },
                Direction::Down => {
                    if count >= 1 && c0.y < count - 1 {
                        Position { x: c0.x, x_preferred: c0.x_preferred, y: c0.y + 1 }
                    } else {
                        c0
                    }
                },
                Direction::Left => Position {
                    x: c0.x,
                    x_preferred: c0.x.saturating_sub(1),
                    y: c0.y,
                },
                Direction::Right => {
                    if c0.y < count {
                        let ll = self.line_len_at(c0.y);
                        if c0.x < ll - 1 {
                            Position { x: c0.x, x_preferred: c0.x + 1, y: c0.y }
                        } else {
                            c0
                        }
                    } else {
                        c0
                    }
                },
            };
            proof {
                assert(c1 == moved_cursor(orig.text(), c0, dir));
            }
            let c2 = if c1.y < count {
                let ll = self.line_len_at(c1.y);
                let m = ll - 1;
                Position {
                    x: if c1.x_preferred <= m {
                        c1.x_preferred
                    } else {
                        m
                    },
                    x_preferred: c1.x_preferred,
                    y: c1.y,
                }
            } else {
                Position { x: 0, x_preferred: c1.x_preferred, y: c1.y }
            };
            proof {
                assert(c2 == clamped_cursor(orig.text(), c1));
                if c1.y >= count {
                    // only a virtual cursor on a terminated text, or any
                    // cursor over an empty text, can sit past the last line
                    assert(pos_ok(orig.text(), c0));
                    assert(c1.y == count && terminated(orig.text()));
                }
                assert(pos_ok(orig.text(), c2));
            }
            self.selections.set(i, Selection { anchor: c2, cursor: c2 });
            i += 1;
        }
    }

    /// The character shown under a cursor: the one at the cursor's absolute
    /// index, with a terminator — or any position holding no character —
    /// shown as a blank.
    pub fn get_char_under_cursor(&self, cursor: &Position) -> (c: char)
        ensures
            c == char_under(self.text(), *cursor),
    {
        let n = self.len();
        if cursor.y >= n {
            return ' ';
        }
        proof {
            lemma_line_len_pos(self.text(), cursor.y as int);
            lemma_line_start_bounds(self.text(), cursor.y as int);
            lemma_newlines_from_bounds(self.text(), 0);
            lemma_line_count_bounds(self.text());
        }
        let from = rope_line_to_char(&self.file_contents, cursor.y);
        let to = rope_line_to_char(&self.file_contents, cursor.y + 1);
        if cursor.x < to - from {
            let c = rope_char_at(&self.file_contents, from + cursor.x);
            if c == '\n' {
                ' '
            } else {
                c
            }
        } else {
            ' '
        }
    }

    /// The primary cursor translated to screen coordinates by the viewport
    /// offset, clamped at the screen origin.
    pub fn get_primary_selection_cursor_pos(&self) -> (p: Position)
        requires
            self.wf(),
        ensures
            p == screen_pos(
                self.selections@[self.primary_selection_idx as int].cursor,
                self.offset,
            ),
    {
        let sel = self.selections[self.primary_selection_idx];
        Position {
            x: sel.cursor.x.saturating_sub(self.offset.x),
            x_preferred: 0,
            y: sel.cursor.y.saturating_sub(self.offset.y),
        }
    }

    /// The given cursor translated to screen coordinates, or nothing when it
    /// lies outside the window the viewport opens.
    pub fn get_screen_cursor_pos(&self, cursor: &Position, size: &Size) -> (r: Option<Position>)
        ensures
            match r {
                Some(p) => on_screen(*cursor, self.offset, *size) && p == screen_pos(
                    *cursor,
                    self.offset,
                ),
                None => !on_screen(*cursor, self.offset, *size),
            },
    {
        if cursor.x < self.offset.x || cursor.x >= self.offset.x.saturating_add(
            size.width as usize,
        ) || cursor.y < self.offset.y || cursor.y >= self.offset.y.saturating_add(
            size.height as usize,
        ) {
            None
        } else {
            Some(
                Position {
                    x: cursor.x.saturating_sub(self.offset.x),
                    x_preferred: 0,
                    y: cursor.y.saturating_sub(self.offset.y),
                },
            )
        }
    }

    /// Scrolls the viewport just enough that the primary cursor is visible:
    /// each axis grows minimally when the cursor lies past the window and
    /// shrinks straight onto the cursor when the cursor lies before it.
    /// Afterwards the cursor's screen-relative coordinate falls within the
    /// window on every axis with a positive extent.
    pub fn shift_viewport(&mut self, size: &Size)
        requires
            old(self).wf(),
        ensures
            final(self).wf(),
            final(self).offset.x == shifted_axis(
                old(self).selections@[old(self).primary_selection_idx as int].cursor.x,
                old(self).offset.x,
                size.width as usize,
            ),
            final(self).offset.y == shifted_axis(
                old(self).selections@[old(self).primary_selection_idx as int].cursor.y,
                old(self).offset.y,
                size.height as usize,
            ),
            final(self).offset.x_preferred == old(self).offset.x_preferred,
            size.width > 0 ==> final(self).offset.x <= old(
                self,
            ).selections@[old(self).primary_selection_idx as int].cursor.x && old(
                self,
            ).selections@[old(self).primary_selection_idx as int].cursor.x - final(self).offset.x
                < size.width as usize,
            size.height > 0 ==> final(self).offset.y <= old(
                self,
            ).selections@[old(self).primary_selection_idx as int].cursor.y && old(
                self,
            ).selections@[old(self).primary_selection_idx as int].cursor.y - final(self).offset.y
                < size.height as usize,
            final(self).file_contents == old(self).file_contents,
            final(self).selections == old(self).selections,
            final(self).file_path == old(self).file_path,
            final(self).buffer_is_empty == old(self).buffer_is_empty,
            final(self).file_is_dirty == old(self).file_is_dirty,
            final(self).primary_selection_idx == old(self).primary_selection_idx,
    {
        let p = self.get_primary_selection_cursor_pos();
        let sel = self.selections[self.primary_selection_idx];
        let cx = sel.cursor.x;
        let cy = sel.cursor.y;
        if p.x >= size.width as usize {
            self.offset.x = cx.saturating_sub(size.width as usize).saturating_add(1);
        } else if self.offset.x > cx {
            self.offset.x = cx;
        }
        if p.y >= size.height as usize {
            self.offset.y = cy.saturating_sub(size.height as usize).saturating_add(1);
        } else if self.offset.y > cy {
            self.offset.y = cy;
        }
    }
}

/// A cursor that may also sit one column past the last character of a final
/// unterminated line: an edit made for one selection can leave another there
/// until the closing reclamp pass.
pub open spec fn pos_loose(t: Seq<char>, p: Position) -> bool {
    ||| pos_ok(t, p)
    ||| ((p.y as int) == line_count(t) - 1 && !terminated(t) && p.x == line_len(t, p.y as int))
}

/// A later position adjusted for one character inserted at line `y`, column
/// `x`: same-line positions past the insertion point shift right — onto the
/// new line when a terminator was inserted — and positions on later lines
/// move down when a terminator was inserted.  A shifted position has its
/// preferred column resynchronized.
pub open spec fn insert_adjusted_pos(p: Position, y: usize, x: usize, newline: bool) -> Position {
    if p.y == y && p.x > x {
        if newline {
            Position {
                x: (p.x - x) as usize,
                x_preferred: (p.x - x) as usize,
                y: p.y.saturating_add(1),
            }
        } else {
            Position {
                x: p.x.saturating_add(1),
                x_preferred: p.x.saturating_add(1),
                y: p.y,
            }
        }
    } else if newline && p.y > y {
        Position { x: p.x, x_preferred: p.x_preferred, y: p.y.saturating_add(1) }
    } else {
        p
    }
}

/// Both ends of a selection adjusted for an insertion.
pub open spec fn insert_adjusted_sel(s: Selection, y: usize, x: usize, newline: bool) -> Selection {
    Selection {
        anchor: insert_adjusted_pos(s.anchor, y, x, newline),
        cursor: insert_adjusted_pos(s.cursor, y, x, newline),
    }
}

/// The text and selections after selection `i` inserts `c`: the character
/// lands at the cursor's absolute index — after a synthetic terminator when
/// the cursor sits on the virtual line past a terminated text — the cursor
/// advances, and every later selection is adjusted.
pub open spec fn inserted_step(t: Seq<char>, sels: Seq<Selection>, i: int, c: char) -> (
    Seq<char>,
    Seq<Selection>,
) {
    let cur = sels[i].cursor;
    let at = line_start(t, cur.y as int) + cur.x;
    let t2 = if cur.y as int == line_count(t) {
        t.insert(at, '\n').insert(at, c)
    } else {
        t.insert(at, c)
    };
    let newline = c == '\n';
    let cur2 = if newline {
        Position { x: 0, x_preferred: 0, y: cur.y.saturating_add(1) }
    } else {
        Position {
            x: cur.x.saturating_add(1),
            x_preferred: cur.x.saturating_add(1),
            y: cur.y,
        }
    };
    let sels2 = Seq::new(
        sels.len(),
        |j: int|
            if j == i {
                Selection { anchor: sels[i].anchor, cursor: cur2 }
            } else if j > i {
                insert_adjusted_sel(sels[j], cur.y, cur.x, newline)
            } else {
                sels[j]
            },
    );
    (t2, sels2)
}

/// The text and selections after the first `i` selections inserted `c`, in
/// sequence order.
pub open spec fn inserted_upto(t: Seq<char>, sels: Seq<Selection>, c: char, i: int) -> (
    Seq<char>,
    Seq<Selection>,
)
    decreases i,
{
    if i <= 0 {
        (t, sels)
    } else {
        let prev = inserted_upto(t, sels, c, i - 1);
        inserted_step(prev.0, prev.1, i - 1, c)
    }
}

/// A position forced back into validity: clamped onto its line when the line
/// exists, onto the virtual line of a terminated text, or onto the last line
/// otherwise; the preferred column is resynchronized.
pub open spec fn reclamped_pos(t: Seq<char>, p: Position) -> Position {
    let lc = line_count(t);
    if (p.y as int) < lc {
        let m = (line_len(t, p.y as int) - 1) as usize;
        let nx = if (p.x as int) <= line_len(t, p.y as int) - 1 {
            p.x
        } else {
            m
        };
        Position { x: nx, x_preferred: nx, y: p.y }
    } else if lc == 0 {
        Position { x: 0, x_preferred: 0, y: 0 }
    } else if terminated(t) {
        Position { x: 0, x_preferred: 0, y: lc as usize }
    } else {
        let m = (line_len(t, lc - 1) - 1) as usize;
        let nx = if (p.x as int) <= line_len(t, lc - 1) - 1 {
            p.x
        } else {
            m
        };
        Position { x: nx, x_preferred: nx, y: (lc - 1) as usize }
    }
}

/// Both ends of a selection forced back into validity.
pub open spec fn reclamped_sel(t: Seq<char>, s: Selection) -> Selection {
    Selection { anchor: reclamped_pos(t, s.anchor), cursor: reclamped_pos(t, s.cursor) }
}

/// The full effect of `insert`: every selection inserts in sequence order,
/// and every selection is then forced back into validity.
pub open spec fn inserted_state(t: Seq<char>, sels: Seq<Selection>, c: char) -> (
    Seq<char>,
    Seq<Selection>,
) {
    let full = inserted_upto(t, sels, c, sels.len() as int);
    (full.0, Seq::new(sels.len() as nat, |j: int| reclamped_sel(full.0, full.1[j])))
}

/// A later position adjusted for one character removed from the text.  For a
/// plain character removed at line `y`, column `x`, same-line positions past
/// the removal point shift left.  For a removed terminator, line `y + 1` is
/// joined onto line `y` at column `x`: positions on it move there and
/// positions on later lines move up.  A shifted position has its preferred
/// column resynchronized.
pub open spec fn delete_adjusted_pos(p: Position, y: usize, x: usize, newline: bool) -> Position {
    if newline {
        if p.y as int == y + 1 {
            Position { x: p.x.saturating_add(x), x_preferred: p.x.saturating_add(x), y: y }
        } else if p.y as int > y + 1 {
            Position { x: p.x, x_preferred: p.x_preferred, y: (p.y - 1) as usize }
        } else {
            p
        }
    } else {
        if p.y == y && p.x > x {
            Position {
                x: p.x.saturating_sub(1),
                x_preferred: p.x.saturating_sub(1),
                y: p.y,
            }
        } else {
            p
        }
    }
}

/// Both ends of a selection adjusted for a removal.
pub open spec fn delete_adjusted_sel(s: Selection, y: usize, x: usize, newline: bool) -> Selection {
    Selection {
        anchor: delete_adjusted_pos(s.anchor, y, x, newline),
        cursor: delete_adjusted_pos(s.cursor, y, x, newline),
    }
}

/// The text, selections and change flag after selection `i` performs one
/// delete.  A selection with nothing to remove — forward delete with no
/// character under the cursor, backspace at absolute position zero — changes
/// nothing.  Otherwise the character before (backspace) or under (forward
/// delete) the cursor is removed, the cursor is placed — at the end of the
/// previous line when a backspace removed its terminator — and every later
/// selection is adjusted.
pub open spec fn deleted_step(t: Seq<char>, sels: Seq<Selection>, i: int, backspace: bool) -> (
    Seq<char>,
    Seq<Selection>,
    bool,
) {
    let cur = sels[i].cursor;
    let lc = line_count(t);
    let base = line_start(t, cur.y as int) + cur.x;
    if (!backspace && ((cur.y as int) >= lc || (cur.x as int) >= line_len(t, cur.y as int))) || (
    backspace && base == 0) {
        (t, sels, false)
    } else {
        let at = if backspace {
            base - 1
        } else {
            base
        };
        let newline = t[at] == '\n';
        let cur2 = if backspace && newline {
            let ny = cur.y.saturating_sub(1);
            let nx = if (ny as int) < lc {
                (line_len(t, ny as int) - 1) as usize
            } else {
                0usize
            };
            Position { x: nx, x_preferred: nx, y: ny }
        } else if backspace {
            Position {
                x: cur.x.saturating_sub(1),
                x_preferred: cur.x.saturating_sub(1),
                y: cur.y,
            }
        } else {
            Position { x: cur.x, x_preferred: cur.x, y: cur.y }
        };
        let sels2 = Seq::new(
            sels.len(),
            |j: int|
                if j == i {
                    Selection { anchor: sels[i].anchor, cursor: cur2 }
                } else if j > i {
                    delete_adjusted_sel(sels[j], cur2.y, cur2.x, newline)
                } else {
                    sels[j]
                },
        );
        (t.remove(at), sels2, true)
    }
}

/// The text, selections and change flag after the first `i` selections
/// performed their delete, in sequence order.
pub open spec fn deleted_upto(t: Seq<char>, sels: Seq<Selection>, backspace: bool, i: int) -> (
    Seq<char>,
    Seq<Selection>,
    bool,
)
    decreases i,
{
    if i <= 0 {
        (t, sels, false)
    } else {
        let prev = deleted_upto(t, sels, backspace, i - 1);
        let st = deleted_step(prev.0, prev.1, i - 1, backspace);
        (st.0, st.1, prev.2 || st.2)
    }
}

/// The full effect of `delete`: every selection deletes in sequence order
/// and, when anything was removed, every selection is then forced back into
/// validity.
pub open spec fn deleted_state(t: Seq<char>, sels: Seq<Selection>, backspace: bool) -> (
    Seq<char>,
    Seq<Selection>,
    bool,
) {
    let full = deleted_upto(t, sels, backspace, sels.len() as int);
    if full.2 {
        (full.0, Seq::new(sels.len() as nat, |j: int| reclamped_sel(full.0, full.1[j])), true)
    } else {
        full
    }
}

/// Steps that removed nothing left the text and the selections alone.
proof fn lemma_deleted_upto_unchanged(t: Seq<char>, sels: Seq<Selection>, backspace: bool, i: int)
    requires
        0 <= i <= sels.len(),
        !deleted_upto(t, sels, backspace, i).2,
    ensures
        deleted_upto(t, sels, backspace, i).0 == t,
        deleted_upto(t, sels, backspace, i).1 == sels,
    decreases i,
{
    if i > 0 {
        lemma_deleted_upto_unchanged(t, sels, backspace, i - 1);
    }
}

/// Facts about the absolute character index of a loosely valid cursor.
proof fn lemma_cursor_abs_index_loose(t: Seq<char>, p: Position)
    requires
        pos_loose(t, p),
    ensures
        0 <= line_start(t, p.y as int),
        line_start(t, p.y as int) + p.x <= t.len(),
        p.y as int <= line_count(t),
        line_count(t) <= newline_count(t) + 1,
        0 <= newline_count(t),
        (p.y as int) < line_count(t) ==> line_start(t, p.y as int) + p.x <= line_start(
            t,
            p.y as int + 1,
        ),
        (p.y as int) == line_count(t) ==> line_start(t, p.y as int) == t.len() && p.x == 0,
{
    lemma_newlines_from_bounds(t, 0);
    lemma_line_count_bounds(t);
    if (p.y as int) < line_count(t) {
        lemma_line_len_pos(t, p.y as int);
        lemma_line_start_bounds(t, p.y as int);
    } else {
        lemma_line_start_at_count(t);
    }
}

/// One delete step keeps every remaining cursor loosely valid, and its text
/// loses at most one character.
#[verifier::rlimit(80)]
proof fn lemma_deleted_step_ok(t: Seq<char>, sels: Seq<Selection>, i: int, backspace: bool)
    requires
        0 <= i < sels.len(),
        forall|j: int| i <= j < sels.len() ==> pos_loose(t, (#[trigger] sels[j]).cursor),
        t.len() <= usize::MAX,
    ensures
        deleted_step(t, sels, i, backspace).1.len() == sels.len(),
        forall|j: int|
            i <= j < sels.len() ==> pos_loose(
                deleted_step(t, sels, i, backspace).0,
                (#[trigger] deleted_step(t, sels, i, backspace).1[j]).cursor,
            ),
        deleted_step(t, sels, i, backspace).0.len() <= t.len(),
{
    let cur = sels[i].cursor;
    let y = cur.y as int;
    let x = cur.x as int;
    let lc = line_count(t);
    let nl = newline_count(t);
    let base = line_start(t, y) + x;
    assert(pos_loose(t, cur));
    lemma_line_count_bounds(t);
    lemma_newlines_from_bounds(t, 0);
    lemma_cursor_abs_index_loose(t, cur);
    let skip = (!backspace && (y >= lc || x >= line_len(t, y))) || (backspace && base == 0);
    if skip {
        assert(deleted_step(t, sels, i, backspace).0 == t);
    } else {
        let at = if backspace {
            base - 1
        } else {
            base
        };
        let newline = t[at] == '\n';
        let t2 = deleted_step(t, sels, i, backspace).0;
        let sels2 = deleted_step(t, sels, i, backspace).1;
        assert(t2 == t.remove(at));
        // `yy` is the line holding the removed character and `xx` its column
        let ghost_pair: (int, int) = if backspace && x == 0 {
            ((y - 1) as int, (line_len(t, y - 1) - 1) as int)
        } else if backspace {
            (y, x - 1)
        } else {
            (y, x)
        };
        let yy = ghost_pair.0;
        let xx = ghost_pair.1;
        if backspace && x == 0 {
            // the character before the cursor is the terminator of the
            // previous line
            assert(y >= 1) by {
                if y == 0 {
                    assert(line_start(t, 0) == 0);
                    assert(base == 0);
                }
            }
            assert(y <= lc);
            lemma_starts_line(t, y);
            lemma_line_start_bounds(t, y);
            assert(at == line_start(t, y) - 1);
            assert(t[at] == '\n');
            lemma_line_len_pos(t, y - 1);
        } else {
            // the removed character lies inside line `y`
            if backspace {
                assert(x >= 1);
            }
            assert(y < lc) by {
                if y == lc {
                    assert(x == 0);
                    if backspace {
                        assert(base == t.len());
                        assert(t.len() >= 1);
                        assert(terminated(t));
                    }
                }
            }
            lemma_line_len_pos(t, y);
            lemma_line_start_bounds(t, y);
            assert(line_start(t, y) <= at < line_start(t, y + 1));
        }
        assert(line_start(t, yy) <= at && at == line_start(t, yy) + xx);
        assert(0 <= yy < lc);
        lemma_line_len_pos(t, yy);
        lemma_line_start_bounds(t, yy);
        lemma_next_line_start_chars(t, line_start(t, yy));
        assert(line_start(t, yy + 1) == next_line_start(t, line_start(t, yy)));
        assert(at < line_start(t, yy + 1));
        // a terminator inside a line can only be the line's own
        assert(newline ==> at == line_start(t, yy + 1) - 1 && xx == line_len(t, yy) - 1);
        assert(!newline ==> t[at] != '\n');
        // the stepped cursor of selection `i` lands exactly on the removal
        // point
        let cur2 = sels2[i].cursor;
        assert(cur2.x == xx && cur2.y == yy && cur2.x_preferred == xx) by {
            if backspace && newline {
                assert(x == 0) by {
                    if x > 0 {
                        assert(at == line_start(t, yy) + xx && xx < line_len(t, yy) - 1 || xx
                            == line_len(t, yy) - 1);
                        if xx < line_len(t, yy) - 1 {
                            assert(t[at] != '\n');
                        } else {
                            // the cursor would sit past the terminator
                            assert(x == line_len(t, y));
                            assert(pos_loose(t, cur));
                            assert(!terminated(t) && y == lc - 1);
                            assert(next_line_start(t, line_start(t, y)) == line_start(t, y + 1));
                            lemma_lines_left_start(t, y + 1);
                            lemma_line_start_at_count(t);
                            assert(line_start(t, y + 1) == t.len());
                            assert(t[t.len() - 1] != '\n');
                        }
                    }
                }
            }
        }
        lemma_newlines_remove(t, at, 0);
        lemma_remove_char_facts(t, at);
        if newline {
            lemma_remove_terminator(t, yy);
            let joined = yy + 1 < lc;
            let lc2 = line_count(t2);
            assert(lc2 == if joined || line_len(t, yy) == 1 {
                lc - 1
            } else {
                lc
            });
            assert(newline_count(t2) == nl - 1);
            // line lengths after the join
            if joined {
                lemma_line_len_pos(t, yy + 1);
                assert(line_start(t2, yy + 1) == line_start(t, yy + 2) - 1);
                assert(line_len(t2, yy) == line_len(t, yy) + line_len(t, yy + 1) - 1);
            } else {
                lemma_line_start_at_count(t);
                lemma_line_start_bounds(t, yy + 2);
                lemma_line_start_monotone(t, lc, yy + 2);
                assert(line_start(t, yy + 2) == t.len());
                assert(line_start(t2, yy + 1) == t.len() - 1);
                assert(line_len(t2, yy) == line_len(t, yy) - 1);
            }
            assert forall|j: int| i <= j < sels.len() implies pos_loose(
                t2,
                (#[trigger] sels2[j]).cursor,
            ) by {
                let q = if j == i {
                    cur2
                } else {
                    delete_adjusted_pos(sels[j].cursor, cur2.y, cur2.x, true)
                };
                assert(sels2[j].cursor == q);
                let q0 = if j == i {
                    Position { x: xx as usize, x_preferred: xx as usize, y: yy as usize }
                } else {
                    sels[j].cursor
                };
                if j > i {
                    assert(pos_loose(t, q0));
                    if (q0.y as int) < lc && q0.y as int != yy && q0.y as int != yy + 1 {
                        lemma_line_len_pos(t, q0.y as int);
                    }
                }
                if j == i || (q0.y as int) == yy + 1 {
                    // lands on the joined line
                    let qx = if j == i {
                        xx
                    } else {
                        q0.x + xx
                    };
                    if j != i {
                        assert(q0.x + xx <= t.len());
                        assert(q.x == qx && q.y as int == yy);
                    }
                    if joined {
                        assert(qx + 1 <= line_len(t2, yy) || (qx == line_len(t2, yy) && yy == lc2
                            - 1 && !terminated(t2)));
                    } else {
                        // the final terminator went away
                        if line_len(t, yy) == 1 {
                            assert(qx == 0 && lc2 == yy);
                            assert(terminated(t2));
                        } else {
                            assert(qx <= line_len(t, yy) - 1);
                            assert(line_len(t2, yy) == line_len(t, yy) - 1);
                            assert(!terminated(t2));
                            assert(yy == lc2 - 1);
                        }
                    }
                } else if (q0.y as int) > yy + 1 {
                    assert(q.y as int == q0.y - 1 && q.x == q0.x);
                    assert(joined);
                    assert(line_start(t2, q0.y as int - 1) == line_start(t, q0.y as int) - 1);
                    assert(line_start(t2, q0.y as int) == line_start(t, q0.y as int + 1) - 1);
                    if (q0.y as int) < lc {
                        assert(line_len(t2, q0.y as int - 1) == line_len(t, q0.y as int));
                    } else {
                        assert(q0.x == 0 && terminated(t));
                        assert(terminated(t2));
                    }
                } else {
                    // at or before the joined line
                    assert(q == q0);
                    if (q0.y as int) < yy {
                        assert(line_start(t2, q0.y as int) == line_start(t, q0.y as int));
                        assert(line_start(t2, q0.y as int + 1) == line_start(t, q0.y as int + 1));
                    } else {
                        assert(q0.y as int == yy);
                        assert(q0.x <= line_len(t, yy) - 1);
                        if joined {
                            lemma_line_len_pos(t, yy + 1);
                        } else {
                            if line_len(t, yy) == 1 {
                                assert(q0.x == 0 && lc2 == yy);
                                assert(terminated(t2));
                            } else if q0.x == line_len(t, yy) - 1 {
                                assert(!terminated(t2) && yy == lc2 - 1);
                            }
                        }
                    }
                }
            }
        } else {
            lemma_remove_char_in_line(t, at, yy);
            let dropped = line_len(t, yy) == 1;
            let lc2 = line_count(t2);
            assert(lc2 == lc - (if dropped {
                1int
            } else {
                0int
            }));
            assert(newline_count(t2) == nl);
            assert(line_start(t2, yy) == line_start(t, yy));
            assert(line_start(t2, yy + 1) == line_start(t, yy + 1) - 1);
            assert(line_len(t2, yy) == line_len(t, yy) - 1);
            // removing the last character of a line not closed by a
            // terminator means that line was the final fragment
            assert(xx == line_len(t, yy) - 1 ==> !terminated(t) && yy == lc - 1) by {
                if xx == line_len(t, yy) - 1 {
                    if line_start(t, yy + 1) < t.len() {
                        assert(t[line_start(t, yy + 1) - 1] == '\n');
                        assert(false);
                    } else {
                        lemma_lines_left_start(t, yy + 1);
                        lemma_line_start_at_count(t);
                        lemma_line_start_monotone(t, yy + 1, lc);
                        assert(line_start(t, yy + 1) == t.len());
                        assert(t[t.len() - 1] != '\n');
                    }
                }
            }
            assert(dropped ==> xx == 0 && !terminated(t) && yy == lc - 1 && terminated(t2));
            assert(!dropped ==> terminated(t2) == terminated(t));
            assert forall|j: int| i <= j < sels.len() implies pos_loose(
                t2,
                (#[trigger] sels2[j]).cursor,
            ) by {
                let q = if j == i {
                    cur2
                } else {
                    delete_adjusted_pos(sels[j].cursor, cur2.y, cur2.x, false)
                };
                assert(sels2[j].cursor == q);
                let q0 = if j == i {
                    Position { x: xx as usize, x_preferred: xx as usize, y: yy as usize }
                } else {
                    sels[j].cursor
                };
                if j > i {
                    assert(pos_loose(t, q0));
                    if (q0.y as int) < lc && q0.y as int != yy {
                        lemma_line_len_pos(t, q0.y as int);
                        assert(line_len(t2, q0.y as int) == line_len(t, q0.y as int));
                    }
                }
                if (q0.y as int) == yy {
                    let qx = if j != i && q0.x > cur2.x {
                        q0.x - 1
                    } else {
                        q0.x as int
                    };
                    assert(q.y as int == yy && q.x == qx);
                    assert(j == i ==> qx == xx);
                    assert(qx <= line_len(t, yy));
                    if dropped {
                        assert(qx == 0 && lc2 == yy);
                        assert(terminated(t2));
                    } else if qx >= line_len(t2, yy) {
                        assert(qx == line_len(t2, yy));
                        assert(!terminated(t) && yy == lc - 1) by {
                            if qx == line_len(t, yy) - 1 {
                            } else {
                                assert(q0.x == line_len(t, yy));
                                assert(pos_loose(t, q0));
                            }
                        }
                        assert(!terminated(t2) && yy == lc2 - 1);
                    }
                } else if (q0.y as int) < lc {
                    assert(q == q0);
                    if dropped {
                        assert(yy == lc - 1 && q0.y as int != yy);
                        assert((q0.y as int) < lc2);
                    }
                } else {
                    // a virtual cursor: the text stays terminated, since a
                    // fragment drop cannot happen in a terminated text
                    assert(q == q0);
                    assert(q0.x == 0 && terminated(t));
                    assert(!dropped);
                    assert(terminated(t2) && lc2 == lc);
                }
            }
        }
    }
}

/// One insertion step keeps every remaining cursor valid, and its text grows
/// by the inserted character (and the synthetic terminator, if one was
/// needed).
proof fn lemma_inserted_step_ok(t: Seq<char>, sels: Seq<Selection>, i: int, c: char)
    requires
        0 <= i < sels.len(),
        forall|j: int| i <= j < sels.len() ==> pos_ok(t, (#[trigger] sels[j]).cursor),
        inserted_step(t, sels, i, c).0.len() <= usize::MAX,
    ensures
        inserted_step(t, sels, i, c).1.len() == sels.len(),
        forall|j: int|
            i <= j < sels.len() ==> pos_ok(
                inserted_step(t, sels, i, c).0,
                (#[trigger] inserted_step(t, sels, i, c).1[j]).cursor,
            ),
        inserted_step(t, sels, i, c).0.len() <= t.len() + 2,
{
    let cur = sels[i].cursor;
    let y = cur.y as int;
    let x = cur.x as int;
    let at = line_start(t, y) + x;
    let lc = line_count(t);
    let newline = c == '\n';
    let t2 = inserted_step(t, sels, i, c).0;
    let sels2 = inserted_step(t, sels, i, c).1;
    assert(pos_ok(t, cur));
    lemma_line_count_bounds(t);
    lemma_newlines_from_bounds(t, 0);
    if y == lc {
        // the cursor sits on the virtual line: a synthetic terminator is
        // appended first, making a one-character line at the old text end
        let t1 = t.insert(t.len() as int, '\n');
        assert(x == 0 && terminated(t));
        lemma_line_start_at_count(t);
        assert(at == t.len());
        lemma_append_newline(t);
        lemma_insert_char_facts(t, t.len() as int, '\n');
        assert(line_count(t1) == lc + 1);
        assert(line_start(t1, y) == t.len());
        assert(line_start(t1, y + 1) == next_line_start(t1, t.len() as int));
        assert(t1[t.len() as int] == '\n');
        assert(line_start(t1, y + 1) == t.len() + 1);
        assert(line_len(t1, y) == 1);
        if newline {
            lemma_insert_newline_in_line(t1, at, y);
        } else {
            lemma_insert_char_in_line(t1, at, c, y);
        }
        assert forall|j: int| i <= j < sels.len() implies pos_ok(
            t2,
            (#[trigger] sels2[j]).cursor,
        ) by {
            if j == i {
                if newline {
                    // line y of the result is the inserted terminator alone,
                    // line y + 1 the synthetic one
                    assert(line_start(t2, y + 1) == at + 1);
                    assert(line_start(t2, y + 2) == line_start(t1, y + 1) + 1);
                    assert(line_len(t2, y + 1) == 1);
                    assert(line_count(t2) == lc + 2);
                    assert(sels2[j].cursor == Position {
                        x: 0usize,
                        x_preferred: 0usize,
                        y: cur.y.saturating_add(1),
                    });
                } else {
                    assert(line_start(t2, y) == line_start(t1, y));
                    assert(line_start(t2, y + 1) == line_start(t1, y + 1) + 1);
                    assert(line_len(t2, y) == 2);
                    assert(line_count(t2) == lc + 1);
                }
            } else {
                let q = sels[j].cursor;
                assert(pos_ok(t, q));
                let qy = q.y as int;
                // every other cursor lies on a real line or the same virtual
                // line at column zero
                if qy < lc {
                    lemma_line_len_pos(t, qy);
                    assert(line_start(t1, qy) == line_start(t, qy));
                    assert(line_start(t1, qy + 1) == line_start(t, qy + 1));
                    assert(line_start(t2, qy) == line_start(t1, qy));
                    assert(line_start(t2, qy + 1) == line_start(t1, qy + 1));
                    assert(line_len(t2, qy) == line_len(t, qy));
                    assert(q.x <= x || q.y != cur.y);
                    assert(sels2[j].cursor == q);
                } else {
                    // a fellow cursor on the virtual line, not shifted
                    assert(qy == lc && q.x == 0);
                    assert(sels2[j].cursor == q);
                    assert(line_start(t2, y) == t.len());
                    assert(line_start(t2, y + 1) == t.len() + if newline {
                        1int
                    } else {
                        2int
                    });
                    assert(line_len(t2, y) >= 1);
                    assert(qy < line_count(t2));
                }
            }
        }
    } else {
        // insertion inside existing line y
        lemma_line_len_pos(t, y);
        lemma_line_start_bounds(t, y);
        assert(x + 1 <= line_len(t, y));
        assert(at < line_start(t, y + 1));
        assert(line_start(t, y) <= at);
        if newline {
            lemma_insert_newline_in_line(t, at, y);
        } else {
            lemma_insert_char_in_line(t, at, c, y);
        }
        assert forall|j: int| i <= j < sels.len() implies pos_ok(
            t2,
            (#[trigger] sels2[j]).cursor,
        ) by {
            lemma_terminated_like(t, t2, at, c, y);
            if j == i {
                if newline {
                    assert(line_start(t2, y + 1) == at + 1);
                    assert(line_start(t2, y + 2) == line_start(t, y + 1) + 1);
                    assert(line_len(t2, y + 1) == line_len(t, y) - x);
                    assert(line_count(t2) == lc + 1);
                } else {
                    assert(line_start(t2, y) == line_start(t, y));
                    assert(line_start(t2, y + 1) == line_start(t, y + 1) + 1);
                    assert(line_len(t2, y) == line_len(t, y) + 1);
                    assert(line_count(t2) == lc);
                }
            } else {
                let q = sels[j].cursor;
                assert(pos_ok(t, q));
                let qy = q.y as int;
                let q2 = insert_adjusted_pos(q, cur.y, cur.x, newline);
                assert(sels2[j].cursor == q2);
                if qy < lc {
                    lemma_line_len_pos(t, qy);
                    if newline {
                        if q.y == cur.y && q.x > cur.x {
                            // relocated onto the new line below the split
                            assert(line_start(t2, y + 1) == at + 1);
                            assert(line_start(t2, y + 2) == line_start(t, y + 1) + 1);
                            assert(line_len(t2, y + 1) == line_len(t, y) - x);
                            assert(q2.y as int == y + 1 && q2.x as int == q.x - x);
                        } else if qy > y {
                            assert(line_start(t2, qy + 1) == line_start(t, qy) + 1);
                            assert(line_start(t2, qy + 2) == line_start(t, qy + 1) + 1);
                            assert(line_len(t2, qy + 1) == line_len(t, qy));
                            assert(q2.y as int == qy + 1 && q2.x == q.x);
                        } else if qy == y {
                            // at or before the split point on the split line
                            assert(q.x <= x);
                            assert(line_start(t2, y) == line_start(t, y));
                            assert(line_start(t2, y + 1) == at + 1);
                            assert(line_len(t2, y) == x + 1);
                            assert(q2 == q);
                        } else {
                            assert(line_start(t2, qy) == line_start(t, qy));
                            assert(line_start(t2, qy + 1) == line_start(t, qy + 1));
                            assert(q2 == q);
                        }
                    } else {
                        if q.y == cur.y && q.x > cur.x {
                            assert(line_start(t2, y + 1) == line_start(t, y + 1) + 1);
                            assert(line_len(t2, y) == line_len(t, y) + 1);
                            assert(q2.y as int == y && q2.x as int == q.x + 1);
                        } else if qy == y {
                            assert(line_len(t2, y) == line_len(t, y) + 1);
                            assert(q2 == q);
                        } else if qy < y {
                            assert(line_start(t2, qy) == line_start(t, qy));
                            assert(line_start(t2, qy + 1) == line_start(t, qy + 1));
                            assert(q2 == q);
                        } else {
                            assert(line_start(t2, qy) == line_start(t, qy) + 1);
                            assert(line_start(t2, qy + 1) == line_start(t, qy + 1) + 1);
                            assert(line_len(t2, qy) == line_len(t, qy));
                            assert(q2 == q);
                        }
                    }
                } else {
                    // a cursor on the virtual line of a terminated text
                    assert(qy == lc && q.x == 0 && terminated(t));
                    assert(q2.x == 0);
                    if newline {
                        assert(q2.y as int == lc + 1 && line_count(t2) == lc + 1);
                    } else {
                        assert(q2 == q && line_count(t2) == lc);
                    }
                    assert(terminated(t2));
                }
            }
        }
    }
}

/// Facts about a valid cursor's absolute character index.
proof fn lemma_cursor_abs_index(t: Seq<char>, p: Position)
    requires
        pos_ok(t, p),
    ensures
        0 <= line_start(t, p.y as int),
        line_start(t, p.y as int) + p.x <= t.len(),
        (p.y as int) < line_count(t) ==> line_start(t, p.y as int) + p.x < line_start(
            t,
            p.y as int + 1,
        ),
        p.y as int <= line_count(t),
        line_count(t) <= newline_count(t) + 1,
        0 <= newline_count(t),
        (p.y as int) == line_count(t) ==> line_start(t, p.y as int) == t.len(),
{
    lemma_newlines_from_bounds(t, 0);
    lemma_line_count_bounds(t);
    if (p.y as int) < line_count(t) {
        lemma_line_len_pos(t, p.y as int);
        lemma_line_start_bounds(t, p.y as int);
    } else {
        lemma_line_start_at_count(t);
    }
}

impl FileBuffer {
    /// Whether the text ends in a terminator (an empty text counts as such).
    fn is_terminated(&self) -> (r: bool)
        ensures
            r == terminated(self.text()),
    {
        let total = rope_len_chars(&self.file_contents);
        if total == 0 {
            true
        } else {
            rope_char_at(&self.file_contents, total - 1) == '\n'
        }
    }

    /// A position forced back into validity, given the line count and
    /// termination state of the text.
    fn reclamp_pos(&self, p: Position, count: usize, term: bool) -> (r: Position)
        requires
            count == line_count(self.text()),
            term == terminated(self.text()),
        ensures
            r == reclamped_pos(self.text(), p),
            pos_ok(self.text(), r),
    {
        proof {
            lemma_count_zero_iff_empty(self.text());
        }
        if p.y < count {
            let m = self.line_len_at(p.y) - 1;
            let nx = if p.x <= m {
                p.x
            } else {
                m
            };
            Position { x: nx, x_preferred: nx, y: p.y }
        } else if count == 0 {
            Position { x: 0, x_preferred: 0, y: 0 }
        } else if term {
            Position { x: 0, x_preferred: 0, y: count }
        } else {
            let m = self.line_len_at(count - 1) - 1;
            let nx = if p.x <= m {
                p.x
            } else {
                m
            };
            Position { x: nx, x_preferred: nx, y: count - 1 }
        }
    }

    /// Forces every selection back into validity and resynchronizes the
    /// preferred columns: the closing pass of every edit.
    fn reclamp_selections(&mut self)
        ensures
            final(self).selections@.len() == old(self).selections@.len(),
            forall|j: int|
                0 <= j < old(self).selections@.len() ==> final(self).selections@[j]
                    == reclamped_sel(old(self).text(), #[trigger] old(self).selections@[j]),
            forall|j: int|
                0 <= j < old(self).selections@.len() ==> pos_ok(
                    final(self).text(),
                    (#[trigger] final(self).selections@[j]).cursor,
                ),
            final(self).file_contents == old(self).file_contents,
            final(self).file_path == old(self).file_path,
            final(self).buffer_is_empty == old(self).buffer_is_empty,
            final(self).file_is_dirty == old(self).file_is_dirty,
            final(self).primary_selection_idx == old(self).primary_selection_idx,
            final(self).offset == old(self).offset,
    {
        let ghost orig = *self;
        let count = self.len();
        let term = self.is_terminated();
        let n = self.selections.len();
        let mut i: usize = 0;
        while i < n
            invariant
                i <= n,
                n == self.selections@.len(),
                n == orig.selections@.len(),
                count == line_count(orig.text()),
                term == terminated(orig.text()),
                self.file_contents == orig.file_contents,
                self.file_path == orig.file_path,
                self.buffer_is_empty == orig.buffer_is_empty,
                self.file_is_dirty == orig.file_is_dirty,
                self.primary_selection_idx == orig.primary_selection_idx,
                self.offset == orig.offset,
                forall|j: int| i <= j < n ==> self.selections@[j] == orig.selections@[j],
                forall|j: int|
                    0 <= j < i ==> self.selections@[j] == reclamped_sel(
                        orig.text(),
                        #[trigger] orig.selections@[j],
                    ),
                forall|j: int|
                    0 <= j < i ==> pos_ok(
                        orig.text(),
                        (#[trigger] self.selections@[j]).cursor,
                    ),
            decreases n - i,
        {
            let s = self.selections[i];
            let nc = self.reclamp_pos(s.cursor, count, term);
            let na = self.reclamp_pos(s.anchor, count, term);
            self.selections.set(i, Selection { anchor: na, cursor: nc });
            i += 1;
        }
    }

    /// A later position adjusted after an insertion at line `y`, column `x`.
    fn insert_adjust(p: Position, y: usize, x: usize, newline: bool) -> (r: Position)
        ensures
            r == insert_adjusted_pos(p, y, x, newline),
    {
        if p.y == y && p.x > x {
            if newline {
                Position { x: p.x - x, x_preferred: p.x - x, y: p.y.saturating_add(1) }
            } else {
                Position {
                    x: p.x.saturating_add(1),
                    x_preferred: p.x.saturating_add(1),
                    y: p.y,
                }
            }
        } else if newline && p.y > y {
            Position { x: p.x, x_preferred: p.x_preferred, y: p.y.saturating_add(1) }
        } else {
            p
        }
    }

    /// Inserts `c` at every selection's cursor, in sequence order: the
    /// character lands at the cursor's absolute index (on the virtual line
    /// past a terminated text, a synthetic terminator makes the line exist
    /// first), the cursor advances — to the start of the next line for a
    /// terminator, one column right otherwise — and each later selection is
    /// shifted off the inserted character.  A closing pass forces every
    /// selection back into validity.  The buffer becomes non-empty and dirty.
    pub fn insert(&mut self, c: char)
        requires
            old(self).wf(),
        ensures
            final(self).wf(),
            final(self).text() == inserted_state(old(self).text(), old(self).selections@, c).0,
            final(self).selections@ == inserted_state(old(self).text(), old(self).selections@, c).1,
            !final(self).buffer_is_empty,
            final(self).file_is_dirty,
            final(self).file_path == old(self).file_path,
            final(self).primary_selection_idx == old(self).primary_selection_idx,
            final(self).offset == old(self).offset,
            final(self).selections@.len() == old(self).selections@.len(),
    {
        let ghost orig = *self;
        let n = self.selections.len();
        let mut i: usize = 0;
        while i < n
            invariant
                i <= n,
                n == self.selections@.len(),
                n == orig.selections@.len(),
                orig.wf(),
                self.text() == inserted_upto(orig.text(), orig.selections@, c, i as int).0,
                self.selections@ == inserted_upto(orig.text(), orig.selections@, c, i as int).1,
                forall|j: int|
                    i <= j < n ==> pos_ok(
                        self.text(),
                        (#[trigger] self.selections@[j]).cursor,
                    ),
                self.file_path == orig.file_path,
                self.buffer_is_empty == orig.buffer_is_empty,
                self.file_is_dirty == orig.file_is_dirty,
                self.primary_selection_idx == orig.primary_selection_idx,
                self.offset == orig.offset,
            decreases n - i,
        {
            let ghost pre_t = self.text();
            let ghost pre_sels = self.selections@;
            let sel = self.selections[i];
            let yv = sel.cursor.y;
            let xv = sel.cursor.x;
            let count = self.len();
            let total = rope_len_chars(&self.file_contents);
            proof {
                assert(pos_ok(pre_t, sel.cursor));
                lemma_cursor_abs_index(pre_t, sel.cursor);
            }
            let start = rope_line_to_char(&self.file_contents, yv);
            let at = start + xv;
            if yv == count {
                rope_insert_char(&mut self.file_contents, at, '\n');
            }
            rope_insert_char(&mut self.file_contents, at, c);
            let total2 = rope_len_chars(&self.file_contents);
            let newline = c == '\n';
            let cur2 = if newline {
                Position { x: 0, x_preferred: 0, y: yv.saturating_add(1) }
            } else {
                Position {
                    x: xv.saturating_add(1),
                    x_preferred: xv.saturating_add(1),
                    y: yv,
                }
            };
            self.selections.set(i, Selection { anchor: sel.anchor, cursor: cur2 });
            let ghost t2g = self.text();
            proof {
                assert(t2g == inserted_step(pre_t, pre_sels, i as int, c).0);
            }
            let mut j = i + 1;
            while j < n
                invariant
                    i < j <= n,
                    i < n,
                    n == self.selections@.len(),
                    self.text() == t2g,
                    self.selections@[i as int] == (Selection {
                        anchor: pre_sels[i as int].anchor,
                        cursor: cur2,
                    }),
                    forall|k: int| 0 <= k < i ==> self.selections@[k] == pre_sels[k],
                    forall|k: int|
                        i < k < j ==> self.selections@[k] == insert_adjusted_sel(
                            #[trigger] pre_sels[k],
                            yv,
                            xv,
                            newline,
                        ),
                    forall|k: int| j <= k < n ==> self.selections@[k] == pre_sels[k],
                    pre_sels.len() == n,
                    self.file_path == orig.file_path,
                    self.buffer_is_empty == orig.buffer_is_empty,
                    self.file_is_dirty == orig.file_is_dirty,
                    self.primary_selection_idx == orig.primary_selection_idx,
                    self.offset == orig.offset,
                decreases n - j,
            {
                let s2 = self.selections[j];
                let nc = Self::insert_adjust(s2.cursor, yv, xv, newline);
                let na = Self::insert_adjust(s2.anchor, yv, xv, newline);
                self.selections.set(j, Selection { anchor: na, cursor: nc });
                j += 1;
            }
            proof {
                let stepped = inserted_step(pre_t, pre_sels, i as int, c);
                assert(self.selections@ =~= stepped.1);
                lemma_inserted_step_ok(pre_t, pre_sels, i as int, c);
            }
            i += 1;
        }
        self.reclamp_selections();
        self.buffer_is_empty = false;
        self.file_is_dirty = true;
        proof {
            assert(self.selections@ =~= inserted_state(orig.text(), orig.selections@, c).1);
        }
    }
}

impl FileBuffer {
    /// A later position adjusted after a removal; `y`, `x` locate the removed
    /// character (the join point, for a removed terminator).
    fn delete_adjust(p: Position, y: usize, x: usize, newline: bool) -> (r: Position)
        ensures
            r == delete_adjusted_pos(p, y, x, newline),
    {
        if newline {
            if p.y > y {
                if p.y - 1 == y {
                    Position {
                        x: p.x.saturating_add(x),
                        x_preferred: p.x.saturating_add(x),
                        y,
                    }
                } else {
                    Position { x: p.x, x_preferred: p.x_preferred, y: p.y - 1 }
                }
            } else {
                p
            }
        } else {
            if p.y == y && p.x > x {
                Position {
                    x: p.x.saturating_sub(1),
                    x_preferred: p.x.saturating_sub(1),
                    y: p.y,
                }
            } else {
                p
            }
        }
    }

    /// Deletes one character at every selection, in sequence order: the one
    /// under the cursor (forward delete) or the one before it (backspace).
    /// A selection with nothing to remove — forward delete past the last
    /// character of its line, backspace at the very start of the text — is
    /// skipped, and the remaining selections still apply.  Removing a
    /// terminator joins two lines; a backspace across it leaves the cursor at
    /// the end of the line joined onto.  Later selections are shifted off the
    /// removed character, a closing pass forces every selection back into
    /// validity, and the buffer turns dirty exactly when a character was
    /// removed.
    #[verifier::rlimit(80)]
    pub fn delete(&mut self, backspace: bool)
        requires
            old(self).wf(),
        ensures
            final(self).wf(),
            final(self).text() == deleted_state(
                old(self).text(),
                old(self).selections@,
                backspace,
            ).0,
            final(self).selections@ == deleted_state(
                old(self).text(),
                old(self).selections@,
                backspace,
            ).1,
            final(self).file_is_dirty == (old(self).file_is_dirty || deleted_state(
                old(self).text(),
                old(self).selections@,
                backspace,
            ).2),
            final(self).buffer_is_empty == old(self).buffer_is_empty,
            final(self).file_path == old(self).file_path,
            final(self).primary_selection_idx == old(self).primary_selection_idx,
            final(self).offset == old(self).offset,
            final(self).selections@.len() == old(self).selections@.len(),
    {
        let ghost orig = *self;
        let n = self.selections.len();
        let mut changed = false;
        let mut i: usize = 0;
        while i < n
            invariant
                i <= n,
                n == self.selections@.len(),
                n == orig.selections@.len(),
                orig.wf(),
                self.text() == deleted_upto(orig.text(), orig.selections@, backspace, i as int).0,
                self.selections@ == deleted_upto(
                    orig.text(),
                    orig.selections@,
                    backspace,
                    i as int,
                ).1,
                changed == deleted_upto(orig.text(), orig.selections@, backspace, i as int).2,
                forall|j: int|
                    i <= j < n ==> pos_loose(
                        self.text(),
                        (#[trigger] self.selections@[j]).cursor,
                    ),
                self.file_path == orig.file_path,
                self.buffer_is_empty == orig.buffer_is_empty,
                self.file_is_dirty == orig.file_is_dirty,
                self.primary_selection_idx == orig.primary_selection_idx,
                self.offset == orig.offset,
            decreases n - i,
        {
            let ghost pre_t = self.text();
            let ghost pre_sels = self.selections@;
            let sel = self.selections[i];
            let yv = sel.cursor.y;
            let xv = sel.cursor.x;
            let count = self.len();
            let total = rope_len_chars(&self.file_contents);
            proof {
                assert(pos_loose(pre_t, sel.cursor));
                lemma_cursor_abs_index_loose(pre_t, sel.cursor);
            }
            let start = rope_line_to_char(&self.file_contents, yv);
            let base = start + xv;
            let skip = if backspace {
                base == 0
            } else {
                if yv >= count {
                    true
                } else {
                    xv >= self.line_len_at(yv)
                }
            };
            if !skip {
                let at = if backspace {
                    base - 1
                } else {
                    base
                };
                proof {
                    if !backspace {
                        lemma_line_len_pos(pre_t, yv as int);
                        lemma_line_start_bounds(pre_t, yv as int);
                    }
                }
                let removed = rope_char_at(&self.file_contents, at);
                let newline = removed == '\n';
                let cur2 = if backspace && newline {
                    let ny = yv.saturating_sub(1);
                    let nx = if ny < count {
                        self.line_len_at(ny) - 1
                    } else {
                        0
                    };
                    Position { x: nx, x_preferred: nx, y: ny }
                } else if backspace {
                    Position {
                        x: xv.saturating_sub(1),
                        x_preferred: xv.saturating_sub(1),
                        y: yv,
                    }
                } else {
                    Position { x: xv, x_preferred: xv, y: yv }
                };
                rope_remove_char(&mut self.file_contents, at);
                self.selections.set(i, Selection { anchor: sel.anchor, cursor: cur2 });
                changed = true;
                let ghost t2g = self.text();
                proof {
                    assert(t2g == deleted_step(pre_t, pre_sels, i as int, backspace).0);
                    assert(cur2 == deleted_step(pre_t, pre_sels, i as int, backspace).1[i as int].cursor);
                }
                let mut j = i + 1;
                while j < n
                    invariant
                        i < j <= n,
                        i < n,
                        n == self.selections@.len(),
                        self.text() == t2g,
                        self.selections@[i as int] == (Selection {
                            anchor: pre_sels[i as int].anchor,
                            cursor: cur2,
                        }),
                        forall|k: int| 0 <= k < i ==> self.selections@[k] == pre_sels[k],
                        forall|k: int|
                            i < k < j ==> self.selections@[k] == delete_adjusted_sel(
                                #[trigger] pre_sels[k],
                                cur2.y,
                                cur2.x,
                                newline,
                            ),
                        forall|k: int| j <= k < n ==> self.selections@[k] == pre_sels[k],
                        pre_sels.len() == n,
                        self.file_path == orig.file_path,
                        self.buffer_is_empty == orig.buffer_is_empty,
                        self.file_is_dirty == orig.file_is_dirty,
                        self.primary_selection_idx == orig.primary_selection_idx,
                        self.offset == orig.offset,
                    decreases n - j,
                {
                    let s2 = self.selections[j];
                    let nc = Self::delete_adjust(s2.cursor, cur2.y, cur2.x, newline);
                    let na = Self::delete_adjust(s2.anchor, cur2.y, cur2.x, newline);
                    self.selections.set(j, Selection { anchor: na, cursor: nc });
                    j += 1;
                }
                proof {
                    let stepped = deleted_step(pre_t, pre_sels, i as int, backspace);
                    assert(self.selections@ =~= stepped.1);
                    lemma_deleted_step_ok(pre_t, pre_sels, i as int, backspace);
                }
            } else {
                proof {
                    assert(deleted_step(pre_t, pre_sels, i as int, backspace).0 == pre_t);
                    assert(deleted_step(pre_t, pre_sels, i as int, backspace).1 == pre_sels);
                    assert(!deleted_step(pre_t, pre_sels, i as int, backspace).2);
                }
            }
            i += 1;
        }
        if changed {
            self.reclamp_selections();
            self.file_is_dirty = true;
            proof {
                assert(self.selections@ =~= deleted_state(
                    orig.text(),
                    orig.selections@,
                    backspace,
                ).1);
            }
        } else {
            proof {
                lemma_deleted_upto_unchanged(orig.text(), orig.selections@, backspace, n as int);
            }
        }
    }
}

/// Inserting inside an existing line keeps the text's final character, so it
/// stays terminated or unterminated as it was.
proof fn lemma_terminated_like(t: Seq<char>, t2: Seq<char>, at: int, c: char, y: int)
    requires
        0 <= y < line_count(t),
        line_start(t, y) <= at < line_start(t, y + 1),
        t2 == t.insert(at, c),
    ensures
        terminated(t2) == terminated(t),
{
    lemma_line_len_pos(t, y);
    lemma_line_start_bounds(t, y);
    lemma_insert_char_facts(t, at, c);
    assert(at < t.len());
    assert(t2[t.len() as int] == t[t.len() - 1]);
}

} // verus!
