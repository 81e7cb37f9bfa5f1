//! Laws of the buffer engine, each proved from the models that the editing
//! operations' contracts are stated over.

use vstd::prelude::*;
use crate::filebuffer::delete_adjusted_pos;
use crate::filebuffer::deleted_state;
use crate::filebuffer::deleted_step;
use crate::filebuffer::deleted_upto;
use crate::filebuffer::insert_adjusted_pos;
use crate::filebuffer::inserted_state;
use crate::filebuffer::inserted_step;
use crate::filebuffer::inserted_upto;
use crate::filebuffer::pos_ok;
use crate::filebuffer::reclamped_pos;
use crate::filebuffer::reclamped_sel;
use crate::filebuffer::Position;
use crate::filebuffer::Selection;
use crate::text::line_at;
use crate::text::line_count;
use crate::text::line_len;
use crate::text::line_start;
use crate::text::next_line_start;
use crate::text::lemma_insert_char_facts;
use crate::text::lemma_insert_char_in_line;
use crate::text::lemma_insert_newline_in_line;
use crate::text::lemma_line_count_bounds;
use crate::text::lemma_line_len_pos;
use crate::text::lemma_line_start_bounds;
use crate::text::lemma_lines_left_start;
use crate::text::lemma_next_line_start_chars;
use crate::text::lemma_remove_char_facts;
use crate::text::lemma_remove_terminator;
use crate::text::lemma_starts_line;

verus! {

/// A valid position whose preferred column is in sync is its own reclamp.
proof fn lemma_reclamp_identity(t: Seq<char>, p: Position)
    requires
        pos_ok(t, p),
        p.x_preferred == p.x,
    ensures
        reclamped_pos(t, p) == p,
{
    lemma_line_count_bounds(t);
    if (p.y as int) < line_count(t) {
        lemma_line_len_pos(t, p.y as int);
    }
}

/// Law (insert/delete inverse): on a buffer with one selection whose cursor
/// sits on an existing line, with its anchor snapped onto it and its
/// preferred column in sync — the state every cursor movement leaves behind —
/// inserting any character and then backspacing restores both the text and
/// the selection exactly.
pub proof fn lemma_insert_then_backspace_restores(t: Seq<char>, sel: Selection, c: char)
    requires
        pos_ok(t, sel.cursor),
        (sel.cursor.y as int) < line_count(t),
        sel.cursor.x_preferred == sel.cursor.x,
        sel.anchor == sel.cursor,
        t.len() + 1 <= usize::MAX,
    ensures
        ({
            let ins = inserted_state(t, seq![sel], c);
            let del = deleted_state(ins.0, ins.1, true);
            del.0 == t && del.1 == seq![sel]
        }),
{
    let y = sel.cursor.y as int;
    let x = sel.cursor.x as int;
    let at = line_start(t, y) + x;
    let lc = line_count(t);
    let newline = c == '\n';
    lemma_line_count_bounds(t);
    lemma_line_len_pos(t, y);
    lemma_line_start_bounds(t, y);
    let stepped = inserted_step(t, seq![sel], 0, c);
    let t1 = stepped.0;
    assert(t1 == t.insert(at, c));
    lemma_insert_char_facts(t, at, c);
    if newline {
        lemma_insert_newline_in_line(t, at, y);
    } else {
        lemma_insert_char_in_line(t, at, c, y);
    }
    let cur1 = stepped.1[0].cursor;
    // the advanced cursor and the untouched anchor are valid and in sync,
    // so the closing reclamp of the insertion changes nothing
    assert(pos_ok(t1, cur1));
    assert(pos_ok(t1, sel.anchor)) by {
        if newline {
            assert(line_start(t1, y) == line_start(t, y));
            assert(line_start(t1, y + 1) == at + 1);
            assert(line_len(t1, y) == x + 1);
        } else {
            assert(line_len(t1, y) == line_len(t, y) + 1);
        }
    }
    lemma_reclamp_identity(t1, cur1);
    lemma_reclamp_identity(t1, sel.anchor);
    let ins = inserted_state(t, seq![sel], c);
    assert(inserted_upto(t, seq![sel], c, 1) == inserted_step(
        inserted_upto(t, seq![sel], c, 0).0,
        inserted_upto(t, seq![sel], c, 0).1,
        0,
        c,
    ));
    assert(ins.0 == t1);
    assert(ins.1 =~= seq![Selection { anchor: sel.anchor, cursor: cur1 }]);
    // the backspace removes exactly the inserted character
    let del_step = deleted_step(t1, ins.1, 0, true);
    let base1 = line_start(t1, cur1.y as int) + cur1.x;
    assert(base1 == at + 1) by {
        if newline {
            assert(line_start(t1, y + 1) == at + 1);
        } else {
            assert(line_start(t1, y) == line_start(t, y));
        }
    }
    assert(t1[at] == c);
    assert(del_step.2);
    let cur2 = del_step.1[0].cursor;
    assert(cur2 == sel.cursor) by {
        if newline {
            assert(line_len(t1, y) == x + 1);
        }
    }
    assert(del_step.0 =~= t) by {
        lemma_remove_char_facts(t1, at);
        assert forall|k: int| 0 <= k < t.len() implies del_step.0[k] == t[k] by {
            if k < at {
                assert(t1[k] == t[k]);
            } else {
                assert(t1[k + 1] == t[k]);
            }
        }
    }
    assert(deleted_upto(t1, ins.1, true, 1) == ({
        let prev = deleted_upto(t1, ins.1, true, 0);
        let st = deleted_step(prev.0, prev.1, 0, true);
        (st.0, st.1, prev.2 || st.2)
    }));
    let del = deleted_state(ins.0, ins.1, true);
    assert(del.0 == t);
    lemma_reclamp_identity(t, sel.cursor);
    assert(del.1 =~= seq![sel]) by {
        assert(del.1[0] == reclamped_sel(t, del_step.1[0]));
    }
}

/// Law (multi-cursor non-interference, insertion): with two selections on
/// one line at cursor columns `a < b`, the first selection's insertion of a
/// plain character leaves the second selection's cursor on the same line at
/// column `b + 1`.
pub proof fn lemma_insert_no_interference(t: Seq<char>, s0: Selection, s1: Selection, c: char)
    requires
        pos_ok(t, s1.cursor),
        s0.cursor.y == s1.cursor.y,
        s0.cursor.x < s1.cursor.x,
        c != '\n',
        t.len() <= usize::MAX,
    ensures
        inserted_step(t, seq![s0, s1], 0, c).1[1].cursor.x == s1.cursor.x + 1,
        inserted_step(t, seq![s0, s1], 0, c).1[1].cursor.y == s1.cursor.y,
{
    lemma_line_count_bounds(t);
    if (s1.cursor.y as int) < line_count(t) {
        lemma_line_len_pos(t, s1.cursor.y as int);
        lemma_line_start_bounds(t, s1.cursor.y as int);
    }
    assert(s1.cursor.x < usize::MAX);
    assert(inserted_step(t, seq![s0, s1], 0, c).1[1].cursor == insert_adjusted_pos(
        s1.cursor,
        s0.cursor.y,
        s0.cursor.x,
        false,
    ));
}

/// Law (multi-cursor non-interference, deletion): with two selections on one
/// line at cursor columns `a < b` and `a` not at the line start, the first
/// selection's backspace leaves the second selection's cursor on the same
/// line at column `b - 1`.
pub proof fn lemma_delete_no_interference(t: Seq<char>, s0: Selection, s1: Selection)
    requires
        pos_ok(t, s0.cursor),
        s0.cursor.y == s1.cursor.y,
        s0.cursor.x < s1.cursor.x,
        s0.cursor.x >= 1,
    ensures
        deleted_step(t, seq![s0, s1], 0, true).2,
        deleted_step(t, seq![s0, s1], 0, true).1[1].cursor.x == s1.cursor.x - 1,
        deleted_step(t, seq![s0, s1], 0, true).1[1].cursor.y == s1.cursor.y,
{
    let y = s0.cursor.y as int;
    let x = s0.cursor.x as int;
    let at = line_start(t, y) + x - 1;
    lemma_line_count_bounds(t);
    assert((y as int) < line_count(t));
    lemma_line_len_pos(t, y);
    lemma_line_start_bounds(t, y);
    assert(line_start(t, y) + x > 0);
    // the removed character sits strictly inside the line, so it is no
    // terminator and the adjustment is the plain same-line shift
    lemma_next_line_start_chars(t, line_start(t, y));
    assert(line_start(t, y + 1) == next_line_start(t, line_start(t, y)));
    assert(at < line_start(t, y + 1) - 1);
    assert(t[at] != '\n');
    assert(deleted_step(t, seq![s0, s1], 0, true).1[1].cursor == delete_adjusted_pos(
        s1.cursor,
        s0.cursor.y,
        (s0.cursor.x - 1) as usize,
        false,
    ));
}

/// Law (line join on boundary delete): backspacing at column 0 of an
/// existing line `y > 0` merges line `y` into line `y - 1`: the line count
/// drops by one, the cursor lands at the end of the original line `y - 1`,
/// and the joined line is that line without its terminator followed by the
/// old line `y`.
pub proof fn lemma_backspace_joins_lines(t: Seq<char>, sel: Selection)
    requires
        pos_ok(t, sel.cursor),
        sel.cursor.x == 0,
        0 < sel.cursor.y,
        (sel.cursor.y as int) < line_count(t),
        t.len() <= usize::MAX,
    ensures
        ({
            let st = deleted_state(t, seq![sel], true);
            let y = sel.cursor.y as int;
            &&& st.2
            &&& line_count(st.0) == line_count(t) - 1
            &&& st.1[0].cursor.y == y - 1
            &&& st.1[0].cursor.x == line_len(t, y - 1) - 1
            &&& line_at(st.0, y - 1) == line_at(t, y - 1).drop_last() + line_at(t, y)
        }),
{
    let y = sel.cursor.y as int;
    let lc = line_count(t);
    lemma_line_count_bounds(t);
    lemma_line_len_pos(t, y);
    lemma_line_len_pos(t, y - 1);
    lemma_line_start_bounds(t, y - 1);
    lemma_line_start_bounds(t, y);
    lemma_lines_left_start(t, y - 1);
    lemma_starts_line(t, y);
    let at = line_start(t, y) - 1;
    assert(line_start(t, y) >= 1);
    assert(t[at] == '\n');
    let stepped = deleted_step(t, seq![sel], 0, true);
    assert(stepped.2);
    let t2 = stepped.0;
    assert(t2 == t.remove(at));
    lemma_remove_terminator(t, y - 1);
    assert(line_count(t2) == lc - 1);
    let cur2 = stepped.1[0].cursor;
    assert(cur2.y == y - 1 && cur2.x == line_len(t, y - 1) - 1);
    // the joined line: the old line y - 1 without its terminator, then the
    // old line y
    assert(line_start(t2, y - 1) == line_start(t, y - 1));
    assert(line_start(t2, y) == line_start(t, y + 1) - 1);
    lemma_remove_char_facts(t, at);
    assert(line_at(t2, y - 1) =~= line_at(t, y - 1).drop_last() + line_at(t, y)) by {
        assert forall|k: int|
            0 <= k < line_start(t, y + 1) - 1 - line_start(t, y - 1) implies #[trigger] line_at(
            t2,
            y - 1,
        )[k] == (line_at(t, y - 1).drop_last() + line_at(t, y))[k] by {
            let abs = line_start(t, y - 1) + k;
            if abs < at {
                assert(t2[abs] == t[abs]);
            } else {
                assert(t2[abs] == t[abs + 1]);
            }
        }
    }
    // the step's cursor is valid and in sync, so the closing reclamp keeps it
    assert(pos_ok(t2, cur2)) by {
        assert(line_len(t2, y - 1) == line_len(t, y - 1) + line_len(t, y) - 1);
    }
    lemma_reclamp_identity(t2, cur2);
    assert(deleted_upto(t, seq![sel], true, 1) == ({
        let prev = deleted_upto(t, seq![sel], true, 0);
        let st = deleted_step(prev.0, prev.1, 0, true);
        (st.0, st.1, prev.2 || st.2)
    }));
    let full = deleted_state(t, seq![sel], true);
    assert(full.0 == t2);
    assert(full.1[0].cursor == cur2);
}

} // verus!
