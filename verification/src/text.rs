//! Mathematical model of the text: a sequence of characters, logically
//! segmented into lines by `'\n'` terminators.  A trailing fragment with no
//! terminator counts as a line of its own, so every line except possibly the
//! last ends in `'\n'` and every line is non-empty.
//!
//! `line_start` and `line_count` are the two primitives; the lemmas below say
//! how they change when one character is inserted or removed, which is what
//! the buffer operations need to reconcile cursor coordinates.

use vstd::prelude::*;

verus! {

/// Start of the line that follows the line beginning at `p`: one past the
/// first `'\n'` at or after `p`, or the end of the text when none follows.
pub open spec fn next_line_start(s: Seq<char>, p: int) -> int
    decreases s.len() - p,
{
    if p < 0 || p >= s.len() {
        s.len() as int
    } else if s[p] == '\n' {
        p + 1
    } else {
        next_line_start(s, p + 1)
    }
}

/// Character index where line `i` begins; collapses to the text end for
/// indices at or beyond the number of lines.
pub open spec fn line_start(s: Seq<char>, i: int) -> int
    decreases i,
{
    if i <= 0 {
        0
    } else {
        next_line_start(s, line_start(s, i - 1))
    }
}

/// Number of `'\n'` characters at or after position `p`.
pub open spec fn newlines_from(s: Seq<char>, p: int) -> int
    decreases s.len() - p,
{
    if p < 0 || p >= s.len() {
        0
    } else {
        (if s[p] == '\n' { 1int } else { 0int }) + newlines_from(s, p + 1)
    }
}

/// Number of `'\n'` characters in the whole text.
pub open spec fn newline_count(s: Seq<char>) -> int {
    newlines_from(s, 0)
}

/// Whether the text ends in a terminator (an empty text counts as terminated).
pub open spec fn terminated(s: Seq<char>) -> bool {
    s.len() == 0 || s[s.len() - 1] == '\n'
}

/// Number of lines: every `'\n'` closes one, and a trailing unterminated
/// fragment counts as one more.  An empty text has no lines.
pub open spec fn line_count(s: Seq<char>) -> int {
    newline_count(s) + if terminated(s) { 0int } else { 1int }
}

/// Length of line `i`, its terminator included.
pub open spec fn line_len(s: Seq<char>, i: int) -> int {
    line_start(s, i + 1) - line_start(s, i)
}

/// The characters of line `i`, terminator included.
pub open spec fn line_at(s: Seq<char>, i: int) -> Seq<char> {
    s.subrange(line_start(s, i), line_start(s, i + 1))
}

/// Whether some character of `s[lo..hi)` is a terminator.
pub open spec fn has_newline_between(s: Seq<char>, lo: int, hi: int) -> bool {
    exists|k: int| lo <= k < hi && 0 <= k < s.len() && s[k] == '\n'
}

/// Line `i` begins at the text start or right after a terminator.
pub open spec fn starts_line(s: Seq<char>, i: int) -> bool {
    i == 0 || (1 <= line_start(s, i) <= s.len() && s[line_start(s, i) - 1] == '\n')
}

/// `next_line_start` stays within the text and advances past `p`.
pub proof fn lemma_next_line_start_bounds(s: Seq<char>, p: int)
    requires
        0 <= p <= s.len(),
    ensures
        p <= next_line_start(s, p) <= s.len(),
        p < s.len() ==> p + 1 <= next_line_start(s, p),
    decreases s.len() - p,
{
    if p < s.len() && s[p] != '\n' {
        lemma_next_line_start_bounds(s, p + 1);
    }
}

/// The characters a line scan passes over are not terminators, and a scan
/// that stops short of the text end stops right after a terminator.
pub proof fn lemma_next_line_start_chars(s: Seq<char>, p: int)
    requires
        0 <= p <= s.len(),
    ensures
        forall|k: int| p <= k < next_line_start(s, p) - 1 ==> s[k] != '\n',
        next_line_start(s, p) < s.len() ==> s[next_line_start(s, p) - 1] == '\n',
    decreases s.len() - p,
{
    if p < s.len() && s[p] != '\n' {
        lemma_next_line_start_chars(s, p + 1);
    }
}

/// Line starts are within the text and ordered.
pub proof fn lemma_line_start_bounds(s: Seq<char>, i: int)
    requires
        0 <= i,
    ensures
        0 <= line_start(s, i) <= s.len(),
        line_start(s, i) <= line_start(s, i + 1),
    decreases i,
{
    if i == 0 {
        lemma_next_line_start_bounds(s, 0);
    } else {
        lemma_line_start_bounds(s, i - 1);
        lemma_next_line_start_bounds(s, line_start(s, i - 1));
        lemma_next_line_start_bounds(s, line_start(s, i));
    }
}

/// Line starts are monotone in the line index.
pub proof fn lemma_line_start_monotone(s: Seq<char>, i: int, j: int)
    requires
        0 <= i <= j,
    ensures
        line_start(s, i) <= line_start(s, j),
    decreases j - i,
{
    if i < j {
        lemma_line_start_bounds(s, j - 1);
        lemma_line_start_monotone(s, i, j - 1);
    }
}

/// Number of lines that begin at or after position `p`.
pub open spec fn lines_left(s: Seq<char>, p: int) -> int {
    newlines_from(s, p) + if p < s.len() && !terminated(s) { 1int } else { 0int }
}

/// `newlines_from` is non-negative and bounded by the characters left; an
/// unterminated text has no terminator at its last position.
pub proof fn lemma_newlines_from_bounds(s: Seq<char>, p: int)
    requires
        0 <= p <= s.len(),
    ensures
        0 <= newlines_from(s, p) <= s.len() - p,
        !terminated(s) && p < s.len() ==> newlines_from(s, p) <= s.len() - 1 - p,
    decreases s.len() - p,
{
    if p < s.len() {
        lemma_newlines_from_bounds(s, p + 1);
    }
}

/// There are never more lines than characters.
pub proof fn lemma_line_count_bounds(s: Seq<char>)
    ensures
        0 <= line_count(s) <= s.len(),
        s.len() == 0 ==> line_count(s) == 0,
{
    lemma_newlines_from_bounds(s, 0);
}

/// Advancing to the next line start consumes exactly one of the lines left.
pub proof fn lemma_lines_left_next(s: Seq<char>, p: int)
    requires
        0 <= p < s.len(),
    ensures
        lines_left(s, next_line_start(s, p)) == lines_left(s, p) - 1,
    decreases s.len() - p,
{
    if s[p] == '\n' {
        assert(newlines_from(s, p) == 1 + newlines_from(s, p + 1));
    } else {
        if p + 1 < s.len() {
            lemma_lines_left_next(s, p + 1);
        } else {
            assert(next_line_start(s, p) == next_line_start(s, p + 1));
            assert(newlines_from(s, p + 1) == 0);
            assert(!terminated(s));
        }
    }
}

/// A terminated text has a terminator at or after every in-range position.
pub proof fn lemma_newlines_from_last(s: Seq<char>, p: int)
    requires
        0 <= p < s.len(),
        terminated(s),
    ensures
        newlines_from(s, p) >= 1,
    decreases s.len() - p,
{
    if p + 1 < s.len() {
        lemma_newlines_from_last(s, p + 1);
    } else {
        assert(s[p] == '\n');
        assert(newlines_from(s, p) == 1 + newlines_from(s, p + 1));
        assert(newlines_from(s, p + 1) == 0);
    }
}

/// Walking `i` line starts from the beginning leaves `line_count - i` lines;
/// in particular each existing line begins strictly inside the text.
pub proof fn lemma_lines_left_start(s: Seq<char>, i: int)
    requires
        0 <= i <= line_count(s),
    ensures
        lines_left(s, line_start(s, i)) == line_count(s) - i,
        0 <= line_start(s, i) <= s.len(),
        i < line_count(s) ==> line_start(s, i) < s.len(),
    decreases i,
{
    lemma_line_start_bounds(s, i);
    if i == 0 {
    } else {
        lemma_lines_left_start(s, i - 1);
        lemma_line_start_bounds(s, i - 1);
        lemma_lines_left_next(s, line_start(s, i - 1));
    }
}

/// One line start past the last line is the end of the text.
pub proof fn lemma_line_start_at_count(s: Seq<char>)
    ensures
        line_start(s, line_count(s)) == s.len(),
{
    lemma_line_count_bounds(s);
    lemma_lines_left_start(s, line_count(s));
    let p = line_start(s, line_count(s));
    if p < s.len() {
        lemma_newlines_from_bounds(s, p);
        if terminated(s) {
            lemma_newlines_from_last(s, p);
        }
        assert(false);
    }
}

/// Every line has at least its terminator or one fragment character.
pub proof fn lemma_line_len_pos(s: Seq<char>, i: int)
    requires
        0 <= i < line_count(s),
    ensures
        1 <= line_len(s, i),
        line_start(s, i) < line_start(s, i + 1) <= s.len(),
    decreases i,
{
    lemma_lines_left_start(s, i);
    lemma_next_line_start_bounds(s, line_start(s, i));
    lemma_line_start_bounds(s, i);
}

/// Existing lines, and the virtual position after a terminated text,
/// begin at the start or right after a terminator.
pub proof fn lemma_starts_line(s: Seq<char>, i: int)
    requires
        0 <= i <= line_count(s),
        i < line_count(s) || terminated(s),
    ensures
        starts_line(s, i),
{
    if i > 0 {
        lemma_lines_left_start(s, i - 1);
        lemma_line_start_bounds(s, i - 1);
        lemma_next_line_start_bounds(s, line_start(s, i - 1));
        lemma_next_line_start_chars(s, line_start(s, i - 1));
        lemma_line_start_bounds(s, i);
        assert(1 <= line_start(s, i));
        if line_start(s, i) < s.len() {
            assert(s[line_start(s, i) - 1] == '\n');
        } else {
            if i < line_count(s) {
                lemma_lines_left_start(s, i);
                lemma_newlines_from_bounds(s, line_start(s, i));
                assert(false);
            } else {
                // line_start(s, i) == s.len() and the text is terminated
                lemma_line_count_bounds(s);
                assert(s.len() >= 1);
                assert(s[line_start(s, i) - 1] == '\n');
            }
        }
    }
}

/// Index facts for inserting one character.
pub proof fn lemma_insert_char_facts(s: Seq<char>, p: int, c: char)
    requires
        0 <= p <= s.len(),
    ensures
        s.insert(p, c).len() == s.len() + 1,
        forall|j: int| 0 <= j < p ==> #[trigger] s.insert(p, c)[j] == s[j],
        s.insert(p, c)[p] == c,
        forall|j: int| p < j <= s.len() ==> #[trigger] s.insert(p, c)[j] == s[j - 1],
{
    s.insert_ensures(p, c);
    assert forall|j: int| p < j <= s.len() implies #[trigger] s.insert(p, c)[j] == s[j - 1] by {
        assert(s.insert(p, c)[(j - 1) + 1] == s[j - 1]);
    }
}

/// Index facts for removing one character.
pub proof fn lemma_remove_char_facts(s: Seq<char>, p: int)
    requires
        0 <= p < s.len(),
    ensures
        s.remove(p).len() == s.len() - 1,
        forall|j: int| 0 <= j < p ==> #[trigger] s.remove(p)[j] == s[j],
        forall|j: int| p <= j < s.len() - 1 ==> #[trigger] s.remove(p)[j] == s[j + 1],
{
    s.remove_ensures(p);
}

/// A line scan that begins after an insertion point sees the old text shifted.
pub proof fn lemma_next_insert_after(s: Seq<char>, p: int, c: char, q: int)
    requires
        0 <= p <= s.len(),
        p < q <= s.len() + 1,
    ensures
        next_line_start(s.insert(p, c), q) == next_line_start(s, q - 1) + 1,
    decreases s.len() + 1 - q,
{
    let t = s.insert(p, c);
    lemma_insert_char_facts(s, p, c);
    if q == s.len() + 1 {
        assert(next_line_start(t, q) == t.len());
        assert(next_line_start(s, q - 1) == s.len());
    } else if t[q] == '\n' {
        assert(s[q - 1] == '\n');
    } else {
        assert(s[q - 1] != '\n');
        lemma_next_insert_after(s, p, c, q + 1);
    }
}

/// A line scan that begins at or before an insertion point: a terminator in
/// between keeps the scan as it was; otherwise the inserted character decides.
pub proof fn lemma_next_insert_before(s: Seq<char>, p: int, c: char, q: int)
    requires
        0 <= q <= p <= s.len(),
    ensures
        has_newline_between(s, q, p) ==> next_line_start(s, q) <= p && next_line_start(
            s.insert(p, c),
            q,
        ) == next_line_start(s, q),
        !has_newline_between(s, q, p) && c == '\n' ==> next_line_start(s.insert(p, c), q) == p + 1,
        !has_newline_between(s, q, p) && c != '\n' ==> next_line_start(s.insert(p, c), q)
            == next_line_start(s, q) + 1,
    decreases p - q,
{
    let t = s.insert(p, c);
    lemma_insert_char_facts(s, p, c);
    if q == p {
        assert(!has_newline_between(s, q, p));
        if c == '\n' {
            assert(t[p] == '\n');
        } else {
            assert(t[p] != '\n');
            lemma_next_insert_after(s, p, c, p + 1);
            assert(next_line_start(t, q) == next_line_start(t, p + 1));
        }
    } else {
        if s[q] == '\n' {
            assert(has_newline_between(s, q, p)) by {
                assert(q <= q < p && 0 <= q < s.len() && s[q] == '\n');
            }
            assert(t[q] == '\n');
        } else {
            lemma_next_insert_before(s, p, c, q + 1);
            assert(t[q] == s[q]);
            if has_newline_between(s, q, p) {
                let k = choose|k: int| q <= k < p && 0 <= k < s.len() && s[k] == '\n';
                assert(q + 1 <= k < p && 0 <= k < s.len() && s[k] == '\n');
                assert(has_newline_between(s, q + 1, p));
            }
            if has_newline_between(s, q + 1, p) {
                let k = choose|k: int| q + 1 <= k < p && 0 <= k < s.len() && s[k] == '\n';
                assert(q <= k < p && 0 <= k < s.len() && s[k] == '\n');
                assert(has_newline_between(s, q, p));
            }
        }
    }
}

/// A line scan that begins at or after a removal point sees the old text shifted.
pub proof fn lemma_next_remove_after(s: Seq<char>, p: int, q: int)
    requires
        0 <= p < s.len(),
        p <= q <= s.len() - 1,
    ensures
        next_line_start(s.remove(p), q) == next_line_start(s, q + 1) - 1,
    decreases s.len() - q,
{
    let t = s.remove(p);
    lemma_remove_char_facts(s, p);
    if q == s.len() - 1 {
        assert(next_line_start(t, q) == t.len());
        assert(next_line_start(s, q + 1) == s.len());
    } else if t[q] == '\n' {
        assert(s[q + 1] == '\n');
    } else {
        assert(s[q + 1] != '\n');
        lemma_next_remove_after(s, p, q + 1);
    }
}

/// A line scan that begins at or before a removal point: a terminator in
/// between keeps the scan as it was; otherwise the scan continues past the
/// removed character.
pub proof fn lemma_next_remove_before(s: Seq<char>, p: int, q: int)
    requires
        0 <= q <= p < s.len(),
    ensures
        has_newline_between(s, q, p) ==> next_line_start(s, q) <= p && next_line_start(
            s.remove(p),
            q,
        ) == next_line_start(s, q),
        !has_newline_between(s, q, p) ==> next_line_start(s.remove(p), q) == next_line_start(
            s,
            p + 1,
        ) - 1,
    decreases p - q,
{
    let t = s.remove(p);
    lemma_remove_char_facts(s, p);
    if q == p {
        assert(!has_newline_between(s, q, p));
        if p <= s.len() - 2 {
            lemma_next_remove_after(s, p, p);
        } else {
            assert(next_line_start(t, q) == t.len());
            assert(next_line_start(s, p + 1) == s.len());
        }
    } else {
        if s[q] == '\n' {
            assert(has_newline_between(s, q, p)) by {
                assert(q <= q < p && 0 <= q < s.len() && s[q] == '\n');
            }
            assert(t[q] == '\n');
        } else {
            lemma_next_remove_before(s, p, q + 1);
            assert(t[q] == s[q]);
            if has_newline_between(s, q, p) {
                let k = choose|k: int| q <= k < p && 0 <= k < s.len() && s[k] == '\n';
                assert(q + 1 <= k < p && 0 <= k < s.len() && s[k] == '\n');
                assert(has_newline_between(s, q + 1, p));
            }
            if has_newline_between(s, q + 1, p) {
                let k = choose|k: int| q + 1 <= k < p && 0 <= k < s.len() && s[k] == '\n';
                assert(q <= k < p && 0 <= k < s.len() && s[k] == '\n');
                assert(has_newline_between(s, q, p));
            }
        }
    }
}

/// Lines that begin at or before an insertion point keep their start.
pub proof fn lemma_line_start_insert_prefix(s: Seq<char>, p: int, c: char, j: int)
    requires
        0 <= p <= s.len(),
        0 <= j <= line_count(s),
        j < line_count(s) || terminated(s),
        line_start(s, j) <= p,
    ensures
        line_start(s.insert(p, c), j) == line_start(s, j),
    decreases j,
{
    if j > 0 {
        lemma_line_start_bounds(s, j - 1);
        lemma_line_start_insert_prefix(s, p, c, j - 1);
        let q = line_start(s, j - 1);
        lemma_starts_line(s, j);
        lemma_lines_left_start(s, j - 1);
        lemma_next_line_start_bounds(s, q);
        assert(s[line_start(s, j) - 1] == '\n');
        assert(has_newline_between(s, q, p)) by {
            assert(q <= line_start(s, j) - 1 < p && 0 <= line_start(s, j) - 1 < s.len() && s[
                line_start(s, j) - 1
            ] == '\n');
        }
        lemma_next_insert_before(s, p, c, q);
    }
}

/// Lines that begin at or before a removal point keep their start.
pub proof fn lemma_line_start_remove_prefix(s: Seq<char>, p: int, j: int)
    requires
        0 <= p < s.len(),
        0 <= j <= line_count(s),
        j < line_count(s) || terminated(s),
        line_start(s, j) <= p,
    ensures
        line_start(s.remove(p), j) == line_start(s, j),
    decreases j,
{
    if j > 0 {
        lemma_line_start_bounds(s, j - 1);
        lemma_line_start_remove_prefix(s, p, j - 1);
        let q = line_start(s, j - 1);
        lemma_starts_line(s, j);
        lemma_lines_left_start(s, j - 1);
        lemma_next_line_start_bounds(s, q);
        assert(s[line_start(s, j) - 1] == '\n');
        assert(has_newline_between(s, q, p)) by {
            assert(q <= line_start(s, j) - 1 < p && 0 <= line_start(s, j) - 1 < s.len() && s[
                line_start(s, j) - 1
            ] == '\n');
        }
        lemma_next_remove_before(s, p, q);
    }
}

/// Scanning from anywhere inside line `y` finds the same next line start.
pub proof fn lemma_next_within_line(s: Seq<char>, y: int, p: int)
    requires
        0 <= y < line_count(s),
        line_start(s, y) <= p < line_start(s, y + 1),
    ensures
        next_line_start(s, p) == line_start(s, y + 1),
    decreases line_start(s, y + 1) - p,
{
    lemma_lines_left_start(s, y);
    lemma_line_start_bounds(s, y);
    lemma_next_line_start_chars(s, line_start(s, y));
    lemma_next_line_start_bounds(s, line_start(s, y));
    if s[p] == '\n' {
        assert(p == line_start(s, y + 1) - 1);
        assert(next_line_start(s, p) == p + 1);
    } else {
        assert(next_line_start(s, p) == next_line_start(s, p + 1));
        if p + 1 < line_start(s, y + 1) {
            lemma_next_within_line(s, y, p + 1);
        } else {
            // p is the last character of an unterminated final line
            assert(line_start(s, y + 1) == s.len());
            assert(next_line_start(s, p + 1) == s.len());
        }
    }
}

/// No terminator lies strictly inside a line before a position within it.
proof fn lemma_no_newline_within_line(s: Seq<char>, y: int, p: int)
    requires
        0 <= y < line_count(s),
        line_start(s, y) <= p < line_start(s, y + 1),
    ensures
        !has_newline_between(s, line_start(s, y), p),
{
    lemma_line_start_bounds(s, y);
    lemma_next_line_start_chars(s, line_start(s, y));
    lemma_lines_left_start(s, y);
    if has_newline_between(s, line_start(s, y), p) {
        let k = choose|k: int|
            line_start(s, y) <= k < p && 0 <= k < s.len() && s[k] == '\n';
        assert(k < line_start(s, y + 1) - 1);
        assert(false);
    }
}

proof fn lemma_newlines_insert_after(s: Seq<char>, p: int, c: char, q: int)
    requires
        0 <= p <= s.len(),
        p < q <= s.len() + 1,
    ensures
        newlines_from(s.insert(p, c), q) == newlines_from(s, q - 1),
    decreases s.len() + 1 - q,
{
    lemma_insert_char_facts(s, p, c);
    if q <= s.len() {
        lemma_newlines_insert_after(s, p, c, q + 1);
    }
}

/// Inserting a character adds its terminator, if it is one, to the count.
pub proof fn lemma_newlines_insert(s: Seq<char>, p: int, c: char, q: int)
    requires
        0 <= q <= p <= s.len(),
    ensures
        newlines_from(s.insert(p, c), q) == newlines_from(s, q) + (if c == '\n' {
            1int
        } else {
            0int
        }),
    decreases p - q,
{
    lemma_insert_char_facts(s, p, c);
    if q == p {
        lemma_newlines_insert_after(s, p, c, q + 1);
    } else {
        lemma_newlines_insert(s, p, c, q + 1);
    }
}

proof fn lemma_newlines_remove_after(s: Seq<char>, p: int, q: int)
    requires
        0 <= p < s.len(),
        p <= q <= s.len() - 1,
    ensures
        newlines_from(s.remove(p), q) == newlines_from(s, q + 1),
    decreases s.len() - q,
{
    lemma_remove_char_facts(s, p);
    if q < s.len() - 1 {
        lemma_newlines_remove_after(s, p, q + 1);
    }
}

/// Removing a character takes its terminator, if it is one, out of the count.
pub proof fn lemma_newlines_remove(s: Seq<char>, p: int, q: int)
    requires
        0 <= q <= p < s.len(),
    ensures
        newlines_from(s.remove(p), q) == newlines_from(s, q) - (if s[p] == '\n' {
            1int
        } else {
            0int
        }),
    decreases p - q,
{
    lemma_remove_char_facts(s, p);
    if q == p {
        lemma_newlines_remove_after(s, p, q);
        assert(newlines_from(s, p) == (if s[p] == '\n' { 1int } else { 0int }) + newlines_from(
            s,
            p + 1,
        ));
    } else {
        lemma_newlines_remove(s, p, q + 1);
    }
}

proof fn lemma_insert_char_suffix_at(s: Seq<char>, p: int, c: char, y: int, j: int)
    requires
        0 <= y < line_count(s),
        line_start(s, y) <= p < line_start(s, y + 1),
        c != '\n',
        y < j,
    ensures
        line_start(s.insert(p, c), j) == line_start(s, j) + 1,
    decreases j,
{
    let t = s.insert(p, c);
    lemma_line_start_bounds(s, y);
    lemma_line_len_pos(s, y);
    if j == y + 1 {
        lemma_line_start_monotone(s, 0, y);
        lemma_line_start_insert_prefix(s, p, c, y);
        lemma_no_newline_within_line(s, y, p);
        lemma_next_insert_before(s, p, c, line_start(s, y));
    } else {
        lemma_insert_char_suffix_at(s, p, c, y, j - 1);
        lemma_line_start_bounds(s, j - 1);
        lemma_line_start_monotone(s, y + 1, j - 1);
        lemma_next_insert_after(s, p, c, line_start(s, j - 1) + 1);
    }
}

/// Inserting a plain character inside line `y`: starts up to `y` stay, later
/// starts shift right by one, and the number of lines does not change.
pub proof fn lemma_insert_char_in_line(s: Seq<char>, p: int, c: char, y: int)
    requires
        0 <= y < line_count(s),
        line_start(s, y) <= p < line_start(s, y + 1),
        c != '\n',
    ensures
        line_count(s.insert(p, c)) == line_count(s),
        forall|j: int| 0 <= j <= y ==> #[trigger] line_start(s.insert(p, c), j) == line_start(
            s,
            j,
        ),
        forall|j: int| y < j ==> #[trigger] line_start(s.insert(p, c), j) == line_start(s, j) + 1,
{
    let t = s.insert(p, c);
    lemma_line_len_pos(s, y);
    lemma_lines_left_start(s, y);
    assert forall|j: int| 0 <= j <= y implies #[trigger] line_start(t, j) == line_start(s, j) by {
        lemma_line_start_monotone(s, j, y);
        lemma_line_start_insert_prefix(s, p, c, j);
    }
    assert forall|j: int| y < j implies #[trigger] line_start(t, j) == line_start(s, j) + 1 by {
        lemma_insert_char_suffix_at(s, p, c, y, j);
    }
    lemma_newlines_insert(s, p, c, 0);
    lemma_insert_char_facts(s, p, c);
    assert(p < s.len());
    assert(t[s.len() as int] == s[s.len() - 1]);
    assert(terminated(t) == terminated(s));
}

proof fn lemma_insert_newline_suffix_at(s: Seq<char>, p: int, y: int, j: int)
    requires
        0 <= y < line_count(s),
        line_start(s, y) <= p < line_start(s, y + 1),
        y + 1 < j,
    ensures
        line_start(s.insert(p, '\n'), j) == line_start(s, j - 1) + 1,
    decreases j,
{
    let t = s.insert(p, '\n');
    lemma_line_start_bounds(s, y);
    lemma_line_len_pos(s, y);
    if j == y + 2 {
        lemma_insert_newline_split(s, p, y);
        lemma_next_insert_after(s, p, '\n', p + 1);
        lemma_next_within_line(s, y, p);
        assert(line_start(t, y + 2) == next_line_start(t, p + 1));
    } else {
        lemma_insert_newline_suffix_at(s, p, y, j - 1);
        lemma_line_start_bounds(s, j - 2);
        lemma_line_start_monotone(s, y + 1, j - 2);
        lemma_next_insert_after(s, p, '\n', line_start(s, j - 2) + 1);
    }
}

/// Inserting a terminator inside line `y` starts a new line right after it.
pub proof fn lemma_insert_newline_split(s: Seq<char>, p: int, y: int)
    requires
        0 <= y < line_count(s),
        line_start(s, y) <= p < line_start(s, y + 1),
    ensures
        line_start(s.insert(p, '\n'), y + 1) == p + 1,
{
    lemma_line_start_monotone(s, 0, y);
    lemma_line_start_bounds(s, y);
    lemma_line_len_pos(s, y);
    lemma_line_start_insert_prefix(s, p, '\n', y);
    lemma_no_newline_within_line(s, y, p);
    lemma_next_insert_before(s, p, '\n', line_start(s, y));
}

/// Inserting a terminator inside line `y` splits it: starts up to `y` stay,
/// a line begins right after the terminator, later starts shift, and the
/// line count grows by one.
pub proof fn lemma_insert_newline_in_line(s: Seq<char>, p: int, y: int)
    requires
        0 <= y < line_count(s),
        line_start(s, y) <= p < line_start(s, y + 1),
    ensures
        line_count(s.insert(p, '\n')) == line_count(s) + 1,
        forall|j: int| 0 <= j <= y ==> #[trigger] line_start(s.insert(p, '\n'), j) == line_start(
            s,
            j,
        ),
        line_start(s.insert(p, '\n'), y + 1) == p + 1,
        forall|j: int|
            y + 1 < j ==> #[trigger] line_start(s.insert(p, '\n'), j) == line_start(s, j - 1) + 1,
{
    let t = s.insert(p, '\n');
    lemma_line_len_pos(s, y);
    lemma_lines_left_start(s, y);
    assert forall|j: int| 0 <= j <= y implies #[trigger] line_start(t, j) == line_start(s, j) by {
        lemma_line_start_monotone(s, j, y);
        lemma_line_start_insert_prefix(s, p, '\n', j);
    }
    lemma_insert_newline_split(s, p, y);
    assert forall|j: int| y + 1 < j implies #[trigger] line_start(t, j) == line_start(s, j - 1)
        + 1 by {
        lemma_insert_newline_suffix_at(s, p, y, j);
    }
    lemma_newlines_insert(s, p, '\n', 0);
    lemma_insert_char_facts(s, p, '\n');
    lemma_lines_left_start(s, y);
    assert(p < s.len());
    assert(t[s.len() as int] == s[s.len() - 1]);
    assert(terminated(t) == terminated(s));
}

/// Appending a terminator to a terminated text adds one line at its end.
pub proof fn lemma_append_newline(s: Seq<char>)
    requires
        terminated(s),
    ensures
        line_count(s.insert(s.len() as int, '\n')) == line_count(s) + 1,
        forall|j: int|
            0 <= j <= line_count(s) ==> #[trigger] line_start(s.insert(s.len() as int, '\n'), j)
                == line_start(s, j),
        line_start(s.insert(s.len() as int, '\n'), line_count(s) + 1) == s.len() + 1,
{
    let p = s.len() as int;
    let t = s.insert(p, '\n');
    lemma_line_count_bounds(s);
    lemma_insert_char_facts(s, p, '\n');
    assert forall|j: int| 0 <= j <= line_count(s) implies #[trigger] line_start(t, j)
        == line_start(s, j) by {
        lemma_lines_left_start(s, j);
        lemma_line_start_insert_prefix(s, p, '\n', j);
    }
    lemma_line_start_at_count(s);
    assert(line_start(t, line_count(s)) == s.len());
    assert(t[p] == '\n');
    assert(line_start(t, line_count(s) + 1) == next_line_start(t, line_start(t, line_count(s))));
    assert(next_line_start(t, p) == p + 1);
    lemma_newlines_insert(s, p, '\n', 0);
    assert(terminated(t));
}

proof fn lemma_remove_char_suffix_at(s: Seq<char>, p: int, y: int, j: int)
    requires
        0 <= y < line_count(s),
        line_start(s, y) <= p < line_start(s, y + 1),
        s[p] != '\n',
        y < j,
    ensures
        line_start(s.remove(p), j) == line_start(s, j) - 1,
    decreases j,
{
    let t = s.remove(p);
    lemma_line_start_bounds(s, y);
    lemma_line_len_pos(s, y);
    lemma_lines_left_start(s, y);
    if j == y + 1 {
        lemma_line_start_monotone(s, 0, y);
        lemma_line_start_remove_prefix(s, p, y);
        lemma_no_newline_within_line(s, y, p);
        lemma_next_remove_before(s, p, line_start(s, y));
        // the scan continues from p + 1, which is still within line y or its end
        if p + 1 < line_start(s, y + 1) {
            lemma_next_within_line(s, y, p + 1);
        } else {
            // p was the last character of an unterminated final line
            lemma_next_line_start_chars(s, line_start(s, y));
            assert(line_start(s, y + 1) == s.len());
        }
    } else {
        lemma_remove_char_suffix_at(s, p, y, j - 1);
        lemma_line_start_bounds(s, j - 1);
        lemma_line_start_monotone(s, y + 1, j - 1);
        lemma_next_remove_after(s, p, line_start(s, j - 1) - 1);
    }
}

/// Removing a plain character from line `y`: starts up to `y` stay, later
/// starts shift left by one; the line count drops only when the character
/// was the whole of a final unterminated line.
pub proof fn lemma_remove_char_in_line(s: Seq<char>, p: int, y: int)
    requires
        0 <= y < line_count(s),
        line_start(s, y) <= p < line_start(s, y + 1),
        s[p] != '\n',
    ensures
        forall|j: int| 0 <= j <= y ==> #[trigger] line_start(s.remove(p), j) == line_start(s, j),
        forall|j: int| y < j ==> #[trigger] line_start(s.remove(p), j) == line_start(s, j) - 1,
        line_count(s.remove(p)) == line_count(s) - (if line_len(s, y) == 1 {
            1int
        } else {
            0int
        }),
{
    let t = s.remove(p);
    lemma_lines_left_start(s, y);
    lemma_line_start_bounds(s, y);
    lemma_line_len_pos(s, y);
    assert forall|j: int| 0 <= j <= y implies #[trigger] line_start(t, j) == line_start(s, j) by {
        lemma_line_start_monotone(s, j, y);
        lemma_line_start_remove_prefix(s, p, j);
    }
    assert forall|j: int| y < j implies #[trigger] line_start(t, j) == line_start(s, j) - 1 by {
        lemma_remove_char_suffix_at(s, p, y, j);
    }
    lemma_newlines_remove(s, p, 0);
    lemma_remove_char_facts(s, p);
    if p == s.len() - 1 {
        // the last character went away; since it is not a terminator the
        // text was unterminated and line y was its final line
        assert(!terminated(s));
        if line_start(s, y + 1) < s.len() {
            lemma_lines_left_start(s, y + 1);
            lemma_next_line_start_bounds(s, line_start(s, y + 1));
            lemma_line_start_monotone(s, y + 1, line_count(s));
            lemma_line_start_at_count(s);
            assert(false);
        }
        assert(line_start(s, y + 1) == s.len());
        if line_len(s, y) == 1 {
            assert(line_start(s, y) == p);
            if s.len() == 1 {
                assert(terminated(t));
            } else {
                assert(line_start(s, y) >= 1);
                lemma_starts_line(s, y);
                assert(t[t.len() - 1] == s[s.len() - 2]);
                assert(s[line_start(s, y) - 1] == '\n');
                assert(terminated(t));
            }
        } else {
            lemma_next_line_start_chars(s, line_start(s, y));
            assert(line_start(s, y) <= s.len() - 2 < next_line_start(s, line_start(s, y)) - 1);
            assert(s[s.len() - 2] != '\n');
            assert(t[t.len() - 1] == s[s.len() - 2]);
            assert(!terminated(t));
        }
    } else {
        assert(t[t.len() - 1] == s[s.len() - 1]);
        assert(terminated(t) == terminated(s));
        if line_len(s, y) == 1 {
            // a one-character line holding no terminator must end the text
            assert(line_start(s, y + 1) == p + 1);
            if y + 1 < line_count(s) {
                lemma_starts_line(s, y + 1);
                assert(s[p] == '\n');
                assert(false);
            } else {
                lemma_line_start_at_count(s);
                assert(p + 1 == s.len());
                assert(false);
            }
        }
    }
}

proof fn lemma_remove_terminator_suffix_at(s: Seq<char>, y: int, j: int)
    requires
        0 <= y < line_count(s),
        s[line_start(s, y + 1) - 1] == '\n',
        line_start(s, y + 1) - 1 < s.len(),
        y < j,
    ensures
        line_start(s.remove(line_start(s, y + 1) - 1), j) == line_start(s, j + 1) - 1,
    decreases j,
{
    let p = line_start(s, y + 1) - 1;
    let t = s.remove(p);
    lemma_line_start_bounds(s, y);
    lemma_line_len_pos(s, y);
    if j == y + 1 {
        lemma_line_start_monotone(s, 0, y);
        lemma_line_start_remove_prefix(s, p, y);
        lemma_no_newline_within_line(s, y, p);
        lemma_next_remove_before(s, p, line_start(s, y));
    } else {
        lemma_remove_terminator_suffix_at(s, y, j - 1);
        lemma_line_start_bounds(s, j);
        lemma_line_start_monotone(s, y + 2, j);
        lemma_line_start_bounds(s, y + 1);
        lemma_next_line_start_bounds(s, line_start(s, y + 1));
        lemma_next_remove_after(s, p, line_start(s, j) - 1);
    }
}

/// Removing the terminator of line `y` joins it with what follows: starts up
/// to `y` stay and later lines collapse onto their predecessors.  The line
/// count drops unless the terminator closed the final line and left a
/// fragment behind.
pub proof fn lemma_remove_terminator(s: Seq<char>, y: int)
    requires
        0 <= y < line_count(s),
        s[line_start(s, y + 1) - 1] == '\n',
    ensures
        forall|j: int|
            0 <= j <= y ==> #[trigger] line_start(s.remove(line_start(s, y + 1) - 1), j)
                == line_start(s, j),
        forall|j: int|
            y < j ==> #[trigger] line_start(s.remove(line_start(s, y + 1) - 1), j) == line_start(
                s,
                j + 1,
            ) - 1,
        line_count(s.remove(line_start(s, y + 1) - 1)) == (if y + 1 < line_count(s) || line_len(
            s,
            y,
        ) == 1 {
            line_count(s) - 1
        } else {
            line_count(s)
        }),
{
    let p = line_start(s, y + 1) - 1;
    let t = s.remove(p);
    lemma_lines_left_start(s, y);
    lemma_line_start_bounds(s, y);
    lemma_line_len_pos(s, y);
    assert forall|j: int| 0 <= j <= y implies #[trigger] line_start(t, j) == line_start(s, j) by {
        lemma_line_start_monotone(s, j, y);
        lemma_line_start_remove_prefix(s, p, j);
    }
    assert forall|j: int| y < j implies #[trigger] line_start(t, j) == line_start(s, j + 1) - 1 by {
        lemma_remove_terminator_suffix_at(s, y, j);
    }
    lemma_newlines_remove(s, p, 0);
    lemma_remove_char_facts(s, p);
    if y + 1 < line_count(s) {
        lemma_lines_left_start(s, y + 1);
        assert(p < s.len() - 1);
        assert(t[t.len() - 1] == s[s.len() - 1]);
        assert(terminated(t) == terminated(s));
    } else {
        // the removed terminator was the last character of the text
        lemma_line_start_at_count(s);
        assert(p == s.len() - 1);
        assert(terminated(s));
        if line_len(s, y) == 1 {
            assert(line_start(s, y) == p);
            if s.len() == 1 {
                assert(terminated(t));
            } else {
                assert(line_start(s, y) >= 1);
                lemma_starts_line(s, y);
                assert(t[t.len() - 1] == s[s.len() - 2]);
                assert(terminated(t));
            }
        } else {
            lemma_next_line_start_chars(s, line_start(s, y));
            assert(line_start(s, y) <= s.len() - 2 < next_line_start(s, line_start(s, y)) - 1);
            assert(s[s.len() - 2] != '\n');
            assert(t[t.len() - 1] == s[s.len() - 2]);
            assert(!terminated(t));
        }
    }
}

} // verus!
