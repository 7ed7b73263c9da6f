//! Cursor movement over a text buffer: one character left or right, one line
//! up or down with the column kept where the target line is long enough.
//!
//! Every function takes the buffer and a cursor, a byte offset on a character
//! boundary, and returns the new cursor. Nothing is modified.

use vstd::prelude::*;
use vstd::utf8::*;
use crate::offsets::{
    byte_len, char_width, char_width_at, count_chars, index_of, lemma_char_bytes,
    lemma_index_of_offset, lemma_offset_ends, lemma_offset_of_index, lemma_offset_step,
    offset_after, offset_of, valid_offset,
};
use crate::segments::{
    lemma_segment_end, lemma_segment_end_is, lemma_segment_start, lemma_segment_start_is,
    lemma_separator_byte, segment_end, segment_end_offset, segment_start, segment_start_offset,
};

verus! {

/// The byte that ends a line.
pub const NEWLINE: u8 = 0x0a;

/// Index of the first character of the line that holds position `i`.
pub open spec fn line_start(s: Seq<char>, i: int) -> int {
    segment_start(s, i, '\n')
}

/// Index of the newline that ends the line holding position `i`, or the
/// length of the text for the last line.
pub open spec fn line_end(s: Seq<char>, i: int) -> int {
    segment_end(s, i, '\n')
}

/// Number of characters between the start of its line and position `i`.
pub open spec fn column_of(s: Seq<char>, i: int) -> int {
    i - line_start(s, i)
}

/// Number of characters of the line that holds position `i`, its newline not
/// counted.
pub open spec fn line_len(s: Seq<char>, i: int) -> int {
    line_end(s, i) - line_start(s, i)
}

/// The smaller of two numbers.
pub open spec fn min_of(a: int, b: int) -> int {
    if a <= b {
        a
    } else {
        b
    }
}

/// Cursor after a move to the right: past the character at the cursor, or
/// unchanged at the end of the text.
pub open spec fn move_right_spec(s: Seq<char>, cursor: int) -> int {
    if cursor >= byte_len(s) {
        cursor
    } else {
        cursor + char_width(s[index_of(s, cursor)])
    }
}

/// Cursor after a move to the left: at the start of the character in front of
/// the cursor, or unchanged at the start of the text.
pub open spec fn move_left_spec(s: Seq<char>, cursor: int) -> int {
    if cursor <= 0 {
        cursor
    } else {
        offset_of(s, index_of(s, cursor) - 1)
    }
}

/// Cursor after a move down: on the next line, in the column of the cursor or
/// at the end of that line where it is shorter; unchanged on the last line.
pub open spec fn move_down_spec(s: Seq<char>, cursor: int) -> int {
    let i = index_of(s, cursor);
    let end = line_end(s, i);
    if end >= s.len() {
        cursor
    } else {
        let next_start = end + 1;
        let next_len = line_end(s, next_start) - next_start;
        offset_of(s, next_start + min_of(column_of(s, i), next_len))
    }
}

/// Cursor after a move up: on the previous line, in the column of the cursor
/// or at the end of that line where it is shorter; unchanged on the first line.
pub open spec fn move_up_spec(s: Seq<char>, cursor: int) -> int {
    let i = index_of(s, cursor);
    let start = line_start(s, i);
    if start <= 0 {
        cursor
    } else {
        let prev_end = start - 1;
        let prev_start = line_start(s, prev_end);
        offset_of(s, prev_start + min_of(column_of(s, i), prev_end - prev_start))
    }
}

/// Moves the cursor one character to the right.
pub fn move_right(content: &str, cursor: usize) -> (r: usize)
    requires
        valid_offset(content@, cursor as int),
    ensures
        r == move_right_spec(content@, cursor as int),
        valid_offset(content@, r as int),
{
    let bytes = content.as_bytes();
    proof {
        lemma_offset_of_index(content@, cursor as int);
    }
    if cursor < bytes.len() {
        cursor + char_width_at(content, cursor)
    } else {
        cursor
    }
}

/// Moves the cursor one character to the left.
pub fn move_left(content: &str, cursor: usize) -> (r: usize)
    requires
        valid_offset(content@, cursor as int),
    ensures
        r == move_left_spec(content@, cursor as int),
        valid_offset(content@, r as int),
{
    if cursor == 0 {
        return cursor;
    }
    let bytes = content.as_bytes();
    proof {
        let s = content@;
        let i = index_of(s, cursor as int);
        lemma_offset_of_index(s, cursor as int);
        lemma_char_bytes(s, i - 1);
        lemma_offset_step(s, i - 1);
        lemma_index_of_offset(s, i - 1);
    }
    let ghost target = offset_of(content@, index_of(content@, cursor as int) - 1);
    let mut j: usize = cursor - 1;
    while bytes[j] >= 0x80 && bytes[j] < 0xc0
        invariant
            0 <= target <= j < cursor <= bytes@.len(),
            !is_continuation_byte(bytes@[target]),
            forall|q: int| target < q < cursor ==> is_continuation_byte(#[trigger] bytes@[q]),
        decreases j,
    {
        j = j - 1;
    }
    j
}

/// Moves the cursor one line down.
pub fn move_down(content: &str, cursor: usize) -> (r: usize)
    requires
        valid_offset(content@, cursor as int),
    ensures
        r == move_down_spec(content@, cursor as int),
        valid_offset(content@, r as int),
{
    let bytes = content.as_bytes();
    let start = segment_start_offset(content, cursor, NEWLINE);
    proof {
        let s = content@;
        let i = index_of(s, cursor as int);
        lemma_offset_of_index(s, cursor as int);
        lemma_segment_start(s, i, '\n');
        lemma_segment_end(s, i, '\n');
        lemma_index_of_offset(s, line_start(s, i));
        lemma_index_of_offset(s, line_end(s, i));
    }
    let column = count_chars(content, start, cursor);
    let end = segment_end_offset(content, cursor, NEWLINE);
    if end < bytes.len() {
        proof {
            let s = content@;
            let e = line_end(s, index_of(s, cursor as int));
            lemma_offset_of_index(s, end as int);
            lemma_separator_byte(s, e, NEWLINE);
            lemma_index_of_offset(s, e + 1);
            lemma_segment_end(s, e + 1, '\n');
            lemma_index_of_offset(s, line_end(s, e + 1));
        }
        let next_start = end + 1;
        let next_end = segment_end_offset(content, next_start, NEWLINE);
        let next_len = count_chars(content, next_start, next_end);
        let new_column = if column < next_len {
            column
        } else {
            next_len
        };
        offset_after(content, next_start, new_column)
    } else {
        proof {
            lemma_offset_of_index(content@, end as int);
        }
        cursor
    }
}

/// Moves the cursor one line up.
pub fn move_up(content: &str, cursor: usize) -> (r: usize)
    requires
        valid_offset(content@, cursor as int),
    ensures
        r == move_up_spec(content@, cursor as int),
        valid_offset(content@, r as int),
{
    let start = segment_start_offset(content, cursor, NEWLINE);
    proof {
        let s = content@;
        let i = index_of(s, cursor as int);
        lemma_offset_of_index(s, cursor as int);
        lemma_segment_start(s, i, '\n');
        lemma_index_of_offset(s, line_start(s, i));
    }
    let column = count_chars(content, start, cursor);
    if start > 0 {
        proof {
            let s = content@;
            let b = line_start(s, index_of(s, cursor as int));
            lemma_offset_of_index(s, start as int);
            lemma_separator_byte(s, b - 1, NEWLINE);
            lemma_offset_step(s, b - 1);
            lemma_index_of_offset(s, b - 1);
            lemma_segment_start(s, b - 1, '\n');
            lemma_index_of_offset(s, line_start(s, b - 1));
        }
        let prev_end = start - 1;
        let prev_start = segment_start_offset(content, prev_end, NEWLINE);
        let prev_len = count_chars(content, prev_start, prev_end);
        let new_column = if column < prev_len {
            column
        } else {
            prev_len
        };
        offset_after(content, prev_start, new_column)
    } else {
        proof {
            lemma_offset_ends(content@);
            lemma_index_of_offset(content@, 0);
        }
        cursor
    }
}

/// Where a move down lands. The new cursor is a valid offset; where there is
/// a next line it lies on that line, in the column of the old cursor or at
/// the line's end where the line is shorter. The column never exceeds the
/// number of characters of the line.
pub proof fn lemma_move_down_lands(s: Seq<char>, cursor: int)
    requires
        valid_offset(s, cursor),
    ensures
        ({
            let i = index_of(s, cursor);
            let t = index_of(s, move_down_spec(s, cursor));
            &&& valid_offset(s, move_down_spec(s, cursor))
            &&& 0 <= column_of(s, t) <= line_len(s, t)
            &&& line_end(s, i) < s.len() ==> {
                &&& line_start(s, t) == line_end(s, i) + 1
                &&& line_end(s, t) == line_end(s, line_end(s, i) + 1)
                &&& column_of(s, t) == min_of(column_of(s, i), line_len(s, t))
            }
        }),
{
    let i = index_of(s, cursor);
    lemma_offset_of_index(s, cursor);
    lemma_segment_start(s, i, '\n');
    lemma_segment_end(s, i, '\n');
    let end = line_end(s, i);
    if end < s.len() {
        let next_start = end + 1;
        lemma_segment_end(s, next_start, '\n');
        let next_end = line_end(s, next_start);
        let t = next_start + min_of(column_of(s, i), next_end - next_start);
        lemma_index_of_offset(s, t);
        lemma_segment_start_is(s, t, '\n', next_start);
        lemma_segment_end_is(s, t, '\n', next_end);
    }
}

/// Where a move up lands. The new cursor is a valid offset; where there is a
/// previous line it lies on that line, in the column of the old cursor or at
/// the line's end where the line is shorter. The column never exceeds the
/// number of characters of the line.
pub proof fn lemma_move_up_lands(s: Seq<char>, cursor: int)
    requires
        valid_offset(s, cursor),
    ensures
        ({
            let i = index_of(s, cursor);
            let t = index_of(s, move_up_spec(s, cursor));
            &&& valid_offset(s, move_up_spec(s, cursor))
            &&& 0 <= column_of(s, t) <= line_len(s, t)
            &&& line_start(s, i) > 0 ==> {
                &&& line_end(s, t) == line_start(s, i) - 1
                &&& line_start(s, t) == line_start(s, line_start(s, i) - 1)
                &&& column_of(s, t) == min_of(column_of(s, i), line_len(s, t))
            }
        }),
{
    let i = index_of(s, cursor);
    lemma_offset_of_index(s, cursor);
    lemma_segment_start(s, i, '\n');
    lemma_segment_end(s, i, '\n');
    let start = line_start(s, i);
    if start > 0 {
        let prev_end = start - 1;
        lemma_segment_start(s, prev_end, '\n');
        let prev_start = line_start(s, prev_end);
        let t = prev_start + min_of(column_of(s, i), prev_end - prev_start);
        lemma_index_of_offset(s, t);
        lemma_segment_start_is(s, t, '\n', prev_start);
        lemma_segment_end_is(s, t, '\n', prev_end);
    }
}

/// A move right followed by a move left returns to the cursor, unless the
/// cursor stood at the end of the text, where the move right does nothing.
pub proof fn lemma_right_then_left(s: Seq<char>, cursor: int)
    requires
        valid_offset(s, cursor),
        cursor < byte_len(s),
    ensures
        move_right_spec(s, cursor) > cursor,
        valid_offset(s, move_right_spec(s, cursor)),
        move_left_spec(s, move_right_spec(s, cursor)) == cursor,
{
    let i = index_of(s, cursor);
    lemma_offset_of_index(s, cursor);
    lemma_offset_step(s, i);
    lemma_index_of_offset(s, i + 1);
}

/// A move left followed by a move right returns to the cursor, unless the
/// cursor stood at the start of the text, where the move left does nothing.
pub proof fn lemma_left_then_right(s: Seq<char>, cursor: int)
    requires
        valid_offset(s, cursor),
        cursor > 0,
    ensures
        move_left_spec(s, cursor) < cursor,
        valid_offset(s, move_left_spec(s, cursor)),
        move_right_spec(s, move_left_spec(s, cursor)) == cursor,
{
    let i = index_of(s, cursor);
    lemma_offset_of_index(s, cursor);
    lemma_offset_step(s, i - 1);
    lemma_index_of_offset(s, i - 1);
}

/// A move down followed by a move up returns to the line of the cursor. The
/// column is that of the cursor where the line below has as many characters,
/// and the length of the line below where it is shorter. In the first case
/// the cursor itself is restored.
pub proof fn lemma_down_then_up(s: Seq<char>, cursor: int)
    requires
        valid_offset(s, cursor),
        line_end(s, index_of(s, cursor)) < s.len(),
    ensures
        ({
            let i = index_of(s, cursor);
            let below = index_of(s, move_down_spec(s, cursor));
            let back = move_up_spec(s, move_down_spec(s, cursor));
            &&& valid_offset(s, back)
            &&& line_start(s, index_of(s, back)) == line_start(s, i)
            &&& column_of(s, index_of(s, back)) == min_of(column_of(s, i), line_len(s, below))
            &&& column_of(s, i) <= line_len(s, below) ==> back == cursor
        }),
{
    let i = index_of(s, cursor);
    let down = move_down_spec(s, cursor);
    let t = index_of(s, down);
    lemma_offset_of_index(s, cursor);
    lemma_move_down_lands(s, cursor);
    lemma_move_up_lands(s, down);
    lemma_segment_start(s, i, '\n');
    lemma_segment_end(s, i, '\n');
    lemma_segment_start_is(s, line_end(s, i), '\n', line_start(s, i));
    lemma_index_of_offset(s, line_start(s, i) + min_of(column_of(s, i), line_len(s, t)));
}

/// A move up followed by a move down returns to the line of the cursor. The
/// column is that of the cursor where the line above has as many characters,
/// and the length of the line above where it is shorter. In the first case
/// the cursor itself is restored.
pub proof fn lemma_up_then_down(s: Seq<char>, cursor: int)
    requires
        valid_offset(s, cursor),
        line_start(s, index_of(s, cursor)) > 0,
    ensures
        ({
            let i = index_of(s, cursor);
            let above = index_of(s, move_up_spec(s, cursor));
            let back = move_down_spec(s, move_up_spec(s, cursor));
            &&& valid_offset(s, back)
            &&& line_start(s, index_of(s, back)) == line_start(s, i)
            &&& column_of(s, index_of(s, back)) == min_of(column_of(s, i), line_len(s, above))
            &&& column_of(s, i) <= line_len(s, above) ==> back == cursor
        }),
{
    let i = index_of(s, cursor);
    let up = move_up_spec(s, cursor);
    let t = index_of(s, up);
    lemma_offset_of_index(s, cursor);
    lemma_move_up_lands(s, cursor);
    lemma_move_down_lands(s, up);
    lemma_segment_start(s, i, '\n');
    lemma_segment_end(s, i, '\n');
    lemma_segment_end_is(s, line_start(s, i), '\n', line_end(s, i));
    lemma_index_of_offset(s, line_start(s, i) + min_of(column_of(s, i), line_len(s, t)));
}

} // verus!
