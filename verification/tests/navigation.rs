use editor_core::navigator::{move_down, move_left, move_right, move_up};
use editor_core::offsets::{char_width_at, count_chars, offset_after, slice};
use editor_core::segments::{segment_end_offset, segment_start_offset};

#[test]
fn move_down_keeps_column_and_move_up_returns() {
    let content = "ab\ncd\n";
    assert_eq!(move_down(content, 1), 4);
    assert_eq!(move_up(content, 4), 1);
}

#[test]
fn five_moves_right_cross_a_two_byte_character() {
    let content = "café";
    let mut cursor = 0;
    let mut seen = vec![];
    for _ in 0..5 {
        cursor = move_right(content, cursor);
        assert!(content.is_char_boundary(cursor));
        seen.push(cursor);
    }
    assert_eq!(seen, vec![1, 2, 3, 5, 5]);
    assert_eq!(cursor, content.len());
}

#[test]
fn move_right_stops_at_the_end() {
    assert_eq!(move_right("abc", 3), 3);
    assert_eq!(move_right("", 0), 0);
}

#[test]
fn move_left_stops_at_the_start() {
    assert_eq!(move_left("abc", 0), 0);
    assert_eq!(move_left("", 0), 0);
}

#[test]
fn move_left_steps_over_whole_characters() {
    let content = "a€é𝄞";
    assert_eq!(content.len(), 10);
    assert_eq!(move_left(content, 10), 6);
    assert_eq!(move_left(content, 6), 4);
    assert_eq!(move_left(content, 4), 1);
    assert_eq!(move_left(content, 1), 0);
}

#[test]
fn move_right_steps_over_whole_characters() {
    let content = "a€é𝄞";
    assert_eq!(move_right(content, 0), 1);
    assert_eq!(move_right(content, 1), 4);
    assert_eq!(move_right(content, 4), 6);
    assert_eq!(move_right(content, 6), 10);
}

#[test]
fn right_then_left_returns_at_every_boundary() {
    let content = "añ\n€ 𝄞z";
    for cursor in 0..content.len() {
        if content.is_char_boundary(cursor) {
            let right = move_right(content, cursor);
            assert!(right > cursor);
            assert_eq!(move_left(content, right), cursor);
        }
    }
    for cursor in 1..=content.len() {
        if content.is_char_boundary(cursor) {
            let left = move_left(content, cursor);
            assert!(left < cursor);
            assert_eq!(move_right(content, left), cursor);
        }
    }
}

#[test]
fn move_down_on_the_last_line_does_nothing() {
    assert_eq!(move_down("ab\ncd", 3), 3);
    assert_eq!(move_down("ab\ncd", 5), 5);
    assert_eq!(move_down("abc", 1), 1);
    assert_eq!(move_down("", 0), 0);
}

#[test]
fn move_up_on_the_first_line_does_nothing() {
    assert_eq!(move_up("ab\ncd", 0), 0);
    assert_eq!(move_up("ab\ncd", 2), 2);
    assert_eq!(move_up("", 0), 0);
}

#[test]
fn move_down_reaches_an_empty_last_line() {
    let content = "ab\ncd\n";
    assert_eq!(move_down(content, 4), 6);
    assert_eq!(move_down(content, 6), 6);
    assert_eq!(move_up(content, 6), 3);
}

#[test]
fn move_down_clamps_to_a_shorter_line() {
    let content = "abcd\nxy\nabcd";
    assert_eq!(move_down(content, 3), 7);
    assert_eq!(move_up(content, 7), 2);
    assert_eq!(move_down(content, 7), 10);
}

#[test]
fn move_up_clamps_to_a_shorter_line() {
    let content = "xy\nabcd";
    assert_eq!(move_up(content, 7), 2);
    assert_eq!(move_down(content, 2), 5);
}

#[test]
fn move_down_lands_at_the_end_of_an_unterminated_line() {
    let content = "abc\nxyz";
    assert_eq!(move_down(content, 3), 7);
    assert_eq!(move_down(content, 0), 4);
    let shorter = "abcdef\nxy";
    assert_eq!(move_down(shorter, 5), 9);
}

#[test]
fn columns_count_characters_not_bytes() {
    let content = "éa\nbcd";
    assert_eq!(move_down(content, 3), 6);
    assert_eq!(move_down(content, 2), 5);
    let below = "ab\nécd";
    assert_eq!(move_down(below, 2), 6);
    assert_eq!(move_down(below, 1), 5);
    assert_eq!(move_up(below, 5), 1);
    assert_eq!(move_up(below, 7), 2);
}

#[test]
fn down_then_up_restores_the_column_or_the_clamped_one() {
    let content = "hello\nhi\nworld!";
    for cursor in 0..=5 {
        let down = move_down(content, cursor);
        let back = move_up(content, down);
        let expected = if cursor <= 2 { cursor } else { 2 };
        assert_eq!(back, expected);
    }
}

#[test]
fn vertical_moves_stay_within_the_target_line() {
    let content = "a long first line\nab\n\nlast";
    for cursor in 0..=content.len() {
        let down = move_down(content, cursor);
        let up = move_up(content, cursor);
        assert!(down <= content.len());
        assert!(up <= cursor);
        if down != cursor {
            let line_start = content[..down].rfind('\n').map(|i| i + 1).unwrap_or(0);
            let line_end = content[down..].find('\n').map(|i| down + i).unwrap_or(content.len());
            assert!(line_start <= down && down <= line_end);
        }
    }
}

#[test]
fn char_width_follows_the_leading_byte() {
    let content = "a€é𝄞";
    assert_eq!(char_width_at(content, 0), 1);
    assert_eq!(char_width_at(content, 1), 3);
    assert_eq!(char_width_at(content, 4), 2);
    assert_eq!(char_width_at(content, 6), 4);
}

#[test]
fn slice_takes_the_bytes_between_two_offsets() {
    let content = "a€é𝄞";
    assert_eq!(slice(content, 1, 6), "€é");
    assert_eq!(slice(content, 0, 0), "");
    assert_eq!(slice(content, 0, 10), content);
}

#[test]
fn count_chars_counts_characters() {
    let content = "a€é𝄞";
    assert_eq!(count_chars(content, 0, 10), 4);
    assert_eq!(count_chars(content, 1, 6), 2);
    assert_eq!(count_chars(content, 4, 4), 0);
}

#[test]
fn offset_after_walks_characters() {
    let content = "a€é𝄞";
    assert_eq!(offset_after(content, 0, 0), 0);
    assert_eq!(offset_after(content, 0, 2), 4);
    assert_eq!(offset_after(content, 1, 3), 10);
}

#[test]
fn segments_end_at_the_separator() {
    let content = "one two\nthree";
    assert_eq!(segment_start_offset(content, 5, b' '), 4);
    assert_eq!(segment_end_offset(content, 5, b' '), 13);
    assert_eq!(segment_start_offset(content, 2, b' '), 0);
    assert_eq!(segment_end_offset(content, 2, b' '), 3);
    assert_eq!(segment_start_offset(content, 10, b'\n'), 8);
    assert_eq!(segment_end_offset(content, 1, b'\n'), 7);
    assert_eq!(segment_start_offset(content, 4, b' '), 4);
    assert_eq!(segment_end_offset(content, 3, b' '), 3);
}
