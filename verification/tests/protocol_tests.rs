use snake_game::grid::Pos;
use snake_game::decimal::parse_coord;
use snake_game::protocol::{
    decode_peer_message, encode_spawn_message, encode_step_message, parse_u32, split_bytes,
    split_lines,
};

fn p(x: i32, y: i32) -> Pos {
    Pos { x, y }
}

#[test]
fn step_message_text() {
    let msg = encode_step_message(p(6, 6), p(-1, -1), 2, false, p(1, 0), &vec![p(3, 6), p(4, 6)]);
    assert_eq!(msg, b"6 6\n-1 -1 2 0\n1 0\n3 6\n4 6".to_vec());
    let taken = encode_step_message(p(10, 0), p(7, 11), 3, true, p(0, -1), &vec![p(7, 11)]);
    assert_eq!(taken, b"10 0\n7 11 3 1\n0 -1\n7 11".to_vec());
}

#[test]
fn step_message_with_empty_snake_ends_in_newline() {
    let msg = encode_step_message(p(1, 2), p(3, 4), 1, false, p(-1, 0), &vec![]);
    assert_eq!(msg, b"1 2\n3 4 1 0\n-1 0\n".to_vec());
}

#[test]
fn spawn_message_text() {
    let msg = encode_spawn_message(p(6, 6), p(2, 9), 3, &vec![p(9, 6)]);
    assert_eq!(msg, b"6 6\n2 9 3\n9 6".to_vec());
}

#[test]
fn step_message_reads_back() {
    let snake = vec![p(3, 6), p(4, 6), p(5, 6)];
    let msg = encode_step_message(p(6, 6), p(-1, -1), 2, true, p(1, 0), &snake);
    let d = decode_peer_message(&msg, p(0, 0), p(9, 9), 7, p(0, 1));
    assert_eq!(d.apple, p(6, 6));
    assert_eq!(d.powerup, p(-1, -1));
    assert_eq!(d.powerup_kind, 2);
    assert!(d.consumed);
    assert_eq!(d.dir, p(1, 0));
    assert_eq!(d.snake, snake);
}

#[test]
fn spawn_message_reads_first_segment_as_direction() {
    let msg = encode_spawn_message(p(6, 6), p(2, 9), 3, &vec![p(9, 6), p(10, 6)]);
    let d = decode_peer_message(&msg, p(0, 0), p(-1, -1), 1, p(1, 0));
    assert_eq!(d.apple, p(6, 6));
    assert_eq!(d.powerup, p(2, 9));
    assert_eq!(d.powerup_kind, 3);
    assert!(!d.consumed);
    assert_eq!(d.dir, p(9, 6));
    assert_eq!(d.snake, vec![p(10, 6)]);
}

#[test]
fn unreadable_fields_keep_known_values() {
    let d = decode_peer_message(b"x 4\n5\n\n1 y\n", p(1, 1), p(2, 2), 9, p(3, 3));
    assert_eq!(d.apple, p(1, 4));
    assert_eq!(d.powerup, p(5, 2));
    assert_eq!(d.powerup_kind, 9);
    assert!(!d.consumed);
    assert_eq!(d.dir, p(3, 3));
    assert_eq!(d.snake, vec![p(1, 0)]);
}

#[test]
fn empty_message_changes_nothing_but_the_snake() {
    let d = decode_peer_message(b"", p(1, 1), p(2, 2), 9, p(3, 3));
    assert_eq!(d.apple, p(1, 1));
    assert_eq!(d.powerup, p(2, 2));
    assert_eq!(d.powerup_kind, 9);
    assert_eq!(d.dir, p(3, 3));
    assert!(d.snake.is_empty());
}

#[test]
fn taken_flag_only_for_one() {
    let d = decode_peer_message(b"0 0\n0 0 1 2\n", p(1, 1), p(2, 2), 9, p(3, 3));
    assert!(!d.consumed);
    let d = decode_peer_message(b"0 0\n0 0 1 +1\n", p(1, 1), p(2, 2), 9, p(3, 3));
    assert!(d.consumed);
}

#[test]
fn crlf_lines() {
    let d = decode_peer_message(b"4 5\r\n1 1 1 1\r\n0 1\r\n2 3\r\n", p(0, 0), p(0, 0), 0, p(0, 0));
    assert_eq!(d.apple, p(4, 5));
    assert!(d.consumed);
    assert_eq!(d.dir, p(0, 1));
    assert_eq!(d.snake, vec![p(2, 3)]);
}

#[test]
fn lines_like_str_lines() {
    assert_eq!(split_lines(b"a\r\nb\n"), vec![b"a".to_vec(), b"b".to_vec()]);
    assert_eq!(split_lines(b"a\r"), vec![b"a\r".to_vec()]);
    assert_eq!(split_lines(b"\n\nx"), vec![b"".to_vec(), b"".to_vec(), b"x".to_vec()]);
    assert!(split_lines(b"").is_empty());
    assert_eq!(split_lines(b"\n"), vec![b"".to_vec()]);
}

#[test]
fn fields_split_on_single_spaces() {
    assert_eq!(split_bytes(b"1  2", b' '), vec![b"1".to_vec(), b"".to_vec(), b"2".to_vec()]);
    assert_eq!(split_bytes(b"", b' '), vec![b"".to_vec()]);
}

#[test]
fn coordinates_parse() {
    assert_eq!(parse_coord(b"12"), Some(12));
    assert_eq!(parse_coord(b"-1"), Some(-1));
    assert_eq!(parse_coord(b"+4"), Some(4));
    assert_eq!(parse_coord(b"007"), Some(7));
    assert_eq!(parse_coord(b"99999999999"), Some(i32::MAX));
    assert_eq!(parse_coord(b"-99999999999"), Some(i32::MIN));
    assert_eq!(parse_coord(b""), None);
    assert_eq!(parse_coord(b"-"), None);
    assert_eq!(parse_coord(b"1x"), None);
    assert_eq!(parse_coord(b" 1"), None);
}

#[test]
fn coordinates_in_float_notation() {
    assert_eq!(parse_coord(b"3.0"), Some(3));
    assert_eq!(parse_coord(b"3."), Some(3));
    assert_eq!(parse_coord(b".5e1"), Some(5));
    assert_eq!(parse_coord(b"3e0"), Some(3));
    assert_eq!(parse_coord(b"3E0"), Some(3));
    assert_eq!(parse_coord(b"30e-1"), Some(3));
    assert_eq!(parse_coord(b"-1.0"), Some(-1));
    assert_eq!(parse_coord(b"+2.50e1"), Some(25));
    assert_eq!(parse_coord(b"0.000"), Some(0));
    assert_eq!(parse_coord(b"-0"), Some(0));
    assert_eq!(parse_coord(b"1e+2"), Some(100));
    assert_eq!(parse_coord(b"1e99999999999999999999"), Some(i32::MAX));
    assert_eq!(parse_coord(b"-1e40"), Some(i32::MIN));
    assert_eq!(parse_coord(b"0e99999999999999"), Some(0));
    assert_eq!(parse_coord(b"0e-99999999999999"), Some(0));
}

#[test]
fn coordinates_that_are_not_whole_are_not_read() {
    assert_eq!(parse_coord(b"1.5"), None);
    assert_eq!(parse_coord(b"25e-1"), None);
    assert_eq!(parse_coord(b"1e-99999999999"), None);
    assert_eq!(parse_coord(b"inf"), None);
    assert_eq!(parse_coord(b"NaN"), None);
    assert_eq!(parse_coord(b"."), None);
    assert_eq!(parse_coord(b"1e"), None);
    assert_eq!(parse_coord(b"e1"), None);
    assert_eq!(parse_coord(b"1.2.3"), None);
    assert_eq!(parse_coord(b"1_0"), None);
}

#[test]
fn message_fields_in_float_notation() {
    let d = decode_peer_message(b"3.0 4e0
-1.0 -1 2
1.0 0.0
5.5 6
", p(0, 0), p(9, 9), 7, p(0, 1));
    assert_eq!(d.apple, p(3, 4));
    assert_eq!(d.powerup, p(-1, -1));
    assert_eq!(d.dir, p(1, 0));
    assert_eq!(d.snake, vec![p(0, 6)]);
}

#[test]
fn kinds_parse_as_u32() {
    assert_eq!(parse_u32(b"3"), Some(3));
    assert_eq!(parse_u32(b"+3"), Some(3));
    assert_eq!(parse_u32(b"4294967295"), Some(u32::MAX));
    assert_eq!(parse_u32(b"4294967296"), None);
    assert_eq!(parse_u32(b"-1"), None);
    assert_eq!(parse_u32(b"-0"), None);
    assert_eq!(parse_u32(b"+"), None);
}
