use pk_common::buffer::Buffer;
use pk_common::motion::{Motion, MotionType, TextObject, take_number, matching_block_char};
use pk_common::Direction;

fn create_line_test_buffer() -> Buffer {
    let mut b = Buffer::with_text("abc\ndef\nghi\n");
    b.cursor_index = b.next_line_index(b.cursor_index);
    assert_eq!(b.cursor_index, 4);
    b
}

fn create_word_test_buffer() -> Buffer {
    Buffer::with_text("word\nw0rd w##d ++++ word\n")
}

fn run_repeated_test(b: &mut Buffer, mo: &Motion, correct_ends: &[usize], assert_msg: &str) {
    for (i, cwb) in correct_ends.iter().enumerate() {
        let r = mo.range(b);
        assert_eq!(r.end, *cwb, "{} i={}", assert_msg, i);
        b.cursor_index = r.end;
    }
}

fn run_repeated_test_then_offset(b: &mut Buffer, mo: &Motion, correct_ends: &[usize], offset: isize, assert_msg: &str) {
    for (i, cwb) in correct_ends.iter().enumerate() {
        let r = mo.range(b);
        assert_eq!(r.end, *cwb, "{} i={}", assert_msg, i);
        b.cursor_index = (r.end as isize + offset) as usize;
    }
}

#[test]
fn txo_char() {
    let b = create_line_test_buffer();
    let mo = Motion { mo: MotionType::Char(Direction::Forward), count: 1 };
    assert_eq!(mo.range(&b), 4..5);
}

#[test]
fn txo_line() {
    let b = create_line_test_buffer();
    let mo = Motion { mo: MotionType::Line(Direction::Forward), count: 1 };
    assert_eq!(mo.range(&b), 4..8);
}

#[test]
fn txo_start_of_line() {
    let b = create_line_test_buffer();
    let mo = Motion { mo: MotionType::StartOfLine, count: 1 };
    assert_eq!(mo.range(&b), 4..4);
}

#[test]
fn txo_end_of_line() {
    let b = create_line_test_buffer();
    let mo = Motion { mo: MotionType::EndOfLine, count: 1 };
    assert_eq!(mo.range(&b), 4..7);
}

#[test]
fn txo_line_backward() {
    let b = create_line_test_buffer();
    let mo = Motion { mo: MotionType::Line(Direction::Backward), count: 1 };
    assert_eq!(mo.range(&b), 4..0);
}

#[test]
fn txo_word_no_spaces() {
    let mut b = Buffer::with_text("word+++word+++ +ope");
    let mo = Motion { mo: MotionType::Word(Direction::Forward), count: 1 };
    run_repeated_test(&mut b, &mo, &[4, 7, 11, 15], "forward");
    let mo = Motion { mo: MotionType::Word(Direction::Backward), count: 1 };
    run_repeated_test(&mut b, &mo, &[11, 7, 4, 0], "backward");
}

#[test]
fn txo_word() {
    let mut b = create_word_test_buffer();
    let mo = Motion { mo: MotionType::Word(Direction::Forward), count: 1 };
    run_repeated_test(&mut b, &mo, &[5, 10, 11, 13, 15, 20], "forward");
    let mo = Motion { mo: MotionType::Word(Direction::Backward), count: 1 };
    run_repeated_test(&mut b, &mo, &[15, 13, 11, 10, 5, 0], "backward");
}

#[test]
fn txo_big_word() {
    let mut b = create_word_test_buffer();
    let mo = Motion { mo: MotionType::BigWord(Direction::Forward), count: 1 };
    run_repeated_test(&mut b, &mo, &[5, 10, 15], "forward");
    let mo = Motion { mo: MotionType::BigWord(Direction::Backward), count: 1 };
    run_repeated_test(&mut b, &mo, &[10, 5, 0], "backward");
}

#[test]
fn txo_end_word() {
    let mut b = create_word_test_buffer();
    let mo = Motion { mo: MotionType::EndOfWord(Direction::Forward), count: 1 };
    run_repeated_test(&mut b, &mo, &[3, 8, 10, 12, 13, 18, 23], "forward");
    let mo = Motion { mo: MotionType::EndOfWord(Direction::Backward), count: 1 };
    run_repeated_test(&mut b, &mo, &[18, 13, 12, 10, 8, 3], "backward");
}

#[test]
fn txo_end_big_word() {
    let mut b = create_word_test_buffer();
    let mo = Motion { mo: MotionType::EndOfBigWord(Direction::Forward), count: 1 };
    run_repeated_test(&mut b, &mo, &[3, 8, 13, 18, 23], "forward");
    let mo = Motion { mo: MotionType::EndOfBigWord(Direction::Backward), count: 1 };
    run_repeated_test(&mut b, &mo, &[18, 13, 8, 3], "backward");
}

#[test]
fn txo_find_next_on() {
    let mut b = Buffer::with_text("so!me s!ample tex!t");
    let correct = [2, 7, 17];
    let mo = Motion {
        mo: MotionType::NextChar { c: '!', place_before: false, direction: Direction::Forward },
        count: 1,
    };
    run_repeated_test(&mut b, &mo, &correct, "forward, place on");
    let mo = Motion {
        mo: MotionType::NextChar { c: '!', place_before: false, direction: Direction::Backward },
        count: 1,
    };
    let back: Vec<usize> = correct.iter().rev().skip(1).cloned().collect();
    run_repeated_test(&mut b, &mo, &back, "backward, place on");
}

#[test]
fn txo_find_next_before() {
    let mut b = Buffer::with_text("so!me s!ample tex!t");
    let mo = Motion {
        mo: MotionType::NextChar { c: '!', place_before: true, direction: Direction::Forward },
        count: 1,
    };
    run_repeated_test_then_offset(&mut b, &mo, &[1, 6, 16], 1, "forward, place before");
    let mo = Motion {
        mo: MotionType::NextChar { c: '!', place_before: true, direction: Direction::Backward },
        count: 1,
    };
    run_repeated_test_then_offset(&mut b, &mo, &[8, 3], -1, "backward, place before");
}

#[test]
fn txo_object_a_word() {
    let mut b = Buffer::with_text(" word   w0rd wr+d");
    b.cursor_index = 3;
    let mut mo = Motion { mo: MotionType::An(TextObject::Word), count: 1 };
    assert_eq!(mo.range(&b), 1..7);
    mo.count += 1;
    assert_eq!(mo.range(&b), 1..12);
    mo.count += 1;
    assert_eq!(mo.range(&b), 1..14);
    b.cursor_index = 6;
    mo.count = 1;
    assert_eq!(mo.range(&b), 5..11);
}

#[test]
fn txo_object_inner_word() {
    let mut b = Buffer::with_text(" word  word+ ");
    b.cursor_index = 3;
    let mut mo = Motion { mo: MotionType::Inner(TextObject::Word), count: 1 };
    assert_eq!(mo.range(&b), 1..4);
    mo.count += 1;
    assert_eq!(mo.range(&b), 1..6);
    mo.count += 1;
    assert_eq!(mo.range(&b), 1..10);
    b.cursor_index = 6;
    mo.count = 1;
    assert_eq!(mo.range(&b), 5..6);
}

#[test]
fn txo_object_a_bigword() {
    let mut b = Buffer::with_text(" wor+   w0rd wr+d");
    b.cursor_index = 3;
    let mut mo = Motion { mo: MotionType::An(TextObject::BigWord), count: 1 };
    assert_eq!(mo.range(&b), 1..7);
    mo.count += 1;
    assert_eq!(mo.range(&b), 1..12);
    mo.count += 1;
    assert_eq!(mo.range(&b), 1..16);
    b.cursor_index = 6;
    mo.count = 1;
    assert_eq!(mo.range(&b), 5..11);
}

#[test]
fn txo_object_inner_bigword() {
    let mut b = Buffer::with_text(" w--d  w--d+ ");
    b.cursor_index = 3;
    let mut mo = Motion { mo: MotionType::Inner(TextObject::BigWord), count: 1 };
    assert_eq!(mo.range(&b), 1..4);
    mo.count += 1;
    assert_eq!(mo.range(&b), 1..6);
    mo.count += 1;
    assert_eq!(mo.range(&b), 1..12);
    b.cursor_index = 6;
    mo.count = 1;
    assert_eq!(mo.range(&b), 5..6);
}

#[test]
fn txo_object_a_block() {
    let mut b = Buffer::with_text("<(bl(o)ck) {\nblock\n}>");
    let mut mo = Motion { mo: MotionType::An(TextObject::Block('<')), count: 1 };
    assert_eq!(mo.range(&b), 0..20, "on <");
    b.cursor_index += 3;
    assert_eq!(mo.range(&b), 0..20, "in <");
    b.cursor_index = 1;
    mo.mo = MotionType::An(TextObject::Block('('));
    assert_eq!(mo.range(&b), 1..9, "on first (");
    b.cursor_index += 2;
    assert_eq!(mo.range(&b), 1..9, "in first (");
    b.cursor_index += 2;
    assert_eq!(mo.range(&b), 4..6, "in nested (");
    b.cursor_index = 15;
    mo.mo = MotionType::An(TextObject::Block('{'));
    assert_eq!(mo.range(&b), 11..19, "in {{");
}

#[test]
fn txo_object_inner_block() {
    let mut b = Buffer::with_text("<(bl(o)ck) {\nblock\n}>");
    let mut mo = Motion { mo: MotionType::Inner(TextObject::Block('<')), count: 1 };
    assert_eq!(mo.range(&b), 1..19, "on <");
    b.cursor_index += 3;
    assert_eq!(mo.range(&b), 1..19, "in <");
    b.cursor_index = 1;
    mo.mo = MotionType::Inner(TextObject::Block('('));
    assert_eq!(mo.range(&b), 2..8, "on first (");
    b.cursor_index += 2;
    assert_eq!(mo.range(&b), 2..8, "in first (");
    b.cursor_index += 2;
    assert_eq!(mo.range(&b), 5..5, "in nested (");
    b.cursor_index = 15;
    mo.mo = MotionType::Inner(TextObject::Block('{'));
    assert_eq!(mo.range(&b), 12..18, "in {{");
}

#[test]
fn block_after_nested_pair_finds_outer_opening() {
    let mut b = Buffer::with_text("(bl(o)ck)");
    b.cursor_index = 7;
    let mo = Motion { mo: MotionType::An(TextObject::Block('(')), count: 1 };
    assert_eq!(mo.range(&b), 0..8);
}

#[test]
fn missing_block_gives_empty_range() {
    let mut b = Buffer::with_text("no parens");
    b.cursor_index = 3;
    let mo = Motion { mo: MotionType::Inner(TextObject::Block('(')), count: 1 };
    assert_eq!(mo.range(&b), 3..3);
}

#[test]
fn counted_word_motion() {
    let b = create_word_test_buffer();
    let mo = Motion { mo: MotionType::Word(Direction::Forward), count: 3 };
    assert_eq!(mo.range(&b), 0..11);
}

#[test]
fn char_motions_stop_at_the_ends() {
    let mut b = Buffer::with_text("ab");
    let back = Motion { mo: MotionType::Char(Direction::Backward), count: 1 };
    assert_eq!(back.range(&b), 0..0);
    b.cursor_index = 2;
    let fwd = Motion { mo: MotionType::Char(Direction::Forward), count: 1 };
    assert_eq!(fwd.range(&b), 2..2);
}

#[test]
fn line_motion_keeps_column_on_short_lines() {
    let mut b = Buffer::with_text("abcdef\nab\nabcdef\n");
    b.cursor_index = 4;
    let mo = Motion { mo: MotionType::Line(Direction::Forward), count: 1 };
    assert_eq!(mo.range(&b).end, 9);
    let mo2 = Motion { mo: MotionType::Line(Direction::Forward), count: 2 };
    assert_eq!(mo2.range(&b).end, 14);
}

#[test]
fn whole_line_and_start_of_line() {
    let mut b = Buffer::with_text("ab\n  cd\nef\n");
    b.cursor_index = 6;
    let mo = Motion { mo: MotionType::WholeLine, count: 1 };
    assert_eq!(mo.range(&b), 3..8);
    let mo = Motion { mo: MotionType::StartOfLine, count: 1 };
    assert_eq!(mo.range(&b), 6..5);
}

#[test]
fn numbers_are_read_and_capped() {
    let s: Vec<char> = "12dw".chars().collect();
    assert_eq!(take_number(&s, 0), (Some(12), 2));
    assert_eq!(take_number(&s, 2), (None, 2));
    let big: Vec<char> = "99999999999999999999999x".chars().collect();
    assert_eq!(take_number(&big, 0), (Some(usize::MAX), 23));
}

#[test]
fn block_partners() {
    assert_eq!(matching_block_char('('), ')');
    assert_eq!(matching_block_char('{'), '}');
    assert_eq!(matching_block_char('['), ']');
    assert_eq!(matching_block_char('<'), '>');
    assert_eq!(matching_block_char('"'), '"');
}

#[test]
fn motion_parse_reports_position() {
    let s: Vec<char> = "3fxq".chars().collect();
    let (m, next) = Motion::parse(&s, 0, None, "3fxq").unwrap();
    assert_eq!(m, Motion { count: 3, mo: MotionType::NextChar { c: 'x', place_before: false, direction: Direction::Forward } });
    assert_eq!(next, 3);
}
