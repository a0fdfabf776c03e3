use pk_common::buffer::{Buffer, IndentConfig};
use pk_common::command::{Command, Operator, Registers, ViewportMotion};
use pk_common::motion::{Motion, MotionType, TextObject};
use pk_common::{Direction, Error, ModeTag};

fn cfg() -> IndentConfig {
    IndentConfig { softtab: true, tabstop: 4 }
}

fn run(keys: &str, buf: &mut Buffer, regs: &mut Registers, last: &mut Option<Command>) -> Result<Option<ModeTag>, Error> {
    let cmd = Command::parse(keys).unwrap();
    cmd.execute(buf, regs, last, &cfg())
}

#[test]
fn command_cmd_parse_correct() -> Result<(), Error> {
    assert_eq!(Command::parse("i")?, Command::ChangeMode(ModeTag::Insert));
    assert_eq!(
        Command::parse("x")?,
        Command::Edit {
            op: Operator::Delete,
            op_count: 1,
            mo: Motion { count: 1, mo: MotionType::Char(Direction::Forward) },
            target_register: '"'
        }
    );
    assert_eq!(Command::parse("w")?, Command::Move(Motion { count: 1, mo: MotionType::Word(Direction::Forward) }));
    assert_eq!(
        Command::parse("dw")?,
        Command::Edit {
            op: Operator::Delete,
            op_count: 1,
            mo: Motion { count: 1, mo: MotionType::Word(Direction::Forward) },
            target_register: '"'
        }
    );
    assert_eq!(
        Command::parse("2dw")?,
        Command::Edit {
            op: Operator::Delete,
            op_count: 2,
            mo: Motion { count: 1, mo: MotionType::Word(Direction::Forward) },
            target_register: '"'
        }
    );
    assert_eq!(
        Command::parse("d2w")?,
        Command::Edit {
            op: Operator::Delete,
            op_count: 1,
            mo: Motion { count: 2, mo: MotionType::Word(Direction::Forward) },
            target_register: '"'
        }
    );
    assert_eq!(
        Command::parse("\"adw")?,
        Command::Edit {
            op: Operator::Delete,
            op_count: 1,
            mo: Motion { count: 1, mo: MotionType::Word(Direction::Forward) },
            target_register: 'a'
        }
    );
    Ok(())
}

#[test]
fn command_cmd_parse_incorrect() {
    if let Error::UnknownCommand(c) = Command::parse("Z").unwrap_err() {
        assert_eq!(c, "Z");
    } else {
        panic!("expected 'Z' to be an unknown command");
    }
    if let Error::IncompleteCommand = Command::parse("d").unwrap_err() {
    } else {
        panic!("expected 'd' to be an incomplete command");
    }
    if let Error::IncompleteCommand = Command::parse("3").unwrap_err() {
    } else {
        panic!("expected '3' to be an incomplete command");
    }
    if let Error::IncompleteCommand = Command::parse("2df").unwrap_err() {
    } else {
        panic!("expected '2df' to be an incomplete command");
    }
}

#[test]
fn parse_other_forms() {
    assert_eq!(Command::parse("3w").unwrap(), Command::Move(Motion { count: 3, mo: MotionType::Word(Direction::Forward) }));
    assert_eq!(Command::parse("2d3w").unwrap(), Command::Edit {
        op: Operator::Delete,
        op_count: 2,
        mo: Motion { count: 3, mo: MotionType::Word(Direction::Forward) },
        target_register: '"'
    });
    assert_eq!(Command::parse("dd").unwrap(), Command::Edit {
        op: Operator::Delete,
        op_count: 1,
        mo: Motion { count: 1, mo: MotionType::WholeLine },
        target_register: '"'
    });
    assert_eq!(Command::parse("ci(").unwrap(), Command::Edit {
        op: Operator::Change,
        op_count: 1,
        mo: Motion { count: 1, mo: MotionType::Inner(TextObject::Block('(')) },
        target_register: '"'
    });
    assert_eq!(Command::parse("3u").unwrap(), Command::Undo { count: 3 });
    assert_eq!(Command::parse("U").unwrap(), Command::Redo { count: 1 });
    assert_eq!(Command::parse("2J").unwrap(), Command::JoinLine { count: 2 });
    assert_eq!(Command::parse(".").unwrap(), Command::Repeat { count: 1 });
    assert_eq!(Command::parse("\"bp").unwrap(), Command::Put { count: 1, source_register: 'b', clear_register: true });
    assert_eq!(Command::parse("P").unwrap(), Command::Put { count: 1, source_register: '"', clear_register: false });
    assert_eq!(Command::parse("rq").unwrap(), Command::Edit {
        op: Operator::ReplaceChar('q'),
        op_count: 1,
        mo: Motion { count: 0, mo: MotionType::Char(Direction::Forward) },
        target_register: '"'
    });
    assert_eq!(Command::parse(" h").unwrap(), Command::Leader('h'));
    assert_eq!(Command::parse("2zj").unwrap(), Command::Viewport(ViewportMotion::Line(Direction::Forward, 2)));
    assert_eq!(Command::parse("zz").unwrap(), Command::Viewport(ViewportMotion::CursorToMiddle));
    assert_eq!(Command::parse("/").unwrap(), Command::ChangeMode(ModeTag::Search(Direction::Forward)));
    assert_eq!(Command::parse("ge").unwrap(), Command::Move(Motion { count: 1, mo: MotionType::EndOfWord(Direction::Backward) }));
    assert!(matches!(Command::parse("r"), Err(Error::IncompleteCommand)));
    assert!(matches!(Command::parse("z"), Err(Error::IncompleteCommand)));
    assert!(matches!(Command::parse("gq"), Err(Error::UnknownCommand(_))));
    assert!(matches!(Command::parse("diq"), Err(Error::UnknownCommand(_))));
    if let Err(Error::InvalidCommand(s)) = Command::parse("") {
        assert_eq!(s, "");
    } else {
        panic!("expected an empty command to be invalid");
    }
}

#[test]
fn put_whole_line_goes_after_current_line() {
    let mut buf = Buffer::with_text("abc\ndef\n");
    buf.cursor_index = 1;
    let mut regs = Registers::new();
    regs.insert('"', String::from("foo\n"));
    let mut last = None;
    let r = run("P", &mut buf, &mut regs, &mut last);
    assert_eq!(r, Ok(None));
    assert_eq!(buf.text.text(), "abc\nfoo\ndef\n");
    assert_eq!(buf.cursor_index, 7);
    assert_eq!(regs.get('"'), Some(String::from("foo\n")));
}

#[test]
fn put_inline_goes_at_cursor() {
    let mut buf = Buffer::with_text("abc\ndef\n");
    buf.cursor_index = 1;
    let mut regs = Registers::new();
    regs.insert('"', String::from("foo"));
    let mut last = None;
    let r = run("p", &mut buf, &mut regs, &mut last);
    assert_eq!(r, Ok(None));
    assert_eq!(buf.text.text(), "afoobc\ndef\n");
    assert_eq!(buf.cursor_index, 3);
    assert_eq!(regs.get('"'), None);
}

#[test]
fn put_from_empty_register_fails_without_change() {
    let mut buf = Buffer::with_text("abc");
    let mut regs = Registers::new();
    let mut last = None;
    let r = run("\"qp", &mut buf, &mut regs, &mut last);
    assert_eq!(r, Err(Error::EmptyRegister('q')));
    assert_eq!(buf.text.text(), "abc");
    assert_eq!(buf.cursor_index, 0);
}

#[test]
fn delete_word_fills_register_and_undo_restores() {
    let mut buf = Buffer::with_text("hello world");
    let mut regs = Registers::new();
    let mut last = None;
    assert_eq!(run("dw", &mut buf, &mut regs, &mut last), Ok(None));
    assert_eq!(buf.text.text(), "world");
    assert_eq!(regs.get('"'), Some(String::from("hello ")));
    assert_eq!(buf.cursor_index, 0);
    assert_eq!(run("u", &mut buf, &mut regs, &mut last), Ok(None));
    assert_eq!(buf.text.text(), "hello world");
}

#[test]
fn change_word_keeps_trailing_blank() {
    let mut buf = Buffer::with_text("hello world");
    let mut regs = Registers::new();
    let mut last = None;
    assert_eq!(run("cw", &mut buf, &mut regs, &mut last), Ok(Some(ModeTag::Insert)));
    assert_eq!(buf.text.text(), " world");
    assert_eq!(regs.get('"'), Some(String::from("hello")));
}

#[test]
fn delete_char_and_repeat() {
    let mut buf = Buffer::with_text("hello");
    buf.cursor_index = 1;
    let mut regs = Registers::new();
    let mut last = None;
    assert_eq!(run("x", &mut buf, &mut regs, &mut last), Ok(None));
    assert_eq!(buf.text.text(), "hllo");
    assert_eq!(run("2.", &mut buf, &mut regs, &mut last), Ok(None));
    assert_eq!(buf.text.text(), "ho");
}

#[test]
fn repeat_without_previous_command_is_invalid() {
    let mut buf = Buffer::with_text("hello");
    let mut regs = Registers::new();
    let mut last = None;
    assert!(matches!(run(".", &mut buf, &mut regs, &mut last), Err(Error::InvalidCommand(_))));
    assert_eq!(buf.text.text(), "hello");
}

#[test]
fn delete_line_and_yank_line() {
    let mut buf = Buffer::with_text("ab\ncd\n");
    buf.cursor_index = 1;
    let mut regs = Registers::new();
    let mut last = None;
    assert_eq!(run("yy", &mut buf, &mut regs, &mut last), Ok(None));
    assert_eq!(regs.get('"'), Some(String::from("ab\n")));
    assert_eq!(buf.text.text(), "ab\ncd\n");
    assert_eq!(run("dd", &mut buf, &mut regs, &mut last), Ok(None));
    assert_eq!(buf.text.text(), "cd\n");
}

#[test]
fn delete_inner_block() {
    let mut buf = Buffer::with_text("f(a, b) + 1");
    buf.cursor_index = 3;
    let mut regs = Registers::new();
    let mut last = None;
    assert_eq!(run("di(", &mut buf, &mut regs, &mut last), Ok(None));
    assert_eq!(buf.text.text(), "f() + 1");
    assert_eq!(regs.get('"'), Some(String::from("a, b")));
}

#[test]
fn delete_missing_object_changes_nothing() {
    let mut buf = Buffer::with_text("no block here");
    buf.cursor_index = 3;
    let mut regs = Registers::new();
    let mut last = None;
    assert_eq!(run("da(", &mut buf, &mut regs, &mut last), Ok(None));
    assert_eq!(buf.text.text(), "no block here");
    assert_eq!(regs.get('"'), None);
}

#[test]
fn delete_backwards_word() {
    let mut buf = Buffer::with_text("one two");
    buf.cursor_index = 6;
    let mut regs = Registers::new();
    let mut last = None;
    assert_eq!(run("db", &mut buf, &mut regs, &mut last), Ok(None));
    assert_eq!(buf.text.text(), "one o");
    assert_eq!(buf.cursor_index, 4);
}

#[test]
fn delete_to_end_of_word_is_inclusive() {
    let mut buf = Buffer::with_text("one two");
    let mut regs = Registers::new();
    let mut last = None;
    assert_eq!(run("de", &mut buf, &mut regs, &mut last), Ok(None));
    assert_eq!(buf.text.text(), " two");
}

#[test]
fn join_lines() {
    let mut buf = Buffer::with_text("ab\ncd\nef");
    let mut regs = Registers::new();
    let mut last = None;
    assert_eq!(run("J", &mut buf, &mut regs, &mut last), Ok(None));
    assert_eq!(buf.text.text(), "abcd\nef");
    assert_eq!(run("2J", &mut buf, &mut regs, &mut last), Ok(None));
    assert_eq!(buf.text.text(), "abcdef");
}

#[test]
fn replace_char() {
    let mut buf = Buffer::with_text("abc");
    buf.cursor_index = 1;
    let mut regs = Registers::new();
    let mut last = None;
    assert_eq!(run("rX", &mut buf, &mut regs, &mut last), Ok(None));
    assert_eq!(buf.text.text(), "aXc");
    assert_eq!(buf.cursor_index, 1);
}

#[test]
fn redo_is_reported_unsupported() {
    let mut buf = Buffer::with_text("abc");
    let mut regs = Registers::new();
    let mut last = None;
    assert!(matches!(run("x", &mut buf, &mut regs, &mut last), Ok(None)));
    assert!(matches!(run("u", &mut buf, &mut regs, &mut last), Ok(None)));
    assert!(matches!(run("U", &mut buf, &mut regs, &mut last), Err(Error::InvalidCommand(_))));
    assert_eq!(buf.text.text(), "abc");
}

#[test]
fn leader_commands_are_left_to_the_panes() {
    let mut buf = Buffer::with_text("abc");
    let mut regs = Registers::new();
    let mut last = None;
    assert!(matches!(run(" h", &mut buf, &mut regs, &mut last), Err(Error::InvalidCommand(_))));
}

#[test]
fn open_line_below_and_above() {
    let mut buf = Buffer::with_text("ab\ncd");
    let mut regs = Registers::new();
    let mut last = None;
    assert_eq!(run("o", &mut buf, &mut regs, &mut last), Ok(Some(ModeTag::Insert)));
    assert_eq!(buf.text.text(), "ab\n\ncd");
    assert_eq!(buf.cursor_index, 3);
    buf.cursor_index = 4;
    assert_eq!(run("O", &mut buf, &mut regs, &mut last), Ok(Some(ModeTag::Insert)));
    assert_eq!(buf.text.text(), "ab\n\n\ncd");
    assert_eq!(buf.cursor_index, 4);
}

#[test]
fn open_line_keeps_indentation() {
    let mut buf = Buffer::with_text("    ab\ncd");
    buf.cursor_index = 5;
    let mut regs = Registers::new();
    let mut last = None;
    assert_eq!(run("o", &mut buf, &mut regs, &mut last), Ok(Some(ModeTag::Insert)));
    assert_eq!(buf.text.text(), "    ab\n    \ncd");
    assert_eq!(buf.cursor_index, 11);
}

#[test]
fn indent_and_undent_lines() {
    let mut buf = Buffer::with_text("ab\ncd\n");
    let mut regs = Registers::new();
    let mut last = None;
    assert_eq!(run(">>", &mut buf, &mut regs, &mut last), Ok(None));
    assert_eq!(buf.text.text(), "    ab\ncd\n");
    assert_eq!(run("<<", &mut buf, &mut regs, &mut last), Ok(None));
    assert_eq!(buf.text.text(), "ab\ncd\n");
}

#[test]
fn moves_and_mode_changes() {
    let mut buf = Buffer::with_text("one two three");
    let mut regs = Registers::new();
    let mut last = None;
    assert_eq!(run("2w", &mut buf, &mut regs, &mut last), Ok(None));
    assert_eq!(buf.cursor_index, 8);
    assert_eq!(run("A", &mut buf, &mut regs, &mut last), Ok(Some(ModeTag::Insert)));
    assert_eq!(buf.cursor_index, 12);
    assert_eq!(run("v", &mut buf, &mut regs, &mut last), Ok(Some(ModeTag::Visual)));
    assert_eq!(buf.text.text(), "one two three");
}

#[test]
fn repeat_after_insert_types_the_insertion_again() {
    let mut buf = Buffer::with_text("ab");
    buf.cursor_index = 1;
    let mut regs = Registers::new();
    let mut last = None;
    assert_eq!(run("i", &mut buf, &mut regs, &mut last), Ok(Some(ModeTag::Insert)));
    let mut m = buf.text.insert_mutator(1);
    m.push_char(&mut buf.text, 'x');
    m.push_char(&mut buf.text, 'y');
    m.finish(&mut buf.text);
    buf.cursor_index = 3;
    assert_eq!(buf.text.text(), "axyb");
    assert_eq!(run("2.", &mut buf, &mut regs, &mut last), Ok(None));
    assert_eq!(buf.text.text(), "axyxyxyb");
    assert_eq!(buf.cursor_index, 7);
}

#[test]
fn registers_hold_latest_text() {
    let mut regs = Registers::new();
    assert_eq!(regs.get('a'), None);
    regs.insert('a', String::from("one"));
    regs.insert('b', String::from("two"));
    regs.insert('a', String::from("three"));
    assert_eq!(regs.get('a'), Some(String::from("three")));
    regs.remove('a');
    assert_eq!(regs.get('a'), None);
    assert_eq!(regs.get('b'), Some(String::from("two")));
}

#[test]
fn redo_reports_invalid_and_leaves_buffer() {
    let mut buf = Buffer::with_text("one two");
    let mut regs = Registers::new();
    let mut last = None;
    assert_eq!(run("dw", &mut buf, &mut regs, &mut last), Ok(None));
    assert_eq!(run("u", &mut buf, &mut regs, &mut last), Ok(None));
    let text_before = buf.text.text();
    let cursor_before = buf.cursor_index;
    let id_before = buf.text.most_recent_action_id();
    let r = Command::Redo { count: 1 }.execute(&mut buf, &mut regs, &mut last, &cfg());
    assert!(matches!(r, Err(Error::InvalidCommand(_))));
    assert_eq!(buf.text.text(), text_before);
    assert_eq!(buf.cursor_index, cursor_before);
    assert_eq!(buf.text.most_recent_action_id(), id_before);
}

#[test]
fn indent_covers_every_line_of_the_motion() {
    let mut buf = Buffer::with_text("a\nb\nc\n");
    let mut regs = Registers::new();
    let mut last = None;
    assert_eq!(run(">j", &mut buf, &mut regs, &mut last), Ok(None));
    assert_eq!(buf.text.text(), "    a\n    b\nc\n");
    buf.cursor_index = 6;
    assert_eq!(run("<k", &mut buf, &mut regs, &mut last), Ok(None));
    assert_eq!(buf.text.text(), "a\nb\nc\n");
}
