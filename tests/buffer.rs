use pk_common::buffer::{Buffer, IndentConfig};
use pk_common::protocol::{LineEnding, TextFormat, FileType};
use pk_common::char_class::{classify, CharClass};
use pk_common::Direction;

#[test]
fn search_forwards() {
    let src = "abc def abc abl abc pqr abc vwx yz\n";
    let qry = "abc";
    let mut buf = Buffer::with_text(src);
    buf.set_query(qry.into());
    let mut ix = 0;
    loop {
        match (buf.next_query_index(ix, Direction::Forward, false), src[ix..].find(qry).map(|i| i + ix)) {
            (Some(test), Some(correct)) => {
                assert_eq!(test, correct);
                ix = test + qry.len();
                if ix > src.len() {
                    break;
                }
            }
            (Some(x), None) => panic!("buffer found an instance at {} that was invalid", x),
            (None, Some(x)) => panic!("buffer missed an instance at {}", x),
            (None, None) => break,
        }
    }
}

#[test]
fn search_backwards() {
    let src = "abc def abc abl abc pqr abc vwx yz\n";
    let qry = "abc";
    let mut buf = Buffer::with_text(src);
    buf.set_query(qry.into());
    let mut ix = src.len() - 1;
    loop {
        match (buf.next_query_index(ix, Direction::Backward, false), src[..ix].rfind(qry)) {
            (Some(test), Some(correct)) => {
                assert_eq!(test, correct);
                ix = test.saturating_sub(1);
                if ix == 0 {
                    break;
                }
            }
            (Some(x), None) => panic!("buffer found an instance at {} that was invalid", x),
            (None, Some(x)) => panic!("buffer missed an instance at {}", x),
            (None, None) => break,
        }
    }
}

#[test]
fn search_wraps_around() {
    let mut buf = Buffer::with_text("abc def abc");
    buf.set_query("def".into());
    assert_eq!(buf.next_query_index(5, Direction::Forward, false), None);
    assert_eq!(buf.next_query_index(5, Direction::Forward, true), Some(4));
    assert_eq!(buf.next_query_index(2, Direction::Backward, true), Some(4));
    buf.set_query(String::new());
    assert_eq!(buf.next_query_index(0, Direction::Forward, true), None);
}

#[test]
fn line_arithmetic() {
    let buf = Buffer::with_text("ab\ncde\n\nf");
    assert_eq!(buf.next_line_index(0), 3);
    assert_eq!(buf.next_line_index(4), 7);
    assert_eq!(buf.next_line_index(8), 9);
    assert_eq!(buf.current_start_of_line(5), 3);
    assert_eq!(buf.current_start_of_line(1), 0);
    assert_eq!(buf.column_for_index(5), 2);
    assert_eq!(buf.line_for_index(0), 0);
    assert_eq!(buf.line_for_index(2), 0);
    assert_eq!(buf.line_for_index(3), 1);
    assert_eq!(buf.line_for_index(8), 3);
    assert_eq!(buf.line_for_index(100), 3);
    assert_eq!(buf.last_line_index(5), 0);
    assert_eq!(buf.last_line_index(8), 7);
}

#[test]
fn indentation_level_and_edits() {
    let soft = IndentConfig { softtab: true, tabstop: 4 };
    let hard = IndentConfig { softtab: false, tabstop: 4 };
    let mut buf = Buffer::with_text("        x\n\t\ty\n");
    assert_eq!(buf.sense_indent_level(9, &soft), 2);
    assert_eq!(buf.sense_indent_level(12, &hard), 2);
    assert_eq!(buf.indent(0, 1, &soft), 4);
    assert_eq!(buf.text.text(), "            x\n\t\ty\n");
    buf.undent(0, 2, &soft);
    assert_eq!(buf.text.text(), "    x\n\t\ty\n");
    assert_eq!(buf.indent(6, 2, &hard), 2);
    assert_eq!(buf.text.text(), "    x\n\t\t\t\ty\n");
    buf.undent(6, 3, &hard);
    assert_eq!(buf.text.text(), "    x\n\ty\n");
    buf.text.undo();
    assert_eq!(buf.text.text(), "    x\n\t\t\t\ty\n");
}

#[test]
fn undent_stops_at_newline() {
    let soft = IndentConfig { softtab: true, tabstop: 4 };
    let mut buf = Buffer::with_text("  \nab");
    buf.undent(0, 1, &soft);
    assert_eq!(buf.text.text(), "\nab");
}

#[test]
fn indent_through_open_edit() {
    let soft = IndentConfig { softtab: true, tabstop: 2 };
    let mut buf = Buffer::with_text("ab");
    let mut m = buf.text.insert_mutator(1);
    assert_eq!(buf.indent_with_mutator(&mut m, 2, &soft), 4);
    m.finish(&mut buf.text);
    assert_eq!(buf.text.text(), "a    b");
    buf.text.undo();
    assert_eq!(buf.text.text(), "ab");
}

#[test]
fn classes() {
    assert_eq!(classify(' '), CharClass::Whitespace);
    assert_eq!(classify('\n'), CharClass::Whitespace);
    assert_eq!(classify('a'), CharClass::Regular);
    assert_eq!(classify('_'), CharClass::Regular);
    assert_eq!(classify('9'), CharClass::Regular);
    assert_eq!(classify('#'), CharClass::Punctuation);
}

#[test]
fn line_endings() {
    assert_eq!(LineEnding::from_analysis("a\r\nb"), LineEnding::CRLF);
    assert_eq!(LineEnding::from_analysis("a\nb\r\n"), LineEnding::LF);
    assert_eq!(LineEnding::from_analysis("ab"), LineEnding::LF);
    assert_eq!(LineEnding::CRLF.as_str(), "\r\n");
    assert_eq!(LineEnding::LF.as_str(), "\n");
    let f = TextFormat::from_analysis("x\r\n");
    assert_eq!(f.line_ending, LineEnding::CRLF);
    assert_eq!(f.stype, FileType::text());
    assert_eq!(&FileType::text().data, b"text");
}
