use pk_common::piece_table::PieceTable;
use pk_common::text_model::{Change, Piece};

#[test]
fn piece_table_insert_cont() {
    let mut pt = PieceTable::with_text("hello");
    let mut m = pt.insert_mutator(2);
    m.push_char(&mut pt, 'A');
    m.push_char(&mut pt, 'B');
    assert_eq!(pt.text(), "heABllo");
    m.pop_char(&mut pt);
    m.push_char(&mut pt, 'C');
    assert_eq!(pt.text(), "heACllo");
}

#[test]
fn piece_table_insert_range() {
    let mut pt = PieceTable::with_text("hi");
    pt.insert_range("ABCD", 1);
    assert_eq!(pt.text(), "hABCDi");
}

#[test]
fn insert_range_end() {
    let mut pt = PieceTable::with_text("x");
    let n = pt.len();
    pt.insert_range("yz", n);
    assert_eq!(pt.text(), "xyz");
}

#[test]
fn piece_table_delete_range_single_piece() {
    let mut pt = PieceTable::with_text("hello");
    pt.delete_range(1, 3);
    assert_eq!(pt.text(), "hlo");
}

#[test]
fn piece_table_delete_range_multiple_pieces() {
    let mut pt = PieceTable::with_text("hello");
    pt.insert_range("X", 3);
    pt.delete_range(1, 4);
    assert_eq!(pt.text(), "hlo");
}

#[test]
fn delete_range_end() {
    let mut pt = PieceTable::with_text("hello");
    let n = pt.len();
    pt.delete_range(1, n);
    assert_eq!(pt.text(), "h");
}

#[test]
fn delete_range_single_char() {
    let mut pt = PieceTable::with_text("hello");
    pt.delete_range(2, 3);
    assert_eq!(pt.text(), "helo");
    pt.delete_range(2, 3);
    assert_eq!(pt.text(), "heo");
    pt.delete_range(1, 2);
    assert_eq!(pt.text(), "ho");
}

#[test]
fn piece_table_copy_range_single_piece() {
    let pt = PieceTable::with_text("hello");
    assert_eq!(pt.copy_range(1, 3), "el");
}

#[test]
fn piece_table_copy_range_multiple_pieces() {
    let mut pt = PieceTable::with_text("hello");
    pt.insert_range("X", 3);
    assert_eq!(pt.copy_range(1, 5), "elXl");
}

#[test]
fn piece_table_undo_insert_cont() {
    let mut pt = PieceTable::with_text("hello");
    let mut m = pt.insert_mutator(2);
    m.push_char(&mut pt, 'A');
    m.push_char(&mut pt, 'B');
    assert_eq!(pt.text(), "heABllo");
    m.pop_char(&mut pt);
    m.push_char(&mut pt, 'C');
    m.finish(&mut pt);
    assert_eq!(pt.text(), "heACllo");
    pt.undo();
    assert_eq!(pt.text(), "hello");
}

#[test]
fn piece_table_undo_insert_range_once() {
    let mut pt = PieceTable::with_text("hi");
    pt.insert_range("ABCD", 1);
    assert_eq!(pt.text(), "hABCDi");
    pt.undo();
    assert_eq!(pt.text(), "hi");
}

#[test]
fn piece_table_undo_insert_range_multiple() {
    let mut pt = PieceTable::with_text("hi");
    pt.insert_range("ABCD", 1);
    pt.insert_range("X", 2);
    assert_eq!(pt.text(), "hAXBCDi");
    pt.undo();
    assert_eq!(pt.text(), "hABCDi");
    pt.undo();
    assert_eq!(pt.text(), "hi");
}

#[test]
fn piece_table_undo_delete_range_single_piece() {
    let mut pt = PieceTable::with_text("hello");
    pt.delete_range(1, 3);
    assert_eq!(pt.text(), "hlo");
    pt.undo();
    assert_eq!(pt.text(), "hello");
}

#[test]
fn piece_table_undo_delete_range_multiple_pieces() {
    let mut pt = PieceTable::with_text("hello");
    pt.insert_range("X", 3);
    pt.delete_range(1, 4);
    assert_eq!(pt.text(), "hlo");
    pt.undo();
    assert_eq!(pt.text(), "helXlo");
    pt.undo();
    assert_eq!(pt.text(), "hello");
}

#[test]
fn index_of_simple() {
    let pt = PieceTable::with_text("he?lo?a");
    assert_eq!(pt.index_of('?', 0), Some(2));
    assert_eq!(pt.index_of('x', 0), None);
    assert_eq!(pt.index_of('?', 3), Some(5));
}

#[test]
fn index_of_complex() {
    let mut pt = PieceTable::with_text("helo?a");
    pt.insert_range("?", 2);
    assert_eq!(pt.text(), "he?lo?a");
    assert_eq!(pt.index_of('?', 0), Some(2));
    assert_eq!(pt.index_of('x', 0), None);
    assert_eq!(pt.index_of('?', 3), Some(5));
}

#[test]
fn last_index_of_simple() {
    let pt = PieceTable::with_text("he?lo?a");
    assert_eq!(pt.last_index_of('?', 3), Some(2));
    assert_eq!(pt.last_index_of('x', 6), None);
    assert_eq!(pt.last_index_of('?', 6), Some(5));
}

#[test]
fn last_index_of_complex() {
    let mut pt = PieceTable::with_text("helo?a");
    pt.insert_range("?", 2);
    assert_eq!(pt.text(), "he?lo?a");
    assert_eq!(pt.last_index_of('?', 3), Some(2));
    assert_eq!(pt.last_index_of('x', 6), None);
    assert_eq!(pt.last_index_of('?', 6), Some(5));
}

#[test]
fn char_at() {
    let mut pt = PieceTable::with_text("helo?a");
    pt.insert_range("?", 2);
    let tx = pt.text();
    for (i, c) in tx.chars().enumerate() {
        assert_eq!(pt.char_at(i).unwrap(), c, "i = {}", i);
    }
}

#[test]
fn char_iter() {
    let mut pt = PieceTable::with_text("helo?a");
    pt.insert_range("?", 2);
    let tx = pt.text();
    let mut ch = pt.chars(0);
    for a in tx.chars() {
        assert_eq!(Some(a), ch.next());
    }
    assert_eq!(ch.next(), None);
}

#[test]
fn char_iter_back() {
    let mut pt = PieceTable::with_text("helo?a");
    pt.insert_range("?", 2);
    let tx = pt.text();
    let mut tc = tx.chars();
    let mut ch = pt.chars(tx.len() - 1);
    loop {
        let a = tc.next_back();
        let b = ch.next_back();
        assert_eq!(a, b);
        if a.is_none() && b.is_none() {
            break;
        }
    }
}

/// A small deterministic source of numbers for the randomized check.
struct Lcg(u64);

impl Lcg {
    fn next(&mut self) -> usize {
        self.0 = self.0.wrapping_mul(6364136223846793005).wrapping_add(1442695040888963407);
        (self.0 >> 33) as usize
    }
}

#[test]
fn fuzz_api() {
    let mut rng = Lcg(0x5eed);
    let mut pt = PieceTable::with_text("asdf\nasdf\nasdf\nasdf\n");
    let mut undo_stack: Vec<String> = Vec::new();
    for _ in 0..1_000 {
        let tx = pt.text();
        if tx.len() == 0 {
            break;
        }
        match rng.next() % 8 {
            0 => {
                let x = rng.next() % tx.len();
                let itxt = match rng.next() % 5 {
                    0 => "",
                    1 => "\n",
                    2 => "sequence",
                    3 => "te st",
                    _ => "this is a very, very large insertion",
                };
                pt.insert_range(itxt, x);
                if !itxt.is_empty() {
                    undo_stack.push(tx.clone());
                }
                let mut expected = tx.clone();
                expected.insert_str(x, itxt);
                assert_eq!(pt.text(), expected);
            }
            1 => {
                let s = rng.next() % tx.len();
                let e = s + rng.next() % (tx.len() - s);
                if s == e {
                    continue;
                }
                pt.delete_range(s, e);
                undo_stack.push(tx.clone());
                assert_eq!(pt.text(), String::from(&tx[..s]) + &tx[e..]);
            }
            2 => {
                let s = rng.next() % tx.len();
                let e = s + rng.next() % (tx.len() - s);
                assert_eq!(pt.copy_range(s, e), tx[s..e]);
            }
            3 => {
                if tx.len() == 1 {
                    continue;
                }
                let s = (rng.next() % (tx.len() - 1)) + 1;
                let ch = tx.chars().nth(s + rng.next() % (tx.len() - s)).unwrap();
                assert_eq!(pt.index_of(ch, s), tx[s..].find(ch).map(|i| i + s));
            }
            4 => {
                let s = (rng.next() % tx.len()) + 1;
                let ch = tx[..s].chars().nth(rng.next() % s).unwrap();
                assert_eq!(pt.last_index_of(ch, s), tx[..s].rfind(ch));
            }
            5 => {
                let x = rng.next() % tx.len();
                assert_eq!(pt.char_at(x), tx.chars().nth(x));
            }
            6 => {
                let x = rng.next() % tx.len();
                let mut tc = tx.chars().skip(x);
                let mut ch = pt.chars(x);
                loop {
                    let a = tc.next();
                    let b = ch.next();
                    assert_eq!(a, b);
                    if a.is_none() && b.is_none() {
                        break;
                    }
                }
            }
            _ => {
                pt.undo();
                let expected = undo_stack.pop().unwrap_or(tx.clone());
                assert_eq!(pt.text(), expected);
            }
        }
    }
}

#[test]
fn undo_everything_returns_to_start() {
    let mut pt = PieceTable::with_text("one two three");
    let start = pt.text();
    pt.insert_range("X", 4);
    pt.delete_range(0, 3);
    pt.insert_range("tail", pt.len());
    pt.delete_range(2, 9);
    let mut m = pt.insert_mutator(1);
    m.push_char(&mut pt, 'q');
    m.finish(&mut pt);
    for _ in 0..5 {
        pt.undo();
    }
    assert_eq!(pt.text(), start);
    pt.undo();
    assert_eq!(pt.text(), start);
}

#[test]
fn undo_steps_back_one_edit_at_a_time() {
    let mut pt = PieceTable::with_text("abcdef");
    let mut texts = vec![pt.text()];
    pt.delete_range(1, 5);
    texts.push(pt.text());
    pt.insert_range("XYZ", 1);
    texts.push(pt.text());
    pt.delete_range(0, 2);
    texts.push(pt.text());
    while let Some(t) = texts.pop() {
        assert_eq!(pt.text(), t);
        pt.undo();
    }
}

#[test]
fn copy_range_matches_slices_everywhere() {
    let mut pt = PieceTable::with_text("hello world");
    pt.insert_range("--", 5);
    pt.delete_range(8, 10);
    pt.insert_range("!", 0);
    let tx = pt.text();
    for s in 0..=tx.len() {
        for e in s..=tx.len() {
            assert_eq!(pt.copy_range(s, e), tx[s..e]);
        }
    }
}

#[test]
fn searches_match_string_search_everywhere() {
    let mut pt = PieceTable::with_text("a.b.c");
    pt.insert_range("x.y", 2);
    let tx = pt.text();
    for k in 0..=tx.len() + 1 {
        for c in ['.', 'x', 'z', 'a'] {
            let fwd = if k <= tx.len() { tx[k..].find(c).map(|i| i + k) } else { None };
            assert_eq!(pt.index_of(c, k), fwd);
            let end = k.min(tx.len());
            assert_eq!(pt.last_index_of(c, k), tx[..end].rfind(c));
        }
    }
}

#[test]
fn empty_insert_changes_nothing() {
    let mut pt = PieceTable::with_text("abc");
    pt.insert_range("", 1);
    assert_eq!(pt.text(), "abc");
    assert_eq!(pt.most_recent_action_id(), 0);
}

#[test]
fn pop_char_reports_empty_piece() {
    let mut pt = PieceTable::with_text("ab");
    let mut m = pt.insert_mutator(1);
    assert!(m.pop_char(&mut pt));
    m.push_char(&mut pt, 'z');
    assert_eq!(pt.text(), "azb");
    assert!(!m.pop_char(&mut pt));
    assert_eq!(pt.text(), "ab");
    assert!(m.pop_char(&mut pt));
}

#[test]
fn mutator_continues_at_end_of_latest_source() {
    let mut pt = PieceTable::with_text("ab");
    pt.insert_range("cd", 2);
    let mut m = pt.insert_mutator(4);
    m.push_char(&mut pt, 'e');
    m.finish(&mut pt);
    assert_eq!(pt.text(), "abcde");
    pt.undo();
    assert_eq!(pt.text(), "abcd");
    pt.undo();
    assert_eq!(pt.text(), "ab");
}

#[test]
fn open_edit_is_committed_by_the_next_edit() {
    let mut pt = PieceTable::with_text("ab");
    let mut m = pt.insert_mutator(2);
    m.push_char(&mut pt, 'c');
    pt.insert_range("X", 0);
    assert_eq!(pt.text(), "Xabc");
    pt.undo();
    assert_eq!(pt.text(), "abc");
    pt.undo();
    assert_eq!(pt.text(), "ab");
}

#[test]
fn action_ids_and_replication() {
    let mut a = PieceTable::with_text("hello");
    let mut b = PieceTable::with_text("hello");
    assert_eq!(a.most_recent_action_id(), 0);
    a.delete_range(1, 3);
    a.delete_range(0, 1);
    assert_eq!(a.most_recent_action_id(), 2);
    let changes = a.get_changes_from(2);
    assert_eq!(changes.len(), 1);
    assert_eq!(changes[0].id, 2);
    let all = a.get_changes_from(0);
    assert_eq!(all.len(), 2);
    for act in all.iter() {
        assert!(b.apply_action(act));
    }
    assert_eq!(b.text(), a.text());
    b.undo();
    assert_eq!(b.text(), "hlo");
}

#[test]
fn apply_action_rejects_changes_that_do_not_fit() {
    let mut a = PieceTable::with_text("hello");
    a.delete_range(1, 3);
    let act = a.get_changes_from(0).remove(0);
    let mut small = PieceTable::with_text("hi");
    small.insert_range("!", 2);
    let before = small.text();
    assert!(!small.apply_action(&pk_common::piece_table::Action { changes: act.changes, id: 10 }));
    assert_eq!(small.text(), before);
}

#[test]
fn recorded_changes_match_the_insertion() {
    let mut pt = PieceTable::with_text("hello");
    pt.insert_range("X", 5);
    let a = pt.get_changes_from(0);
    assert_eq!(a.len(), 1);
    assert_eq!(a[0].id, 1);
    assert_eq!(a[0].changes, vec![Change::Insert { piece_index: 1, new: Piece { source: 1, start: 0, length: 1 } }]);
    pt.insert_range("YZ", 2);
    let b = pt.get_changes_from(2);
    assert_eq!(b[0].changes, vec![
        Change::Modify {
            piece_index: 0,
            old: Piece { source: 0, start: 0, length: 5 },
            new: Piece { source: 0, start: 0, length: 2 },
        },
        Change::Insert { piece_index: 1, new: Piece { source: 2, start: 0, length: 2 } },
        Change::Insert { piece_index: 2, new: Piece { source: 0, start: 2, length: 3 } },
    ]);
    assert_eq!(pt.text(), "heYZlloX");
}

#[test]
fn open_edit_logs_nothing_until_finished() {
    let mut pt = PieceTable::with_text("ab");
    pt.delete_range(0, 1);
    let mut m = pt.insert_mutator(1);
    m.push_char(&mut pt, 'q');
    assert_eq!(pt.most_recent_action_id(), 1);
    assert_eq!(pt.get_changes_from(0).len(), 1);
    m.finish(&mut pt);
    assert_eq!(pt.most_recent_action_id(), 2);
    let last = pt.get_changes_from(2);
    assert_eq!(last.len(), 1);
}
