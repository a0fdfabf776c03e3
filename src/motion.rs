//! Motions: the ranges of text that cursor movements and text objects cover.
use vstd::prelude::*;
use std::ops::Range;
use crate::{Direction, Error};
use crate::buffer::{Buffer, clamp, line_start, next_line_start, prev_line_start};
use crate::char_class::{
    CharClass, CharPred, class_as, classify_as, first_match, last_match, lemma_first_match,
    lemma_last_match,
};
use crate::piece_table::{PieceTable, string_of};

verus! {

/// A unit of text that an operator can act on as a whole.
#[derive(Copy, Clone, Debug, PartialEq, Eq, Structural)]
pub enum TextObject {
    Word,
    BigWord,
    Paragraph,
    /// The text between a delimiter (given by its opening character) and its partner.
    Block(char),
}

#[derive(Copy, Clone, Debug, PartialEq, Eq, Structural)]
pub enum MotionType {
    Char(Direction),
    Word(Direction),
    BigWord(Direction),
    EndOfWord(Direction),
    EndOfBigWord(Direction),
    NextChar { c: char, place_before: bool, direction: Direction },
    RepeatNextChar { opposite: bool },
    WholeLine,
    Line(Direction),
    StartOfLine,
    EndOfLine,
    Paragraph,
    An(TextObject),
    Inner(TextObject),
}

#[derive(Copy, Clone, Debug, PartialEq, Eq, Structural)]
pub struct Motion {
    pub count: usize,
    pub mo: MotionType,
}

/// The end of the run of class `cls` that starts at `p`.
pub open spec fn run_end(t: Seq<char>, p: int, cls: CharClass, big: bool) -> int {
    match first_match(t, CharPred::NotInClass(cls, big), p) {
        Some(k) => k as int,
        None => if p < t.len() {
            t.len() as int
        } else {
            p
        },
    }
}

/// The start of the run of class `cls` that ends just before `p`.
pub open spec fn run_start(t: Seq<char>, p: int, cls: CharClass, big: bool) -> int {
    match last_match(t, CharPred::NotInClass(cls, big), p) {
        Some(k) => (k as int) + 1,
        None => 0,
    }
}

/// A word motion forwards: past the rest of the run under `p`, then past
/// the blanks after it.
pub open spec fn word_forward(t: Seq<char>, p: int, big: bool) -> int {
    if p >= t.len() {
        p
    } else {
        let c = class_as(t[p], big);
        if c == CharClass::Whitespace {
            run_end(t, p, CharClass::Whitespace, big)
        } else {
            let e = run_end(t, p, c, big);
            if e < t.len() && class_as(t[e], big) == CharClass::Whitespace {
                run_end(t, e, CharClass::Whitespace, big)
            } else {
                e
            }
        }
    }
}

/// A word motion backwards: back over the blanks before `p`, then to the
/// start of the run before them.
pub open spec fn word_backward(t: Seq<char>, p: int, big: bool) -> int {
    match last_match(t, CharPred::NotInClass(CharClass::Whitespace, big), clamp(t, p)) {
        None => 0,
        Some(k) => run_start(t, k as int, class_as(t[k as int], big), big),
    }
}

/// An end-of-word motion forwards: to the last character of the run under
/// `p`, or, where `p` already ends its run or is blank, of the next run.
pub open spec fn end_of_word_forward(t: Seq<char>, p: int, big: bool) -> int {
    if p + 1 >= t.len() {
        p
    } else {
        let c = class_as(t[p], big);
        if c != CharClass::Whitespace && class_as(t[p + 1], big) == c {
            run_end(t, p + 1, c, big) - 1
        } else {
            let w = run_end(t, p + 1, CharClass::Whitespace, big);
            if w >= t.len() {
                p
            } else {
                run_end(t, w, class_as(t[w], big), big) - 1
            }
        }
    }
}

/// An end-of-word motion backwards: to the last character of the run
/// before the one under `p`, skipping blanks.
pub open spec fn end_of_word_backward(t: Seq<char>, p: int, big: bool) -> int {
    if p >= t.len() {
        p
    } else {
        match last_match(t, CharPred::NotInClass(class_as(t[p], big), big), p) {
            None => 0,
            Some(q) => match last_match(
                t,
                CharPred::NotInClass(CharClass::Whitespace, big),
                (q as int) + 1,
            ) {
                Some(r) => r as int,
                None => 0,
            },
        }
    }
}

/// To the next `c` after `p` (before `p` backwards), or one short of it.
pub open spec fn next_char(t: Seq<char>, p: int, c: char, before: bool, dir: Direction) -> int {
    match dir {
        Direction::Forward => match first_match(t, CharPred::Is(c), p + 1) {
            Some(k) => if before {
                k - 1
            } else {
                k as int
            },
            None => p,
        },
        Direction::Backward => match last_match(t, CharPred::Is(c), clamp(t, p)) {
            Some(k) => if before {
                (k as int) + 1
            } else {
                k as int
            },
            None => p,
        },
    }
}

/// To the next or previous line, at column `col` or at its end if shorter.
pub open spec fn line_step(t: Seq<char>, p: int, col: int, dir: Direction) -> int {
    let nl = match dir {
        Direction::Forward => next_line_start(t, p),
        Direction::Backward => prev_line_start(t, p),
    };
    let ll = match first_match(t, CharPred::Is('\n'), nl) {
        Some(k) => k - nl,
        None => t.len() - nl,
    };
    nl + if col < ll {
        col
    } else {
        ll
    }
}

/// One repetition of a motion from `p`; `col` is the column the motion
/// started in.
pub open spec fn step(t: Seq<char>, mo: MotionType, p: int, col: int) -> int {
    match mo {
        MotionType::Char(Direction::Forward) => if p < t.len() {
            p + 1
        } else {
            p
        },
        MotionType::Char(Direction::Backward) => if p > 0 {
            p - 1
        } else {
            p
        },
        MotionType::Word(d) => match d {
            Direction::Forward => word_forward(t, p, false),
            Direction::Backward => word_backward(t, p, false),
        },
        MotionType::BigWord(d) => match d {
            Direction::Forward => word_forward(t, p, true),
            Direction::Backward => word_backward(t, p, true),
        },
        MotionType::EndOfWord(d) => match d {
            Direction::Forward => end_of_word_forward(t, p, false),
            Direction::Backward => end_of_word_backward(t, p, false),
        },
        MotionType::EndOfBigWord(d) => match d {
            Direction::Forward => end_of_word_forward(t, p, true),
            Direction::Backward => end_of_word_backward(t, p, true),
        },
        MotionType::NextChar { c, place_before, direction } => next_char(
            t,
            p,
            c,
            place_before,
            direction,
        ),
        MotionType::WholeLine => next_line_start(t, p),
        MotionType::Line(d) => line_step(t, p, col, d),
        MotionType::StartOfLine => run_end(t, line_start(t, p), CharClass::Whitespace, false),
        MotionType::EndOfLine => if next_line_start(t, p) > 0 {
            next_line_start(t, p) - 1
        } else {
            0
        },
        _ => p,
    }
}

/// `k` repetitions of a motion from `p`.
pub open spec fn steps(t: Seq<char>, mo: MotionType, p: int, col: int, k: nat) -> int
    decreases k,
{
    if k == 0 {
        p
    } else {
        step(t, mo, steps(t, mo, p, col, (k - 1) as nat), col)
    }
}

/// Where the `i`-th of `count` repetitions of a word object leaves its end,
/// from `e`: over a run of the class under the cursor, and, for "an" or a
/// repetition after the first, over the run that follows.
pub open spec fn word_object_end(
    t: Seq<char>,
    e: int,
    sc: CharClass,
    big: bool,
    around: bool,
    i: nat,
    count: nat,
) -> int
    decreases count - i,
{
    if i >= count {
        e
    } else {
        let e1 = run_end(t, e, sc, big);
        let e2 = if i > 0 || around {
            let cls = if sc == CharClass::Whitespace {
                if e1 < t.len() {
                    class_as(t[e1], big)
                } else {
                    CharClass::Whitespace
                }
            } else {
                CharClass::Whitespace
            };
            run_end(t, e1, cls, big)
        } else {
            e1
        };
        word_object_end(t, e2, sc, big, around, i + 1, count)
    }
}

/// The word object around `c`: its first position and its last one.
pub open spec fn word_object(t: Seq<char>, c: int, count: nat, big: bool, around: bool) -> (
    int,
    int,
) {
    let sc = class_as(t[c], big);
    let start = run_start(t, c, sc, big);
    if !around && sc == CharClass::Whitespace {
        (start, c)
    } else {
        (start, word_object_end(t, start, sc, big, around, 0, count) - 1)
    }
}

/// Scanning back from `k` for the opening delimiter that encloses `c`,
/// with `depth` closed blocks still to pass.
pub open spec fn block_open(t: Seq<char>, open: char, close: char, c: int, k: int, depth: nat) -> Option<
    nat,
>
    decreases k + 1,
{
    if k < 0 || k >= t.len() {
        None
    } else if t[k] == open && depth == 0 {
        Some(k as nat)
    } else if t[k] == close && k < c && open != close {
        block_open(t, open, close, c, k - 1, depth + 1)
    } else if t[k] == open {
        block_open(t, open, close, c, k - 1, (depth - 1) as nat)
    } else {
        block_open(t, open, close, c, k - 1, depth)
    }
}

/// Scanning forward from `k` for the delimiter that closes the block, with
/// `depth` nested blocks still open.
pub open spec fn block_close(t: Seq<char>, open: char, close: char, k: int, depth: nat) -> Option<
    nat,
>
    decreases t.len() - k,
{
    if k < 0 || k >= t.len() {
        None
    } else if t[k] == close && depth == 0 {
        Some(k as nat)
    } else if t[k] == open {
        block_close(t, open, close, k + 1, depth + 1)
    } else if t[k] == close {
        block_close(t, open, close, k + 1, (depth - 1) as nat)
    } else {
        block_close(t, open, close, k + 1, depth)
    }
}

/// The closing partner of an opening delimiter.
pub open spec fn partner(c: char) -> char {
    if c == '{' {
        '}'
    } else if c == '(' {
        ')'
    } else if c == '[' {
        ']'
    } else if c == '<' {
        '>'
    } else {
        c
    }
}

pub open spec fn is_block_char(c: char) -> bool {
    c == '{' || c == '(' || c == '[' || c == '<' || c == '"' || c == '\''
}

/// The block object around `c`: the delimiters themselves for "an", what
/// lies between them for "inner"; first and last positions.
pub open spec fn block_object(t: Seq<char>, open: char, c: int, around: bool) -> Option<(int, int)> {
    match block_open(t, open, partner(open), c, c, 0) {
        None => None,
        Some(s) => match block_close(t, open, partner(open), (s as int) + 1, 0) {
            None => None,
            Some(e) => if around {
                Some((s as int, e as int))
            } else {
                Some(((s as int) + 1, (e as int) - 1))
            },
        },
    }
}

/// The closing partner of an opening delimiter.
pub fn matching_block_char(c: char) -> (r: char)
    requires
        is_block_char(c),
    ensures
        r == partner(c),
{
    match c {
        '{' => '}',
        '(' => ')',
        '[' => ']',
        '<' => '>',
        _ => c,
    }
}

/// The end of the run of class `cls` that starts at `p`.
fn run_end_exec(pt: &PieceTable, p: usize, cls: CharClass, big: bool) -> (r: usize)
    requires
        pt.wf(),
    ensures
        r == run_end(pt@, p as int, cls, big),
        p <= pt@.len() ==> p <= r <= pt@.len(),
        p > pt@.len() ==> r == p,
{
    proof {
        pt.lemma_len_fits();
        lemma_first_match(pt@, CharPred::NotInClass(cls, big), p as int);
    }
    match pt.index_of_pred(CharPred::NotInClass(cls, big), p) {
        Some(k) => k,
        None => {
            let n = pt.len();
            if p < n {
                n
            } else {
                p
            }
        },
    }
}

/// The start of the run of class `cls` that ends just before `p`.
fn run_start_exec(pt: &PieceTable, p: usize, cls: CharClass, big: bool) -> (r: usize)
    requires
        pt.wf(),
        p <= pt@.len(),
    ensures
        r == run_start(pt@, p as int, cls, big),
        r <= p,
{
    proof {
        lemma_last_match(pt@, CharPred::NotInClass(cls, big), p as int);
    }
    match pt.last_index_of_pred(CharPred::NotInClass(cls, big), p) {
        Some(k) => k + 1,
        None => 0,
    }
}

fn word_forward_exec(pt: &PieceTable, p: usize, big: bool) -> (r: usize)
    requires
        pt.wf(),
    ensures
        r == word_forward(pt@, p as int, big),
{
    match pt.char_at(p) {
        None => p,
        Some(ch) => {
            let c = classify_as(ch, big);
            if c == CharClass::Whitespace {
                run_end_exec(pt, p, CharClass::Whitespace, big)
            } else {
                let e = run_end_exec(pt, p, c, big);
                match pt.char_at(e) {
                    Some(ce) => {
                        if classify_as(ce, big) == CharClass::Whitespace {
                            run_end_exec(pt, e, CharClass::Whitespace, big)
                        } else {
                            e
                        }
                    },
                    None => e,
                }
            }
        },
    }
}

fn word_backward_exec(pt: &PieceTable, p: usize, big: bool) -> (r: usize)
    requires
        pt.wf(),
    ensures
        r == word_backward(pt@, p as int, big),
{
    proof {
        lemma_last_match(
            pt@,
            CharPred::NotInClass(CharClass::Whitespace, big),
            clamp(pt@, p as int),
        );
    }
    match pt.last_index_of_pred(CharPred::NotInClass(CharClass::Whitespace, big), p) {
        None => 0,
        Some(k) => {
            let ch = match pt.char_at(k) {
                Some(ch) => ch,
                None => ' ',
            };
            run_start_exec(pt, k, classify_as(ch, big), big)
        },
    }
}

fn end_of_word_forward_exec(pt: &PieceTable, p: usize, big: bool) -> (r: usize)
    requires
        pt.wf(),
    ensures
        r == end_of_word_forward(pt@, p as int, big),
{
    let n = pt.len();
    if p >= n || p + 1 >= n {
        return p;
    }
    let ch = match pt.char_at(p) {
        Some(ch) => ch,
        None => ' ',
    };
    let next = match pt.char_at(p + 1) {
        Some(ch) => ch,
        None => ' ',
    };
    let c = classify_as(ch, big);
    if c != CharClass::Whitespace && classify_as(next, big) == c {
        run_end_exec(pt, p + 1, c, big) - 1
    } else {
        let w = run_end_exec(pt, p + 1, CharClass::Whitespace, big);
        match pt.char_at(w) {
            None => p,
            Some(cw) => run_end_exec(pt, w, classify_as(cw, big), big) - 1,
        }
    }
}

fn end_of_word_backward_exec(pt: &PieceTable, p: usize, big: bool) -> (r: usize)
    requires
        pt.wf(),
    ensures
        r == end_of_word_backward(pt@, p as int, big),
{
    match pt.char_at(p) {
        None => p,
        Some(ch) => {
            let c = classify_as(ch, big);
            proof {
                lemma_last_match(pt@, CharPred::NotInClass(c, big), p as int);
            }
            match pt.last_index_of_pred(CharPred::NotInClass(c, big), p) {
                None => 0,
                Some(q) => {
                    proof {
                        assert(q < p);
                        assert(last_match(pt@, CharPred::NotInClass(c, big), p as int) == Some(
                            q as nat,
                        ));
                        assert((if q + 1 < pt@.len() { q + 1 } else { pt@.len() as int }) == q
                            + 1);
                        lemma_last_match(
                            pt@,
                            CharPred::NotInClass(CharClass::Whitespace, big),
                            q + 1,
                        );
                    }
                    match pt.last_index_of_pred(
                        CharPred::NotInClass(CharClass::Whitespace, big),
                        q + 1,
                    ) {
                        Some(r) => r,
                        None => 0,
                    }
                },
            }
        },
    }
}

fn next_char_exec(pt: &PieceTable, p: usize, c: char, before: bool, dir: Direction) -> (r: usize)
    requires
        pt.wf(),
    ensures
        r == next_char(pt@, p as int, c, before, dir),
{
    proof {
        pt.lemma_len_fits();
    }
    match dir {
        Direction::Forward => {
            if p >= pt.len() {
                proof {
                    assert(first_match(pt@, CharPred::Is(c), p + 1) is None);
                }
                return p;
            }
            proof {
                lemma_first_match(pt@, CharPred::Is(c), p + 1);
            }
            match pt.index_of(c, p + 1) {
                Some(k) => if before {
                    k - 1
                } else {
                    k
                },
                None => p,
            }
        },
        Direction::Backward => {
            proof {
                lemma_last_match(pt@, CharPred::Is(c), clamp(pt@, p as int));
            }
            match pt.last_index_of(c, p) {
                Some(k) => if before {
                    k + 1
                } else {
                    k
                },
                None => p,
            }
        },
    }
}

fn line_step_exec(buf: &Buffer, p: usize, col: usize, dir: Direction) -> (r: usize)
    requires
        buf.wf(),
    ensures
        r == line_step(buf.text@, p as int, col as int, dir),
{
    let nl = match dir {
        Direction::Forward => buf.next_line_index(p),
        Direction::Backward => buf.last_line_index(p),
    };
    proof {
        buf.text.lemma_len_fits();
        lemma_first_match(buf.text@, CharPred::Is('\n'), nl as int);
        lemma_next_line_bound(buf.text@, p as int);
        lemma_prev_line_bound(buf.text@, p as int);
    }
    let ll = match buf.text.index_of('\n', nl) {
        Some(k) => k - nl,
        None => buf.text.len() - nl,
    };
    nl + if col < ll {
        col
    } else {
        ll
    }
}

proof fn lemma_next_line_bound(t: Seq<char>, p: int)
    ensures
        0 <= next_line_start(t, p) <= t.len(),
{
    if p >= 0 {
        lemma_first_match(t, CharPred::Is('\n'), p);
    }
}

proof fn lemma_prev_line_bound(t: Seq<char>, p: int)
    ensures
        0 <= prev_line_start(t, p) <= t.len(),
{
    if clamp(t, p) >= 0 {
        lemma_last_match(t, CharPred::Is('\n'), clamp(t, p));
        match last_match(t, CharPred::Is('\n'), clamp(t, p)) {
            Some(e) => {
                lemma_last_match(t, CharPred::Is('\n'), e as int);
            },
            None => {},
        }
    }
}

/// The range an object covers around `c`: first and last position. Where
/// there is no such object, the empty range at `c`.
pub open spec fn object_range(t: Seq<char>, obj: TextObject, c: int, count: nat, around: bool) -> (
    int,
    int,
) {
    let n = if count == 0 {
        1
    } else {
        count
    };
    match obj {
        TextObject::Word => if 0 <= c < t.len() {
            word_object(t, c, n, false, around)
        } else {
            (c, c)
        },
        TextObject::BigWord => if 0 <= c < t.len() {
            word_object(t, c, n, true, around)
        } else {
            (c, c)
        },
        TextObject::Block(o) => if is_block_char(o) {
            match block_object(t, o, c, around) {
                Some(r) => r,
                None => (c, c),
            }
        } else {
            (c, c)
        },
        TextObject::Paragraph => (c, c),
    }
}

/// Whether an object is there to act on.
pub open spec fn object_found(t: Seq<char>, obj: TextObject, c: int, around: bool) -> bool {
    match obj {
        TextObject::Word => 0 <= c < t.len(),
        TextObject::BigWord => 0 <= c < t.len(),
        TextObject::Block(o) => is_block_char(o) && block_object(t, o, c, around) is Some,
        TextObject::Paragraph => false,
    }
}

/// The range a motion covers from the cursor `c`: for an object, its first
/// and last position; for other motions, from `c` (from the start of its
/// line, for whole lines) to where the repeated motion lands.
pub open spec fn motion_range(t: Seq<char>, m: Motion, c: int) -> (int, int) {
    let col = c - line_start(t, c);
    match m.mo {
        MotionType::An(obj) => object_range(t, obj, c, m.count as nat, true),
        MotionType::Inner(obj) => object_range(t, obj, c, m.count as nat, false),
        MotionType::WholeLine => (line_start(t, c), steps(t, m.mo, c, col, m.count as nat)),
        _ => (c, steps(t, m.mo, c, col, m.count as nat)),
    }
}

fn step_exec(buf: &Buffer, mo: MotionType, p: usize, col: usize) -> (r: usize)
    requires
        buf.wf(),
    ensures
        r == step(buf.text@, mo, p as int, col as int),
{
    let pt = &buf.text;
    match mo {
        MotionType::Char(Direction::Forward) => {
            if p < pt.len() {
                p + 1
            } else {
                p
            }
        },
        MotionType::Char(Direction::Backward) => {
            if p > 0 {
                p - 1
            } else {
                p
            }
        },
        MotionType::Word(d) => match d {
            Direction::Forward => word_forward_exec(pt, p, false),
            Direction::Backward => word_backward_exec(pt, p, false),
        },
        MotionType::BigWord(d) => match d {
            Direction::Forward => word_forward_exec(pt, p, true),
            Direction::Backward => word_backward_exec(pt, p, true),
        },
        MotionType::EndOfWord(d) => match d {
            Direction::Forward => end_of_word_forward_exec(pt, p, false),
            Direction::Backward => end_of_word_backward_exec(pt, p, false),
        },
        MotionType::EndOfBigWord(d) => match d {
            Direction::Forward => end_of_word_forward_exec(pt, p, true),
            Direction::Backward => end_of_word_backward_exec(pt, p, true),
        },
        MotionType::NextChar { c, place_before, direction } => next_char_exec(
            pt,
            p,
            c,
            place_before,
            direction,
        ),
        MotionType::WholeLine => buf.next_line_index(p),
        MotionType::Line(d) => line_step_exec(buf, p, col, d),
        MotionType::StartOfLine => {
            let ls = buf.current_start_of_line(p);
            run_end_exec(pt, ls, CharClass::Whitespace, false)
        },
        MotionType::EndOfLine => {
            let e = buf.next_line_index(p);
            if e > 0 {
                e - 1
            } else {
                0
            }
        },
        _ => p,
    }
}

/// Where `count` repetitions of a word object starting at `start` end.
fn word_object_end_exec(
    pt: &PieceTable,
    start: usize,
    sc: CharClass,
    big: bool,
    around: bool,
    count: usize,
) -> (r: usize)
    requires
        pt.wf(),
        start <= pt@.len(),
    ensures
        r == word_object_end(pt@, start as int, sc, big, around, 0, count as nat),
        r >= run_end(pt@, start as int, sc, big) || count == 0,
        r >= start,
{
    let ghost t = pt@;
    let mut e = start;
    let mut i: usize = 0;
    while i < count
        invariant
            pt.wf(),
            t == pt@,
            i <= count,
            start <= e <= t.len(),
            i > 0 ==> e >= run_end(t, start as int, sc, big),
            i == 0 ==> e == start,
            word_object_end(t, e as int, sc, big, around, i as nat, count as nat)
                == word_object_end(t, start as int, sc, big, around, 0, count as nat),
        decreases count - i,
    {
        let e1 = run_end_exec(pt, e, sc, big);
        let e2 = if i > 0 || around {
            let cls = if sc == CharClass::Whitespace {
                match pt.char_at(e1) {
                    Some(ch) => classify_as(ch, big),
                    None => CharClass::Whitespace,
                }
            } else {
                CharClass::Whitespace
            };
            run_end_exec(pt, e1, cls, big)
        } else {
            e1
        };
        proof {
            assert(e1 >= e);
            assert(e2 >= e1);
            if i > 0 {
                lemma_run_end_mono(t, start as int, e as int, sc, big);
            } else {
                assert(e1 == run_end(t, start as int, sc, big));
            }
        }
        e = e2;
        i = i + 1;
    }
    e
}

proof fn lemma_run_end_mono(t: Seq<char>, a: int, b: int, cls: CharClass, big: bool)
    requires
        0 <= a <= b <= t.len(),
        b >= run_end(t, a, cls, big),
    ensures
        run_end(t, b, cls, big) >= run_end(t, a, cls, big),
{
    lemma_first_match(t, CharPred::NotInClass(cls, big), b);
}

/// The word object around `c`, as first and last position.
fn word_object_exec(pt: &PieceTable, c: usize, count: usize, big: bool, around: bool) -> (r: (
    usize,
    usize,
))
    requires
        pt.wf(),
        c < pt@.len(),
        count >= 1,
    ensures
        (r.0 as int, r.1 as int) == word_object(pt@, c as int, count as nat, big, around),
{
    let ghost t = pt@;
    let ch = match pt.char_at(c) {
        Some(ch) => ch,
        None => ' ',
    };
    let sc = classify_as(ch, big);
    let start = run_start_exec(pt, c, sc, big);
    if !around && sc == CharClass::Whitespace {
        return (start, c);
    }
    proof {
        lemma_last_match(t, CharPred::NotInClass(sc, big), c as int);
        lemma_first_match(t, CharPred::NotInClass(sc, big), start as int);
        match first_match(t, CharPred::NotInClass(sc, big), start as int) {
            Some(k) => {
                if k <= c {
                    assert(class_as(t[k as int], big) != sc);
                }
            },
            None => {},
        }
        assert(run_end(t, start as int, sc, big) > c);
    }
    let e = word_object_end_exec(pt, start, sc, big, around, count);
    (start, e - 1)
}

/// Scans back from `c` for the opening delimiter that encloses it.
fn block_open_exec(pt: &PieceTable, open: char, close: char, c: usize) -> (r: Option<usize>)
    requires
        pt.wf(),
    ensures
        r == (match block_open(pt@, open, close, c as int, c as int, 0) {
            Some(k) => Some(k as usize),
            None => None::<usize>,
        }),
{
    let ghost t = pt@;
    let n = pt.len();
    if c >= n {
        return None;
    }
    let mut k = c;
    let mut depth: usize = 0;
    loop
        invariant
            pt.wf(),
            t == pt@,
            n == t.len(),
            k <= c < n,
            depth <= c - k,
            block_open(t, open, close, c as int, k as int, depth as nat) == block_open(
                t,
                open,
                close,
                c as int,
                c as int,
                0,
            ),
        decreases k,
    {
        let ch = match pt.char_at(k) {
            Some(ch) => ch,
            None => ' ',
        };
        if ch == open && depth == 0 {
            return Some(k);
        }
        if k == 0 {
            proof {
                reveal_with_fuel(block_open, 2);
            }
            return None;
        }
        if ch == close && k < c && open != close {
            depth = depth + 1;
        } else if ch == open {
            depth = depth - 1;
        }
        k = k - 1;
    }
}

/// Scans forward from `k` for the delimiter that closes the block.
fn block_close_exec(pt: &PieceTable, open: char, close: char, from: usize) -> (r: Option<usize>)
    requires
        pt.wf(),
    ensures
        r == (match block_close(pt@, open, close, from as int, 0) {
            Some(k) => Some(k as usize),
            None => None::<usize>,
        }),
{
    let ghost t = pt@;
    let n = pt.len();
    let mut k = from;
    let mut depth: usize = 0;
    while k < n
        invariant
            pt.wf(),
            t == pt@,
            n == t.len(),
            from <= k,
            depth <= k - from,
            block_close(t, open, close, k as int, depth as nat) == block_close(
                t,
                open,
                close,
                from as int,
                0,
            ),
        decreases n - k,
    {
        let ch = match pt.char_at(k) {
            Some(ch) => ch,
            None => ' ',
        };
        if ch == close && depth == 0 {
            return Some(k);
        }
        if ch == open {
            depth = depth + 1;
        } else if ch == close {
            depth = depth - 1;
        }
        k = k + 1;
    }
    None
}

impl TextObject {
    /// The object around the cursor of `buf`, as first and last position;
    /// the empty range at the cursor where there is none.
    pub fn range(&self, buf: &Buffer, count: usize, around: bool) -> (r: Range<usize>)
        requires
            buf.wf(),
        ensures
            (r.start as int, r.end as int) == object_range(
                buf.text@,
                *self,
                buf.cursor_index as int,
                count as nat,
                around,
            ),
    {
        let c = buf.cursor_index;
        let n = if count == 0 {
            1
        } else {
            count
        };
        match *self {
            TextObject::Word => {
                if c < buf.text.len() {
                    let (s, e) = word_object_exec(&buf.text, c, n, false, around);
                    s..e
                } else {
                    c..c
                }
            },
            TextObject::BigWord => {
                if c < buf.text.len() {
                    let (s, e) = word_object_exec(&buf.text, c, n, true, around);
                    s..e
                } else {
                    c..c
                }
            },
            TextObject::Block(o) => {
                if o == '{' || o == '(' || o == '[' || o == '<' || o == '"' || o == '\'' {
                    let close = matching_block_char(o);
                    match block_open_exec(&buf.text, o, close, c) {
                        None => c..c,
                        Some(s) => {
                            proof {
                                buf.text.lemma_len_fits();
                                lemma_block_open_bound(buf.text@, o, close, c as int, c as int, 0);
                            }
                            match block_close_exec(&buf.text, o, close, s + 1) {
                                None => c..c,
                                Some(e) => {
                                    proof {
                                        lemma_block_close_bound(buf.text@, o, close, s + 1, 0);
                                    }
                                    if around {
                                        s..e
                                    } else {
                                        (s + 1)..(e - 1)
                                    }
                                },
                            }
                        },
                    }
                } else {
                    c..c
                }
            },
            TextObject::Paragraph => c..c,
        }
    }
}

proof fn lemma_block_open_bound(t: Seq<char>, open: char, close: char, c: int, k: int, depth: nat)
    ensures
        match block_open(t, open, close, c, k, depth) {
            Some(s) => s <= k && s < t.len(),
            None => true,
        },
    decreases k + 1,
{
    if 0 <= k < t.len() && !(t[k] == open && depth == 0) {
        if t[k] == close && k < c && open != close {
            lemma_block_open_bound(t, open, close, c, k - 1, depth + 1);
        } else if t[k] == open {
            lemma_block_open_bound(t, open, close, c, k - 1, (depth - 1) as nat);
        } else {
            lemma_block_open_bound(t, open, close, c, k - 1, depth);
        }
    }
}

proof fn lemma_block_close_bound(t: Seq<char>, open: char, close: char, k: int, depth: nat)
    ensures
        match block_close(t, open, close, k, depth) {
            Some(e) => k <= e < t.len(),
            None => true,
        },
    decreases t.len() - k,
{
    if 0 <= k < t.len() && !(t[k] == close && depth == 0) {
        if t[k] == open {
            lemma_block_close_bound(t, open, close, k + 1, depth + 1);
        } else if t[k] == close {
            lemma_block_close_bound(t, open, close, k + 1, (depth - 1) as nat);
        } else {
            lemma_block_close_bound(t, open, close, k + 1, depth);
        }
    }
}

/// Whether a block object stands around the cursor of `buf`.
pub(crate) fn block_found(buf: &Buffer, o: char, around: bool) -> (r: bool)
    requires
        buf.wf(),
        is_block_char(o),
    ensures
        r == (block_object(buf.text@, o, buf.cursor_index as int, around) is Some),
{
    let c = buf.cursor_index;
    let close = matching_block_char(o);
    match block_open_exec(&buf.text, o, close, c) {
        None => false,
        Some(s) => {
            proof {
                buf.text.lemma_len_fits();
                lemma_block_open_bound(buf.text@, o, close, c as int, c as int, 0);
            }
            block_close_exec(&buf.text, o, close, s + 1).is_some()
        },
    }
}

impl Motion {
    /// The range the motion covers from the cursor of `buf`.
    pub fn range(&self, buf: &Buffer) -> (r: Range<usize>)
        requires
            buf.wf(),
        ensures
            (r.start as int, r.end as int) == motion_range(
                buf.text@,
                *self,
                buf.cursor_index as int,
            ),
    {
        let c = buf.cursor_index;
        match self.mo {
            MotionType::An(obj) => {
                return obj.range(buf, self.count, true);
            },
            MotionType::Inner(obj) => {
                return obj.range(buf, self.count, false);
            },
            _ => {},
        }
        let col = buf.column_for_index(c);
        let mut e = c;
        let mut i: usize = 0;
        while i < self.count
            invariant
                buf.wf(),
                i <= self.count,
                col as int == c - line_start(buf.text@, c as int),
                e as int == steps(buf.text@, self.mo, c as int, col as int, i as nat),
            decreases self.count - i,
        {
            e = step_exec(buf, self.mo, e, col);
            i = i + 1;
        }
        let start = match self.mo {
            MotionType::WholeLine => buf.current_start_of_line(c),
            _ => c,
        };
        start..e
    }
}

pub open spec fn is_digit(c: char) -> bool {
    '0' <= c && c <= '9'
}

/// Where the run of digits starting at `i` ends.
pub open spec fn digit_end(s: Seq<char>, i: int) -> int
    decreases s.len() - i,
{
    if 0 <= i < s.len() && is_digit(s[i]) {
        digit_end(s, i + 1)
    } else {
        i
    }
}

/// The decimal value of the digits `from..to`.
pub open spec fn digits_value(s: Seq<char>, from: int, to: int) -> nat
    decreases to - from,
{
    if to <= from {
        0
    } else {
        digits_value(s, from, to - 1) * 10 + (s[to - 1] as nat - '0' as nat) as nat
    }
}

/// `v`, or the largest `usize` where it does not fit.
pub open spec fn saturate(v: nat) -> nat {
    if v > usize::MAX {
        usize::MAX as nat
    } else {
        v
    }
}

/// The number written at `pos`, if a digit stands there, and where it ends.
pub open spec fn number_at(s: Seq<char>, pos: int) -> (Option<nat>, int) {
    let e = digit_end(s, pos);
    if e > pos {
        (Some(saturate(digits_value(s, pos, e))), e)
    } else {
        (None, pos)
    }
}

/// Reads the decimal number at `pos`, if a digit stands there; gives it,
/// capped at the largest `usize`, and the position after it.
pub fn take_number(s: &Vec<char>, pos: usize) -> (r: (Option<usize>, usize))
    ensures
        r.1 == number_at(s@, pos as int).1,
        r.0 == (match number_at(s@, pos as int).0 {
            Some(v) => Some(v as usize),
            None => None::<usize>,
        }),
{
    let mut i = pos;
    let mut num: usize = 0;
    while i < s.len() && '0' <= s[i] && s[i] <= '9'
        invariant
            pos <= i <= s@.len() || i == pos,
            digit_end(s@, pos as int) == digit_end(s@, i as int),
            num as nat == saturate(digits_value(s@, pos as int, i as int)),
        decreases s@.len() - i,
    {
        let d = (s[i] as u32 - '0' as u32) as usize;
        let ghost v = digits_value(s@, pos as int, i as int);
        proof {
            assert(digits_value(s@, pos as int, i + 1) == v * 10 + d);
        }
        if num > (usize::MAX - d) / 10 {
            proof {
                if v <= usize::MAX {
                    assert(v * 10 + d > usize::MAX) by (nonlinear_arith)
                        requires
                            v > (usize::MAX - d) / 10,
                            d <= 9,
                    ;
                } else {
                    assert(v * 10 + d > usize::MAX) by (nonlinear_arith)
                        requires
                            v > usize::MAX,
                    ;
                }
            }
            num = usize::MAX;
        } else {
            proof {
                assert(num * 10 + d <= usize::MAX) by (nonlinear_arith)
                    requires
                        num <= (usize::MAX - d) / 10,
                        d <= 9,
                ;
                if v > usize::MAX {
                    assert(num == usize::MAX);
                    assert(false) by (nonlinear_arith)
                        requires
                            num <= (usize::MAX - d) / 10,
                            num == usize::MAX,
                            d <= 9,
                    ;
                }
            }
            num = num * 10 + d;
        }
        i = i + 1;
    }
    if i > pos {
        (Some(num), i)
    } else {
        (None, pos)
    }
}

/// The motion one key names by itself.
pub open spec fn key_motion(c: char) -> Option<MotionType> {
    if c == 'h' {
        Some(MotionType::Char(Direction::Backward))
    } else if c == 'j' {
        Some(MotionType::Line(Direction::Forward))
    } else if c == 'k' {
        Some(MotionType::Line(Direction::Backward))
    } else if c == 'l' {
        Some(MotionType::Char(Direction::Forward))
    } else if c == 'w' {
        Some(MotionType::Word(Direction::Forward))
    } else if c == 'b' {
        Some(MotionType::Word(Direction::Backward))
    } else if c == 'W' {
        Some(MotionType::BigWord(Direction::Forward))
    } else if c == 'B' {
        Some(MotionType::BigWord(Direction::Backward))
    } else if c == 'e' {
        Some(MotionType::EndOfWord(Direction::Forward))
    } else if c == 'E' {
        Some(MotionType::EndOfBigWord(Direction::Forward))
    } else if c == '^' {
        Some(MotionType::StartOfLine)
    } else if c == '$' {
        Some(MotionType::EndOfLine)
    } else if c == '_' {
        Some(MotionType::WholeLine)
    } else {
        None
    }
}

/// The object a key names after `i` or `a`.
pub open spec fn key_object(c: char) -> Option<TextObject> {
    if c == 'w' {
        Some(TextObject::Word)
    } else if c == 'W' {
        Some(TextObject::BigWord)
    } else if c == 'p' {
        Some(TextObject::Paragraph)
    } else if c == '{' || c == '}' {
        Some(TextObject::Block('{'))
    } else if c == '(' || c == ')' {
        Some(TextObject::Block('('))
    } else if c == '[' || c == ']' {
        Some(TextObject::Block('['))
    } else if c == '<' || c == '>' {
        Some(TextObject::Block('<'))
    } else if c == '"' {
        Some(TextObject::Block('"'))
    } else if c == '\'' {
        Some(TextObject::Block('\''))
    } else {
        None
    }
}

/// How parsing a motion turns out.
pub enum MotionParse {
    /// A motion, and the position after it.
    Done(Motion, int),
    Incomplete,
    Unknown,
}

/// The motion written at `pos`: an optional count, then a key (two for
/// `g`, `f`, `F`, `t`, `T`, and, after an operator, `i` and `a`). The key of
/// the operator itself, repeated, means the whole line.
pub open spec fn parse_motion(s: Seq<char>, pos: int, opchar: Option<char>) -> MotionParse {
    let (n, i) = number_at(s, pos);
    let count = match n {
        Some(v) => v as usize,
        None => 1usize,
    };
    if i >= s.len() {
        MotionParse::Incomplete
    } else {
        let c = s[i];
        match key_motion(c) {
            Some(mo) => MotionParse::Done(Motion { count, mo }, i + 1),
            None => if c == 'g' {
                if i + 1 >= s.len() {
                    MotionParse::Incomplete
                } else if s[i + 1] == 'e' {
                    MotionParse::Done(
                        Motion { count, mo: MotionType::EndOfWord(Direction::Backward) },
                        i + 2,
                    )
                } else if s[i + 1] == 'E' {
                    MotionParse::Done(
                        Motion { count, mo: MotionType::EndOfBigWord(Direction::Backward) },
                        i + 2,
                    )
                } else {
                    MotionParse::Unknown
                }
            } else if c == 'f' || c == 'F' || c == 't' || c == 'T' {
                if i + 1 >= s.len() {
                    MotionParse::Incomplete
                } else {
                    MotionParse::Done(
                        Motion {
                            count,
                            mo: MotionType::NextChar {
                                c: s[i + 1],
                                place_before: c == 't' || c == 'T',
                                direction: if c == 'f' || c == 't' {
                                    Direction::Forward
                                } else {
                                    Direction::Backward
                                },
                            },
                        },
                        i + 2,
                    )
                }
            } else if (c == 'i' || c == 'a') && opchar is Some {
                if i + 1 >= s.len() {
                    MotionParse::Incomplete
                } else {
                    match key_object(s[i + 1]) {
                        Some(obj) => MotionParse::Done(
                            Motion {
                                count,
                                mo: if c == 'i' {
                                    MotionType::Inner(obj)
                                } else {
                                    MotionType::An(obj)
                                },
                            },
                            i + 2,
                        ),
                        None => MotionParse::Unknown,
                    }
                }
            } else if c == ';' {
                MotionParse::Done(
                    Motion { count, mo: MotionType::RepeatNextChar { opposite: true } },
                    i + 1,
                )
            } else if opchar == Some(c) {
                MotionParse::Done(Motion { count, mo: MotionType::WholeLine }, i + 1)
            } else {
                MotionParse::Unknown
            }
        }
    }
}

/// What a parse result says, in the terms of `parse_motion`; `whole` is the
/// text an unknown command is reported with.
pub open spec fn motion_result_is(
    r: Result<(Motion, usize), Error>,
    p: MotionParse,
    whole: Seq<char>,
) -> bool {
    match (r, p) {
        (Ok((m, next)), MotionParse::Done(pm, pn)) => m == pm && next == pn,
        (Err(Error::IncompleteCommand), MotionParse::Incomplete) => true,
        (Err(Error::UnknownCommand(x)), MotionParse::Unknown) => x@ == whole,
        _ => false,
    }
}

fn key_motion_exec(c: char) -> (r: Option<MotionType>)
    ensures
        r == key_motion(c),
{
    match c {
        'h' => Some(MotionType::Char(Direction::Backward)),
        'j' => Some(MotionType::Line(Direction::Forward)),
        'k' => Some(MotionType::Line(Direction::Backward)),
        'l' => Some(MotionType::Char(Direction::Forward)),
        'w' => Some(MotionType::Word(Direction::Forward)),
        'b' => Some(MotionType::Word(Direction::Backward)),
        'W' => Some(MotionType::BigWord(Direction::Forward)),
        'B' => Some(MotionType::BigWord(Direction::Backward)),
        'e' => Some(MotionType::EndOfWord(Direction::Forward)),
        'E' => Some(MotionType::EndOfBigWord(Direction::Forward)),
        '^' => Some(MotionType::StartOfLine),
        '$' => Some(MotionType::EndOfLine),
        '_' => Some(MotionType::WholeLine),
        _ => None,
    }
}

fn key_object_exec(c: char) -> (r: Option<TextObject>)
    ensures
        r == key_object(c),
{
    match c {
        'w' => Some(TextObject::Word),
        'W' => Some(TextObject::BigWord),
        'p' => Some(TextObject::Paragraph),
        '{' | '}' => Some(TextObject::Block('{')),
        '(' | ')' => Some(TextObject::Block('(')),
        '[' | ']' => Some(TextObject::Block('[')),
        '<' | '>' => Some(TextObject::Block('<')),
        '"' => Some(TextObject::Block('"')),
        '\'' => Some(TextObject::Block('\'')),
        _ => None,
    }
}

/// An unknown-command error that reports `whole`.
pub(crate) fn unknown(whole: &str) -> (e: Error)
    ensures
        match e {
            Error::UnknownCommand(x) => x@ == whole@,
            _ => false,
        },
{
    let v = crate::piece_table::chars_of(whole);
    Error::UnknownCommand(string_of(&v))
}

impl Motion {
    /// Parses the motion written in `c` from `pos`; `opchar` is the key of
    /// the operator before it, if any, and `wholecmd` the whole command,
    /// which an unknown motion is reported with. Gives the motion and the
    /// position after it.
    pub fn parse(c: &Vec<char>, pos: usize, opchar: Option<char>, wholecmd: &str) -> (r: Result<
        (Motion, usize),
        Error,
    >)
        ensures
            motion_result_is(r, parse_motion(c@, pos as int, opchar), wholecmd@),
    {
        let (n, i) = take_number(c, pos);
        let count = match n {
            Some(v) => v,
            None => 1,
        };
        if i >= c.len() {
            return Err(Error::IncompleteCommand);
        }
        let k = c[i];
        match key_motion_exec(k) {
            Some(mo) => {
                return Ok((Motion { count, mo }, i + 1));
            },
            None => {},
        }
        if k == 'g' {
            if i + 1 >= c.len() {
                return Err(Error::IncompleteCommand);
            }
            let mo = if c[i + 1] == 'e' {
                MotionType::EndOfWord(Direction::Backward)
            } else if c[i + 1] == 'E' {
                MotionType::EndOfBigWord(Direction::Backward)
            } else {
                return Err(unknown(wholecmd));
            };
            Ok((Motion { count, mo }, i + 2))
        } else if k == 'f' || k == 'F' || k == 't' || k == 'T' {
            if i + 1 >= c.len() {
                return Err(Error::IncompleteCommand);
            }
            let direction = if k == 'f' || k == 't' {
                Direction::Forward
            } else {
                Direction::Backward
            };
            let mo = MotionType::NextChar {
                c: c[i + 1],
                place_before: k == 't' || k == 'T',
                direction,
            };
            Ok((Motion { count, mo }, i + 2))
        } else if (k == 'i' || k == 'a') && opchar.is_some() {
            if i + 1 >= c.len() {
                return Err(Error::IncompleteCommand);
            }
            match key_object_exec(c[i + 1]) {
                Some(obj) => {
                    let mo = if k == 'i' {
                        MotionType::Inner(obj)
                    } else {
                        MotionType::An(obj)
                    };
                    Ok((Motion { count, mo }, i + 2))
                },
                None => Err(unknown(wholecmd)),
            }
        } else if k == ';' {
            Ok((Motion { count, mo: MotionType::RepeatNextChar { opposite: true } }, i + 1))
        } else if opchar == Some(k) {
            Ok((Motion { count, mo: MotionType::WholeLine }, i + 1))
        } else {
            Err(unknown(wholecmd))
        }
    }
}

} // verus!
