//! Commands: parsing a growing string of keys, and carrying a command out on
//! a buffer and a store of registers.
use vstd::prelude::*;
use crate::{Direction, Error, ModeTag};
use crate::buffer::{
    Buffer, IndentConfig, line_start, next_line_start, clamp, repeat, indent_width, undent_run,
    lemma_undent_run_bound,
};
use crate::char_class::{CharClass, CharPred, class_of, classify, first_match, lemma_first_match};
use crate::motion::{
    Motion, MotionType, MotionParse, TextObject, motion_range, number_at, object_found,
    parse_motion, take_number, unknown,
};
use crate::piece_table::{chars_of, string_of, edit_step, last_inserted};
use crate::text_model::{piece_text, piece_valid};

verus! {

#[derive(Copy, Clone, Debug, PartialEq, Eq, Structural)]
pub enum Operator {
    Delete,
    Change,
    Yank,
    Indent(Direction),
    MoveAndEnterMode(ModeTag),
    NewLineAndEnterMode(Direction, ModeTag),
    ReplaceChar(char),
}

#[derive(Copy, Clone, Debug, PartialEq, Eq, Structural)]
pub enum ViewportMotion {
    CursorToMiddle,
    Line(Direction, usize),
}

#[derive(Copy, Clone, Debug, PartialEq, Eq, Structural)]
pub enum Command {
    Move(Motion),
    Repeat { count: usize },
    Undo { count: usize },
    Redo { count: usize },
    JoinLine { count: usize },
    Put { count: usize, source_register: char, clear_register: bool },
    Edit { op: Operator, op_count: usize, mo: Motion, target_register: char },
    Leader(char),
    Viewport(ViewportMotion),
    ChangeMode(ModeTag),
}

/// One named register and what it holds.
pub struct RegisterEntry {
    name: char,
    text: String,
}

/// Named registers holding text; a later entry for a name hides earlier ones.
pub struct Registers {
    entries: Vec<RegisterEntry>,
}

pub open spec fn lookup(es: Seq<(char, Seq<char>)>, c: char) -> Option<Seq<char>>
    decreases es.len(),
{
    if es.len() == 0 {
        None
    } else if es.last().0 == c {
        Some(es.last().1)
    } else {
        lookup(es.drop_last(), c)
    }
}

spec fn entries_view(v: Seq<RegisterEntry>) -> Seq<(char, Seq<char>)> {
    v.map_values(|e: RegisterEntry| (e.name, e.text@))
}

impl Registers {
    pub closed spec fn entries(&self) -> Seq<(char, Seq<char>)> {
        entries_view(self.entries@)
    }

    /// What each register holds.
    pub closed spec fn view(&self) -> Map<char, Seq<char>> {
        Map::new(|c: char| lookup(self.entries(), c) is Some, |c: char| lookup(self.entries(), c)->0)
    }

    pub fn new() -> (r: Registers)
        ensures
            r@ == Map::<char, Seq<char>>::empty(),
    {
        let r = Registers { entries: Vec::new() };
        proof {
            assert(r@ =~= Map::<char, Seq<char>>::empty());
        }
        r
    }

    /// What register `c` holds.
    pub fn get(&self, c: char) -> (r: Option<String>)
        ensures
            match r {
                Some(s) => self@.contains_key(c) && self@[c] == s@,
                None => !self@.contains_key(c),
            },
    {
        let ghost es = self.entries();
        let mut i = self.entries.len();
        proof {
            assert(es.subrange(0, i as int) =~= es);
        }
        while i > 0
            invariant
                i <= self.entries@.len(),
                es == self.entries(),
                lookup(es, c) == lookup(es.subrange(0, i as int), c),
            decreases i,
        {
            proof {
                assert(es.subrange(0, i as int).drop_last() =~= es.subrange(0, i - 1));
            }
            if self.entries[i - 1].name == c {
                return Some(self.entries[i - 1].text.clone());
            }
            i = i - 1;
        }
        None
    }

    /// Makes register `c` hold `s`.
    pub fn insert(&mut self, c: char, s: String)
        ensures
            final(self)@ == old(self)@.insert(c, s@),
    {
        let ghost old_es = self.entries();
        self.entries.push(RegisterEntry { name: c, text: s });
        proof {
            assert(self.entries().drop_last() =~= old_es);
            assert(self@ =~= old(self)@.insert(c, s@));
        }
    }

    /// Empties register `c`.
    pub fn remove(&mut self, c: char)
        ensures
            final(self)@ == old(self)@.remove(c),
    {
        let ghost es = self.entries();
        let mut kept: Vec<RegisterEntry> = Vec::new();
        let mut i: usize = 0;
        while i < self.entries.len()
            invariant
                i <= self.entries@.len(),
                es == self.entries(),
                lookup(entries_view(kept@), c) is None,
                forall|d: char|
                    d != c ==> #[trigger] lookup(
                        entries_view(kept@),
                        d,
                    ) == lookup(es.subrange(0, i as int), d),
            decreases self.entries@.len() - i,
        {
            let ghost k0 = entries_view(kept@);
            let name = self.entries[i].name;
            if name != c {
                let text = self.entries[i].text.clone();
                kept.push(RegisterEntry { name, text });
            }
            proof {
                let k1 = entries_view(kept@);
                assert(es.subrange(0, i + 1).drop_last() =~= es.subrange(0, i as int));
                assert(es[i as int].0 == name);
                if name != c {
                    assert(k1.drop_last() =~= k0);
                    assert(k1.last() == es[i as int]);
                } else {
                    assert(k1 =~= k0);
                }
                assert forall|d: char| d != c implies #[trigger] lookup(k1, d) == lookup(
                    es.subrange(0, i + 1),
                    d,
                ) by {
                    assert(es.subrange(0, i + 1).last() == es[i as int]);
                    assert(lookup(k0, d) == lookup(es.subrange(0, i as int), d));
                }
            }
            i = i + 1;
        }
        proof {
            assert(es.subrange(0, i as int) =~= es);
        }
        self.entries = kept;
        proof {
            assert(self@ =~= old(self)@.remove(c));
        }
    }
}

/// How parsing a command turns out.
pub enum CommandParse {
    Done(Command),
    Incomplete,
    Unknown,
    Invalid,
}

/// The command one key names at the very start of the keys.
pub open spec fn first_key_command(c: char) -> Option<Command> {
    let ins = ModeTag::Insert;
    if c == 'i' {
        Some(Command::ChangeMode(ins))
    } else if c == 'I' {
        Some(
            Command::Edit {
                op: Operator::MoveAndEnterMode(ins),
                op_count: 1,
                mo: Motion { count: 1, mo: MotionType::StartOfLine },
                target_register: '"',
            },
        )
    } else if c == 'a' {
        Some(
            Command::Edit {
                op: Operator::MoveAndEnterMode(ins),
                op_count: 1,
                mo: Motion { count: 1, mo: MotionType::Char(Direction::Forward) },
                target_register: '"',
            },
        )
    } else if c == 'A' {
        Some(
            Command::Edit {
                op: Operator::MoveAndEnterMode(ins),
                op_count: 1,
                mo: Motion { count: 1, mo: MotionType::EndOfLine },
                target_register: '"',
            },
        )
    } else if c == 'o' {
        Some(
            Command::Edit {
                op: Operator::NewLineAndEnterMode(Direction::Forward, ins),
                op_count: 1,
                mo: Motion { count: 1, mo: MotionType::Line(Direction::Forward) },
                target_register: '"',
            },
        )
    } else if c == 'O' {
        Some(
            Command::Edit {
                op: Operator::NewLineAndEnterMode(Direction::Backward, ins),
                op_count: 1,
                mo: Motion { count: 1, mo: MotionType::Line(Direction::Backward) },
                target_register: '"',
            },
        )
    } else if c == 'v' {
        Some(Command::ChangeMode(ModeTag::Visual))
    } else if c == ':' {
        Some(Command::ChangeMode(ModeTag::Command))
    } else if c == '/' {
        Some(Command::ChangeMode(ModeTag::Search(Direction::Forward)))
    } else if c == '?' {
        Some(Command::ChangeMode(ModeTag::Search(Direction::Backward)))
    } else {
        None
    }
}

/// The operator a key names.
pub open spec fn key_operator(c: char) -> Option<Operator> {
    if c == 'd' {
        Some(Operator::Delete)
    } else if c == 'c' {
        Some(Operator::Change)
    } else if c == 'y' {
        Some(Operator::Yank)
    } else if c == '<' {
        Some(Operator::Indent(Direction::Backward))
    } else if c == '>' {
        Some(Operator::Indent(Direction::Forward))
    } else {
        None
    }
}

/// `a * b`, or the largest `usize` where it does not fit.
pub open spec fn saturating_product(a: nat, b: nat) -> nat {
    if a * b > usize::MAX {
        usize::MAX as nat
    } else {
        a * b
    }
}

/// The command that a complete key after the register and count names,
/// where that key alone decides it.
pub open spec fn count_key_command(c: char, count: usize, reg: char) -> Option<Command> {
    if c == '.' {
        Some(Command::Repeat { count })
    } else if c == 'u' {
        Some(Command::Undo { count })
    } else if c == 'U' {
        Some(Command::Redo { count })
    } else if c == 'J' {
        Some(Command::JoinLine { count })
    } else if c == 'x' {
        Some(
            Command::Edit {
                op: Operator::Delete,
                op_count: count,
                mo: Motion { count: 1, mo: MotionType::Char(Direction::Forward) },
                target_register: reg,
            },
        )
    } else if c == 'p' {
        Some(Command::Put { count, source_register: reg, clear_register: true })
    } else if c == 'P' {
        Some(Command::Put { count, source_register: reg, clear_register: false })
    } else {
        None
    }
}

/// The command the keys `s` spell: a single-key command at the start;
/// otherwise an optional `"` and register, an optional count, and then a
/// command key, an operator and its motion, or a bare motion.
pub open spec fn parse_command(s: Seq<char>) -> CommandParse {
    if s.len() == 0 {
        CommandParse::Invalid
    } else if first_key_command(s[0]) is Some {
        CommandParse::Done(first_key_command(s[0])->0)
    } else if s[0] == 'r' {
        if s.len() < 2 {
            CommandParse::Incomplete
        } else {
            CommandParse::Done(
                Command::Edit {
                    op: Operator::ReplaceChar(s[1]),
                    op_count: 1,
                    mo: Motion { count: 0, mo: MotionType::Char(Direction::Forward) },
                    target_register: '"',
                },
            )
        }
    } else {
        let reg_end: int = if s[0] == '"' {
            if s.len() >= 2 {
                2
            } else {
                1
            }
        } else {
            0
        };
        let reg = if s[0] == '"' && s.len() >= 2 {
            s[1]
        } else {
            '"'
        };
        let (n, key_at) = number_at(s, reg_end);
        let count: usize = match n {
            Some(v) => v as usize,
            None => 1,
        };
        if key_at < s.len() && count_key_command(s[key_at], count, reg) is Some {
            CommandParse::Done(count_key_command(s[key_at], count, reg)->0)
        } else if key_at < s.len() && s[key_at] == ' ' {
            if key_at + 1 < s.len() {
                CommandParse::Done(Command::Leader(s[key_at + 1]))
            } else {
                CommandParse::Incomplete
            }
        } else if key_at < s.len() && s[key_at] == 'z' {
            if key_at + 1 >= s.len() {
                CommandParse::Incomplete
            } else if s[key_at + 1] == 'z' {
                CommandParse::Done(Command::Viewport(ViewportMotion::CursorToMiddle))
            } else if s[key_at + 1] == 'j' {
                CommandParse::Done(
                    Command::Viewport(ViewportMotion::Line(Direction::Forward, count)),
                )
            } else if s[key_at + 1] == 'k' {
                CommandParse::Done(
                    Command::Viewport(ViewportMotion::Line(Direction::Backward, count)),
                )
            } else {
                CommandParse::Unknown
            }
        } else if key_at < s.len() && key_operator(s[key_at]) is Some {
            match parse_motion(s, key_at + 1, Some(s[key_at])) {
                MotionParse::Done(m, _) => CommandParse::Done(
                    Command::Edit {
                        op: key_operator(s[key_at])->0,
                        op_count: count,
                        mo: m,
                        target_register: reg,
                    },
                ),
                MotionParse::Incomplete => CommandParse::Incomplete,
                MotionParse::Unknown => CommandParse::Unknown,
            }
        } else {
            match parse_motion(s, key_at, None) {
                MotionParse::Done(m, _) => CommandParse::Done(
                    Command::Move(
                        Motion {
                            count: match n {
                                Some(v) => saturating_product(m.count as nat, v) as usize,
                                None => m.count,
                            },
                            mo: m.mo,
                        },
                    ),
                ),
                MotionParse::Incomplete => CommandParse::Incomplete,
                MotionParse::Unknown => CommandParse::Unknown,
            }
        }
    }
}

/// What a parse result says, in the terms of `parse_command`.
pub open spec fn command_result_is(r: Result<Command, Error>, p: CommandParse, s: Seq<char>) -> bool {
    match (r, p) {
        (Ok(c), CommandParse::Done(pc)) => c == pc,
        (Err(Error::IncompleteCommand), CommandParse::Incomplete) => true,
        (Err(Error::UnknownCommand(x)), CommandParse::Unknown) => x@ == s,
        (Err(Error::InvalidCommand(x)), CommandParse::Invalid) => x@ == s,
        _ => false,
    }
}

fn first_key_command_exec(c: char) -> (r: Option<Command>)
    ensures
        r == first_key_command(c),
{
    let ins = ModeTag::Insert;
    match c {
        'i' => Some(Command::ChangeMode(ins)),
        'I' => Some(
            Command::Edit {
                op: Operator::MoveAndEnterMode(ins),
                op_count: 1,
                mo: Motion { count: 1, mo: MotionType::StartOfLine },
                target_register: '"',
            },
        ),
        'a' => Some(
            Command::Edit {
                op: Operator::MoveAndEnterMode(ins),
                op_count: 1,
                mo: Motion { count: 1, mo: MotionType::Char(Direction::Forward) },
                target_register: '"',
            },
        ),
        'A' => Some(
            Command::Edit {
                op: Operator::MoveAndEnterMode(ins),
                op_count: 1,
                mo: Motion { count: 1, mo: MotionType::EndOfLine },
                target_register: '"',
            },
        ),
        'o' => Some(
            Command::Edit {
                op: Operator::NewLineAndEnterMode(Direction::Forward, ins),
                op_count: 1,
                mo: Motion { count: 1, mo: MotionType::Line(Direction::Forward) },
                target_register: '"',
            },
        ),
        'O' => Some(
            Command::Edit {
                op: Operator::NewLineAndEnterMode(Direction::Backward, ins),
                op_count: 1,
                mo: Motion { count: 1, mo: MotionType::Line(Direction::Backward) },
                target_register: '"',
            },
        ),
        'v' => Some(Command::ChangeMode(ModeTag::Visual)),
        ':' => Some(Command::ChangeMode(ModeTag::Command)),
        '/' => Some(Command::ChangeMode(ModeTag::Search(Direction::Forward))),
        '?' => Some(Command::ChangeMode(ModeTag::Search(Direction::Backward))),
        _ => None,
    }
}

fn key_operator_exec(c: char) -> (r: Option<Operator>)
    ensures
        r == key_operator(c),
{
    match c {
        'd' => Some(Operator::Delete),
        'c' => Some(Operator::Change),
        'y' => Some(Operator::Yank),
        '<' => Some(Operator::Indent(Direction::Backward)),
        '>' => Some(Operator::Indent(Direction::Forward)),
        _ => None,
    }
}

fn count_key_command_exec(c: char, count: usize, reg: char) -> (r: Option<Command>)
    ensures
        r == count_key_command(c, count, reg),
{
    match c {
        '.' => Some(Command::Repeat { count }),
        'u' => Some(Command::Undo { count }),
        'U' => Some(Command::Redo { count }),
        'J' => Some(Command::JoinLine { count }),
        'x' => Some(
            Command::Edit {
                op: Operator::Delete,
                op_count: count,
                mo: Motion { count: 1, mo: MotionType::Char(Direction::Forward) },
                target_register: reg,
            },
        ),
        'p' => Some(Command::Put { count, source_register: reg, clear_register: true }),
        'P' => Some(Command::Put { count, source_register: reg, clear_register: false }),
        _ => None,
    }
}

fn mul_saturating(a: usize, b: usize) -> (r: usize)
    ensures
        r == saturating_product(a as nat, b as nat),
{
    if b == 0 {
        0
    } else if a > usize::MAX / b {
        proof {
            assert(a * b > usize::MAX) by (nonlinear_arith)
                requires
                    a > usize::MAX / b,
                    b > 0,
            ;
        }
        usize::MAX
    } else {
        proof {
            assert(a * b <= usize::MAX) by (nonlinear_arith)
                requires
                    a <= usize::MAX / b,
                    b > 0,
            ;
        }
        a * b
    }
}

fn invalid(whole: &str) -> (e: Error)
    ensures
        match e {
            Error::InvalidCommand(x) => x@ == whole@,
            _ => false,
        },
{
    let v = chars_of(whole);
    Error::InvalidCommand(string_of(&v))
}

impl Command {
    /// Parses the keys typed so far. `IncompleteCommand` asks for more keys;
    /// the other errors mean the keys should be dropped.
    pub fn parse(s: &str) -> (r: Result<Command, Error>)
        ensures
            command_result_is(r, parse_command(s@), s@),
    {
        let c = chars_of(s);
        let n = c.len();
        if n == 0 {
            return Err(invalid(s));
        }
        match first_key_command_exec(c[0]) {
            Some(cmd) => {
                return Ok(cmd);
            },
            None => {},
        }
        if c[0] == 'r' {
            if n < 2 {
                return Err(Error::IncompleteCommand);
            }
            return Ok(
                Command::Edit {
                    op: Operator::ReplaceChar(c[1]),
                    op_count: 1,
                    mo: Motion { count: 0, mo: MotionType::Char(Direction::Forward) },
                    target_register: '"',
                },
            );
        }
        let reg_end: usize = if c[0] == '"' {
            if n >= 2 {
                2
            } else {
                1
            }
        } else {
            0
        };
        let reg = if c[0] == '"' && n >= 2 {
            c[1]
        } else {
            '"'
        };
        let (num, key_at) = take_number(&c, reg_end);
        let count = match num {
            Some(v) => v,
            None => 1,
        };
        if key_at < n {
            let k = c[key_at];
            match count_key_command_exec(k, count, reg) {
                Some(cmd) => {
                    return Ok(cmd);
                },
                None => {},
            }
            if k == ' ' {
                if key_at + 1 < n {
                    return Ok(Command::Leader(c[key_at + 1]));
                }
                return Err(Error::IncompleteCommand);
            }
            if k == 'z' {
                if key_at + 1 >= n {
                    return Err(Error::IncompleteCommand);
                }
                let k2 = c[key_at + 1];
                if k2 == 'z' {
                    return Ok(Command::Viewport(ViewportMotion::CursorToMiddle));
                } else if k2 == 'j' {
                    return Ok(Command::Viewport(ViewportMotion::Line(Direction::Forward, count)));
                } else if k2 == 'k' {
                    return Ok(Command::Viewport(ViewportMotion::Line(Direction::Backward, count)));
                } else {
                    return Err(unknown(s));
                }
            }
            match key_operator_exec(k) {
                Some(op) => {
                    return match Motion::parse(&c, key_at + 1, Some(k), s) {
                        Ok((mo, _)) => Ok(
                            Command::Edit { op, op_count: count, mo, target_register: reg },
                        ),
                        Err(e) => Err(e),
                    };
                },
                None => {},
            }
        }
        match Motion::parse(&c, key_at, None, s) {
            Ok((mo, _)) => {
                let cnt = match num {
                    Some(v) => mul_saturating(mo.count, v),
                    None => mo.count,
                };
                Ok(Command::Move(Motion { count: cnt, mo: mo.mo }))
            },
            Err(e) => Err(e),
        }
    }
}

/// Where a put inserts: text ending in a newline goes in as whole lines,
/// at the start of the line after the cursor; other text at the cursor.
pub open spec fn put_point(t: Seq<char>, c: int, reg: Seq<char>) -> int {
    if reg.len() > 0 && reg.last() == '\n' {
        next_line_start(t, c)
    } else {
        clamp(t, c)
    }
}

/// `t` after joining the line at `c` with the next one `k` times.
pub open spec fn join_lines(t: Seq<char>, c: int, k: nat) -> Seq<char>
    decreases k,
{
    if k == 0 {
        t
    } else {
        let u = join_lines(t, c, (k - 1) as nat);
        match first_match(u, CharPred::Is('\n'), c) {
            Some(i) => u.remove(i as int),
            None => u,
        }
    }
}

/// The motions whose range includes the character they land on.
pub open spec fn inclusive(mo: MotionType) -> bool {
    match mo {
        MotionType::EndOfWord(_) => true,
        MotionType::EndOfBigWord(_) => true,
        MotionType::NextChar { .. } => true,
        MotionType::EndOfLine => true,
        MotionType::An(_) => true,
        MotionType::Inner(_) => true,
        _ => false,
    }
}

/// The motion an operator acts over, its count multiplied by the
/// operator's.
pub open spec fn scaled(mo: Motion, op_count: usize) -> Motion {
    Motion { count: saturating_product(mo.count as nat, op_count as nat) as usize, mo: mo.mo }
}

/// The half-open span of text an operator acts on; `None` where an object
/// is missing.
pub open spec fn edit_span(t: Seq<char>, mo: Motion, c: int, op_count: usize) -> Option<(int, int)> {
    let m = scaled(mo, op_count);
    let (a, b) = motion_range(t, m, c);
    let missing = match mo.mo {
        MotionType::An(obj) => !object_found(t, obj, c, true),
        MotionType::Inner(obj) => !object_found(t, obj, c, false),
        _ => false,
    };
    if missing {
        None
    } else {
        let lo = if a < b {
            a
        } else {
            b
        };
        let hi0 = if a < b {
            b
        } else {
            a
        };
        let hi1 = if inclusive(mo.mo) {
            hi0 + 1
        } else {
            hi0
        };
        let hi = if hi1 > t.len() {
            t.len() as int
        } else {
            hi1
        };
        let lo2 = if lo > hi {
            hi
        } else {
            lo
        };
        Some((lo2, hi))
    }
}

/// A change keeps the blanks that end its span, so that it does not swallow
/// a line break.
pub open spec fn trim_blank_end(t: Seq<char>, lo: int, hi: int) -> int
    decreases hi - lo,
{
    if hi > lo + 1 && class_of(t[hi - 1]) == CharClass::Whitespace {
        trim_blank_end(t, lo, hi - 1)
    } else {
        hi
    }
}

/// The end of the span a delete or change removes.
pub open spec fn removal_end(t: Seq<char>, op: Operator, lo: int, hi: int) -> int {
    if op == Operator::Change && lo < hi && class_of(t[lo]) != CharClass::Whitespace {
        trim_blank_end(t, lo, hi)
    } else {
        hi
    }
}

/// Room in the log for `k` more actions.
pub open spec fn log_room(buf: Buffer, k: int) -> bool {
    buf.text.next_id() + k < usize::MAX
}

fn has_room(buf: &Buffer, k: usize) -> (r: bool)
    ensures
        r == log_room(*buf, k as int),
{
    let id = buf.text.next_action_id();
    id < usize::MAX && k < usize::MAX - id
}

/// The span an operator acts on, where there is one.
fn edit_span_exec(buf: &Buffer, mo: Motion, op_count: usize) -> (r: Option<(usize, usize)>)
    requires
        buf.wf(),
    ensures
        match edit_span(buf.text@, mo, buf.cursor_index as int, op_count) {
            Some((lo, hi)) => r == Some((lo as usize, hi as usize)) && 0 <= lo <= hi
                <= buf.text@.len(),
            None => r is None,
        },
{
    let m = Motion { count: mul_saturating(mo.count, op_count), mo: mo.mo };
    let c = buf.cursor_index;
    let n = buf.text.len();
    let found = match mo.mo {
        MotionType::An(obj) => object_found_exec(buf, obj, true),
        MotionType::Inner(obj) => object_found_exec(buf, obj, false),
        _ => true,
    };
    if !found {
        return None;
    }
    let r = m.range(buf);
    let (a, b) = (r.start, r.end);
    let lo = if a < b {
        a
    } else {
        b
    };
    let hi0 = if a < b {
        b
    } else {
        a
    };
    let incl = match mo.mo {
        MotionType::EndOfWord(_) => true,
        MotionType::EndOfBigWord(_) => true,
        MotionType::NextChar { .. } => true,
        MotionType::EndOfLine => true,
        MotionType::An(_) => true,
        MotionType::Inner(_) => true,
        _ => false,
    };
    let hi = if incl && hi0 < n {
        hi0 + 1
    } else if hi0 > n {
        n
    } else {
        hi0
    };
    let lo2 = if lo > hi {
        hi
    } else {
        lo
    };
    Some((lo2, hi))
}

fn object_found_exec(buf: &Buffer, obj: TextObject, around: bool) -> (r: bool)
    requires
        buf.wf(),
    ensures
        r == object_found(buf.text@, obj, buf.cursor_index as int, around),
{
    let c = buf.cursor_index;
    match obj {
        TextObject::Word => c < buf.text.len(),
        TextObject::BigWord => c < buf.text.len(),
        TextObject::Paragraph => false,
        TextObject::Block(o) => {
            if o == '{' || o == '(' || o == '[' || o == '<' || o == '"' || o == '\'' {
                crate::motion::block_found(buf, o, around)
            } else {
                false
            }
        },
    }
}

/// The text `k` undos give back, and the undo history left, from text `t`
/// and history `u`.
pub open spec fn undone_text(t: Seq<char>, u: Seq<Seq<char>>, k: nat) -> Seq<char> {
    if k == 0 || u.len() == 0 {
        t
    } else if k <= u.len() {
        u[u.len() - k]
    } else {
        u[0]
    }
}

pub open spec fn undone_history(u: Seq<Seq<char>>, k: nat) -> Seq<Seq<char>> {
    if k <= u.len() {
        u.subrange(0, u.len() - k)
    } else {
        Seq::empty()
    }
}

fn exec_undo(buf: &mut Buffer, count: usize)
    requires
        old(buf).wf(),
    ensures
        final(buf).wf(),
        final(buf).cursor_index == old(buf).cursor_index,
        final(buf).text@ == undone_text(old(buf).text@, old(buf).text.undo_texts(), count as nat),
        final(buf).text.undo_texts() == undone_history(old(buf).text.undo_texts(), count as nat),
{
    let ghost t = buf.text@;
    let ghost u = buf.text.undo_texts();
    let mut i: usize = 0;
    while i < count
        invariant
            buf.wf(),
            i <= count,
            buf.cursor_index == old(buf).cursor_index,
            buf.text@ == undone_text(t, u, i as nat),
            buf.text.undo_texts() == undone_history(u, i as nat),
        decreases count - i,
    {
        buf.text.undo();
        i = i + 1;
        proof {
            assert(undone_history(u, i as nat) =~= if i <= u.len() {
                undone_history(u, (i - 1) as nat).drop_last()
            } else {
                undone_history(u, (i - 1) as nat)
            });
        }
    }
}

fn exec_join(buf: &mut Buffer, count: usize) -> (r: Result<Option<ModeTag>, Error>)
    requires
        old(buf).wf(),
    ensures
        final(buf).wf(),
        final(buf).cursor_index == old(buf).cursor_index,
        r is Ok ==> final(buf).text@ == join_lines(
            old(buf).text@,
            old(buf).cursor_index as int,
            count as nat,
        ),
        r is Ok ==> r == Ok::<Option<ModeTag>, Error>(None),
        r is Err ==> r == Err::<Option<ModeTag>, Error>(Error::InvalidCommand(r->Err_0->InvalidCommand_0)),
        log_room(*old(buf), count as int) ==> r is Ok,
{
    let ghost t = buf.text@;
    let c = buf.cursor_index;
    let mut i: usize = 0;
    while i < count
        invariant
            buf.wf(),
            i <= count,
            buf.text.next_id() <= old(buf).text.next_id() + i,
            buf.cursor_index == c,
            c == old(buf).cursor_index,
            buf.text@ == join_lines(t, c as int, i as nat),
        decreases count - i,
    {
        if !has_room(buf, 1) {
            return Err(Error::InvalidCommand(String::new()));
        }
        let ghost u = buf.text@;
        proof {
            lemma_first_match(buf.text@, CharPred::Is('\n'), c as int);
            buf.text.lemma_len_fits();
        }
        match buf.text.index_of('\n', c) {
            Some(k) => {
                buf.text.delete_range(k, k + 1);
                proof {
                    assert(buf.text@ =~= u.remove(k as int));
                }
            },
            None => {},
        }
        i = i + 1;
        proof {
            assert(join_lines(t, c as int, i as nat) == match first_match(
                u,
                CharPred::Is('\n'),
                c as int,
            ) {
                Some(k) => u.remove(k as int),
                None => u,
            });
        }
    }
    Ok(None)
}

/// Puts the text of a register in: as whole lines after the cursor's line
/// where it ends in a newline, at the cursor otherwise.
fn exec_put(buf: &mut Buffer, registers: &mut Registers, source_register: char, clear_register: bool) -> (r: Result<Option<ModeTag>, Error>)
    requires
        old(buf).wf(),
    ensures
        final(buf).wf(),
        !old(registers)@.contains_key(source_register) ==> r == Err::<Option<ModeTag>, Error>(
            Error::EmptyRegister(source_register),
        ) && *final(buf) == *old(buf) && final(registers)@ == old(registers)@,
        r is Ok ==> ({
            let t = old(buf).text@;
            let reg = old(registers)@[source_register];
            let p = put_point(t, old(buf).cursor_index as int, reg);
            &&& old(registers)@.contains_key(source_register)
            &&& final(buf).text@ == t.subrange(0, p) + reg + t.subrange(p, t.len() as int)
            &&& final(buf).cursor_index == (if reg.len() > 0 { p + reg.len() - 1 } else { p })
            &&& clear_register ==> final(registers)@ == old(registers)@.remove(source_register)
            &&& !clear_register ==> final(registers)@ == old(registers)@
            &&& r == Ok::<Option<ModeTag>, Error>(None)
        }),
        r is Err && old(registers)@.contains_key(source_register) ==> *final(buf) == *old(buf)
            && final(registers)@ == old(registers)@,
        old(registers)@.contains_key(source_register) && log_room(*old(buf), 1)
            && old(buf).text@.len() + old(registers)@[source_register].len() <= usize::MAX ==> r is Ok,
{
    let src = match registers.get(source_register) {
        Some(s) => s,
        None => {
            return Err(Error::EmptyRegister(source_register));
        },
    };
    let v = chars_of(src.as_str());
    let len = v.len();
    let ends_in_newline = len > 0 && v[len - 1] == '\n';
    let n = buf.text.len();
    let c = buf.cursor_index;
    let point = if ends_in_newline {
        buf.next_line_index(c)
    } else if c < n {
        c
    } else {
        n
    };
    proof {
        lemma_first_match(buf.text@, CharPred::Is('\n'), c as int);
    }
    if !has_room(buf, 1) || len > usize::MAX - n {
        return Err(Error::InvalidCommand(String::new()));
    }
    buf.text.insert_range(src.as_str(), point);
    buf.cursor_index = if len > 0 {
        point + (len - 1)
    } else {
        point
    };
    if clear_register {
        registers.remove(source_register);
    }
    Ok(None)
}

/// Removes (for a change, short of its trailing blanks) the span an operator
/// covers, and keeps it in `target_register`.
fn exec_cut(buf: &mut Buffer, registers: &mut Registers, op: Operator, mo: Motion, op_count: usize, target_register: char) -> (r: Result<Option<ModeTag>, Error>)
    requires
        old(buf).wf(),
        op == Operator::Delete || op == Operator::Change,
    ensures
        final(buf).wf(),
        r is Ok ==> r == Ok::<Option<ModeTag>, Error>(
            if op == Operator::Change { Some(ModeTag::Insert) } else { None },
        ),
        r is Ok ==> match edit_span(old(buf).text@, mo, old(buf).cursor_index as int, op_count) {
            None => *final(buf) == *old(buf) && final(registers)@ == old(registers)@,
            Some((lo, hi)) => {
                let t = old(buf).text@;
                let e = removal_end(t, op, lo, hi);
                &&& final(buf).cursor_index == lo
                &&& lo == hi ==> final(buf).text == old(buf).text && final(registers)@ == old(
                    registers,
                )@
                &&& lo < hi ==> final(buf).text@ == t.subrange(0, lo) + t.subrange(e, t.len() as int)
                    && final(registers)@ == old(registers)@.insert(target_register, t.subrange(lo, e))
                    && edit_step(old(buf).text, final(buf).text)
            },
        },
        r is Err ==> *final(buf) == *old(buf) && final(registers)@ == old(registers)@,
        log_room(*old(buf), 1) ==> r is Ok,
{
    let ghost t = buf.text@;
    let mode = if op == Operator::Change {
        Some(ModeTag::Insert)
    } else {
        None
    };
    let (lo, hi) = match edit_span_exec(buf, mo, op_count) {
        None => {
            return Ok(mode);
        },
        Some(span) => span,
    };
    proof {
        buf.text.lemma_len_fits();
        let sp = edit_span(t, mo, buf.cursor_index as int, op_count);
        assert(sp is Some);
        assert(sp == Some((lo as int, hi as int)));
        assert(lo <= hi <= t.len());
    }
    if lo == hi {
        buf.cursor_index = lo;
        return Ok(mode);
    }
    let mut e = hi;
    if op == Operator::Change {
        let first = match buf.text.char_at(lo) {
            Some(ch) => ch,
            None => ' ',
        };
        if classify(first) != CharClass::Whitespace {
            loop
                invariant
                    buf.wf(),
                    buf.text@ == t,
                    lo < e <= hi <= t.len(),
                    trim_blank_end(t, lo as int, e as int) == trim_blank_end(t, lo as int, hi as int),
                ensures
                    buf.wf(),
                    buf.text@ == t,
                    lo < e <= hi <= t.len(),
                    e == trim_blank_end(t, lo as int, hi as int),
                decreases e,
            {
                if e <= lo + 1 {
                    break;
                }
                let ch = match buf.text.char_at(e - 1) {
                    Some(ch) => ch,
                    None => ' ',
                };
                if classify(ch) != CharClass::Whitespace {
                    break;
                }
                e = e - 1;
            }
        }
    }
    proof {
        assert(e as int == removal_end(t, op, lo as int, hi as int));
        assert(lo < e <= t.len());
    }
    if !has_room(buf, 1) {
        return Err(Error::InvalidCommand(String::new()));
    }
    let removed = buf.text.copy_range(lo, e);
    buf.text.delete_range(lo, e);
    registers.insert(target_register, removed);
    buf.cursor_index = lo;
    Ok(mode)
}

/// Copies the span an operator covers into `target_register`.
fn exec_yank(buf: &Buffer, registers: &mut Registers, mo: Motion, op_count: usize, target_register: char) -> (r: Result<Option<ModeTag>, Error>)
    requires
        buf.wf(),
    ensures
        r == Ok::<Option<ModeTag>, Error>(None),
        match edit_span(buf.text@, mo, buf.cursor_index as int, op_count) {
            None => final(registers)@ == old(registers)@,
            Some((lo, hi)) => final(registers)@ == old(registers)@.insert(
                target_register,
                buf.text@.subrange(lo, hi),
            ),
        },
{
    match edit_span_exec(buf, mo, op_count) {
        None => {},
        Some((lo, hi)) => {
            proof {
                buf.text.lemma_len_fits();
            }
            let copied = buf.text.copy_range(lo, hi);
            registers.insert(target_register, copied);
        },
    }
    Ok(None)
}

/// Replaces the character under the cursor by `c`.
fn exec_replace(buf: &mut Buffer, c: char) -> (r: Result<Option<ModeTag>, Error>)
    requires
        old(buf).wf(),
    ensures
        final(buf).wf(),
        final(buf).cursor_index == old(buf).cursor_index,
        r is Ok ==> r == Ok::<Option<ModeTag>, Error>(None),
        r is Ok && old(buf).cursor_index < old(buf).text@.len() ==> final(buf).text@ == old(
            buf,
        ).text@.update(old(buf).cursor_index as int, c),
        r is Ok && old(buf).cursor_index >= old(buf).text@.len() ==> *final(buf) == *old(buf),
        r is Err ==> *final(buf) == *old(buf),
        log_room(*old(buf), 2) ==> r is Ok,
{
    let ghost t = buf.text@;
    let at = buf.cursor_index;
    let n = buf.text.len();
    if at >= n {
        return Ok(None);
    }
    if !has_room(buf, 2) {
        return Err(Error::InvalidCommand(String::new()));
    }
    buf.text.delete_range(at, at + 1);
    let mut m = buf.text.insert_mutator(at);
    m.push_char(&mut buf.text, c);
    m.finish(&mut buf.text);
    proof {
        assert(buf.text@ =~= t.update(at as int, c));
    }
    Ok(None)
}

/// `b1` is `b0` with a line opened after the cursor's line (before it,
/// backwards), holding indentation only, and the cursor after that.
pub open spec fn opened_line(b0: Buffer, b1: Buffer, dir: Direction, softtab: bool) -> bool {
    let t = b0.text@;
    let c = b0.cursor_index as int;
    let idx = match dir {
        Direction::Forward => next_line_start(t, c),
        Direction::Backward => line_start(t, c),
    };
    let w = b1.cursor_index - idx;
    &&& idx <= b1.cursor_index
    &&& b1.text@ == t.subrange(0, idx) + repeat(
        if softtab { ' ' } else { '\t' },
        w as nat,
    ) + seq!['\n'] + t.subrange(idx, t.len() as int)
}

/// Opens a line after (or before) the cursor's line, indented as the
/// cursor's line is, and puts the cursor on it.
#[verifier::rlimit(80)]
fn exec_newline(buf: &mut Buffer, dir: Direction, mode: ModeTag, config: &IndentConfig) -> (r: Result<
    Option<ModeTag>,
    Error,
>)
    requires
        old(buf).wf(),
    ensures
        final(buf).wf(),
        r is Ok ==> r == Ok::<Option<ModeTag>, Error>(Some(mode)),
        r is Ok ==> opened_line(*old(buf), *final(buf), dir, config.softtab),
        r is Err ==> *final(buf) == *old(buf),
        log_room(*old(buf), 2) && old(buf).text@.len() < usize::MAX ==> r is Ok,
{
    let ghost t = buf.text@;
    let c = buf.cursor_index;
    let n = buf.text.len();
    let idx = match dir {
        Direction::Forward => buf.next_line_index(c),
        Direction::Backward => buf.current_start_of_line(c),
    };
    proof {
        lemma_first_match(t, CharPred::Is('\n'), c as int);
        crate::char_class::lemma_last_match(t, CharPred::Is('\n'), clamp(t, c as int));
        reveal_strlit("\n");
        assert(idx <= n);
    }
    if !has_room(buf, 2) || n >= usize::MAX {
        return Err(Error::InvalidCommand(String::new()));
    }
    buf.text.insert_range("\n", idx);
    proof {
        assert(buf.text@ =~= t.subrange(0, idx as int) + seq!['\n'] + t.subrange(
            idx as int,
            t.len() as int,
        ));
    }
    let level = buf.sense_indent_level(c, config);
    let n1 = buf.text.len();
    let fits = if config.softtab {
        mul_saturating(level, config.tabstop) < usize::MAX - n1
    } else {
        level <= usize::MAX - n1
    };
    let w = if fits {
        proof {
            if config.softtab {
                assert(level * config.tabstop <= usize::MAX);
            }
        }
        let ghost t1 = buf.text@;
        let w = buf.indent(idx, level, config);
        proof {
            let ic = if config.softtab { ' ' } else { '\t' };
            assert(t1.subrange(0, idx as int) =~= t.subrange(0, idx as int));
            assert(t1.subrange(idx as int, t1.len() as int) =~= seq!['\n'] + t.subrange(
                idx as int,
                t.len() as int,
            ));
            assert(buf.text@ =~= t.subrange(0, idx as int) + repeat(ic, w as nat) + seq!['\n']
                + t.subrange(idx as int, t.len() as int));
        }
        w
    } else {
        proof {
            let ic = if config.softtab { ' ' } else { '\t' };
            assert(repeat(ic, 0) =~= Seq::<char>::empty());
            assert(buf.text@ =~= t.subrange(0, idx as int) + repeat(ic, 0) + seq!['\n']
                + t.subrange(idx as int, t.len() as int));
        }
        0
    };
    buf.cursor_index = idx + w;
    Ok(Some(mode))
}

/// The text after indenting (undenting, where `fwd` is false) by one level
/// each line from the one starting at `ln` on, while lines start before
/// `end`, which moves with the characters each edit adds or takes away; `nid` is the next id of the log, which stops the edits where it
/// has no room left.
pub open spec fn reindented(
    t: Seq<char>,
    ln: int,
    end: int,
    fwd: bool,
    config: IndentConfig,
    nid: int,
) -> Seq<char>
    decreases end - ln,
{
    let w = indent_width(1, config);
    if !(ln < end && ln < t.len()) || !(nid + 1 < usize::MAX) || (fwd && (w > usize::MAX
        - t.len() || end > usize::MAX - w)) {
        t
    } else {
        let k = undent_run(t, ln, config.softtab, w as nat);
        let t2 = if fwd {
            t.subrange(0, ln) + repeat(if config.softtab { ' ' } else { '\t' }, w as nat)
                + t.subrange(ln, t.len() as int)
        } else {
            t.subrange(0, ln) + t.subrange(ln + k, t.len() as int)
        };
        let logged = if fwd {
            w > 0
        } else {
            k > 0
        };
        let nx = next_line_start(t2, ln);
        let end2 = if fwd {
            end + w
        } else if end >= k {
            end - k
        } else {
            0
        };
        if nx <= ln || nx >= end2 || end2 - nx >= end - ln {
            t2
        } else {
            reindented(t2, nx, end2, fwd, config, nid + if logged {
                1int
            } else {
                0int
            })
        }
    }
}

/// What indenting with a motion does: each line the motion's range touches
/// gains (or loses) one level; for whole lines, the line its end starts is
/// not touched.
pub open spec fn indented_by(b0: Buffer, mo: Motion, op_count: usize, fwd: bool, config: IndentConfig) -> Seq<char> {
    let t = b0.text@;
    let (a, e) = motion_range(t, scaled(mo, op_count), b0.cursor_index as int);
    let lo = if a < e {
        a
    } else {
        e
    };
    let hi = if a < e {
        e
    } else {
        a
    };
    let stop = if mo.mo is WholeLine || hi >= usize::MAX {
        hi
    } else {
        hi + 1
    };
    reindented(t, line_start(t, lo), stop, fwd, config, b0.text.next_id() as int)
}

/// Indents or undents each line the motion touches by one level.
fn exec_indent(buf: &mut Buffer, dir: Direction, mo: Motion, op_count: usize, config: &IndentConfig) -> (r: Result<Option<ModeTag>, Error>)
    requires
        old(buf).wf(),
    ensures
        final(buf).wf(),
        final(buf).cursor_index == old(buf).cursor_index,
        r == Ok::<Option<ModeTag>, Error>(None),
        final(buf).text@ == indented_by(*old(buf), mo, op_count, dir == Direction::Forward, *config),
{
    let ghost t0 = buf.text@;
    let ghost fwd = dir == Direction::Forward;
    let m = Motion { count: mul_saturating(mo.count, op_count), mo: mo.mo };
    let range = m.range(buf);
    let lo = if range.start < range.end {
        range.start
    } else {
        range.end
    };
    let hi = if range.start < range.end {
        range.end
    } else {
        range.start
    };
    let whole = match mo.mo {
        MotionType::WholeLine => true,
        _ => false,
    };
    let mut ln = buf.current_start_of_line(lo);
    let mut end = if whole || hi >= usize::MAX {
        hi
    } else {
        hi + 1
    };
    let ghost goal = indented_by(*old(buf), mo, op_count, fwd, *config);
    proof {
        buf.text.lemma_len_fits();
        crate::char_class::lemma_last_match(t0, CharPred::Is('\n'), clamp(t0, lo as int));
    }
    while ln < end && ln < buf.text.len()
        invariant_except_break
            goal == reindented(
                buf.text@,
                ln as int,
                end as int,
                fwd,
                *config,
                buf.text.next_id() as int,
            ),
        invariant
            buf.wf(),
            buf.cursor_index == old(buf).cursor_index,
            fwd == (dir == Direction::Forward),
        ensures
            buf.wf(),
            buf.cursor_index == old(buf).cursor_index,
            goal == buf.text@,
        decreases end - ln,
    {
        let n = buf.text.len();
        let ghost t = buf.text@;
        let ghost nid = buf.text.next_id() as int;
        proof {
            buf.text.lemma_len_fits();
        }
        if !has_room(buf, 1) {
            break;
        }
        if dir == Direction::Forward {
            let width = if config.softtab {
                config.tabstop
            } else {
                1
            };
            if width > usize::MAX - n || end > usize::MAX - width {
                break;
            }
            buf.indent(ln, 1, config);
        } else {
            buf.undent(ln, 1, config);
        }
        let n2 = buf.text.len();
        proof {
            let w = indent_width(1, *config);
            lemma_undent_run_bound(t, ln as int, config.softtab, w as nat);
            let k = undent_run(t, ln as int, config.softtab, w as nat);
            if fwd {
                assert(n2 == n + w);
            } else {
                assert(n2 == n - k);
            }
        }
        let end2 = if dir == Direction::Forward {
            end + (n2 - n)
        } else if end >= n - n2 {
            end - (n - n2)
        } else {
            0
        };
        proof {
            let w = indent_width(1, *config);
            let k = undent_run(t, ln as int, config.softtab, w as nat);
            if !fwd {
                assert(w >= 0);
            }
        }
        let next = buf.next_line_index(ln);
        proof {
            lemma_first_match(buf.text@, CharPred::Is('\n'), ln as int);
        }
        proof {
            let w = indent_width(1, *config);
            let k = undent_run(t, ln as int, config.softtab, w as nat);
            let t2 = if fwd {
                t.subrange(0, ln as int) + repeat(if config.softtab { ' ' } else { '\t' }, w as nat)
                    + t.subrange(ln as int, t.len() as int)
            } else {
                t.subrange(0, ln as int) + t.subrange(ln + k, t.len() as int)
            };
            let logged = if fwd {
                w > 0
            } else {
                k > 0
            };
            assert(ln < end && ln < t.len());
            assert(nid + 1 < usize::MAX);
            assert(fwd ==> w <= usize::MAX - t.len());
            assert(buf.text@ == t2);
            assert(buf.text.next_id() == nid + if logged {
                1int
            } else {
                0int
            });
            assert(next == next_line_start(t2, ln as int));
            if fwd {
                assert(n2 == n + w);
            } else {
                assert(n2 == n - k);
            }
            if next <= ln || next >= end2 || end2 - next >= end - ln {
                assert(reindented(t, ln as int, end as int, fwd, *config, nid) == t2);
            } else {
                assert(reindented(t, ln as int, end as int, fwd, *config, nid)
                    == reindented(
                    t2,
                    next as int,
                    end2 as int,
                    fwd,
                    *config,
                    buf.text.next_id() as int,
                ));
            }
        }
        if next <= ln || next >= end2 || end2 - next >= end - ln {
            break;
        }
        ln = next;
        end = end2;
    }
    Ok(None)
}

/// `cmd` with its count replaced, for commands that have one to replace.
pub open spec fn with_count(cmd: Command, count: usize) -> Command {
    match cmd {
        Command::JoinLine { .. } => Command::JoinLine { count },
        Command::Put { source_register, clear_register, .. } => Command::Put {
            count,
            source_register,
            clear_register,
        },
        Command::Edit { op, mo, target_register, .. } => Command::Edit {
            op,
            op_count: count,
            mo,
            target_register,
        },
        _ => cmd,
    }
}

fn with_count_exec(cmd: Command, count: usize) -> (r: Command)
    ensures
        r == with_count(cmd, count),
{
    match cmd {
        Command::JoinLine { .. } => Command::JoinLine { count },
        Command::Put { source_register, clear_register, .. } => Command::Put {
            count,
            source_register,
            clear_register,
        },
        Command::Edit { op, mo, target_register, .. } => Command::Edit {
            op,
            op_count: count,
            mo,
            target_register,
        },
        _ => cmd,
    }
}

/// Whether a command is remembered for repeating: puts, joins, edits, and
/// entering insert mode.
pub open spec fn remembered(cmd: Command) -> bool {
    match cmd {
        Command::Put { .. } => true,
        Command::JoinLine { .. } => true,
        Command::Edit { .. } => true,
        Command::ChangeMode(m) => m == ModeTag::Insert,
        _ => false,
    }
}

/// What carrying out `cmd` (other than a repeat) does to the buffer `b0`
/// with registers `g0`, giving `b1`, `g1` and the result `r`.
pub open spec fn carried_out(
    cmd: Command,
    b0: Buffer,
    b1: Buffer,
    g0: Map<char, Seq<char>>,
    g1: Map<char, Seq<char>>,
    r: Result<Option<ModeTag>, Error>,
    config: IndentConfig,
) -> bool {
    let t = b0.text@;
    let c = b0.cursor_index as int;
    match cmd {
        Command::Move(m) => {
            &&& r == Ok::<Option<ModeTag>, Error>(None)
            &&& b1.text == b0.text
            &&& b1.cursor_index == motion_range(t, m, c).1
            &&& g1 == g0
        },
        Command::Undo { count } => {
            &&& r == Ok::<Option<ModeTag>, Error>(None)
            &&& b1.text@ == undone_text(t, b0.text.undo_texts(), count as nat)
            &&& b1.text.undo_texts() == undone_history(b0.text.undo_texts(), count as nat)
            &&& b1.cursor_index == b0.cursor_index
            &&& g1 == g0
        },
        Command::Put { source_register, clear_register, .. } => {
            &&& !g0.contains_key(source_register) ==> r == Err::<Option<ModeTag>, Error>(
                Error::EmptyRegister(source_register),
            ) && b1 == b0 && g1 == g0
            &&& r is Ok ==> ({
                let reg = g0[source_register];
                let p = put_point(t, c, reg);
                &&& b1.text@ == t.subrange(0, p) + reg + t.subrange(p, t.len() as int)
                &&& b1.cursor_index == (if reg.len() > 0 { p + reg.len() - 1 } else { p })
                &&& g1 == (if clear_register { g0.remove(source_register) } else { g0 })
                &&& r == Ok::<Option<ModeTag>, Error>(None)
            })
            &&& r is Err ==> b1 == b0 && g1 == g0
            &&& g0.contains_key(source_register) && log_room(b0, 1) && t.len()
                + g0[source_register].len() <= usize::MAX ==> r is Ok
        },
        Command::JoinLine { count } => {
            &&& log_room(b0, count as int) ==> r is Ok
            &&& b1.cursor_index == b0.cursor_index
            &&& r is Ok ==> b1.text@ == join_lines(t, c, count as nat) && r == Ok::<
                Option<ModeTag>,
                Error,
            >(None)
            &&& g1 == g0
        },
        Command::Edit { op, op_count, mo, target_register } => match op {
            Operator::Delete | Operator::Change => {
                &&& r is Ok ==> r == Ok::<Option<ModeTag>, Error>(
                    if op == Operator::Change { Some(ModeTag::Insert) } else { None },
                )
                &&& r is Ok ==> match edit_span(t, mo, c, op_count) {
                    None => b1 == b0 && g1 == g0,
                    Some((lo, hi)) => {
                        let e = removal_end(t, op, lo, hi);
                        &&& b1.cursor_index == lo
                        &&& lo == hi ==> b1.text == b0.text && g1 == g0
                        &&& lo < hi ==> b1.text@ == t.subrange(0, lo) + t.subrange(e, t.len() as int)
                            && g1 == g0.insert(target_register, t.subrange(lo, e))
                            && edit_step(b0.text, b1.text)
                    },
                }
                &&& r is Err ==> b1 == b0 && g1 == g0
                &&& log_room(b0, 1) ==> r is Ok
            },
            Operator::Yank => {
                &&& r == Ok::<Option<ModeTag>, Error>(None)
                &&& b1 == b0
                &&& match edit_span(t, mo, c, op_count) {
                    None => g1 == g0,
                    Some((lo, hi)) => g1 == g0.insert(target_register, t.subrange(lo, hi)),
                }
            },
            Operator::ReplaceChar(ch) => {
                &&& b1.cursor_index == b0.cursor_index
                &&& g1 == g0
                &&& r is Ok ==> r == Ok::<Option<ModeTag>, Error>(None)
                &&& r is Ok && c < t.len() ==> b1.text@ == t.update(c, ch)
                &&& r is Ok && c >= t.len() ==> b1 == b0
                &&& r is Err ==> b1 == b0
                &&& log_room(b0, 2) ==> r is Ok
            },
            Operator::MoveAndEnterMode(mode) => {
                &&& r == Ok::<Option<ModeTag>, Error>(Some(mode))
                &&& b1.text == b0.text
                &&& b1.cursor_index == motion_range(t, mo, c).1
                &&& g1 == g0
            },
            Operator::NewLineAndEnterMode(dir, mode) => {
                &&& g1 == g0
                &&& r is Ok ==> r == Ok::<Option<ModeTag>, Error>(Some(mode))
                &&& r is Ok ==> opened_line(b0, b1, dir, config.softtab)
                &&& r is Err ==> b1 == b0
                &&& log_room(b0, 2) && t.len() < usize::MAX ==> r is Ok
            },
            Operator::Indent(dir) => {
                &&& r == Ok::<Option<ModeTag>, Error>(None)
                &&& b1.cursor_index == b0.cursor_index
                &&& g1 == g0
                &&& b1.text@ == indented_by(b0, mo, op_count, dir == Direction::Forward, config)
            },
        },
        Command::ChangeMode(mode) => {
            &&& r == Ok::<Option<ModeTag>, Error>(Some(mode))
            &&& b1 == b0
            &&& g1 == g0
        },
        _ => {
            &&& r matches Err(Error::InvalidCommand(_))
            &&& b1 == b0
            &&& g1 == g0
        },
    }
}

impl Command {
    fn execute_plain(
        &self,
        buf: &mut Buffer,
        registers: &mut Registers,
        last_command: &mut Option<Command>,
        config: &IndentConfig,
    ) -> (r: Result<Option<ModeTag>, Error>)
        requires
            old(buf).wf(),
        ensures
            final(buf).wf(),
            carried_out(
                *self,
                *old(buf),
                *final(buf),
                old(registers)@,
                final(registers)@,
                r,
                *config,
            ),
            *final(last_command) == (if remembered(*self) { Some(*self) } else { *old(last_command) }),
    {
        if remembered_exec(self) {
            *last_command = Some(*self);
        }
        match *self {
            Command::Move(m) => {
                let range = m.range(buf);
                buf.cursor_index = range.end;
                Ok(None)
            },
            Command::Undo { count } => {
                exec_undo(buf, count);
                Ok(None)
            },
            Command::Put { source_register, clear_register, .. } => exec_put(
                buf,
                registers,
                source_register,
                clear_register,
            ),
            Command::JoinLine { count } => exec_join(buf, count),
            Command::Edit { op, op_count, mo, target_register } => match op {
                Operator::Delete | Operator::Change => exec_cut(
                    buf,
                    registers,
                    op,
                    mo,
                    op_count,
                    target_register,
                ),
                Operator::Yank => exec_yank(buf, registers, mo, op_count, target_register),
                Operator::ReplaceChar(c) => exec_replace(buf, c),
                Operator::MoveAndEnterMode(mode) => {
                    let range = mo.range(buf);
                    buf.cursor_index = range.end;
                    Ok(Some(mode))
                },
                Operator::NewLineAndEnterMode(dir, mode) => exec_newline(buf, dir, mode, config),
                Operator::Indent(dir) => exec_indent(buf, dir, mo, op_count, config),
            },
            Command::ChangeMode(mode) => Ok(Some(mode)),
            Command::Redo { .. } => Err(Error::InvalidCommand(string_of(&chars_of("redo")))),
            Command::Repeat { .. } => Err(Error::InvalidCommand(string_of(&chars_of("repeat")))),
            Command::Leader(_) => Err(Error::InvalidCommand(string_of(&chars_of("leader")))),
            Command::Viewport(_) => Err(Error::InvalidCommand(string_of(&chars_of("viewport")))),
        }
    }

    /// Carries the command out on `buf`, with the registers and the last
    /// remembered command. A repeat carries the last remembered command out
    /// again with the new count; after insert mode it types the last
    /// inserted text `count` more times. Redo is not supported: there is no
    /// redo log. Leader and viewport commands act on the panes around the
    /// buffer, and are reported as invalid here.
    pub fn execute(
        &self,
        buf: &mut Buffer,
        registers: &mut Registers,
        last_command: &mut Option<Command>,
        config: &IndentConfig,
    ) -> (r: Result<Option<ModeTag>, Error>)
        requires
            old(buf).wf(),
        ensures
            final(buf).wf(),
            !(*self is Repeat) ==> carried_out(
                *self,
                *old(buf),
                *final(buf),
                old(registers)@,
                final(registers)@,
                r,
                *config,
            ),
            *self is Repeat && *old(last_command) is None ==> (r matches Err(
                Error::InvalidCommand(_),
            )) && *final(buf) == *old(buf) && final(registers)@ == old(registers)@,
            ({
                let last = *old(last_command);
                *self is Repeat && last is Some && last != Some(Command::ChangeMode(ModeTag::Insert))
                    ==> carried_out(
                    with_count(last->0, self->Repeat_count),
                    *old(buf),
                    *final(buf),
                    old(registers)@,
                    final(registers)@,
                    r,
                    *config,
                )
            }),
            ({
                let last = *old(last_command);
                *self is Repeat && last == Some(Command::ChangeMode(ModeTag::Insert)) ==> r
                    == Ok::<Option<ModeTag>, Error>(None) && final(registers)@ == old(registers)@
                    && replayed(*old(buf), *final(buf), self->Repeat_count)
            }),
    {
        match *self {
            Command::Repeat { count } => {
                match *last_command {
                    None => Err(Error::InvalidCommand(string_of(&chars_of("no previous command")))),
                    Some(Command::ChangeMode(ModeTag::Insert)) => {
                        replay_insert(buf, count);
                        Ok(None)
                    },
                    Some(cmd) => {
                        let again = with_count_exec(cmd, count);
                        again.execute_plain(buf, registers, last_command, config)
                    },
                }
            },
            _ => self.execute_plain(buf, registers, last_command, config),
        }
    }
}

fn remembered_exec(cmd: &Command) -> (r: bool)
    ensures
        r == remembered(*cmd),
{
    match *cmd {
        Command::Put { .. } => true,
        Command::JoinLine { .. } => true,
        Command::Edit { .. } => true,
        Command::ChangeMode(m) => m == ModeTag::Insert,
        _ => false,
    }
}

/// `s` written `k` times.
pub open spec fn repeat_text(s: Seq<char>, k: nat) -> Seq<char>
    decreases k,
{
    if k == 0 {
        Seq::empty()
    } else {
        repeat_text(s, (k - 1) as nat) + s
    }
}

/// What typing the last insertion again did: its text `k` times at the
/// cursor (clamped to the text), the cursor after the copies, and all
/// `count` copies where the log and a `usize` have room for them.
pub open spec fn replayed(b0: Buffer, b1: Buffer, count: usize) -> bool {
    match last_inserted(b0.text) {
        None => b1 == b0,
        Some(p) => {
            let t = b0.text@;
            let piece = piece_text(b0.text.srcs(), p);
            let at = clamp(t, b0.cursor_index as int);
            exists|k: nat|
                {
                    &&& k <= count
                    &&& b1.text@ == t.subrange(0, at) + repeat_text(piece, k) + t.subrange(
                        at,
                        t.len() as int,
                    )
                    &&& k > 0 ==> b1.cursor_index == at + k * piece.len()
                    &&& (log_room(b0, count as int) && t.len() + count * piece.len() <= usize::MAX)
                        ==> k == count
                }
        },
    }
}

/// Types the text the last insertion put in `count` more times at the cursor.
fn replay_insert(buf: &mut Buffer, count: usize)
    requires
        old(buf).wf(),
    ensures
        final(buf).wf(),
        replayed(*old(buf), *final(buf), count),
{
    let ghost b0 = *buf;
    let piece = match buf.text.last_inserted_piece() {
        Some(p) => p,
        None => {
            return;
        },
    };
    let ghost t = buf.text@;
    let ghost srcs = buf.text.srcs();
    let ghost ptext = piece_text(srcs, piece);
    let n0 = buf.text.len();
    let at = if buf.cursor_index < n0 {
        buf.cursor_index
    } else {
        n0
    };
    proof {
        assert(ptext.len() == piece.length);
        assert(repeat_text(ptext, 0) =~= Seq::<char>::empty());
        assert(t =~= t.subrange(0, at as int) + repeat_text(ptext, 0) + t.subrange(
            at as int,
            t.len() as int,
        ));
    }
    let mut i: usize = 0;
    while i < count
        invariant
            buf.wf(),
            i <= count,
            n0 == t.len(),
            buf.text.srcs() == srcs,
            piece_valid(srcs, piece),
            ptext == piece_text(srcs, piece),
            ptext.len() == piece.length,
            at <= t.len(),
            buf.text@ == t.subrange(0, at as int) + repeat_text(ptext, i as nat) + t.subrange(
                at as int,
                t.len() as int,
            ),
            repeat_text(ptext, i as nat).len() == i * piece.length,
            buf.text.next_id() == b0.text.next_id() + i,
            i > 0 ==> buf.cursor_index == at + i * piece.length,
            i == 0 ==> *buf == b0,
        ensures
            buf.wf(),
            buf.text@ == t.subrange(0, at as int) + repeat_text(ptext, i as nat) + t.subrange(
                at as int,
                t.len() as int,
            ),
            i > 0 ==> buf.cursor_index == at + i * piece.length,
            i == 0 ==> *buf == b0,
            i <= count,
            (log_room(b0, count as int) && t.len() + count * ptext.len() <= usize::MAX) ==> i
                == count,
        decreases count - i,
    {
        let n = buf.text.len();
        proof {
            assert(n == t.len() + i * piece.length);
        }
        let pos = at + (n - n0);
        if !has_room(buf, 1) || piece.length > usize::MAX - n {
            proof {
                if log_room(b0, count as int) && t.len() + count * ptext.len() <= usize::MAX {
                    let tl = t.len() as int;
                    let pl = piece.length as int;
                    let ii = i as int;
                    let cc = count as int;
                    assert(tl + cc * pl <= usize::MAX);
                    assert(ii + 1 <= cc);
                    assert(tl + (ii + 1) * pl <= usize::MAX) by (nonlinear_arith)
                        requires
                            tl + cc * pl <= usize::MAX,
                            ii + 1 <= cc,
                            pl >= 0,
                    ;
                    assert((ii + 1) * pl == ii * pl + pl) by (nonlinear_arith);
                    assert(n + piece.length <= usize::MAX);
                    assert(buf.text.next_id() + 1 < usize::MAX);
                    assert(false);
                }
            }
            break;
        }
        let ghost before = buf.text@;
        buf.text.insert_raw_piece(pos, piece);
        proof {
            let r = repeat_text(ptext, i as nat);
            assert(pos == at + r.len());
            assert(buf.text@ =~= t.subrange(0, at as int) + repeat_text(ptext, (i + 1) as nat)
                + t.subrange(at as int, t.len() as int));
            assert((i + 1) * piece.length == i * piece.length + piece.length) by (nonlinear_arith);
        }
        buf.cursor_index = pos + piece.length;
        i = i + 1;
    }
}

pub open spec fn piece_valid_in(buf: &Buffer, p: crate::text_model::Piece) -> bool {
    crate::text_model::piece_valid(buf.text.srcs(), p)
}

} // verus!
