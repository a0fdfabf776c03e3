//! A document with a cursor: line arithmetic, search for a query string,
//! and indentation.
use vstd::prelude::*;
use crate::Direction;
use crate::char_class::{CharClass, CharPred, first_match, last_match, lemma_first_match, lemma_last_match, class_of, classify};
use crate::piece_table::{PieceTable, TableMutator, chars_of, edit_step};

verus! {

/// How indentation is written: `tabstop` spaces per level where `softtab`
/// holds, one tab per level otherwise.
#[derive(Copy, Clone, Debug, PartialEq, Eq, Structural)]
pub struct IndentConfig {
    pub softtab: bool,
    pub tabstop: usize,
}

/// Where the line after the one holding `at` starts: one past the next
/// newline at or after `at`, or the end of the text.
pub open spec fn next_line_start(t: Seq<char>, at: int) -> int {
    match first_match(t, CharPred::Is('\n'), at) {
        Some(k) => (k as int) + 1,
        None => t.len() as int,
    }
}

pub open spec fn clamp(t: Seq<char>, at: int) -> int {
    if at < t.len() {
        at
    } else {
        t.len() as int
    }
}

/// Where the line holding `at` starts: one past the last newline before
/// `at`, or 0.
pub open spec fn line_start(t: Seq<char>, at: int) -> int {
    match last_match(t, CharPred::Is('\n'), clamp(t, at)) {
        Some(k) => (k as int) + 1,
        None => 0,
    }
}

/// Where the line before the one holding `at` starts.
pub open spec fn prev_line_start(t: Seq<char>, at: int) -> int {
    match last_match(t, CharPred::Is('\n'), clamp(t, at)) {
        Some(e) => match last_match(t, CharPred::Is('\n'), e as int) {
            Some(k) => (k as int) + 1,
            None => 0,
        },
        None => 0,
    }
}

/// The number of newlines among the first `n` characters.
pub open spec fn newlines_before(t: Seq<char>, n: int) -> nat
    decreases n,
{
    if n <= 0 || n > t.len() {
        0
    } else {
        newlines_before(t, n - 1) + if t[n - 1] == '\n' {
            1nat
        } else {
            0nat
        }
    }
}

/// `q` occurs in `t` starting at `k`.
pub open spec fn occurs_at(t: Seq<char>, q: Seq<char>, k: int) -> bool {
    0 <= k && k + q.len() <= t.len() && t.subrange(k, k + q.len()) == q
}

/// The first start of `q` at or after `from`.
pub open spec fn first_occurrence(t: Seq<char>, q: Seq<char>, from: int) -> Option<nat>
    decreases t.len() + 1 - from,
{
    if from < 0 || from + q.len() > t.len() {
        None
    } else if occurs_at(t, q, from) {
        Some(from as nat)
    } else {
        first_occurrence(t, q, from + 1)
    }
}

/// The last start of `q` before `k`.
pub open spec fn last_occurrence(t: Seq<char>, q: Seq<char>, k: int) -> Option<nat>
    decreases k,
{
    if k <= 0 {
        None
    } else if occurs_at(t, q, k - 1) {
        Some((k - 1) as nat)
    } else {
        last_occurrence(t, q, k - 1)
    }
}

/// Where a query search from `from` lands: forwards, the first occurrence
/// starting at or after `from`; backwards, the last one ending at or before
/// `from`. With `wrap`, a search that finds nothing tries the whole text.
pub open spec fn query_result(
    t: Seq<char>,
    q: Seq<char>,
    from: int,
    dir: Direction,
    wrap: bool,
) -> Option<nat> {
    if q.len() == 0 {
        None
    } else {
        let found = match dir {
            Direction::Forward => first_occurrence(t, q, from),
            Direction::Backward => last_occurrence(t, q, clamp(t, from) - q.len() + 1),
        };
        if found is None && wrap {
            match dir {
                Direction::Forward => first_occurrence(t, q, 0),
                Direction::Backward => last_occurrence(t, q, t.len() - q.len() + 1),
            }
        } else {
            found
        }
    }
}

/// The indentation level of the text from `i` on: tabs count one level
/// each, and, where `soft` holds, every fourth space one more.
pub open spec fn indent_level(t: Seq<char>, i: int, soft: bool, spaces: nat) -> nat
    decreases t.len() - i,
{
    if i < 0 || i >= t.len() {
        0
    } else if soft && t[i] == ' ' {
        if spaces + 1 == 4 {
            1 + indent_level(t, i + 1, soft, 0)
        } else {
            indent_level(t, i + 1, soft, spaces + 1)
        }
    } else if t[i] == '\t' {
        1 + indent_level(t, i + 1, soft, spaces)
    } else {
        0
    }
}

/// Whether an undent removes `c`: a blank other than a newline where
/// `soft` holds, a tab otherwise.
pub open spec fn undentable(c: char, soft: bool) -> bool {
    if soft {
        c != '\n' && class_of(c) == CharClass::Whitespace
    } else {
        c == '\t'
    }
}

/// How many characters from `at` on, at most `limit`, an undent removes.
pub open spec fn undent_run(t: Seq<char>, at: int, soft: bool, limit: nat) -> nat
    decreases limit,
{
    if limit == 0 || at < 0 || at >= t.len() || !undentable(t[at], soft) {
        0
    } else {
        1 + undent_run(t, at + 1, soft, (limit - 1) as nat)
    }
}

/// How many characters `count` levels of indentation take.
pub open spec fn indent_width(count: usize, config: IndentConfig) -> int {
    if config.softtab {
        count * config.tabstop
    } else {
        count as int
    }
}

pub proof fn lemma_undent_run_bound(t: Seq<char>, at: int, soft: bool, limit: nat)
    requires
        0 <= at <= t.len(),
    ensures
        at + undent_run(t, at, soft, limit) <= t.len(),
    decreases limit,
{
    if limit > 0 && at < t.len() && undentable(t[at], soft) {
        lemma_undent_run_bound(t, at + 1, soft, (limit - 1) as nat);
    }
}

/// `n` copies of `c`.
pub open spec fn repeat(c: char, n: nat) -> Seq<char> {
    Seq::new(n, |i: int| c)
}

proof fn lemma_newlines_flat(t: Seq<char>, a: int, b: int)
    requires
        0 <= a <= b <= t.len(),
        forall|j: int| a <= j < b ==> t[j] != '\n',
    ensures
        newlines_before(t, b) == newlines_before(t, a),
    decreases b - a,
{
    if b > a {
        lemma_newlines_flat(t, a, b - 1);
    }
}

proof fn lemma_newlines_bound(t: Seq<char>, n: int)
    requires
        0 <= n <= t.len(),
    ensures
        newlines_before(t, n) <= n,
    decreases n,
{
    if n > 0 {
        lemma_newlines_bound(t, n - 1);
    }
}

/// A document and the cursor on it.
pub struct Buffer {
    pub text: PieceTable,
    pub cursor_index: usize,
    pub current_query: Option<String>,
}

impl Buffer {
    pub open spec fn wf(&self) -> bool {
        self.text.wf()
    }

    pub fn with_text(s: &str) -> (r: Buffer)
        ensures
            r.wf(),
            r.text@ == s@,
            r.text.undo_texts().len() == 0,
            r.text.open_id() is None,
            r.text.next_id() == 1,
            r.cursor_index == 0,
            r.current_query is None,
    {
        Buffer { text: PieceTable::with_text(s), cursor_index: 0, current_query: None }
    }

    /// Where the line after the one holding `at` starts.
    pub fn next_line_index(&self, at: usize) -> (r: usize)
        requires
            self.wf(),
        ensures
            r == next_line_start(self.text@, at as int),
    {
        proof {
            self.text.lemma_len_fits();
            lemma_first_match(self.text@, CharPred::Is('\n'), at as int);
        }
        match self.text.index_of('\n', at) {
            Some(i) => i + 1,
            None => self.text.len(),
        }
    }

    /// Where the line holding `at` starts.
    pub fn current_start_of_line(&self, at: usize) -> (r: usize)
        requires
            self.wf(),
        ensures
            r == line_start(self.text@, at as int),
            r <= at,
    {
        proof {
            self.text.lemma_len_fits();
            lemma_last_match(self.text@, CharPred::Is('\n'), clamp(self.text@, at as int));
        }
        match self.text.last_index_of('\n', at) {
            Some(i) => i + 1,
            None => 0,
        }
    }

    /// How far `index` lies from the start of its line.
    pub fn column_for_index(&self, index: usize) -> (r: usize)
        requires
            self.wf(),
        ensures
            r == index - line_start(self.text@, index as int),
    {
        index - self.current_start_of_line(index)
    }

    /// The number of the line holding `index`, counting from 0: the number
    /// of newlines before it.
    pub fn line_for_index(&self, index: usize) -> (r: usize)
        requires
            self.wf(),
        ensures
            r == newlines_before(self.text@, clamp(self.text@, index as int)),
    {
        let ghost t = self.text@;
        proof {
            self.text.lemma_len_fits();
        }
        let mut ln: usize = 0;
        let mut ix: usize = 0;
        loop
            invariant
                self.wf(),
                t == self.text@,
                t.len() <= usize::MAX,
                ix <= t.len(),
                ix <= index,
                ln == newlines_before(t, ix as int),
            decreases t.len() - ix,
        {
            proof {
                lemma_first_match(t, CharPred::Is('\n'), ix as int);
            }
            match self.text.index_of('\n', ix) {
                Some(nix) => {
                    if index <= nix {
                        proof {
                            lemma_newlines_flat(t, ix as int, index as int);
                        }
                        return ln;
                    }
                    proof {
                        lemma_newlines_flat(t, ix as int, nix as int);
                        lemma_newlines_bound(t, nix as int);
                    }
                    ln = ln + 1;
                    ix = nix + 1;
                },
                None => {
                    proof {
                        lemma_newlines_flat(t, ix as int, clamp(t, index as int));
                    }
                    return ln;
                },
            }
        }
    }

    /// Where the line before the one holding `at` starts.
    pub fn last_line_index(&self, at: usize) -> (r: usize)
        requires
            self.wf(),
        ensures
            r == prev_line_start(self.text@, at as int),
    {
        proof {
            self.text.lemma_len_fits();
            lemma_last_match(self.text@, CharPred::Is('\n'), clamp(self.text@, at as int));
        }
        match self.text.last_index_of('\n', at) {
            Some(e) => {
                proof {
                    lemma_last_match(self.text@, CharPred::Is('\n'), e as int);
                }
                match self.text.last_index_of('\n', e) {
                    Some(k) => k + 1,
                    None => 0,
                }
            },
            None => 0,
        }
    }

    pub fn set_query(&mut self, s: String)
        ensures
            final(self).text == old(self).text,
            final(self).cursor_index == old(self).cursor_index,
            final(self).current_query == Some(s),
    {
        self.current_query = Some(s);
    }

    /// The indentation level of the line holding `at`.
    pub fn sense_indent_level(&self, at: usize, config: &IndentConfig) -> (r: usize)
        requires
            self.wf(),
        ensures
            r == indent_level(self.text@, line_start(self.text@, at as int), config.softtab, 0),
    {
        let ghost t = self.text@;
        let start = self.current_start_of_line(at);
        let mut i = start;
        let mut level: usize = 0;
        let mut spaces: usize = 0;
        proof {
            self.text.lemma_len_fits();
        }
        loop
            invariant
                self.wf(),
                t == self.text@,
                t.len() <= usize::MAX,
                start <= i,
                start as int == line_start(t, at as int),
                level <= i,
                spaces < 4,
                level + indent_level(t, i as int, config.softtab, spaces as nat) == indent_level(
                    t,
                    start as int,
                    config.softtab,
                    0,
                ),
            decreases t.len() - i,
        {
            match self.text.char_at(i) {
                Some(c) => {
                    if config.softtab && c == ' ' {
                        if spaces + 1 == 4 {
                            spaces = 0;
                            level = level + 1;
                        } else {
                            spaces = spaces + 1;
                        }
                    } else if c == '\t' {
                        level = level + 1;
                    } else {
                        return level;
                    }
                },
                None => {
                    return level;
                },
            }
            i = i + 1;
        }
    }

    /// Writes `count` levels of indentation at `at`, as one edit, and gives
    /// how many characters that took.
    pub fn indent(&mut self, at: usize, count: usize, config: &IndentConfig) -> (r: usize)
        requires
            old(self).wf(),
            old(self).text.next_id() < usize::MAX,
            at <= old(self).text@.len(),
            config.softtab ==> count * config.tabstop <= usize::MAX,
            old(self).text@.len() + indent_width(count, *config)
                <= usize::MAX,
        ensures
            final(self).wf(),
            final(self).cursor_index == old(self).cursor_index,
            r == indent_width(count, *config),
            final(self).text@ == old(self).text@.subrange(0, at as int) + repeat(
                if config.softtab { ' ' } else { '\t' },
                r as nat,
            ) + old(self).text@.subrange(at as int, old(self).text@.len() as int),
            r > 0 ==> edit_step(old(self).text, final(self).text),
            r > 0 ==> final(self).text.next_id() == old(self).text.next_id() + 1,
            r == 0 ==> final(self).text == old(self).text,
    {
        let n = if config.softtab { count * config.tabstop } else { count };
        let c = if config.softtab { ' ' } else { '\t' };
        let mut v: Vec<char> = Vec::new();
        let mut i: usize = 0;
        while i < n
            invariant
                i <= n,
                v@ == repeat(c, i as nat),
            decreases n - i,
        {
            v.push(c);
            i = i + 1;
            proof {
                assert(v@ =~= repeat(c, i as nat));
            }
        }
        let s = crate::piece_table::string_of(&v);
        self.text.insert_range(s.as_str(), at);
        n
    }

    /// Writes `count` levels of indentation through the open edit `ins`, and
    /// gives how many characters that took.
    pub fn indent_with_mutator(&mut self, ins: &mut TableMutator, count: usize, config: &IndentConfig) -> (r: usize)
        requires
            old(self).wf(),
            old(self).text.open_id() == Some(old(ins).spec_id()),
            config.softtab ==> count * config.tabstop <= usize::MAX,
            old(self).text@.len() + indent_width(count, *config)
                <= usize::MAX,
        ensures
            final(self).wf(),
            *final(ins) == *old(ins),
            final(self).cursor_index == old(self).cursor_index,
            r == indent_width(count, *config),
            final(self).text@ == old(self).text@.subrange(0, old(self).text.open_point()) + repeat(
                if config.softtab { ' ' } else { '\t' },
                r as nat,
            ) + old(self).text@.subrange(old(self).text.open_point(), old(self).text@.len() as int),
            final(self).text.open_id() == old(self).text.open_id(),
            final(self).text.undo_texts() == old(self).text.undo_texts(),
    {
        let ghost t = self.text@;
        let ghost p = self.text.open_point();
        let n = if config.softtab { count * config.tabstop } else { count };
        let c = if config.softtab { ' ' } else { '\t' };
        let mut i: usize = 0;
        proof {
            self.text.lemma_open_point_fits();
            assert(t =~= t.subrange(0, p) + repeat(c, 0) + t.subrange(p, t.len() as int));
        }
        while i < n
            invariant
                i <= n,
                self.wf(),
                self.text.open_id() == Some(ins.spec_id()),
                *ins == *old(ins),
                self.cursor_index == old(self).cursor_index,
                0 <= p <= t.len(),
                t.len() + n <= usize::MAX,
                self.text.open_point() == p + i,
                self.text@ == t.subrange(0, p) + repeat(c, i as nat) + t.subrange(p, t.len() as int),
                self.text.undo_texts() == old(self).text.undo_texts(),
            decreases n - i,
        {
            ins.push_char(&mut self.text, c);
            i = i + 1;
            proof {
                assert(self.text@ =~= t.subrange(0, p) + repeat(c, i as nat) + t.subrange(
                    p,
                    t.len() as int,
                ));
            }
        }
        n
    }

    /// Takes away up to `count` levels of indentation at `at`, as one edit:
    /// up to `count * tabstop` blanks other than newlines where soft tabs
    /// are on, up to `count` tabs otherwise.
    pub fn undent(&mut self, at: usize, count: usize, config: &IndentConfig)
        requires
            old(self).wf(),
            old(self).text.next_id() < usize::MAX,
            at <= old(self).text@.len(),
            config.softtab ==> count * config.tabstop <= usize::MAX,
        ensures
            final(self).wf(),
            final(self).cursor_index == old(self).cursor_index,
            ({
                let t = old(self).text@;
                let k = undent_run(
                    t,
                    at as int,
                    config.softtab,
                    indent_width(count, *config) as nat,
                );
                &&& final(self).text@ == t.subrange(0, at as int) + t.subrange(at + k, t.len() as int)
                &&& k > 0 ==> edit_step(old(self).text, final(self).text)
                &&& k > 0 ==> final(self).text.next_id() == old(self).text.next_id() + 1
                &&& k == 0 ==> final(self).text == old(self).text
            }),
    {
        let ghost t = self.text@;
        let limit = if config.softtab { count * config.tabstop } else { count };
        let mut k: usize = 0;
        proof {
            self.text.lemma_len_fits();
        }
        loop
            invariant
                self.wf(),
                t == self.text@,
                t.len() <= usize::MAX,
                k <= limit,
                at <= t.len(),
                at + k <= t.len(),
                limit == indent_width(count, *config),
                k + undent_run(t, at + k, config.softtab, (limit - k) as nat) == undent_run(
                    t,
                    at as int,
                    config.softtab,
                    limit as nat,
                ),
            ensures
                k <= limit,
                at + k <= t.len(),
                t == self.text@,
                self.wf(),
                k + undent_run(t, at + k, config.softtab, (limit - k) as nat) == undent_run(
                    t,
                    at as int,
                    config.softtab,
                    limit as nat,
                ),
                undent_run(t, at + k, config.softtab, (limit - k) as nat) == 0,
            decreases limit - k,
        {
            if k == limit || at > usize::MAX - k {
                break;
            }
            match self.text.char_at(at + k) {
                Some(c) => {
                    let removable = if config.softtab {
                        c != '\n' && classify(c) == CharClass::Whitespace
                    } else {
                        c == '\t'
                    };
                    if !removable {
                        break;
                    }
                },
                None => {
                    break;
                },
            }
            k = k + 1;
        }
        proof {
            assert(undent_run(t, at + k, config.softtab, (limit - k) as nat) == 0);
        }
        if k > 0 {
            self.text.delete_range(at, at + k);
        } else {
            proof {
                assert(t =~= t.subrange(0, at as int) + t.subrange(at as int, t.len() as int));
            }
        }
    }

    /// Whether `q` occurs in the document starting at `k`.
    fn occurs(&self, q: &Vec<char>, k: usize) -> (r: bool)
        requires
            self.wf(),
        ensures
            r == occurs_at(self.text@, q@, k as int),
    {
        let ghost t = self.text@;
        let n = self.text.len();
        if k > n || q.len() > n - k {
            return false;
        }
        let mut j: usize = 0;
        while j < q.len()
            invariant
                self.wf(),
                t == self.text@,
                j <= q@.len(),
                k + q@.len() <= t.len(),
                n == t.len(),
                forall|m: int| 0 <= m < j ==> #[trigger] t[k + m] == q@[m],
            decreases q@.len() - j,
        {
            match self.text.char_at(k + j) {
                Some(c) => {
                    if c != q[j] {
                        proof {
                            assert(t.subrange(k as int, k + q@.len())[j as int] != q@[j as int]);
                        }
                        return false;
                    }
                },
                None => {
                    return false;
                },
            }
            j = j + 1;
        }
        proof {
            assert forall|m: int| 0 <= m < q@.len() implies #[trigger] t.subrange(
                k as int,
                k + q@.len(),
            )[m] == q@[m] by {
                assert(t[k + m] == q@[m]);
            }
            assert(t.subrange(k as int, k + q@.len()) =~= q@);
        }
        true
    }

    fn find_forward(&self, q: &Vec<char>, from: usize) -> (r: Option<usize>)
        requires
            self.wf(),
            q@.len() > 0,
        ensures
            r == (match first_occurrence(self.text@, q@, from as int) {
                Some(k) => Some(k as usize),
                None => None::<usize>,
            }),
    {
        let ghost t = self.text@;
        let n = self.text.len();
        if q.len() > n {
            return None;
        }
        let last = n - q.len();
        let mut k = from;
        while k <= last
            invariant
                self.wf(),
                t == self.text@,
                n == t.len(),
                last == n - q@.len(),
                q@.len() > 0,
                from <= k,
                first_occurrence(t, q@, from as int) == first_occurrence(t, q@, k as int),
            decreases last + 1 - k,
        {
            if self.occurs(q, k) {
                return Some(k);
            }
            k = k + 1;
        }
        None
    }

    fn find_backward(&self, q: &Vec<char>, before: usize) -> (r: Option<usize>)
        requires
            self.wf(),
        ensures
            r == (match last_occurrence(self.text@, q@, before as int) {
                Some(k) => Some(k as usize),
                None => None::<usize>,
            }),
    {
        let ghost t = self.text@;
        let mut k = before;
        while k > 0
            invariant
                self.wf(),
                t == self.text@,
                k <= before,
                last_occurrence(t, q@, before as int) == last_occurrence(t, q@, k as int),
            decreases k,
        {
            if self.occurs(q, k - 1) {
                return Some(k - 1);
            }
            k = k - 1;
        }
        None
    }

    /// Searches for the current query from `from`.
    pub fn next_query_index(&self, from: usize, direction: Direction, wrap: bool) -> (r: Option<
        usize,
    >)
        requires
            self.wf(),
        ensures
            r == (match self.current_query {
                None => None::<usize>,
                Some(q) => match query_result(self.text@, q@, from as int, direction, wrap) {
                    Some(k) => Some(k as usize),
                    None => None::<usize>,
                },
            }),
    {
        let q = match &self.current_query {
            None => {
                return None;
            },
            Some(s) => chars_of(s.as_str()),
        };
        if q.len() == 0 {
            return None;
        }
        let n = self.text.len();
        let found = match direction {
            Direction::Forward => self.find_forward(&q, from),
            Direction::Backward => {
                let end = if from < n { from } else { n };
                if end < q.len() - 1 {
                    proof {
                        assert(clamp(self.text@, from as int) - q@.len() + 1 <= 0);
                    }
                    None
                } else {
                    self.find_backward(&q, end - (q.len() - 1))
                }
            },
        };
        if found.is_none() && wrap {
            match direction {
                Direction::Forward => self.find_forward(&q, 0),
                Direction::Backward => {
                    if n < q.len() - 1 {
                        None
                    } else {
                        self.find_backward(&q, n - (q.len() - 1))
                    }
                },
            }
        } else {
            found
        }
    }
}

} // verus!
