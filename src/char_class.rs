//! Character classes for word motions, and the predicates that searches
//! through a document test.
use vstd::prelude::*;

verus! {

/// Whether a character has Unicode's White_Space property, which is what
/// `char::is_whitespace` tests.
pub open spec fn unicode_blank(c: char) -> bool {
    let u = c as u32;
    (0x9 <= u && u <= 0xD) || u == 0x20 || u == 0x85 || u == 0xA0 || u == 0x1680 || (0x2000 <= u
        && u <= 0x200A) || u == 0x2028 || u == 0x2029 || u == 0x202F || u == 0x205F || u == 0x3000
}

/// Whether `char::is_alphanumeric` holds of a character.
pub uninterp spec fn unicode_alnum(c: char) -> bool;

/// The ASCII letters and digits.
pub open spec fn ascii_alnum(c: char) -> bool {
    ('0' <= c && c <= '9') || ('a' <= c && c <= 'z') || ('A' <= c && c <= 'Z')
}

fn is_unicode_blank(c: char) -> (r: bool)
    ensures
        r == unicode_blank(c),
{
    let u = c as u32;
    (0x9 <= u && u <= 0xD) || u == 0x20 || u == 0x85 || u == 0xA0 || u == 0x1680 || (0x2000 <= u
        && u <= 0x200A) || u == 0x2028 || u == 0x2029 || u == 0x202F || u == 0x205F || u == 0x3000
}

/// Relies on `char::is_alphanumeric`, which depends on the character alone
/// and, on ASCII, agrees with `is_ascii_alphanumeric`.
#[verifier::external_body]
fn is_unicode_alnum(c: char) -> (r: bool)
    ensures
        r == unicode_alnum(c),
        (c as u32) < 128 ==> r == ascii_alnum(c),
{
    c.is_alphanumeric()
}

/// The characters that `char::is_ascii_whitespace` accepts.
pub open spec fn ascii_blank(c: char) -> bool {
    c == ' ' || c == '\t' || c == '\n' || c == '\x0C' || c == '\r'
}

#[derive(Copy, Clone, Debug, PartialEq, Eq, Structural)]
pub enum CharClass {
    Whitespace,
    Punctuation,
    Regular,
}

/// Blank characters are whitespace; letters, digits and `_` are regular;
/// everything else is punctuation.
pub open spec fn class_of(c: char) -> CharClass {
    if unicode_blank(c) || ascii_blank(c) {
        CharClass::Whitespace
    } else if !unicode_alnum(c) && c != '_' {
        CharClass::Punctuation
    } else {
        CharClass::Regular
    }
}

/// The class a "big word" motion sees: punctuation counts as regular.
pub open spec fn widen(cls: CharClass, big: bool) -> CharClass {
    if big && cls == CharClass::Punctuation {
        CharClass::Regular
    } else {
        cls
    }
}

pub open spec fn class_as(c: char, big: bool) -> CharClass {
    widen(class_of(c), big)
}

/// The class of `c`.
pub fn classify(c: char) -> (r: CharClass)
    ensures
        r == class_of(c),
{
    if is_unicode_blank(c) || c == ' ' || c == '\t' || c == '\n' || c == '\x0C' || c == '\r' {
        CharClass::Whitespace
    } else if !is_unicode_alnum(c) && c != '_' {
        CharClass::Punctuation
    } else {
        CharClass::Regular
    }
}

/// The class of `c`, seen as a big word motion sees it when `big` holds.
pub fn classify_as(c: char, big: bool) -> (r: CharClass)
    ensures
        r == class_as(c, big),
{
    let cls = classify(c);
    if big && cls == CharClass::Punctuation {
        CharClass::Regular
    } else {
        cls
    }
}

/// A test on one character.
#[derive(Copy, Clone, Debug, PartialEq, Eq, Structural)]
pub enum CharPred {
    /// The character is this one.
    Is(char),
    /// The character is of this class (as big words see it, if the flag is set).
    InClass(CharClass, bool),
    /// The character is not of this class.
    NotInClass(CharClass, bool),
}

pub open spec fn holds(p: CharPred, c: char) -> bool {
    match p {
        CharPred::Is(x) => c == x,
        CharPred::InClass(cls, big) => class_as(c, big) == cls,
        CharPred::NotInClass(cls, big) => class_as(c, big) != cls,
    }
}

impl CharPred {
    pub fn test(&self, c: char) -> (r: bool)
        ensures
            r == holds(*self, c),
    {
        match *self {
            CharPred::Is(x) => c == x,
            CharPred::InClass(cls, big) => classify_as(c, big) == cls,
            CharPred::NotInClass(cls, big) => classify_as(c, big) != cls,
        }
    }
}

/// The first position at or after `from` whose character passes `p`.
pub open spec fn first_match(t: Seq<char>, p: CharPred, from: int) -> Option<nat>
    decreases t.len() - from,
{
    if from < 0 || from >= t.len() {
        None
    } else if holds(p, t[from]) {
        Some(from as nat)
    } else {
        first_match(t, p, from + 1)
    }
}

/// The last position before `before` whose character passes `p`.
pub open spec fn last_match(t: Seq<char>, p: CharPred, before: int) -> Option<nat>
    decreases before,
{
    if before <= 0 || before > t.len() {
        None
    } else if holds(p, t[before - 1]) {
        Some((before - 1) as nat)
    } else {
        last_match(t, p, before - 1)
    }
}

/// A forward search finds the first passing position from `from` on, or
/// reports that there is none.
pub proof fn lemma_first_match(t: Seq<char>, p: CharPred, from: int)
    requires
        0 <= from,
    ensures
        match first_match(t, p, from) {
            Some(k) => from <= k < t.len() && holds(p, t[k as int]) && forall|j: int|
                from <= j < k ==> !holds(p, #[trigger] t[j]),
            None => forall|j: int| from <= j < t.len() ==> !holds(p, #[trigger] t[j]),
        },
    decreases t.len() - from,
{
    if from < t.len() && !holds(p, t[from]) {
        lemma_first_match(t, p, from + 1);
    }
}

/// A backward search finds the last passing position before `before`, or
/// reports that there is none.
pub proof fn lemma_last_match(t: Seq<char>, p: CharPred, before: int)
    requires
        0 <= before <= t.len(),
    ensures
        match last_match(t, p, before) {
            Some(k) => k < before && holds(p, t[k as int]) && forall|j: int|
                k < j < before ==> !holds(p, #[trigger] t[j]),
            None => forall|j: int| 0 <= j < before ==> !holds(p, #[trigger] t[j]),
        },
    decreases before,
{
    if before > 0 && !holds(p, t[before - 1]) {
        lemma_last_match(t, p, before - 1);
    }
}

} // verus!
