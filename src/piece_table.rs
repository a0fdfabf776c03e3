//! The piece table: a document held as a sequence of pieces over append-only
//! sources, with a log of reversible actions behind undo and replication.
use vstd::prelude::*;
use vstd::std_specs::iter::IteratorSpec;
use crate::Direction;
use crate::char_class::{CharPred, holds, first_match, last_match};
use crate::text_model::{
    Piece, Change, piece_end, piece_valid, pieces_valid, piece_text, pieces_text, pieces_len,
    unapply_one, unapply, apply, sources_extend,
    lemma_pieces_text_len, lemma_pieces_text_single, lemma_prefix_text, lemma_piece_chars,
    lemma_pieces_len_prefix, lemma_insert_at, lemma_split_insert, lemma_extend_agree,
    lemma_unapply_same_undo, lemma_unapply_concat, deletes_at, lemma_unapply_deletes,
    lemma_replace_piece, lemma_replace_run, lemma_unapply_apply,
};

verus! {

/// The characters of `s`, in order.
pub fn chars_of(s: &str) -> (r: Vec<char>)
    ensures
        r@ == s@,
{
    broadcast use vstd::string::group_string_axioms, vstd::string::next_postcondition;

    let mut r: Vec<char> = Vec::new();
    let mut it = s.chars();
    loop
        invariant
            it.obeys_prophetic_iter_laws(),
            it.decrease() is Some,
            r@ + it.remaining() == s@,
        ensures
            r@ == s@,
        decreases it.decrease()->0,
    {
        match it.next() {
            Some(c) => {
                assert(r@.push(c) + it.remaining() =~= s@);
                r.push(c);
            },
            None => {
                assert(r@ + it.remaining() =~= r@);
                break;
            },
        }
    }
    r
}


/// Relies on `FromIterator<char> for String` (`collect`): the string holds
/// the characters in order.
#[verifier::external_body]
pub(crate) fn string_of(v: &Vec<char>) -> (r: String)
    ensures
        r@ == v@,
{
    v.iter().collect()
}

/// One logical edit: a group of changes, and its place in the log.
#[derive(Clone, Debug)]
pub struct Action {
    pub changes: Vec<Change>,
    pub id: usize,
}

/// The edit of a mutator that has not been committed yet.
struct OpenEdit {
    /// Index of the piece that grows.
    piece_ix: usize,
    /// Length of the last source when the edit opened: what lies below it
    /// is shared with the log and is never popped.
    floor: usize,
    changes: Vec<Change>,
    /// The change whose installed piece is patched at commit.
    patch_ix: usize,
    id: usize,
    /// The pieces before the edit opened.
    before: Ghost<Seq<Piece>>,
}

/// A document as a sequence of pieces over append-only sources.
pub struct PieceTable {
    sources: Vec<Vec<char>>,
    pieces: Vec<Piece>,
    history: Vec<Action>,
    next_action_id: usize,
    open: Option<OpenEdit>,
    /// For each action of the log, the pieces it was made on.
    states: Ghost<Seq<Seq<Piece>>>,
}

impl Default for PieceTable {
    fn default() -> (r: PieceTable)
        ensures
            r.wf(),
            r@ == Seq::<char>::empty(),
            r.undo_texts().len() == 0,
    {
        proof {
            reveal_strlit("");
        }
        PieceTable::with_text("")
    }
}

/// A handle to the open edit of a table, which grows one piece a character
/// at a time.
pub struct TableMutator {
    id: usize,
}

impl TableMutator {
    pub closed spec fn spec_id(&self) -> usize {
        self.id
    }

    /// Adds `c` at the end of the piece of the open edit.
    pub fn push_char(&mut self, pt: &mut PieceTable, c: char)
        requires
            old(pt).wf(),
            old(pt).open_id() == Some(old(self).spec_id()),
            old(pt)@.len() < usize::MAX,
        ensures
            *final(self) == *old(self),
            final(pt).wf(),
            final(pt)@ == old(pt)@.insert(old(pt).open_point(), c),
            final(pt).open_id() == old(pt).open_id(),
            final(pt).open_point() == old(pt).open_point() + 1,
            final(pt).open_grown() == old(pt).open_grown() + 1,
            final(pt).next_id() == old(pt).next_id(),
            final(pt).undo_texts() == old(pt).undo_texts(),
            final(pt).log() == old(pt).log(),
            final(pt).srcs() == old(pt).srcs().update(
                old(pt).srcs().len() - 1,
                old(pt).srcs().last().push(c),
            ),
    {
        let ghost pre = *pt;
        let ix = match &pt.open {
            Some(e) => e.piece_ix,
            None => 0,
        };
        let p = pt.pieces[ix];
        proof {
            crate::text_model::lemma_pieces_text_split(pre.srcs(), pre.pieces@, ix as int);
            assert(pre.srcs().last() == pre.sources@.last()@);
        }
        let mut src = pt.sources.pop().unwrap();
        src.push(c);
        pt.sources.push(src);
        let m2 = Piece { source: p.source, start: p.start, length: p.length + 1 };
        pt.pieces.set(ix, m2);
        proof {
            let e = pre.open->0;
            assert(pt.srcs().last() == pre.srcs().last().push(c));
            lemma_pieces_text_len(pre.srcs(), pre.pieces@);
            assert(pt.srcs().len() == pre.srcs().len());
            assert(pt.srcs().last().subrange(0, e.floor as int) =~= pre.srcs().last().subrange(
                0,
                e.floor as int,
            ));
            assert forall|j: int| 0 <= j < pre.srcs().len() - 1 implies #[trigger] pt.srcs()[j]
                == pre.srcs()[j] by {}
            PieceTable::lemma_regrow(&pre, pt, m2);
            assert(piece_text(pt.srcs(), m2) =~= piece_text(pre.srcs(), p).push(c));
            assert(pt@ =~= pre@.insert(pre.open_point(), c));
            assert(pt.srcs() =~= pre.srcs().update(pre.srcs().len() - 1, pre.srcs().last().push(c)));
        }
    }

    /// Takes back the last character this edit added. Gives `true`, and
    /// changes nothing, where no character of it is left.
    pub fn pop_char(&mut self, pt: &mut PieceTable) -> (empty: bool)
        requires
            old(pt).wf(),
            old(pt).open_id() == Some(old(self).spec_id()),
        ensures
            *final(self) == *old(self),
            final(pt).wf(),
            empty == (old(pt).open_grown() == 0),
            empty ==> *final(pt) == *old(pt),
            !empty ==> final(pt)@ == old(pt)@.remove(old(pt).open_point() - 1),
            !empty ==> final(pt).open_point() == old(pt).open_point() - 1,
            !empty ==> final(pt).open_grown() == old(pt).open_grown() - 1,
            final(pt).open_id() == old(pt).open_id(),
            final(pt).next_id() == old(pt).next_id(),
            final(pt).undo_texts() == old(pt).undo_texts(),
            final(pt).log() == old(pt).log(),
            !empty ==> final(pt).srcs() == old(pt).srcs().update(
                old(pt).srcs().len() - 1,
                old(pt).srcs().last().drop_last(),
            ),
    {
        let ghost pre = *pt;
        let (ix, floor) = match &pt.open {
            Some(e) => (e.piece_ix, e.floor),
            None => (0, 0),
        };
        let n = pt.sources.len();
        if pt.sources[n - 1].len() == floor {
            return true;
        }
        let p = pt.pieces[ix];
        proof {
            crate::text_model::lemma_pieces_text_split(pre.srcs(), pre.pieces@, ix as int);
            assert(pre.srcs().last() == pre.sources@.last()@);
        }
        let mut src = pt.sources.pop().unwrap();
        src.pop();
        pt.sources.push(src);
        let m2 = Piece { source: p.source, start: p.start, length: p.length - 1 };
        pt.pieces.set(ix, m2);
        proof {
            let e = pre.open->0;
            assert(pt.srcs().last() == pre.srcs().last().drop_last());
            assert(pre.srcs().last().len() > e.floor);
            assert(piece_end(m2) == pt.srcs().last().len());
            assert(pt.srcs().len() == pre.srcs().len());
            assert(pt.srcs().last().subrange(0, e.floor as int) =~= pre.srcs().last().subrange(
                0,
                e.floor as int,
            ));
            assert forall|j: int| 0 <= j < pre.srcs().len() - 1 implies #[trigger] pt.srcs()[j]
                == pre.srcs()[j] by {}
            PieceTable::lemma_regrow(&pre, pt, m2);
            assert(piece_text(pre.srcs(), p) =~= piece_text(pt.srcs(), m2).push(
                pre.srcs().last().last(),
            ));
            assert(pt@ =~= pre@.remove(pre.open_point() - 1));
            assert(pt.srcs() =~= pre.srcs().update(
                pre.srcs().len() - 1,
                pre.srcs().last().drop_last(),
            ));
        }
        false
    }

    /// Commits the edit to the log as one action.
    pub fn finish(self, pt: &mut PieceTable)
        requires
            old(pt).wf(),
            old(pt).open_id() == Some(self.spec_id()),
        ensures
            final(pt).wf(),
            final(pt)@ == old(pt)@,
            final(pt).open_id() is None,
            final(pt).next_id() == old(pt).next_id(),
            final(pt).undo_texts() == old(pt).undo_texts(),
            final(pt).log().len() == old(pt).log().len() + 1,
            final(pt).log().drop_last() == old(pt).log(),
            final(pt).log().last().id == self.spec_id(),
            patched(final(pt).log().last().changes@, old(pt).open_piece()),
            final(pt).piece_seq() == old(pt).piece_seq(),
            final(pt).srcs() == old(pt).srcs(),
    {
        pt.commit();
    }
}

pub open spec fn sources_view(v: Seq<Vec<char>>) -> Seq<Seq<char>> {
    v.map_values(|x: Vec<char>| x@)
}

/// Undoes `changes` on `pieces`, the last change first.
fn unapply_changes(pieces: &mut Vec<Piece>, changes: &Vec<Change>)
    requires
        unapply(old(pieces)@, changes@) is Some,
    ensures
        Some(final(pieces)@) == unapply(old(pieces)@, changes@),
{
    let ghost target = unapply(pieces@, changes@)->0;
    proof {
        assert(changes@.subrange(0, changes@.len() as int) =~= changes@);
    }
    let mut k = changes.len();
    while k > 0
        invariant
            k <= changes@.len(),
            unapply(pieces@, changes@.subrange(0, k as int)) == Some(target),
        decreases k,
    {
        let ghost cs = changes@.subrange(0, k as int);
        proof {
            assert(cs.last() == changes@[k - 1]);
            assert(cs.drop_last() =~= changes@.subrange(0, k - 1));
        }
        k = k - 1;
        match changes[k] {
            Change::Insert { piece_index, .. } => {
                pieces.remove(piece_index);
            },
            Change::Modify { piece_index, old, .. } => {
                pieces.set(piece_index, old);
            },
            Change::Delete { piece_index, old } => {
                pieces.insert(piece_index, old);
            },
        }
    }
    proof {
        assert(changes@.subrange(0, 0) =~= Seq::<Change>::empty());
    }
}

/// The first piece, from piece `i` on (which begins at `g`), whose end lies
/// beyond `pos`; and where it begins.
fn find_piece(
    pieces: &Vec<Piece>,
    srcs: Ghost<Seq<Seq<char>>>,
    pos: usize,
    from: usize,
    g: usize,
) -> (r: (usize, usize))
    requires
        pieces_valid(srcs@, pieces@),
        pieces_len(pieces@) <= usize::MAX,
        from <= pieces@.len(),
        g == pieces_len(pieces@.subrange(0, from as int)),
        g <= pos < pieces_len(pieces@),
    ensures
        from <= r.0 < pieces@.len(),
        r.1 == pieces_len(pieces@.subrange(0, r.0 as int)),
        r.1 <= pos < r.1 + pieces@[r.0 as int].length,
{
    let ghost ps = pieces@;
    let n = pieces.len();
    let mut i = from;
    let mut g = g;
    proof {
        if i == ps.len() {
            assert(ps.subrange(0, i as int) =~= ps);
            assert(false);
        }
        lemma_piece_chars(srcs@, ps, i as int);
    }
    while pos >= g + pieces[i].length
        invariant
            n == ps.len(),
            from <= i < ps.len(),
            pieces_len(ps) <= usize::MAX,
            g == pieces_len(ps.subrange(0, i as int)),
            g <= pos < pieces_len(ps),
            g + ps[i as int].length <= pieces_len(ps),
            pieces_valid(srcs@, ps),
            pieces@ == ps,
        decreases ps.len() - i,
    {
        proof {
            lemma_piece_chars(srcs@, ps, i as int);
            if i + 1 == ps.len() {
                assert(ps.subrange(0, i + 1) =~= ps);
            }
        }
        g = g + pieces[i].length;
        i = i + 1;
        proof {
            lemma_piece_chars(srcs@, ps, i as int);
        }
    }
    (i, g)
}

#[verifier::rlimit(100)]
/// Cuts `start..end` out of piece `i`, which begins at `g` and holds both.
fn cut_within(
    pieces: &mut Vec<Piece>,
    sources: &Vec<Vec<char>>,
    i: usize,
    g: usize,
    start: usize,
    end: usize,
) -> (changes: Vec<Change>)
    requires
        pieces_valid(sources_view(sources@), old(pieces)@),
        i < old(pieces)@.len(),
        g == pieces_len(old(pieces)@.subrange(0, i as int)),
        g <= start < end <= g + old(pieces)@[i as int].length,
    ensures
        unapply(final(pieces)@, changes@) == Some(old(pieces)@),
        pieces_valid(sources_view(sources@), final(pieces)@),
        ({
            let t = pieces_text(sources_view(sources@), old(pieces)@);
            pieces_text(sources_view(sources@), final(pieces)@) == t.subrange(0, start as int)
                + t.subrange(end as int, t.len() as int)
        }),
{
    let ghost srcs = sources_view(sources@);
    let ghost prev = pieces@;
    let ghost t = pieces_text(srcs, prev);
    let mut changes: Vec<Change> = Vec::new();
    let p = pieces[i];
    proof {
        assert(piece_valid(srcs, prev[i as int]));
    }
    let sl = sources[p.source].len();
    let a = start - g;
    let b = end - g;
    let left = Piece { source: p.source, start: p.start, length: a };
    let right = Piece { source: p.source, start: p.start + b, length: p.length - b };
    let ghost mid: Seq<Piece>;
    proof {
        lemma_pieces_text_single(srcs, left);
        lemma_pieces_text_single(srcs, right);
    }
    if a == 0 {
        pieces.set(i, right);
        changes.push(Change::Modify { piece_index: i, old: p, new: right });
        proof {
            mid = seq![right];
            assert(pieces@ =~= prev.subrange(0, i as int) + mid + prev.subrange(
                i + 1,
                prev.len() as int,
            ));
            assert(pieces@.update(i as int, p) =~= prev);
            reveal_with_fuel(unapply, 2);
        }
    } else if b == p.length {
        pieces.set(i, left);
        changes.push(Change::Modify { piece_index: i, old: p, new: left });
        proof {
            mid = seq![left];
            assert(pieces@ =~= prev.subrange(0, i as int) + mid + prev.subrange(
                i + 1,
                prev.len() as int,
            ));
            assert(pieces@.update(i as int, p) =~= prev);
            reveal_with_fuel(unapply, 2);
        }
    } else {
        pieces.set(i, left);
        let n = pieces.len();
        pieces.insert(i + 1, right);
        changes.push(Change::Modify { piece_index: i, old: p, new: left });
        changes.push(Change::Insert { piece_index: i + 1, new: right });
        proof {
            mid = seq![left, right];
            assert(pieces@ =~= prev.subrange(0, i as int) + mid + prev.subrange(
                i + 1,
                prev.len() as int,
            ));
            assert(mid =~= seq![left] + seq![right]);
            crate::text_model::lemma_pieces_text_concat(srcs, seq![left], seq![right]);
            assert(pieces@.remove(i + 1).update(i as int, p) =~= prev);
            reveal_with_fuel(unapply, 3);
        }
    }
    proof {
        assert forall|j: int| 0 <= j < mid.len() implies #[trigger] piece_valid(srcs, mid[j]) by {}
        lemma_replace_piece(srcs, prev, i as int, mid);
        let tp = t.subrange(g as int, g + p.length);
        assert(piece_text(srcs, left) =~= tp.subrange(0, a as int));
        assert(piece_text(srcs, right) =~= tp.subrange(b as int, p.length as int));
        assert(tp.subrange(0, a as int) =~= t.subrange(g as int, start as int));
        assert(tp.subrange(b as int, p.length as int) =~= t.subrange(end as int, g + p.length));
        assert(pieces_text(srcs, mid) =~= t.subrange(g as int, start as int) + t.subrange(
            end as int,
            g + p.length,
        ));
        assert(pieces_text(srcs, pieces@) =~= t.subrange(0, start as int) + t.subrange(
            end as int,
            t.len() as int,
        ));
    }
    changes
}

#[verifier::rlimit(100)]
/// Cuts `start..end` out of the pieces `is..=ie`: the first keeps what lies
/// before `start`, the last what lies from `end` on, and those between go.
fn cut_across(
    pieces: &mut Vec<Piece>,
    sources: &Vec<Vec<char>>,
    is: usize,
    gs: usize,
    ie: usize,
    ge: usize,
    start: usize,
    end: usize,
) -> (changes: Vec<Change>)
    requires
        pieces_valid(sources_view(sources@), old(pieces)@),
        is < ie < old(pieces)@.len(),
        gs == pieces_len(old(pieces)@.subrange(0, is as int)),
        ge == pieces_len(old(pieces)@.subrange(0, ie as int)),
        gs <= start < gs + old(pieces)@[is as int].length,
        ge < end <= ge + old(pieces)@[ie as int].length,
    ensures
        unapply(final(pieces)@, changes@) == Some(old(pieces)@),
        pieces_valid(sources_view(sources@), final(pieces)@),
        ({
            let t = pieces_text(sources_view(sources@), old(pieces)@);
            pieces_text(sources_view(sources@), final(pieces)@) == t.subrange(0, start as int)
                + t.subrange(end as int, t.len() as int)
        }),
{
    let ghost srcs = sources_view(sources@);
    let ghost prev = pieces@;
    let ghost t = pieces_text(srcs, prev);
    let mut changes: Vec<Change> = Vec::new();
    let ps = pieces[is];
    let pe = pieces[ie];
    proof {
        assert(piece_valid(srcs, prev[is as int]));
        assert(piece_valid(srcs, prev[ie as int]));
    }
    let sl = sources[ps.source].len();
    let el = sources[pe.source].len();
    let a = start - gs;
    let b = end - ge;
    let left = Piece { source: ps.source, start: ps.start, length: a };
    let right = Piece { source: pe.source, start: pe.start + b, length: pe.length - b };
    pieces.set(is, left);
    pieces.set(ie, right);
    changes.push(Change::Modify { piece_index: is, old: ps, new: left });
    changes.push(Change::Modify { piece_index: ie, old: pe, new: right });
    let ghost modified = pieces@;
    let ghost head = changes@;
    proof {
        assert(modified.subrange(is + 1, is + 1) =~= Seq::<Piece>::empty());
        assert(deletes_at((is + 1) as usize, Seq::<Piece>::empty()) =~= Seq::<Change>::empty());
        assert(changes@ =~= head + deletes_at((is + 1) as usize, modified.subrange(is + 1, is + 1)));
        assert(pieces@ =~= modified.subrange(0, is + 1) + modified.subrange(
            is + 1,
            modified.len() as int,
        ));
    }
    let mut removed: usize = 0;
    while removed + is + 1 < ie
        invariant
            is < ie < prev.len(),
            modified.len() == prev.len(),
            removed + is + 1 <= ie,
            pieces@ == modified.subrange(0, is + 1) + modified.subrange(
                is + 1 + removed,
                modified.len() as int,
            ),
            changes@ == head + deletes_at(
                (is + 1) as usize,
                modified.subrange(is + 1, is + 1 + removed),
            ),
        decreases ie - removed,
    {
        let old = pieces.remove(is + 1);
        changes.push(Change::Delete { piece_index: is + 1, old });
        removed = removed + 1;
        proof {
            assert(pieces@ =~= modified.subrange(0, is + 1) + modified.subrange(
                is + 1 + removed,
                modified.len() as int,
            ));
            assert(changes@ =~= head + deletes_at(
                (is + 1) as usize,
                modified.subrange(is + 1, is + 1 + removed),
            ));
        }
    }
    proof {
        assert(modified =~= prev.update(is as int, modified[is as int]).update(
            ie as int,
            modified[ie as int],
        ));
        assert(head =~= seq![
            Change::Modify { piece_index: is, old: ps, new: modified[is as int] },
            Change::Modify { piece_index: ie, old: pe, new: modified[ie as int] },
        ]);
        assert(pieces@ =~= modified.subrange(0, is + 1) + modified.subrange(
            ie as int,
            modified.len() as int,
        ));
        lemma_across_undo(pieces@, modified, head, changes@, prev, is as int, ie as int, ps, pe);
        assert(pieces@ =~= prev.subrange(0, is as int) + seq![left, right] + prev.subrange(
            ie + 1,
            prev.len() as int,
        ));
        assert(modified =~= prev.update(is as int, left).update(ie as int, right));
        lemma_across_text(srcs, prev, pieces@, is as int, ie as int, start as int, end as int);
    }
    changes
}

proof fn lemma_across_undo(
    cur: Seq<Piece>,
    modified: Seq<Piece>,
    head: Seq<Change>,
    changes: Seq<Change>,
    prev: Seq<Piece>,
    is: int,
    ie: int,
    ps: Piece,
    pe: Piece,
)
    requires
        0 <= is < ie < prev.len(),
        ie <= usize::MAX,
        modified.len() == prev.len(),
        modified == prev.update(is, modified[is]).update(ie, modified[ie]),
        prev[is] == ps,
        prev[ie] == pe,
        head == seq![
            Change::Modify { piece_index: is as usize, old: ps, new: modified[is] },
            Change::Modify { piece_index: ie as usize, old: pe, new: modified[ie] },
        ],
        cur == modified.subrange(0, is + 1) + modified.subrange(ie, modified.len() as int),
        changes == head + deletes_at((is + 1) as usize, modified.subrange(is + 1, ie)),
    ensures
        unapply(cur, changes) == Some(prev),
{
    let m = modified.subrange(is + 1, ie);
    let aa = modified.subrange(0, is + 1);
    let cc = modified.subrange(ie, modified.len() as int);
    lemma_unapply_deletes(aa, m, cc);
    assert(aa + m + cc =~= modified);
    lemma_unapply_concat(cur, head, deletes_at((is + 1) as usize, m));
    assert(modified.update(ie, pe).update(is, ps) =~= prev);
    let h0 = seq![head[0]];
    assert(head.drop_last() =~= h0);
    assert(h0.drop_last() =~= Seq::<Change>::empty());
    assert(unapply_one(modified, head.last()) == Some(modified.update(ie, pe)));
    assert(unapply_one(modified.update(ie, pe), h0.last()) == Some(prev));
    reveal_with_fuel(unapply, 3);
    assert(unapply(modified, head) == Some(prev));
}

proof fn lemma_across_text(
    srcs: Seq<Seq<char>>,
    prev: Seq<Piece>,
    cur: Seq<Piece>,
    is: int,
    ie: int,
    start: int,
    end: int,
)
    requires
        0 <= is < ie < prev.len(),
        pieces_valid(srcs, prev),
        ({
            let ps = prev[is];
            let pe = prev[ie];
            let gs = pieces_len(prev.subrange(0, is)) as int;
            let ge = pieces_len(prev.subrange(0, ie)) as int;
            let left = Piece { source: ps.source, start: ps.start, length: (start - gs) as usize };
            let right = Piece {
                source: pe.source,
                start: (pe.start + (end - ge)) as usize,
                length: (pe.length - (end - ge)) as usize,
            };
            &&& gs <= start < gs + ps.length
            &&& ge < end <= ge + pe.length
            &&& piece_end(pe) <= usize::MAX
            &&& cur == prev.subrange(0, is) + seq![left, right] + prev.subrange(
                ie + 1,
                prev.len() as int,
            )
        }),
    ensures
        pieces_valid(srcs, cur),
        ({
            let t = pieces_text(srcs, prev);
            pieces_text(srcs, cur) == t.subrange(0, start) + t.subrange(end, t.len() as int)
        }),
{
    let t = pieces_text(srcs, prev);
    let ps = prev[is];
    let pe = prev[ie];
    let gs = pieces_len(prev.subrange(0, is)) as int;
    let ge = pieces_len(prev.subrange(0, ie)) as int;
    let a = start - gs;
    let b = end - ge;
    let left = Piece { source: ps.source, start: ps.start, length: a as usize };
    let right = Piece { source: pe.source, start: (pe.start + b) as usize, length: (pe.length - b) as usize };
    assert(piece_valid(srcs, prev[is]));
    assert(piece_valid(srcs, prev[ie]));
    lemma_replace_run(srcs, prev, is, ie, left, right);
    let ts = t.subrange(gs, gs + ps.length);
    let te = t.subrange(ge, ge + pe.length);
    assert(piece_text(srcs, left) =~= ts.subrange(0, a));
    assert(ts.subrange(0, a) =~= t.subrange(gs, start));
    assert(piece_text(srcs, right) =~= te.subrange(b, pe.length as int));
    assert(te.subrange(b, pe.length as int) =~= t.subrange(end, ge + pe.length));
    assert(pieces_text(srcs, cur) =~= t.subrange(0, start) + t.subrange(end, t.len() as int));
}

/// Makes room for an open edit at `index`: the piece ending there when it
/// ends at the end of the latest source, or else a fresh empty piece over a
/// fresh empty source. Gives the index of that piece, the length of the
/// latest source, and the changes that record the placement.
#[verifier::rlimit(100)]
fn place_open(pieces: &mut Vec<Piece>, sources: &mut Vec<Vec<char>>, index: usize) -> (r: (
    usize,
    usize,
    Vec<Change>,
    usize,
))
    requires
        pieces_valid(sources_view(old(sources)@), old(pieces)@),
        pieces_len(old(pieces)@) <= usize::MAX,
        index <= pieces_len(old(pieces)@),
    ensures
        ({
            let (piece_ix, floor, changes, patch_ix) = r;
            let srcs = sources_view(final(sources)@);
            let m = final(pieces)@[piece_ix as int];
            &&& sources_extend(sources_view(old(sources)@), srcs)
            &&& (srcs == sources_view(old(sources)@) || srcs == sources_view(old(sources)@).push(
                Seq::empty(),
            ))
            &&& srcs.len() > 0
            &&& piece_ix < final(pieces)@.len()
            &&& m.source == srcs.len() - 1
            &&& piece_end(m) == srcs.last().len()
            &&& m.start <= floor == srcs.last().len()
            &&& pieces_valid(srcs, final(pieces)@)
            &&& pieces_text(srcs, final(pieces)@) == pieces_text(
                sources_view(old(sources)@),
                old(pieces)@,
            )
            &&& pieces_len(final(pieces)@.subrange(0, piece_ix + 1)) == index
            &&& forall|x: Piece| #[trigger]
                unapply(final(pieces)@.update(piece_ix as int, x), changes@) == Some(old(pieces)@)
            &&& patch_ix < changes@.len()
            &&& match changes@[patch_ix as int] {
                Change::Insert { piece_index, .. } => piece_index == piece_ix,
                Change::Modify { piece_index, .. } => piece_index == piece_ix,
                Change::Delete { .. } => false,
            }
        }),
{
    let ghost prev = pieces@;
    let ghost srcs = sources_view(sources@);
    proof {
        lemma_pieces_text_len(srcs, prev);
        if prev.len() > 0 {
            lemma_piece_chars(srcs, prev, 0);
        }
    }
        let mut g: usize = 0;
    let mut i: usize = 0;
    while i < pieces.len() && index > g + pieces[i].length
        invariant
            pieces@ == prev,
            pieces_valid(srcs, prev),
            i <= prev.len(),
            g == pieces_len(prev.subrange(0, i as int)),
            g <= index,
            index <= pieces_len(prev),
            pieces_len(prev) <= usize::MAX,
            i < prev.len() ==> g + prev[i as int].length <= pieces_len(prev),
        decreases prev.len() - i,
    {
        proof {
            lemma_piece_chars(srcs, prev, i as int);
        }
        g = g + pieces[i].length;
        i = i + 1;
        proof {
            if i < prev.len() {
                lemma_piece_chars(srcs, prev, i as int);
            }
        }
    }
    proof {
        if i < prev.len() {
            lemma_piece_chars(srcs, prev, i as int);
        } else {
            assert(prev.subrange(0, i as int) =~= prev);
        }
    }
    let ns = sources.len();
    let mut changes: Vec<Change> = Vec::new();
    let piece_ix: usize;
    let floor: usize;
    let patch_ix: usize;
    let mut reuse = false;
    if i < pieces.len() && index != g && index == g + pieces[i].length && ns > 0 {
        let p = pieces[i];
        if p.source == ns - 1 {
            proof {
                assert(piece_valid(srcs, prev[i as int]));
            }
            let sl = sources[ns - 1].len();
            reuse = p.start + p.length == sl;
        }
    }
    if reuse {
        let p = pieces[i];
        changes.push(Change::Modify { piece_index: i, old: p, new: p });
        piece_ix = i;
        patch_ix = 0;
        floor = sources[ns - 1].len();
        proof {
            assert forall|x: Piece| #[trigger]
                unapply(pieces@.update(piece_ix as int, x), changes@) == Some(prev) by {
                assert(pieces@.update(piece_ix as int, x).update(i as int, p) =~= prev);
                reveal_with_fuel(unapply, 2);
            }
            assert(pieces_len(prev.subrange(0, i + 1)) == index);
            assert(sources_extend(srcs, sources_view(sources@))) by {
                assert forall|j: int| 0 <= j < srcs.len() implies #[trigger] srcs[j].len()
                    <= sources_view(sources@)[j].len() && srcs[j] == sources_view(sources@)[j].subrange(
                    0,
                    srcs[j].len() as int,
                ) by {
                    assert(srcs[j] =~= srcs[j].subrange(0, srcs[j].len() as int));
                }
            }
            assert(changes@[0] == Change::Modify { piece_index: i, old: p, new: p });
        }
    } else {
        let np = Piece { source: ns, start: 0, length: 0 };
        sources.push(Vec::new());
        proof {
            assert(sources_view(sources@) =~= srcs.push(Seq::empty()));
        }
        floor = 0;
        proof {
            assert(sources_extend(srcs, sources_view(sources@))) by {
                assert forall|j: int| 0 <= j < srcs.len() implies #[trigger] srcs[j].len()
                    <= sources_view(sources@)[j].len() && srcs[j] == sources_view(sources@)[j].subrange(
                    0,
                    srcs[j].len() as int,
                ) by {
                    assert(srcs[j] =~= sources_view(sources@)[j].subrange(0, srcs[j].len() as int));
                }
            }
            lemma_extend_agree(srcs, sources_view(sources@), prev);
            assert(piece_text(sources_view(sources@), np) =~= Seq::<char>::empty());
        }
        if i == pieces.len() || index == g {
            pieces.insert(i, np);
            changes.push(Change::Insert { piece_index: i, new: np });
            piece_ix = i;
            patch_ix = 0;
            proof {
                assert forall|x: Piece| #[trigger]
                    unapply(pieces@.update(piece_ix as int, x), changes@) == Some(prev) by {
                    assert(pieces@.update(piece_ix as int, x).remove(i as int) =~= prev);
                    reveal_with_fuel(unapply, 2);
                }
                assert(pieces@.subrange(0, i + 1) =~= prev.subrange(0, i as int).push(np));
                assert(prev.subrange(0, i as int).push(np).drop_last() =~= prev.subrange(0, i as int));
                assert(pieces_len(pieces@.subrange(0, i + 1)) == g);
                lemma_insert_at(sources_view(sources@), prev, i as int, np);
                assert(pieces_text(sources_view(sources@), pieces@) =~= pieces_text(srcs, prev));
            }
        } else if index == g + pieces[i].length {
            pieces.insert(i + 1, np);
            changes.push(Change::Insert { piece_index: i + 1, new: np });
            piece_ix = i + 1;
            patch_ix = 0;
            proof {
                assert forall|x: Piece| #[trigger]
                    unapply(pieces@.update(piece_ix as int, x), changes@) == Some(prev) by {
                    assert(pieces@.update(piece_ix as int, x).remove(i + 1) =~= prev);
                    reveal_with_fuel(unapply, 2);
                }
                assert(pieces@.subrange(0, i + 2) =~= prev.subrange(0, i + 1).push(np));
                assert(prev.subrange(0, i + 1).drop_last() =~= prev.subrange(0, i as int));
                assert(prev.subrange(0, i + 1).push(np).drop_last() =~= prev.subrange(0, i + 1));
                assert(pieces_len(pieces@.subrange(0, i + 2)) == index);
                lemma_insert_at(sources_view(sources@), prev, i + 1, np);
                assert(pieces_text(sources_view(sources@), pieces@) =~= pieces_text(srcs, prev));
            }
        } else {
            let p = pieces[i];
            proof {
                assert(piece_valid(srcs, prev[i as int]));
            }
            let sl = sources[p.source].len();
            let k = index - g;
            let left = Piece { source: p.source, start: p.start, length: k };
            let right = Piece { source: p.source, start: p.start + k, length: p.length - k };
            pieces.set(i, left);
            pieces.insert(i + 1, np);
            let n1 = pieces.len();
            pieces.insert(i + 2, right);
            changes.push(Change::Modify { piece_index: i, old: p, new: left });
            changes.push(Change::Insert { piece_index: i + 1, new: np });
            changes.push(Change::Insert { piece_index: i + 2, new: right });
            piece_ix = i + 1;
            patch_ix = 1;
            proof {
                assert forall|x: Piece| #[trigger]
                    unapply(pieces@.update(piece_ix as int, x), changes@) == Some(prev) by {
                    let q = pieces@.update(piece_ix as int, x);
                    assert(q.remove(i + 2).remove(i + 1).update(i as int, p) =~= prev);
                    reveal_with_fuel(unapply, 4);
                }
                assert(pieces@.subrange(0, i + 2) =~= prev.subrange(0, i as int).push(
                    left,
                ).push(np));
                assert(pieces@.subrange(0, i + 2).drop_last() =~= prev.subrange(
                    0,
                    i as int,
                ).push(left));
                assert(prev.subrange(0, i as int).push(left).drop_last() =~= prev.subrange(
                    0,
                    i as int,
                ));
                assert(pieces_len(prev.subrange(0, i as int).push(left)) == g + k);
                assert(pieces_len(pieces@.subrange(0, i + 2)) == index);
                lemma_split_insert(sources_view(sources@), prev, i as int, k as int, np);
                assert(pieces@ =~= prev.subrange(0, i as int) + seq![left, np, right]
                    + prev.subrange(i + 1, prev.len() as int));
                assert(pieces_text(sources_view(sources@), pieces@) =~= pieces_text(srcs, prev));
            }
        }
    }
    proof {
        lemma_pieces_text_len(sources_view(sources@), pieces@);
    }
    (piece_ix, floor, changes, patch_ix)
}

/// A copy of `a`.
pub fn copy_action(a: &Action) -> (r: Action)
    ensures
        r.id == a.id,
        r.changes@ == a.changes@,
{
    let mut changes: Vec<Change> = Vec::new();
    let mut i: usize = 0;
    while i < a.changes.len()
        invariant
            i <= a.changes@.len(),
            changes@ == a.changes@.subrange(0, i as int),
        decreases a.changes@.len() - i,
    {
        changes.push(a.changes[i]);
        i = i + 1;
        proof {
            assert(changes@ =~= a.changes@.subrange(0, i as int));
        }
    }
    proof {
        assert(a.changes@.subrange(0, i as int) =~= a.changes@);
    }
    Action { changes, id: a.id }
}

/// Performs `changes` on a copy of `pieces`, checking each against the
/// sequence it meets; `None` where one does not fit.
fn replay(pieces: &Vec<Piece>, changes: &Vec<Change>) -> (r: Option<Vec<Piece>>)
    ensures
        match r {
            Some(v) => apply(pieces@, changes@) == Some(v@),
            None => apply(pieces@, changes@) is None,
        },
{
    let mut v: Vec<Piece> = Vec::new();
    let mut i: usize = 0;
    while i < pieces.len()
        invariant
            i <= pieces@.len(),
            v@ == pieces@.subrange(0, i as int),
        decreases pieces@.len() - i,
    {
        v.push(pieces[i]);
        i = i + 1;
        proof {
            assert(v@ =~= pieces@.subrange(0, i as int));
        }
    }
    proof {
        assert(pieces@.subrange(0, i as int) =~= pieces@);
        assert(changes@.subrange(0, 0) =~= Seq::<Change>::empty());
    }
    let mut k: usize = 0;
    while k < changes.len()
        invariant
            k <= changes@.len(),
            apply(pieces@, changes@.subrange(0, k as int)) == Some(v@),
        decreases changes@.len() - k,
    {
        let ghost before = v@;
        proof {
            assert(changes@.subrange(0, k + 1).drop_last() =~= changes@.subrange(0, k as int));
            assert(changes@.subrange(0, k + 1).last() == changes@[k as int]);
        }
        match changes[k] {
            Change::Insert { piece_index, new } => {
                if piece_index > v.len() {
                    proof {
                        lemma_apply_none(pieces@, changes@, k as int);
                    }
                    return None;
                }
                v.insert(piece_index, new);
            },
            Change::Modify { piece_index, old, new } => {
                if piece_index >= v.len() || v[piece_index] != old {
                    proof {
                        lemma_apply_none(pieces@, changes@, k as int);
                    }
                    return None;
                }
                v.set(piece_index, new);
            },
            Change::Delete { piece_index, old } => {
                if piece_index >= v.len() || v[piece_index] != old {
                    proof {
                        lemma_apply_none(pieces@, changes@, k as int);
                    }
                    return None;
                }
                v.remove(piece_index);
            },
        }
        k = k + 1;
    }
    proof {
        assert(changes@.subrange(0, k as int) =~= changes@);
    }
    Some(v)
}

/// Where the change `k` does not fit, performing the whole group fails.
proof fn lemma_apply_none(ps: Seq<Piece>, cs: Seq<Change>, k: int)
    requires
        0 <= k < cs.len(),
        apply(ps, cs.subrange(0, k + 1)) is None,
    ensures
        apply(ps, cs) is None,
    decreases cs.len() - k,
{
    if k + 1 < cs.len() {
        assert(cs.subrange(0, k + 2).drop_last() =~= cs.subrange(0, k + 1));
        lemma_apply_none(ps, cs, k + 1);
    } else {
        assert(cs.subrange(0, k + 1) =~= cs);
    }
}

/// The piece the newest action of the log put in, if it inserted one (its
/// only change, or its second where it split a piece) that still lies in
/// the sources.
pub open spec fn last_inserted(t: PieceTable) -> Option<Piece> {
    if t.log().len() == 0 {
        None
    } else {
        let cs = t.log().last().changes@;
        let ix: int = if cs.len() == 1 {
            0
        } else {
            1
        };
        if ix < cs.len() && cs[ix] is Insert && piece_valid(t.srcs(), cs[ix]->Insert_new) {
            Some(cs[ix]->Insert_new)
        } else {
            None
        }
    }
}

/// One of `cs` installs the piece `p`: the change that records the piece
/// an open edit grew.
pub open spec fn patched(cs: Seq<Change>, p: Piece) -> bool {
    exists|k: int| 0 <= k < cs.len() && installs(#[trigger] cs[k], p)
}

/// The change inserts `p`, or puts `p` in place of another piece.
pub open spec fn installs(c: Change, p: Piece) -> bool {
    match c {
        Change::Insert { new, .. } => new == p,
        Change::Modify { new, .. } => new == p,
        Change::Delete { .. } => false,
    }
}

/// 1 where an edit is open (it will be logged before the next one), else 0.
pub open spec fn pending(t: PieceTable) -> int {
    if t.open_id() is Some {
        1
    } else {
        0
    }
}

/// The log of `b` is that of `a`, then `a`'s open edit if any, then one more
/// action with `a`'s next id.
pub open spec fn log_grew(a: PieceTable, b: PieceTable) -> bool {
    &&& b.log().len() == a.log().len() + pending(a) + 1
    &&& b.log().subrange(0, a.log().len() as int) == a.log()
    &&& b.log().last().id == a.next_id()
}

/// The changes that put piece `np` in so that its text begins at `index`:
/// one insertion where `index` is where a piece starts or ends, or else a
/// split of the piece holding `index` around it.
pub open spec fn insertion_changes(ps: Seq<Piece>, index: int, np: Piece, cs: Seq<Change>) -> bool {
    (exists|i: int|
        0 <= i <= ps.len() && #[trigger] pieces_len(ps.subrange(0, i)) == index && cs == seq![
            Change::Insert { piece_index: i as usize, new: np },
        ]) || (exists|i: int|
        0 <= i < ps.len() && #[trigger] pieces_len(ps.subrange(0, i)) < index < pieces_len(
            ps.subrange(0, i),
        ) + ps[i].length && cs == split_changes(ps[i], i, index - pieces_len(ps.subrange(0, i)), np))
}

/// Splitting piece `p` at index `i`, `k` characters in, around `np`.
pub open spec fn split_changes(p: Piece, i: int, k: int, np: Piece) -> Seq<Change> {
    seq![
        Change::Modify {
            piece_index: i as usize,
            old: p,
            new: Piece { source: p.source, start: p.start, length: k as usize },
        },
        Change::Insert { piece_index: (i + 1) as usize, new: np },
        Change::Insert {
            piece_index: (i + 2) as usize,
            new: Piece {
                source: p.source,
                start: (p.start + k) as usize,
                length: (p.length - k) as usize,
            },
        },
    ]
}

/// `b` is `a` after one forward edit: the text of `a` is the next one an
/// undo gives back.
pub open spec fn edit_step(a: PieceTable, b: PieceTable) -> bool {
    b.undo_texts() == a.undo_texts().push(a@)
}

/// `b` is `a` after one undo.
pub open spec fn undo_step(a: PieceTable, b: PieceTable) -> bool {
    if a.undo_texts().len() > 0 {
        &&& b@ == a.undo_texts().last()
        &&& b.undo_texts() == a.undo_texts().drop_last()
    } else {
        &&& b@ == a@
        &&& b.undo_texts() == a.undo_texts()
    }
}

/// Undoing right after a forward edit gives back the text from before the
/// edit, and the undo history from before it.
pub proof fn lemma_undo_round_trip(before: PieceTable, edited: PieceTable, undone: PieceTable)
    requires
        edit_step(before, edited),
        undo_step(edited, undone),
    ensures
        undone@ == before@,
        undone.undo_texts() == before.undo_texts(),
{
    assert(edited.undo_texts().len() > 0);
    assert(edited.undo_texts().drop_last() =~= before.undo_texts());
}

/// After `n` forward edits, `n` undos give back the text the edits started
/// from: `edits[0]` is the table before the first edit, `edits[i + 1]` the
/// table after edit `i`; `undos[0]` is the last of those, and `undos[i + 1]`
/// the table after undo `i`.
pub proof fn lemma_undo_all(edits: Seq<PieceTable>, undos: Seq<PieceTable>)
    requires
        edits.len() == undos.len(),
        edits.len() > 0,
        undos[0] == edits.last(),
        forall|i: int| 0 <= i < edits.len() - 1 ==> edit_step(#[trigger] edits[i], edits[i + 1]),
        forall|i: int| 0 <= i < undos.len() - 1 ==> undo_step(#[trigger] undos[i], undos[i + 1]),
    ensures
        undos.last()@ == edits[0]@,
        undos.last().undo_texts() == edits[0].undo_texts(),
{
    lemma_undo_from(edits, undos, 0);
}

proof fn lemma_undo_from(edits: Seq<PieceTable>, undos: Seq<PieceTable>, k: int)
    requires
        edits.len() == undos.len(),
        edits.len() > 0,
        0 <= k < edits.len(),
        undos[k]@ == edits[edits.len() - 1 - k]@,
        undos[k].undo_texts() == edits[edits.len() - 1 - k].undo_texts(),
        forall|i: int| 0 <= i < edits.len() - 1 ==> edit_step(#[trigger] edits[i], edits[i + 1]),
        forall|i: int| 0 <= i < undos.len() - 1 ==> undo_step(#[trigger] undos[i], undos[i + 1]),
    ensures
        undos.last()@ == edits[0]@,
        undos.last().undo_texts() == edits[0].undo_texts(),
    decreases edits.len() - k,
{
    let n = edits.len() - 1;
    if k < n {
        assert(edit_step(edits[n - k - 1], edits[n - k]));
        assert(undo_step(undos[k], undos[k + 1]));
        assert(edits[n - k].undo_texts().drop_last() =~= edits[n - k - 1].undo_texts());
        lemma_undo_from(edits, undos, k + 1);
    }
}

pub open spec fn changes_of(h: Seq<Action>, i: int) -> Seq<Change> {
    h[i].changes@
}

/// Characters of a table read one at a time, forwards from a position and
/// backwards from it.
pub struct TableChars<'a> {
    table: &'a PieceTable,
    front: usize,
    back: usize,
}

impl<'a> TableChars<'a> {
    pub closed spec fn table_text(&self) -> Seq<char> {
        self.table@
    }

    pub closed spec fn table_wf(&self) -> bool {
        self.table.wf()
    }

    /// The position the next forward read gives.
    pub closed spec fn front(&self) -> int {
        self.front as int
    }

    /// One past the position the next backward read gives.
    pub closed spec fn back(&self) -> int {
        self.back as int
    }

    /// The next character forwards, if any is left.
    pub fn next(&mut self) -> (r: Option<char>)
        requires
            old(self).table_wf(),
        ensures
            final(self).table_wf(),
            final(self).table_text() == old(self).table_text(),
            final(self).back() == old(self).back(),
            r == (if old(self).front() < old(self).table_text().len() {
                Some(old(self).table_text()[old(self).front()])
            } else {
                None::<char>
            }),
            final(self).front() == (if r is Some { old(self).front() + 1 } else { old(self).front() }),
    {
        let r = self.table.char_at(self.front);
        proof {
            self.table.lemma_len_fits();
        }
        if r.is_some() {
            self.front = self.front + 1;
        }
        r
    }

    /// The next character backwards, if any is left.
    pub fn next_back(&mut self) -> (r: Option<char>)
        requires
            old(self).table_wf(),
            old(self).back() <= old(self).table_text().len(),
        ensures
            final(self).table_wf(),
            final(self).table_text() == old(self).table_text(),
            final(self).front() == old(self).front(),
            r == (if old(self).back() > 0 {
                Some(old(self).table_text()[old(self).back() - 1])
            } else {
                None::<char>
            }),
            final(self).back() == (if r is Some { old(self).back() - 1 } else { 0 }),
            final(self).back() <= final(self).table_text().len(),
    {
        if self.back == 0 {
            return None;
        }
        self.back = self.back - 1;
        self.table.char_at(self.back)
    }
}

impl PieceTable {
    /// Reads characters from `index`: forwards from it, and backwards from
    /// it down to the start.
    pub fn chars(&self, index: usize) -> (r: TableChars<'_>)
        requires
            self.wf(),
            index < self@.len(),
        ensures
            r.table_wf(),
            r.table_text() == self@,
            r.front() == index,
            r.back() == index + 1,
    {
        proof {
            self.lemma_len_fits();
        }
        TableChars { table: self, front: index, back: index + 1 }
    }

    pub proof fn lemma_len_fits(&self)
        requires
            self.wf(),
        ensures
            self@.len() <= usize::MAX,
    {
        lemma_pieces_text_len(self.srcs(), self.pieces@);
    }

    pub proof fn lemma_open_point_fits(&self)
        requires
            self.wf(),
            self.open_id() is Some,
        ensures
            0 <= self.open_point() <= self@.len(),
    {
        let e = self.open->0;
        lemma_pieces_text_len(self.srcs(), self.pieces@);
        crate::text_model::lemma_piece_chars(self.srcs(), self.pieces@, e.piece_ix as int);
    }

    pub closed spec fn srcs(&self) -> Seq<Seq<char>> {
        sources_view(self.sources@)
    }

    /// The sources as the log sees them: while an edit is open, the last
    /// source cut back to where it stood when the edit opened.
    pub closed spec fn frozen(&self) -> Seq<Seq<char>> {
        match self.open {
            Some(e) => self.srcs().update(
                self.srcs().len() - 1,
                self.srcs().last().subrange(0, e.floor as int),
            ),
            None => self.srcs(),
        }
    }

    pub closed spec fn piece_seq(&self) -> Seq<Piece> {
        self.pieces@
    }

    /// The pieces as they stand once the open edit, if any, is undone.
    pub closed spec fn committed(&self) -> Seq<Piece> {
        match self.open {
            Some(e) => e.before@,
            None => self.pieces@,
        }
    }

    /// The pieces after the action `i` of the log, with `top` as the
    /// pieces after the last one.
    pub closed spec fn state_after(&self, i: int, top: Seq<Piece>) -> Seq<Piece> {
        if i + 1 < self.states@.len() {
            self.states@[i + 1]
        } else {
            top
        }
    }

    /// The log is sound below `top`: undoing each action gives back the
    /// pieces it was made on, all of which lie in the sources.
    pub closed spec fn log_ok(&self, top: Seq<Piece>) -> bool {
        &&& self.states@.len() == self.history@.len()
        &&& forall|i: int|
            0 <= i < self.states@.len() ==> #[trigger] pieces_valid(
                self.frozen(),
                self.states@[i],
            ) && pieces_len(self.states@[i]) <= usize::MAX
        &&& forall|i: int|
            0 <= i < self.states@.len() ==> #[trigger] unapply(
                self.state_after(i, top),
                changes_of(self.history@, i),
            ) == Some(self.states@[i])
    }

    /// The texts that successive undos give back, the next one last.
    pub closed spec fn undo_texts(&self) -> Seq<Seq<char>> {
        let past = Seq::new(
            self.states@.len(),
            |i: int| pieces_text(self.frozen(), self.states@[i]),
        );
        match self.open {
            Some(e) => past.push(pieces_text(self.frozen(), e.before@)),
            None => past,
        }
    }

    /// The id the next action gets.
    pub closed spec fn next_id(&self) -> usize {
        self.next_action_id
    }

    /// The actions of the log, oldest first.
    pub closed spec fn log(&self) -> Seq<Action> {
        self.history@
    }

    /// The id of the open edit, if one is open.
    pub closed spec fn open_id(&self) -> Option<usize> {
        match self.open {
            Some(e) => Some(e.id),
            None => None,
        }
    }

    /// Where the open edit inserts: the end of its piece, in the document.
    pub closed spec fn open_point(&self) -> int {
        match self.open {
            Some(e) => pieces_len(self.pieces@.subrange(0, e.piece_ix + 1)) as int,
            None => 0,
        }
    }

    /// The piece the open edit grows.
    pub closed spec fn open_piece(&self) -> Piece {
        match self.open {
            Some(e) => self.pieces@[e.piece_ix as int],
            None => Piece { source: 0, start: 0, length: 0 },
        }
    }

    /// How many characters the open edit has added and not popped.
    pub closed spec fn open_grown(&self) -> int {
        match self.open {
            Some(e) => self.srcs().last().len() - e.floor,
            None => 0,
        }
    }

    pub closed spec fn ids_ok(&self) -> bool {
        &&& forall|i: int, j: int|
            0 <= i < j < self.history@.len() ==> self.history@[i].id < self.history@[j].id
        &&& forall|i: int|
            0 <= i < self.history@.len() ==> self.history@[i].id < self.next_action_id
        &&& match self.open {
            Some(e) => e.id < self.next_action_id && forall|i: int|
                0 <= i < self.history@.len() ==> self.history@[i].id < e.id,
            None => true,
        }
    }

    pub closed spec fn open_ok(&self) -> bool {
        match self.open {
            Some(e) => {
                let m = self.pieces@[e.piece_ix as int];
                &&& self.sources@.len() > 0
                &&& e.piece_ix < self.pieces@.len()
                &&& m.source == self.sources@.len() - 1
                &&& piece_end(m) == self.srcs().last().len()
                &&& m.start <= e.floor <= self.srcs().last().len()
                &&& forall|j: int|
                    0 <= j < self.pieces@.len() && j != e.piece_ix ==> #[trigger] piece_valid(
                        self.frozen(),
                        self.pieces@[j],
                    )
                &&& pieces_valid(self.frozen(), e.before@)
                &&& pieces_len(e.before@) <= usize::MAX
                &&& forall|x: Piece|
                    #[trigger] unapply(self.pieces@.update(e.piece_ix as int, x), e.changes@)
                        == Some(e.before@)
                &&& e.patch_ix < e.changes@.len()
                &&& match e.changes@[e.patch_ix as int] {
                    Change::Insert { piece_index, .. } => piece_index == e.piece_ix,
                    Change::Modify { piece_index, .. } => piece_index == e.piece_ix,
                    Change::Delete { .. } => false,
                }
            },
            None => true,
        }
    }

    /// The table is well formed: every piece lies in its source, the text
    /// fits a `usize`, ids grow along the log, and undoing each action of
    /// the log gives back the pieces it was made on.
    pub closed spec fn wf(&self) -> bool {
        &&& pieces_valid(self.srcs(), self.pieces@)
        &&& pieces_len(self.pieces@) <= usize::MAX
        &&& self.log_ok(self.committed())
        &&& self.ids_ok()
        &&& self.open_ok()
    }

    /// The document text.
    pub closed spec fn view(&self) -> Seq<char> {
        pieces_text(self.srcs(), self.pieces@)
    }

    pub fn with_text(s: &str) -> (r: PieceTable)
        ensures
            r.wf(),
            r@ == s@,
            r.undo_texts().len() == 0,
            r.next_id() == 1,
            r.open_id() is None,
    {
        PieceTable::with_text_and_starting_action_id(s, 1)
    }

    pub fn with_text_and_starting_action_id(s: &str, start_aid: usize) -> (r: PieceTable)
        ensures
            r.wf(),
            r@ == s@,
            r.undo_texts().len() == 0,
            r.log().len() == 0,
            r.next_id() == start_aid,
            r.open_id() is None,
    {
        let text = chars_of(s);
        let n = text.len();
        let mut sources: Vec<Vec<char>> = Vec::new();
        sources.push(text);
        let mut pieces: Vec<Piece> = Vec::new();
        pieces.push(Piece { source: 0, start: 0, length: n });
        let r = PieceTable {
            sources,
            pieces,
            history: Vec::new(),
            next_action_id: start_aid,
            open: None,
            states: Ghost(Seq::empty()),
        };
        proof {
            let p = Piece { source: 0, start: 0, length: n };
            assert(r.pieces@ =~= seq![p]);
            lemma_pieces_text_single(r.srcs(), p);
            assert(r.srcs()[0] == s@);
            assert(piece_text(r.srcs(), p) =~= s@);
            assert(piece_valid(r.srcs(), r.pieces@[0]));
            assert(r.undo_texts() =~= Seq::<Seq<char>>::empty());
        }
        r
    }

    proof fn lemma_log_frame(a: &PieceTable, b: &PieceTable, top: Seq<Piece>)
        requires
            a.log_ok(top),
            a.states@ == b.states@,
            a.history@ == b.history@,
            forall|i: int|
                0 <= i < b.states@.len() ==> #[trigger] pieces_valid(b.frozen(), b.states@[i])
                    && pieces_len(b.states@[i]) <= usize::MAX,
        ensures
            b.log_ok(top),
    {
        assert forall|i: int| 0 <= i < b.states@.len() implies #[trigger] unapply(
            b.state_after(i, top),
            changes_of(b.history@, i),
        ) == Some(b.states@[i]) by {
            assert(a.state_after(i, top) == b.state_after(i, top));
            assert(unapply(a.state_after(i, top), changes_of(a.history@, i)) == Some(
                a.states@[i],
            ));
        }
    }

    /// What holds after the piece of the open edit is replaced by `m2` and
    /// only the latest source changed above the floor.
    proof fn lemma_regrow(pre: &PieceTable, post: &PieceTable, m2: Piece)
        requires
            pre.wf(),
            pre.open is Some,
            post.open == pre.open,
            post.states == pre.states,
            post.history@ == pre.history@,
            post.next_action_id == pre.next_action_id,
            post.pieces@ == pre.pieces@.update(pre.open->0.piece_ix as int, m2),
            post.srcs().len() == pre.srcs().len(),
            forall|j: int|
                0 <= j < pre.srcs().len() - 1 ==> #[trigger] post.srcs()[j] == pre.srcs()[j],
            post.srcs().last().len() >= pre.open->0.floor,
            post.srcs().last().subrange(0, pre.open->0.floor as int) == pre.srcs().last().subrange(
                0,
                pre.open->0.floor as int,
            ),
            m2.source == pre.pieces@[pre.open->0.piece_ix as int].source,
            m2.start == pre.pieces@[pre.open->0.piece_ix as int].start,
            piece_end(m2) == post.srcs().last().len(),
            pieces_len(pre.pieces@) - pre.pieces@[pre.open->0.piece_ix as int].length + m2.length
                <= usize::MAX,
        ensures
            post.wf(),
            post.undo_texts() == pre.undo_texts(),
            ({
                let ix = pre.open->0.piece_ix as int;
                let ps = pre.pieces@;
                let a = pieces_text(pre.srcs(), ps.subrange(0, ix));
                let b = pieces_text(pre.srcs(), ps.subrange(ix + 1, ps.len() as int));
                &&& pre@ == a + piece_text(pre.srcs(), ps[ix]) + b
                &&& post@ == a + piece_text(post.srcs(), m2) + b
                &&& a.len() == pieces_len(ps.subrange(0, ix))
                &&& pre.open_point() == pieces_len(ps.subrange(0, ix)) + ps[ix].length
                &&& post.open_point() == pieces_len(ps.subrange(0, ix)) + m2.length
            }),
    {
        let e = pre.open->0;
        let ix = e.piece_ix as int;
        let ps = pre.pieces@;
        let qs = post.pieces@;
        let fz = pre.frozen();
        let last = pre.srcs().len() - 1;
        assert(post.frozen() =~= fz) by {
            assert forall|j: int| 0 <= j < fz.len() implies post.frozen()[j] == fz[j] by {
                if j == last {
                    assert(post.frozen()[j] =~= fz[j]);
                }
            }
        }
        assert(sources_extend(fz, pre.srcs())) by {
            assert forall|j: int| 0 <= j < fz.len() implies #[trigger] fz[j].len()
                <= pre.srcs()[j].len() && fz[j] == pre.srcs()[j].subrange(0, fz[j].len() as int) by {
                assert(fz[j] =~= pre.srcs()[j].subrange(0, fz[j].len() as int));
            }
        }
        assert(sources_extend(fz, post.srcs())) by {
            assert forall|j: int| 0 <= j < fz.len() implies #[trigger] fz[j].len()
                <= post.srcs()[j].len() && fz[j] == post.srcs()[j].subrange(
                0,
                fz[j].len() as int,
            ) by {
                assert(fz[j] =~= post.srcs()[j].subrange(0, fz[j].len() as int));
            }
        }
        let pre_a = ps.subrange(0, ix);
        let pre_b = ps.subrange(ix + 1, ps.len() as int);
        assert(qs.subrange(0, ix) =~= pre_a);
        assert(qs.subrange(ix + 1, qs.len() as int) =~= pre_b);
        assert(qs.subrange(0, ix + 1) =~= pre_a.push(m2));
        assert(pre_a.push(m2).drop_last() =~= pre_a);
        assert(ps.subrange(0, ix + 1).drop_last() =~= pre_a);
        assert(pieces_valid(fz, pre_a)) by {
            assert forall|j: int| 0 <= j < pre_a.len() implies #[trigger] piece_valid(fz, pre_a[j]) by {
                assert(pre_a[j] == ps[j]);
                assert(piece_valid(fz, ps[j]));
            }
        }
        assert(pieces_valid(fz, pre_b)) by {
            assert forall|j: int| 0 <= j < pre_b.len() implies #[trigger] piece_valid(fz, pre_b[j]) by {
                assert(pre_b[j] == ps[ix + 1 + j]);
                assert(piece_valid(fz, ps[ix + 1 + j]));
            }
        }
        lemma_extend_agree(fz, pre.srcs(), pre_a);
        lemma_extend_agree(fz, post.srcs(), pre_a);
        lemma_extend_agree(fz, pre.srcs(), pre_b);
        lemma_extend_agree(fz, post.srcs(), pre_b);
        crate::text_model::lemma_pieces_text_split(pre.srcs(), ps, ix);
        crate::text_model::lemma_pieces_text_split(post.srcs(), qs, ix);
        crate::text_model::lemma_pieces_text_split(post.srcs(), ps, ix);
        lemma_pieces_text_len(pre.srcs(), pre_a);
        assert forall|j: int| 0 <= j < qs.len() implies #[trigger] piece_valid(post.srcs(), qs[j]) by {
            if j != ix {
                assert(qs[j] == ps[j]);
                assert(piece_valid(fz, ps[j]));
            }
        }
        assert forall|j: int| 0 <= j < qs.len() && j != ix implies #[trigger] piece_valid(
            post.frozen(),
            qs[j],
        ) by {
            assert(qs[j] == ps[j]);
            assert(piece_valid(fz, ps[j]));
        }
        assert forall|x: Piece| #[trigger]
            unapply(qs.update(ix, x), e.changes@) == Some(e.before@) by {
            assert(qs.update(ix, x) =~= ps.update(ix, x));
        }
        assert(forall|i: int|
            0 <= i < post.states@.len() ==> #[trigger] pieces_valid(post.frozen(), post.states@[i])
                && pieces_len(post.states@[i]) <= usize::MAX);
        PieceTable::lemma_log_frame(pre, post, e.before@);
        assert(post.undo_texts() =~= pre.undo_texts());
    }

    /// Committing `a` gave `mid`; one action more gave `b`.
    proof fn lemma_log_grew(a: PieceTable, mid: PieceTable, b: PieceTable)
        requires
            a.open is None ==> mid.history@ == a.history@,
            a.open is Some ==> mid.history@.len() == a.history@.len() + 1
                && mid.history@.drop_last() == a.history@,
            b.history@.drop_last() == mid.history@,
            b.history@.len() == mid.history@.len() + 1,
            b.history@.last().id == a.next_action_id,
        ensures
            log_grew(a, b),
    {
        assert(b.log().subrange(0, a.log().len() as int) =~= a.log());
    }

    /// Appends `changes`, made on the pieces `prev`, to the log as one action.
    fn log_action(&mut self, changes: Vec<Change>, prev: Ghost<Seq<Piece>>)
        requires
            old(self).open is None,
            old(self).next_action_id < usize::MAX,
            old(self).log_ok(prev@),
            old(self).ids_ok(),
            pieces_valid(old(self).srcs(), prev@),
            pieces_len(prev@) <= usize::MAX,
            pieces_valid(old(self).srcs(), old(self).pieces@),
            pieces_len(old(self).pieces@) <= usize::MAX,
            unapply(old(self).pieces@, changes@) == Some(prev@),
        ensures
            final(self).wf(),
            final(self).open is None,
            final(self).srcs() == old(self).srcs(),
            final(self).pieces@ == old(self).pieces@,
            final(self).next_action_id == old(self).next_action_id + 1,
            final(self).history@ == old(self).history@.push(
                Action { changes, id: old(self).next_action_id },
            ),
            final(self).undo_texts() == old(self).undo_texts().push(
                pieces_text(old(self).srcs(), prev@),
            ),
    {
        let id = self.next_action_id;
        self.next_action_id = id + 1;
        self.history.push(Action { changes, id });
        self.states = Ghost(self.states@.push(prev@));
        proof {
            let n = self.states@.len() - 1;
            assert(self.frozen() == old(self).frozen());
            assert(old(self).frozen() == old(self).srcs());
            assert forall|i: int| 0 <= i < self.states@.len() implies #[trigger] pieces_valid(
                self.frozen(),
                self.states@[i],
            ) by {
                if i < n {
                    assert(self.states@[i] == old(self).states@[i]);
                } else {
                    assert(self.states@[i] == prev@);
                }
            }
            assert forall|i: int| 0 <= i < self.states@.len() implies #[trigger] unapply(
                self.state_after(i, self.committed()),
                changes_of(self.history@, i),
            ) == Some(self.states@[i]) by {
                if i < n {
                    assert(self.states@[i] == old(self).states@[i]);
                    assert(changes_of(self.history@, i) == changes_of(old(self).history@, i));
                    assert(self.state_after(i, self.committed()) == old(self).state_after(i, prev@));
                }
            }
            let u = self.undo_texts();
            let v = old(self).undo_texts().push(pieces_text(old(self).srcs(), prev@));
            assert(u.len() == v.len());
            assert forall|i: int| 0 <= i < u.len() implies u[i] == v[i] by {
                if i < n {
                    assert(self.states@[i] == old(self).states@[i]);
                }
            }
            assert(u =~= v);
        }
    }

    /// Commits the open edit, if any, to the log.
    fn commit(&mut self)
        requires
            old(self).wf(),
        ensures
            final(self).wf(),
            final(self).open is None,
            final(self)@ == old(self)@,
            final(self).srcs() == old(self).srcs(),
            final(self).pieces@ == old(self).pieces@,
            final(self).next_action_id == old(self).next_action_id,
            final(self).undo_texts() == old(self).undo_texts(),
            old(self).open is None ==> final(self).history@ == old(self).history@,
            old(self).open is Some ==> final(self).history@.len() == old(self).history@.len() + 1
                && final(self).history@.last().id == old(self).open->0.id
                && final(self).history@.drop_last() == old(self).history@
                && patched(final(self).history@.last().changes@, old(self).open_piece())
                && final(self).states@ == old(self).states@.push(old(self).open->0.before@),
            old(self).open is None ==> final(self).states@ == old(self).states@,
    {
        let ghost pre = *self;
        match self.open.take() {
            None => {},
            Some(e) => {
                let OpenEdit { piece_ix, floor, changes, patch_ix, id, before } = e;
                let mut changes = changes;
                let cur = self.pieces[piece_ix];
                let c = match changes[patch_ix] {
                    Change::Insert { piece_index, .. } => Change::Insert { piece_index, new: cur },
                    Change::Modify { piece_index, old, .. } => Change::Modify {
                        piece_index,
                        old,
                        new: cur,
                    },
                    Change::Delete { piece_index, old } => Change::Delete { piece_index, old },
                };
                proof {
                    assert(pre.pieces@.update(piece_ix as int, cur) =~= pre.pieces@);
                    lemma_unapply_same_undo(pre.pieces@, changes@, patch_ix as int, c);
                }
                changes.set(patch_ix, c);
                proof {
                    assert(changes@[patch_ix as int] == c);
                    assert(installs(changes@[patch_ix as int], cur));
                    assert(patched(changes@, cur));
                }
                self.history.push(Action { changes, id });
                self.states = Ghost(self.states@.push(before@));
                proof {
                    let n = self.states@.len() - 1;
                    let last = pre.srcs().len() - 1;
                    assert(sources_extend(pre.frozen(), self.srcs())) by {
                        assert forall|j: int| 0 <= j < pre.frozen().len() implies #[trigger] pre.frozen()[j].len()
                            <= self.srcs()[j].len() && pre.frozen()[j] == self.srcs()[j].subrange(
                            0,
                            pre.frozen()[j].len() as int,
                        ) by {
                            if j == last {
                                assert(pre.frozen()[j] =~= self.srcs()[j].subrange(0, floor as int));
                            } else {
                                assert(pre.frozen()[j] =~= self.srcs()[j].subrange(
                                    0,
                                    self.srcs()[j].len() as int,
                                ));
                            }
                        }
                    }
                    assert forall|i: int| 0 <= i < self.states@.len() implies #[trigger] pieces_valid(
                        self.frozen(),
                        self.states@[i],
                    ) && pieces_len(self.states@[i]) <= usize::MAX && pieces_text(
                        self.frozen(),
                        self.states@[i],
                    ) == pieces_text(pre.frozen(), self.states@[i]) by {
                        if i < n {
                            assert(self.states@[i] == pre.states@[i]);
                            assert(pieces_valid(pre.frozen(), pre.states@[i]));
                        } else {
                            assert(self.states@[i] == before@);
                        }
                        lemma_extend_agree(pre.frozen(), self.srcs(), self.states@[i]);
                    }
                    assert forall|i: int| 0 <= i < self.states@.len() implies #[trigger] unapply(
                        self.state_after(i, self.committed()),
                        changes_of(self.history@, i),
                    ) == Some(self.states@[i]) by {
                        if i < n {
                            assert(self.states@[i] == pre.states@[i]);
                            assert(changes_of(self.history@, i) == changes_of(pre.history@, i));
                            assert(self.state_after(i, self.committed()) == pre.state_after(
                                i,
                                pre.committed(),
                            ));
                        }
                    }
                    assert forall|j: int| 0 <= j < self.pieces@.len() implies #[trigger] piece_valid(
                        self.srcs(),
                        self.pieces@[j],
                    ) by {
                        assert(piece_valid(pre.srcs(), pre.pieces@[j]));
                    }
                    let u = self.undo_texts();
                    let v = pre.undo_texts();
                    assert(u.len() == v.len());
                    assert forall|i: int| 0 <= i < u.len() implies u[i] == v[i] by {
                        assert(pieces_valid(self.frozen(), self.states@[i]));
                        if i < n {
                            assert(self.states@[i] == pre.states@[i]);
                        }
                    }
                    assert(u =~= v);
                }
            },
        }
    }

    /// Puts `new_piece` into the sequence so that its text begins at `index`,
    /// and logs that as one action.
    #[verifier::rlimit(60)]
    fn insert_piece_at(&mut self, index: usize, new_piece: Piece)
        requires
            old(self).wf(),
            old(self).open is None,
            old(self).next_action_id < usize::MAX,
            piece_valid(old(self).srcs(), new_piece),
            index <= old(self)@.len(),
            old(self)@.len() + new_piece.length <= usize::MAX,
        ensures
            final(self).wf(),
            final(self).open is None,
            final(self)@ == old(self)@.subrange(0, index as int) + piece_text(
                old(self).srcs(),
                new_piece,
            ) + old(self)@.subrange(index as int, old(self)@.len() as int),
            final(self).srcs() == old(self).srcs(),
            final(self).next_action_id == old(self).next_action_id + 1,
            final(self).history@.len() == old(self).history@.len() + 1,
            final(self).history@.drop_last() == old(self).history@,
            final(self).history@.last().id == old(self).next_action_id,
            insertion_changes(
                old(self).pieces@,
                index as int,
                new_piece,
                final(self).history@.last().changes@,
            ),
            unapply(final(self).pieces@, final(self).history@.last().changes@) == Some(
                old(self).pieces@,
            ),
            edit_step(*old(self), *final(self)),
    {
        let ghost prev = self.pieces@;
        let ghost srcs = self.srcs();
        let ghost pre = *self;
        proof {
            lemma_pieces_text_len(srcs, prev);
        }
        let mut g: usize = 0;
        let mut i: usize = 0;
        proof {
            if prev.len() > 0 {
                lemma_piece_chars(srcs, prev, 0);
            }
        }
        while i < self.pieces.len() && index > g + self.pieces[i].length
            invariant
                self.wf(),
                self.pieces@ == prev,
                self.srcs() == srcs,
                i <= prev.len(),
                g == pieces_len(prev.subrange(0, i as int)),
                g <= index,
                index <= pieces_len(prev),
                pieces_len(prev) <= usize::MAX,
                i < prev.len() ==> g + prev[i as int].length <= pieces_len(prev),
            decreases prev.len() - i,
        {
            proof {
                lemma_piece_chars(srcs, prev, i as int);
            }
            g = g + self.pieces[i].length;
            i = i + 1;
            proof {
                if i < prev.len() {
                    lemma_piece_chars(srcs, prev, i as int);
                }
            }
        }
        proof {
            if i < prev.len() {
                lemma_piece_chars(srcs, prev, i as int);
            }
        }
        let mut changes: Vec<Change> = Vec::new();
        if i == self.pieces.len() || index == g {
            proof {
                if i == prev.len() {
                    assert(prev.subrange(0, i as int) =~= prev);
                }
                lemma_insert_at(srcs, prev, i as int, new_piece);
            }
            self.pieces.insert(i, new_piece);
            changes.push(Change::Insert { piece_index: i, new: new_piece });
            proof {
                assert(self.pieces@.remove(i as int) =~= prev);
                reveal_with_fuel(unapply, 2);
                assert(pieces_len(prev.subrange(0, i as int)) == index);
                assert(changes@ =~= seq![Change::Insert { piece_index: i, new: new_piece }]);
            }
        } else {
            let p = self.pieces[i];
            proof {
                lemma_piece_chars(srcs, prev, i as int);
            }
            if index == g + p.length {
                proof {
                    lemma_insert_at(srcs, prev, i + 1, new_piece);
                }
                self.pieces.insert(i + 1, new_piece);
                changes.push(Change::Insert { piece_index: i + 1, new: new_piece });
                proof {
                    assert(self.pieces@.remove(i + 1) =~= prev);
                    reveal_with_fuel(unapply, 2);
                    assert(pieces_len(prev.subrange(0, i + 1)) == index);
                    assert(changes@ =~= seq![
                        Change::Insert { piece_index: (i + 1) as usize, new: new_piece },
                    ]);
                }
            } else {
                let k = index - g;
                proof {
                    assert(piece_valid(srcs, prev[i as int]));
                }
                let slen = self.sources[p.source].len();
                let left = Piece { source: p.source, start: p.start, length: k };
                let right = Piece { source: p.source, start: p.start + k, length: p.length - k };
                proof {
                    lemma_split_insert(srcs, prev, i as int, k as int, new_piece);
                }
                self.pieces.set(i, left);
                self.pieces.insert(i + 1, new_piece);
                let n1 = self.pieces.len();
                self.pieces.insert(i + 2, right);
                changes.push(Change::Modify { piece_index: i, old: p, new: left });
                changes.push(Change::Insert { piece_index: i + 1, new: new_piece });
                changes.push(Change::Insert { piece_index: i + 2, new: right });
                proof {
                    assert(self.pieces@ =~= prev.subrange(0, i as int) + seq![left, new_piece, right]
                        + prev.subrange(i + 1, prev.len() as int));
                    let q1 = self.pieces@.remove(i + 2);
                    let q2 = q1.remove(i + 1);
                    assert(q2.update(i as int, p) =~= prev);
                    reveal_with_fuel(unapply, 4);
                    assert(pieces_len(prev.subrange(0, i as int)) < index);
                    assert(changes@ =~= split_changes(p, i as int, k as int, new_piece));
                }
            }
        }
        proof {
            lemma_pieces_text_len(srcs, self.pieces@);
            assert(self.frozen() == self.srcs());
            assert(self.frozen() == pre.frozen());
            PieceTable::lemma_log_frame(&pre, self, prev);
        }
        self.log_action(changes, Ghost(prev));
    }

    /// Puts a piece of an existing source into the document at `index`.
    pub fn insert_raw_piece(&mut self, index: usize, new_piece: Piece)
        requires
            old(self).wf(),
            old(self).next_id() < usize::MAX,
            piece_valid(old(self).srcs(), new_piece),
            index <= old(self)@.len(),
            old(self)@.len() + new_piece.length <= usize::MAX,
        ensures
            final(self).wf(),
            final(self).open_id() is None,
            final(self)@ == old(self)@.subrange(0, index as int) + piece_text(
                old(self).srcs(),
                new_piece,
            ) + old(self)@.subrange(index as int, old(self)@.len() as int),
            final(self).srcs() == old(self).srcs(),
            final(self).next_id() == old(self).next_id() + 1,
            edit_step(*old(self), *final(self)),
            log_grew(*old(self), *final(self)),
            insertion_changes(
                old(self).piece_seq(),
                index as int,
                new_piece,
                final(self).log().last().changes@,
            ),
            unapply(final(self).piece_seq(), final(self).log().last().changes@) == Some(
                old(self).piece_seq(),
            ),
    {
        self.commit();
        let ghost mid = *self;
        self.insert_piece_at(index, new_piece);
        proof {
            PieceTable::lemma_log_grew(*old(self), mid, *self);
        }
    }

    /// Inserts `s` into the document at `index`. An empty `s` changes nothing
    /// and logs nothing.
    pub fn insert_range(&mut self, s: &str, index: usize)
        requires
            old(self).wf(),
            old(self).next_id() < usize::MAX,
            index <= old(self)@.len(),
            old(self)@.len() + s@.len() <= usize::MAX,
        ensures
            final(self).wf(),
            final(self)@ == old(self)@.subrange(0, index as int) + s@ + old(self)@.subrange(
                index as int,
                old(self)@.len() as int,
            ),
            s@.len() > 0 ==> edit_step(*old(self), *final(self)),
            s@.len() > 0 ==> final(self).next_id() == old(self).next_id() + 1,
            s@.len() > 0 ==> final(self).open_id() is None,
            s@.len() > 0 ==> log_grew(*old(self), *final(self)),
            s@.len() > 0 ==> final(self).srcs() == old(self).srcs().push(s@),
            s@.len() > 0 ==> insertion_changes(
                old(self).piece_seq(),
                index as int,
                Piece { source: old(self).srcs().len() as usize, start: 0, length: s@.len() as usize },
                final(self).log().last().changes@,
            ),
            s@.len() > 0 ==> unapply(final(self).piece_seq(), final(self).log().last().changes@)
                == Some(old(self).piece_seq()),
            s@.len() == 0 ==> *final(self) == *old(self),
    {
        let text = chars_of(s);
        if text.len() == 0 {
            proof {
                assert(old(self)@ =~= old(self)@.subrange(0, index as int) + s@ + old(self)@.subrange(
                    index as int,
                    old(self)@.len() as int,
                ));
            }
            return;
        }
        self.commit();
        let ghost before = *self;
        let n = text.len();
        let source = self.sources.len();
        self.sources.push(text);
        let new_piece = Piece { source, start: 0, length: n };
        proof {
            assert(sources_extend(before.srcs(), self.srcs())) by {
                assert forall|j: int| 0 <= j < before.srcs().len() implies #[trigger] before.srcs()[j].len()
                    <= self.srcs()[j].len() && before.srcs()[j] == self.srcs()[j].subrange(
                    0,
                    before.srcs()[j].len() as int,
                ) by {
                    assert(self.srcs()[j] == before.srcs()[j]);
                    assert(before.srcs()[j] =~= self.srcs()[j].subrange(0, before.srcs()[j].len() as int));
                }
            }
            lemma_extend_agree(before.srcs(), self.srcs(), self.pieces@);
            assert forall|i: int| 0 <= i < self.states@.len() implies #[trigger] pieces_valid(
                self.frozen(),
                self.states@[i],
            ) && pieces_len(self.states@[i]) <= usize::MAX && pieces_text(
                self.frozen(),
                self.states@[i],
            ) == pieces_text(before.frozen(), self.states@[i]) by {
                assert(before.frozen() == before.srcs());
                assert(pieces_valid(before.frozen(), before.states@[i]));
                lemma_extend_agree(before.srcs(), self.srcs(), self.states@[i]);
            }
            let u = self.undo_texts();
            let v = before.undo_texts();
            assert(u.len() == v.len());
            assert forall|i: int| 0 <= i < u.len() implies u[i] == v[i] by {
                lemma_extend_agree(before.srcs(), self.srcs(), self.states@[i]);
            }
            assert(u =~= v);
            PieceTable::lemma_log_frame(&before, self, self.pieces@);
            assert(self.srcs()[source as int] == s@);
            assert(piece_text(self.srcs(), new_piece) =~= s@);
            assert(self.srcs() =~= old(self).srcs().push(s@));
        }
        let ghost mid = *self;
        self.insert_piece_at(index, new_piece);
        proof {
            PieceTable::lemma_log_grew(*old(self), mid, *self);
        }
    }

    /// Reverses the last action of the log (committing an open edit first).
    /// With an empty log nothing changes.
    pub fn undo(&mut self)
        requires
            old(self).wf(),
        ensures
            final(self).wf(),
            final(self).open_id() is None,
            final(self).next_id() == old(self).next_id(),
            undo_step(*old(self), *final(self)),
            final(self).srcs() == old(self).srcs(),
            old(self).open_id() is Some ==> final(self).log() == old(self).log()
                && final(self).piece_seq() == old(self).committed(),
            old(self).open_id() is None && old(self).log().len() > 0 ==> final(self).log() == old(
                self,
            ).log().drop_last() && Some(final(self).piece_seq()) == unapply(
                old(self).piece_seq(),
                old(self).log().last().changes@,
            ),
            old(self).open_id() is None && old(self).log().len() == 0 ==> final(self).piece_seq()
                == old(self).piece_seq() && final(self).log() == old(self).log(),
    {
        self.commit();
        let ghost pre = *self;
        match self.history.pop() {
            None => {},
            Some(action) => {
                let ghost n = self.states@.len() - 1;
                proof {
                    assert(action == pre.history@[n]);
                    assert(pre.state_after(n, pre.committed()) == pre.pieces@);
                    assert(unapply(pre.state_after(n, pre.committed()), changes_of(pre.history@, n))
                        == Some(pre.states@[n]));
                }
                unapply_changes(&mut self.pieces, &action.changes);
                self.states = Ghost(self.states@.drop_last());
                proof {
                    assert(self.frozen() == self.srcs());
                    assert(pre.frozen() == pre.srcs());
                    assert(pieces_valid(pre.frozen(), pre.states@[n]));
                    assert(forall|i: int|
                        0 <= i < self.states@.len() ==> self.states@[i] == pre.states@[i]);
                    assert(forall|i: int|
                        0 <= i < self.history@.len() ==> self.history@[i] == pre.history@[i]);
                    assert forall|i: int| 0 <= i < self.states@.len() implies #[trigger] unapply(
                        self.state_after(i, self.committed()),
                        changes_of(self.history@, i),
                    ) == Some(self.states@[i]) by {
                        assert(self.state_after(i, self.committed()) == pre.state_after(
                            i,
                            pre.committed(),
                        ));
                        assert(changes_of(self.history@, i) == changes_of(pre.history@, i));
                    }
                    let u = self.undo_texts();
                    let v = pre.undo_texts().drop_last();
                    assert(u.len() == v.len());
                    assert forall|i: int| 0 <= i < u.len() implies u[i] == v[i] by {}
                    assert(u =~= v);
                }
            },
        }
    }

    /// Removes the characters `start..end` from the document. The edit is
    /// planned from a read-only scan first, and applied after.
    pub fn delete_range(&mut self, start: usize, end: usize)
        requires
            old(self).wf(),
            old(self).next_id() < usize::MAX,
            start < end <= old(self)@.len(),
        ensures
            final(self).wf(),
            final(self).open_id() is None,
            final(self)@ == old(self)@.subrange(0, start as int) + old(self)@.subrange(
                end as int,
                old(self)@.len() as int,
            ),
            final(self).next_id() == old(self).next_id() + 1,
            edit_step(*old(self), *final(self)),
            log_grew(*old(self), *final(self)),
            final(self).srcs() == old(self).srcs(),
            unapply(final(self).piece_seq(), final(self).log().last().changes@) == Some(
                old(self).piece_seq(),
            ),
    {
        self.commit();
        let ghost pre = *self;
        let ghost prev = self.pieces@;
        let ghost srcs = self.srcs();
        proof {
            lemma_pieces_text_len(srcs, prev);
        }
        let (is, gs) = find_piece(&self.pieces, Ghost(srcs), start, 0, 0);
        let (ie, ge) = find_piece(&self.pieces, Ghost(srcs), end - 1, is, gs);
        let changes = if is == ie {
            cut_within(&mut self.pieces, &self.sources, is, gs, start, end)
        } else {
            cut_across(&mut self.pieces, &self.sources, is, gs, ie, ge, start, end)
        };
        proof {
            lemma_pieces_text_len(srcs, self.pieces@);
            assert(self.frozen() == pre.frozen());
            PieceTable::lemma_log_frame(&pre, self, prev);
        }
        let ghost cs = changes@;
        self.log_action(changes, Ghost(prev));
        proof {
            assert(self.history@.drop_last() =~= pre.history@);
            PieceTable::lemma_log_grew(*old(self), pre, *self);
        }
    }

    /// Opens an edit at `index` that grows one piece a character at a time,
    /// committing any edit still open first. The piece is the one ending at
    /// `index` where that ends at the end of the latest source, or else a
    /// fresh empty one.
    pub fn insert_mutator(&mut self, index: usize) -> (m: TableMutator)
        requires
            old(self).wf(),
            old(self).next_id() < usize::MAX,
            index <= old(self)@.len(),
        ensures
            final(self).wf(),
            final(self)@ == old(self)@,
            final(self).open_id() == Some(m.spec_id()),
            final(self).open_point() == index,
            final(self).open_grown() == 0,
            final(self).next_id() == old(self).next_id() + 1,
            edit_step(*old(self), *final(self)),
            m.spec_id() == old(self).next_id(),
            final(self).log().len() == old(self).log().len() + pending(*old(self)),
            final(self).log().subrange(0, old(self).log().len() as int) == old(self).log(),
            final(self).srcs() == old(self).srcs() || final(self).srcs() == old(self).srcs().push(
                Seq::empty(),
            ),
    {
        self.commit();
        let ghost pre = *self;
        let ghost prev = self.pieces@;
        let ghost srcs = self.srcs();
        proof {
            lemma_pieces_text_len(srcs, prev);
        }
        let (piece_ix, floor, changes, patch_ix) = place_open(
            &mut self.pieces,
            &mut self.sources,
            index,
        );
        let id = self.next_action_id;
        self.next_action_id = id + 1;
        self.open = Some(
            OpenEdit { piece_ix, floor, changes, patch_ix, id, before: Ghost(prev) },
        );
        proof {
            let fz = self.frozen();
            assert(self.srcs().last().subrange(0, floor as int) =~= self.srcs().last());
            assert(fz =~= self.srcs());
            assert forall|i: int| 0 <= i < self.states@.len() implies #[trigger] pieces_valid(
                self.frozen(),
                self.states@[i],
            ) && pieces_len(self.states@[i]) <= usize::MAX && pieces_text(
                self.frozen(),
                self.states@[i],
            ) == pieces_text(pre.frozen(), self.states@[i]) by {
                assert(pre.frozen() == srcs);
                assert(pieces_valid(pre.frozen(), pre.states@[i]));
                lemma_extend_agree(srcs, fz, self.states@[i]);
            }
            lemma_extend_agree(srcs, fz, prev);
            PieceTable::lemma_log_frame(&pre, self, prev);
            lemma_pieces_text_len(self.srcs(), self.pieces@);
            let u = self.undo_texts();
            let v = pre.undo_texts().push(pre@);
            assert(u.len() == v.len());
            assert forall|j: int| 0 <= j < u.len() implies u[j] == v[j] by {
                if j < u.len() - 1 {
                    assert(pieces_valid(self.frozen(), self.states@[j]));
                    assert(pieces_text(self.frozen(), self.states@[j]) == pieces_text(
                        pre.frozen(),
                        pre.states@[j],
                    ));
                }
            }
            assert(u =~= v);
            assert(self.log().subrange(0, old(self).log().len() as int) =~= old(self).log());
        }
        TableMutator { id }
    }

    /// The first position at or after `start` whose character passes `pred`.
    pub fn index_of_pred(&self, pred: CharPred, start: usize) -> (r: Option<usize>)
        requires
            self.wf(),
        ensures
            r == (match first_match(self@, pred, start as int) {
                Some(k) => Some(k as usize),
                None => None::<usize>,
            }),
    {
        let ghost t = self@;
        let mut g: usize = 0;
        let mut i: usize = 0;
        proof {
            lemma_pieces_text_len(self.srcs(), self.pieces@);
        }
        while i < self.pieces.len()
            invariant
                self.wf(),
                t == self@,
                i <= self.pieces@.len(),
                t.len() == pieces_len(self.pieces@),
                g == pieces_len(self.pieces@.subrange(0, i as int)),
                g <= t.len(),
                first_match(t, pred, start as int) == first_match(
                    t,
                    pred,
                    if start < g { g as int } else { start as int },
                ),
            decreases self.pieces@.len() - i,
        {
            proof {
                lemma_piece_chars(self.srcs(), self.pieces@, i as int);
            }
            let p = self.pieces[i];
            let hi = g + p.length;
            if start < hi {
                proof {
                    assert(piece_valid(self.srcs(), self.pieces@[i as int]));
                }
                let src = &self.sources[p.source];
                let slen = src.len();
                proof {
                    assert(self.srcs()[p.source as int] == src@);
                }
                let mut k: usize = if start < g { g } else { start };
                while k < hi
                    invariant
                        g <= k <= hi,
                        hi == g + p.length,
                        p.start + p.length <= slen,
                        slen == src@.len(),
                        hi <= t.len(),
                        first_match(t, pred, start as int) == first_match(t, pred, k as int),
                        t == self@,
                        forall|j: int|
                            0 <= j < p.length ==> #[trigger] t[g + j] == src@[p.start + j],
                    decreases hi - k,
                {
                    let c = src[p.start + (k - g)];
                    proof {
                        assert(t[g + (k - g)] == c);
                    }
                    if pred.test(c) {
                        proof {
                            assert(holds(pred, t[k as int]));
                            assert(first_match(t, pred, k as int) == Some(k as nat));
                        }
                        return Some(k);
                    }
                    k = k + 1;
                }
            }
            g = hi;
            i = i + 1;
        }
        proof {
            assert(self.pieces@.subrange(0, i as int) =~= self.pieces@);
        }
        None
    }

    /// The last position before `start` (or before the end of the document,
    /// if that comes first) whose character passes `pred`.
    pub fn last_index_of_pred(&self, pred: CharPred, start: usize) -> (r: Option<usize>)
        requires
            self.wf(),
        ensures
            r == (match last_match(
                self@,
                pred,
                if start < self@.len() { start as int } else { self@.len() as int },
            ) {
                Some(k) => Some(k as usize),
                None => None::<usize>,
            }),
    {
        let ghost t = self@;
        let total = self.len();
        let before = if start < total { start } else { total };
        let mut ge: usize = total;
        let mut i: usize = self.pieces.len();
        proof {
            lemma_pieces_text_len(self.srcs(), self.pieces@);
            assert(self.pieces@.subrange(0, i as int) =~= self.pieces@);
        }
        while i > 0
            invariant
                self.wf(),
                t == self@,
                i <= self.pieces@.len(),
                t.len() == pieces_len(self.pieces@),
                ge == pieces_len(self.pieces@.subrange(0, i as int)),
                ge <= t.len(),
                before <= t.len(),
                before == (if start < t.len() { start } else { t.len() as usize }),
                last_match(t, pred, before as int) == last_match(
                    t,
                    pred,
                    if before < ge { before as int } else { ge as int },
                ),
            decreases i,
        {
            i = i - 1;
            proof {
                lemma_piece_chars(self.srcs(), self.pieces@, i as int);
            }
            let p = self.pieces[i];
            let g = ge - p.length;
            if g < before {
                proof {
                    assert(piece_valid(self.srcs(), self.pieces@[i as int]));
                }
                let src = &self.sources[p.source];
                let slen = src.len();
                proof {
                    assert(self.srcs()[p.source as int] == src@);
                }
                let mut k: usize = if before < ge { before } else { ge };
                while k > g
                    invariant
                        g <= k <= ge,
                        ge == g + p.length,
                        p.start + p.length <= slen,
                        slen == src@.len(),
                        ge <= t.len(),
                        last_match(t, pred, before as int) == last_match(t, pred, k as int),
                        t == self@,
                        before == (if start < t.len() { start } else { t.len() as usize }),
                        forall|j: int|
                            0 <= j < p.length ==> #[trigger] t[g + j] == src@[p.start + j],
                    decreases k,
                {
                    let c = src[p.start + (k - 1 - g)];
                    proof {
                        assert(t[g + (k - 1 - g)] == c);
                    }
                    if pred.test(c) {
                        proof {
                            assert(holds(pred, t[k - 1]));
                            assert(last_match(t, pred, k as int) == Some((k - 1) as nat));
                        }
                        return Some(k - 1);
                    }
                    k = k - 1;
                }
            }
            ge = g;
        }
        None
    }

    /// The first position at or after `start` holding `c`.
    pub fn index_of(&self, c: char, start: usize) -> (r: Option<usize>)
        requires
            self.wf(),
        ensures
            r == (match first_match(self@, CharPred::Is(c), start as int) {
                Some(k) => Some(k as usize),
                None => None::<usize>,
            }),
    {
        self.index_of_pred(CharPred::Is(c), start)
    }

    /// The last position before `start` holding `c`.
    pub fn last_index_of(&self, c: char, start: usize) -> (r: Option<usize>)
        requires
            self.wf(),
        ensures
            r == (match last_match(
                self@,
                CharPred::Is(c),
                if start < self@.len() { start as int } else { self@.len() as int },
            ) {
                Some(k) => Some(k as usize),
                None => None::<usize>,
            }),
    {
        self.last_index_of_pred(CharPred::Is(c), start)
    }

    /// A forward or a backward search from `start`.
    pub fn dir_index_of(&self, pred: CharPred, start: usize, dir: Direction) -> (r: Option<usize>)
        requires
            self.wf(),
        ensures
            dir == Direction::Forward ==> r == (match first_match(self@, pred, start as int) {
                Some(k) => Some(k as usize),
                None => None::<usize>,
            }),
            dir == Direction::Backward ==> r == (match last_match(
                self@,
                pred,
                if start < self@.len() { start as int } else { self@.len() as int },
            ) {
                Some(k) => Some(k as usize),
                None => None::<usize>,
            }),
    {
        match dir {
            Direction::Forward => self.index_of_pred(pred, start),
            Direction::Backward => self.last_index_of_pred(pred, start),
        }
    }

    /// The actions of the log whose id is at least `id`, oldest first. As ids
    /// grow along the log, they are the log from some point on.
    pub fn get_changes_from(&self, id: usize) -> (r: Vec<Action>)
        requires
            self.wf(),
        ensures
            r@.len() <= self.log().len(),
            forall|j: int|
                0 <= j < self.log().len() - r@.len() ==> #[trigger] self.log()[j].id < id,
            forall|j: int|
                0 <= j < r@.len() ==> #[trigger] r@[j].id == self.log()[self.log().len()
                    - r@.len() + j].id && r@[j].id >= id && r@[j].changes@ == self.log()[self.log().len()
                    - r@.len() + j].changes@,
    {
        let n = self.history.len();
        let mut k: usize = 0;
        while k < n && self.history[k].id < id
            invariant
                self.wf(),
                n == self.history@.len(),
                k <= n,
                forall|j: int| 0 <= j < k ==> #[trigger] self.history@[j].id < id,
            decreases n - k,
        {
            k = k + 1;
        }
        let mut r: Vec<Action> = Vec::new();
        let mut i: usize = k;
        while i < n
            invariant
                self.wf(),
                n == self.history@.len(),
                k <= i <= n,
                k < n ==> self.history@[k as int].id >= id,
                r@.len() == i - k,
                forall|j: int|
                    0 <= j < r@.len() ==> #[trigger] r@[j].id == self.history@[k + j].id
                        && r@[j].changes@ == self.history@[k + j].changes@,
            decreases n - i,
        {
            let a = copy_action(&self.history[i]);
            let ghost r0 = r@;
            r.push(a);
            proof {
                assert forall|j: int| 0 <= j < r@.len() implies #[trigger] r@[j].id
                    == self.history@[k + j].id && r@[j].changes@ == self.history@[k
                    + j].changes@ by {
                    if j < r0.len() {
                        assert(r@[j] == r0[j]);
                    }
                }
            }
            i = i + 1;
        }
        proof {
            assert forall|j: int| 0 <= j < r@.len() implies #[trigger] r@[j].id >= id by {
                if j > 0 {
                    assert(self.history@[k as int].id < self.history@[k + j].id);
                }
            }
        }
        r
    }

    /// Whether the changes fit the committed pieces and leave every piece
    /// within its source.
    pub closed spec fn fits(&self, changes: Seq<Change>) -> bool {
        &&& apply(self.pieces@, changes) is Some
        &&& pieces_valid(self.srcs(), apply(self.pieces@, changes)->0)
        &&& pieces_len(apply(self.pieces@, changes)->0) <= usize::MAX
    }

    /// The text the changes give, where they fit.
    pub closed spec fn replayed(&self, changes: Seq<Change>) -> Seq<char> {
        pieces_text(self.srcs(), apply(self.pieces@, changes)->0)
    }

    /// Replays an action made on another copy of this document, and logs it.
    /// Gives `false`, after committing an open edit and changing nothing
    /// else, where its changes do not fit this table.
    pub fn apply_action(&mut self, action: &Action) -> (r: bool)
        requires
            old(self).wf(),
            old(self).next_id() <= action.id < usize::MAX,
        ensures
            final(self).wf(),
            final(self).open_id() is None,
            r == old(self).fits(action.changes@),
            r ==> final(self)@ == old(self).replayed(action.changes@),
            r ==> final(self).next_id() == action.id + 1,
            r ==> edit_step(*old(self), *final(self)),
            r ==> final(self).log().last().id == action.id,
            !r ==> final(self)@ == old(self)@,
            !r ==> final(self).undo_texts() == old(self).undo_texts(),
            !r ==> final(self).piece_seq() == old(self).piece_seq(),
            r ==> final(self).piece_seq() == apply(old(self).piece_seq(), action.changes@)->0,
            r ==> final(self).log().len() == old(self).log().len() + pending(*old(self)) + 1,
            r ==> final(self).log().subrange(0, old(self).log().len() as int) == old(self).log(),
            r ==> final(self).log().last().changes@ == action.changes@,
            final(self).srcs() == old(self).srcs(),
    {
        self.commit();
        let ghost pre = *self;
        let ghost prev = self.pieces@;
        let replayed = replay(&self.pieces, &action.changes);
        let new_pieces = match replayed {
            Some(v) => v,
            None => {
                return false;
            },
        };
        let mut total: usize = 0;
        let mut i: usize = 0;
        while i < new_pieces.len()
            invariant
                i <= new_pieces@.len(),
                total == pieces_len(new_pieces@.subrange(0, i as int)),
                pieces_valid(self.srcs(), new_pieces@.subrange(0, i as int)),
                *self == pre,
                pre.wf(),
                pre.open is None,
                apply(prev, action.changes@) == Some(new_pieces@),
                prev == pre.pieces@,
                pre@ == old(self)@,
                pre.pieces@ == old(self).pieces@,
                pre.srcs() == old(self).srcs(),
                pre.undo_texts() == old(self).undo_texts(),
            decreases new_pieces@.len() - i,
        {
            let p = new_pieces[i];
            if p.source >= self.sources.len() {
                proof {
                    assert(!piece_valid(self.srcs(), new_pieces@[i as int]));
                }
                return false;
            }
            let sl = self.sources[p.source].len();
            if p.start > sl || p.length > sl - p.start {
                proof {
                    assert(!piece_valid(self.srcs(), new_pieces@[i as int]));
                }
                return false;
            }
            if p.length > usize::MAX - total {
                proof {
                    crate::text_model::lemma_prefix_step(self.srcs(), new_pieces@, i as int);
                    lemma_pieces_len_prefix(new_pieces@, i + 1);
                }
                return false;
            }
            proof {
                crate::text_model::lemma_prefix_step(self.srcs(), new_pieces@, i as int);
                assert forall|j: int| 0 <= j < i + 1 implies #[trigger] piece_valid(
                    self.srcs(),
                    new_pieces@.subrange(0, i + 1)[j],
                ) by {
                    if j < i {
                        assert(new_pieces@.subrange(0, i + 1)[j] == new_pieces@.subrange(
                            0,
                            i as int,
                        )[j]);
                    }
                }
            }
            total = total + p.length;
            i = i + 1;
        }
        proof {
            assert(new_pieces@.subrange(0, i as int) =~= new_pieces@);
            lemma_unapply_apply(prev, action.changes@);
        }
        self.pieces = new_pieces;
        let changes = copy_action(action).changes;
        self.next_action_id = action.id;
        proof {
            assert(self.frozen() == pre.frozen());
            PieceTable::lemma_log_frame(&pre, self, prev);
        }
        self.log_action(changes, Ghost(prev));
        proof {
            assert(self.log().subrange(0, old(self).log().len() as int) =~= old(self).log());
        }
        true
    }

    /// The id the next action gets.
    pub fn next_action_id(&self) -> (r: usize)
        ensures
            r == self.next_id(),
    {
        self.next_action_id
    }

    /// The piece that the newest action of the log put into the sequence,
    /// if that action inserted one (as typing does), and it still lies in
    /// the sources.
    pub fn last_inserted_piece(&self) -> (r: Option<Piece>)
        requires
            self.wf(),
        ensures
            r == last_inserted(*self),
    {
        let n = self.history.len();
        if n == 0 {
            return None;
        }
        let a = &self.history[n - 1];
        let k = a.changes.len();
        if k == 0 {
            return None;
        }
        let ix = if k == 1 {
            0
        } else {
            1
        };
        if ix >= k {
            return None;
        }
        match a.changes[ix] {
            Change::Insert { new, .. } => {
                if self.piece_fits(new) {
                    Some(new)
                } else {
                    None
                }
            },
            _ => None,
        }
    }

    /// Whether `p` lies within its source.
    pub fn piece_fits(&self, p: Piece) -> (r: bool)
        ensures
            r == piece_valid(self.srcs(), p),
    {
        if p.source >= self.sources.len() {
            return false;
        }
        let sl = self.sources[p.source].len();
        p.start <= sl && p.length <= sl - p.start
    }

    /// The id of the newest action of the log, or 0 for an empty log.
    pub fn most_recent_action_id(&self) -> (r: usize)
        requires
            self.wf(),
        ensures
            r == (if self.log().len() == 0 { 0 } else { self.log().last().id }),
    {
        let n = self.history.len();
        if n == 0 {
            0
        } else {
            self.history[n - 1].id
        }
    }

    /// The length of the document, in characters.
    pub fn len(&self) -> (r: usize)
        requires
            self.wf(),
        ensures
            r == self@.len(),
    {
        let mut total: usize = 0;
        let mut i: usize = 0;
        while i < self.pieces.len()
            invariant
                self.wf(),
                i <= self.pieces@.len(),
                total == pieces_len(self.pieces@.subrange(0, i as int)),
            decreases self.pieces@.len() - i,
        {
            proof {
                lemma_piece_chars(self.srcs(), self.pieces@, i as int);
            }
            total = total + self.pieces[i].length;
            i = i + 1;
        }
        proof {
            assert(self.pieces@.subrange(0, i as int) =~= self.pieces@);
            lemma_pieces_text_len(self.srcs(), self.pieces@);
        }
        total
    }

    /// The characters `start..end` of the document.
    fn copy_chars(&self, start: usize, end: usize) -> (r: Vec<char>)
        requires
            self.wf(),
            start <= end <= self@.len(),
        ensures
            r@ == self@.subrange(start as int, end as int),
    {
        let mut r: Vec<char> = Vec::new();
        let mut g: usize = 0;
        let mut i: usize = 0;
        proof {
            lemma_pieces_text_len(self.srcs(), self.pieces@);
        }
        while i < self.pieces.len()
            invariant
                self.wf(),
                i <= self.pieces@.len(),
                start <= end <= self@.len(),
                self@.len() == pieces_len(self.pieces@),
                g == pieces_len(self.pieces@.subrange(0, i as int)),
                g <= self@.len(),
                r@ == self@.subrange(
                    if start < g { start as int } else { g as int },
                    if end < g { end as int } else { g as int },
                ),
            decreases self.pieces@.len() - i,
        {
            proof {
                lemma_piece_chars(self.srcs(), self.pieces@, i as int);
            }
            let p = self.pieces[i];
            let lo = if start > g { start } else { g };
            let hi = if end < g + p.length { end } else { g + p.length };
            if lo < hi {
                proof {
                    assert(piece_valid(self.srcs(), self.pieces@[i as int]));
                }
                let src = &self.sources[p.source];
                let slen = src.len();
                proof {
                    assert(self.srcs()[p.source as int] == src@);
                    assert(r@ =~= self@.subrange(start as int, lo as int));
                }
                let mut k: usize = lo;
                while k < hi
                    invariant
                        lo <= k <= hi,
                        hi <= g + p.length,
                        g <= lo,
                        start <= lo,
                        p.start + p.length <= slen,
                        slen == src@.len(),
                        hi <= self@.len(),
                        r@ == self@.subrange(start as int, k as int),
                        forall|j: int|
                            0 <= j < p.length ==> #[trigger] self@[g + j] == src@[p.start + j],
                    decreases hi - k,
                {
                    let c = src[p.start + (k - g)];
                    proof {
                        assert(self@[g + (k - g)] == c);
                    }
                    r.push(c);
                    k = k + 1;
                    proof {
                        assert(r@ =~= self@.subrange(start as int, k as int));
                    }
                }
            }
            g = g + p.length;
            i = i + 1;
            proof {
                let a = if start < g { start as int } else { g as int };
                let b = if end < g { end as int } else { g as int };
                assert(r@ =~= self@.subrange(a, b));
            }
        }
        proof {
            assert(self.pieces@.subrange(0, i as int) =~= self.pieces@);
        }
        r
    }

    /// The characters `start..end` of the document.
    pub fn copy_range(&self, start: usize, end: usize) -> (r: String)
        requires
            self.wf(),
            start <= end <= self@.len(),
        ensures
            r@ == self@.subrange(start as int, end as int),
    {
        let v = self.copy_chars(start, end);
        string_of(&v)
    }

    /// The whole document.
    pub fn text(&self) -> (r: String)
        requires
            self.wf(),
        ensures
            r@ == self@,
    {
        let n = self.len();
        let r = self.copy_range(0, n);
        proof {
            assert(self@.subrange(0, n as int) =~= self@);
        }
        r
    }

    /// The character at `index`, if the document is that long.
    pub fn char_at(&self, index: usize) -> (r: Option<char>)
        requires
            self.wf(),
        ensures
            r == (if index < self@.len() { Some(self@[index as int]) } else { None }),
    {
        let mut g: usize = 0;
        let mut i: usize = 0;
        proof {
            lemma_pieces_text_len(self.srcs(), self.pieces@);
        }
        while i < self.pieces.len()
            invariant
                self.wf(),
                i <= self.pieces@.len(),
                self@.len() == pieces_len(self.pieces@),
                g == pieces_len(self.pieces@.subrange(0, i as int)),
                g <= index,
            decreases self.pieces@.len() - i,
        {
            proof {
                lemma_piece_chars(self.srcs(), self.pieces@, i as int);
            }
            let p = self.pieces[i];
            if index < g + p.length {
                proof {
                    assert(piece_valid(self.srcs(), self.pieces@[i as int]));
                    assert(self@[g + (index - g)] == self.srcs()[p.source as int][p.start + (index
                        - g)]);
                }
                let src = &self.sources[p.source];
                let slen = src.len();
                proof {
                    assert(self.srcs()[p.source as int] == src@);
                }
                return Some(src[p.start + (index - g)]);
            }
            g = g + p.length;
            i = i + 1;
        }
        proof {
            assert(self.pieces@.subrange(0, i as int) =~= self.pieces@);
        }
        None
    }
}

} // verus!
