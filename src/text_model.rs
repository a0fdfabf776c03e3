//! Mathematical model of a piece sequence: what text a sequence of pieces
//! spells out over a store of sources, and how the recorded changes of an
//! action replay forwards and backwards.
use vstd::prelude::*;

verus! {

/// A half-open range `start..start + length` of characters in one source.
#[derive(Copy, Clone, Debug, PartialEq, Eq, Structural)]
pub struct Piece {
    pub source: usize,
    pub start: usize,
    pub length: usize,
}

/// One atomic edit of the piece sequence.
#[derive(Copy, Clone, Debug, PartialEq, Eq, Structural)]
pub enum Change {
    Insert { piece_index: usize, new: Piece },
    Modify { piece_index: usize, old: Piece, new: Piece },
    Delete { piece_index: usize, old: Piece },
}

pub open spec fn piece_end(p: Piece) -> int {
    p.start + p.length
}

pub open spec fn piece_valid(sources: Seq<Seq<char>>, p: Piece) -> bool {
    &&& p.source < sources.len()
    &&& piece_end(p) <= sources[p.source as int].len()
}

pub open spec fn pieces_valid(sources: Seq<Seq<char>>, ps: Seq<Piece>) -> bool {
    forall|i: int| 0 <= i < ps.len() ==> #[trigger] piece_valid(sources, ps[i])
}

/// The characters one piece refers to.
pub open spec fn piece_text(sources: Seq<Seq<char>>, p: Piece) -> Seq<char> {
    sources[p.source as int].subrange(p.start as int, piece_end(p))
}

/// The concatenation, in order, of the characters every piece refers to.
pub open spec fn pieces_text(sources: Seq<Seq<char>>, ps: Seq<Piece>) -> Seq<char>
    decreases ps.len(),
{
    if ps.len() == 0 {
        Seq::empty()
    } else {
        pieces_text(sources, ps.drop_last()) + piece_text(sources, ps.last())
    }
}

/// The sum of the piece lengths.
pub open spec fn pieces_len(ps: Seq<Piece>) -> nat
    decreases ps.len(),
{
    if ps.len() == 0 {
        0
    } else {
        pieces_len(ps.drop_last()) + ps.last().length as nat
    }
}

/// Undoes one change; `None` where its index does not fit the sequence.
pub open spec fn unapply_one(ps: Seq<Piece>, c: Change) -> Option<Seq<Piece>> {
    match c {
        Change::Insert { piece_index, .. } => if piece_index < ps.len() {
            Some(ps.remove(piece_index as int))
        } else {
            None
        },
        Change::Modify { piece_index, old, .. } => if piece_index < ps.len() {
            Some(ps.update(piece_index as int, old))
        } else {
            None
        },
        Change::Delete { piece_index, old } => if piece_index <= ps.len() {
            Some(ps.insert(piece_index as int, old))
        } else {
            None
        },
    }
}

/// Undoes a group of changes, the last one first.
pub open spec fn unapply(ps: Seq<Piece>, cs: Seq<Change>) -> Option<Seq<Piece>>
    decreases cs.len(),
{
    if cs.len() == 0 {
        Some(ps)
    } else {
        match unapply_one(ps, cs.last()) {
            Some(q) => unapply(q, cs.drop_last()),
            None => None,
        }
    }
}

/// Performs one change; `None` where it does not fit the sequence, or where
/// the piece it says it replaces or removes is not the one there.
pub open spec fn apply_one(ps: Seq<Piece>, c: Change) -> Option<Seq<Piece>> {
    match c {
        Change::Insert { piece_index, new } => if piece_index <= ps.len() {
            Some(ps.insert(piece_index as int, new))
        } else {
            None
        },
        Change::Modify { piece_index, old, new } => if piece_index < ps.len()
            && ps[piece_index as int] == old {
            Some(ps.update(piece_index as int, new))
        } else {
            None
        },
        Change::Delete { piece_index, old } => if piece_index < ps.len() && ps[piece_index as int]
            == old {
            Some(ps.remove(piece_index as int))
        } else {
            None
        },
    }
}

/// Performs a group of changes, the first one first.
pub open spec fn apply(ps: Seq<Piece>, cs: Seq<Change>) -> Option<Seq<Piece>>
    decreases cs.len(),
{
    if cs.len() == 0 {
        Some(ps)
    } else {
        match apply(ps, cs.drop_last()) {
            Some(q) => apply_one(q, cs.last()),
            None => None,
        }
    }
}

/// Two changes that undo alike: they differ at most in the piece they install.
pub open spec fn same_undo(a: Change, b: Change) -> bool {
    match (a, b) {
        (Change::Insert { piece_index: i, .. }, Change::Insert { piece_index: j, .. }) => i == j,
        (
            Change::Modify { piece_index: i, old: o, .. },
            Change::Modify { piece_index: j, old: p, .. },
        ) => i == j && o == p,
        (Change::Delete { piece_index: i, old: o }, Change::Delete { piece_index: j, old: p }) => i
            == j && o == p,
        _ => false,
    }
}

/// Every source of `a` that a piece of `ps` reads is read alike in `b`.
pub open spec fn sources_agree(a: Seq<Seq<char>>, b: Seq<Seq<char>>, ps: Seq<Piece>) -> bool {
    forall|i: int|
        0 <= i < ps.len() ==> piece_valid(a, #[trigger] ps[i]) && piece_valid(b, ps[i])
            && piece_text(a, ps[i]) == piece_text(b, ps[i])
}

/// `b` keeps every source of `a` as a prefix of its own.
pub open spec fn sources_extend(a: Seq<Seq<char>>, b: Seq<Seq<char>>) -> bool {
    &&& a.len() <= b.len()
    &&& forall|j: int|
        0 <= j < a.len() ==> #[trigger] a[j].len() <= b[j].len() && a[j] == b[j].subrange(
            0,
            a[j].len() as int,
        )
}

pub proof fn lemma_pieces_text_len(sources: Seq<Seq<char>>, ps: Seq<Piece>)
    requires
        pieces_valid(sources, ps),
    ensures
        pieces_text(sources, ps).len() == pieces_len(ps),
    decreases ps.len(),
{
    if ps.len() > 0 {
        assert(piece_valid(sources, ps[ps.len() - 1]));
        lemma_pieces_text_len(sources, ps.drop_last());
    }
}

pub proof fn lemma_pieces_text_concat(sources: Seq<Seq<char>>, a: Seq<Piece>, b: Seq<Piece>)
    ensures
        pieces_text(sources, a + b) == pieces_text(sources, a) + pieces_text(sources, b),
    decreases b.len(),
{
    if b.len() == 0 {
        assert(a + b =~= a);
    } else {
        assert((a + b).drop_last() =~= a + b.drop_last());
        lemma_pieces_text_concat(sources, a, b.drop_last());
        assert((a + b).last() == b.last());
    }
}

pub proof fn lemma_pieces_len_concat(a: Seq<Piece>, b: Seq<Piece>)
    ensures
        pieces_len(a + b) == pieces_len(a) + pieces_len(b),
    decreases b.len(),
{
    if b.len() == 0 {
        assert(a + b =~= a);
    } else {
        assert((a + b).drop_last() =~= a + b.drop_last());
        lemma_pieces_len_concat(a, b.drop_last());
    }
}

pub proof fn lemma_pieces_text_single(sources: Seq<Seq<char>>, p: Piece)
    ensures
        pieces_text(sources, seq![p]) == piece_text(sources, p),
        pieces_len(seq![p]) == p.length,
{
    let s = seq![p];
    assert(s.drop_last() =~= Seq::<Piece>::empty());
    assert(s.last() == p);
    assert(pieces_text(sources, s.drop_last()) == Seq::<char>::empty());
    assert(pieces_len(s.drop_last()) == 0);
    assert(Seq::<char>::empty() + piece_text(sources, p) =~= piece_text(sources, p));
}

/// Splits the text of `ps` around its piece `i`.
pub proof fn lemma_pieces_text_split(sources: Seq<Seq<char>>, ps: Seq<Piece>, i: int)
    requires
        0 <= i < ps.len(),
    ensures
        pieces_text(sources, ps) == pieces_text(sources, ps.subrange(0, i)) + piece_text(
            sources,
            ps[i],
        ) + pieces_text(sources, ps.subrange(i + 1, ps.len() as int)),
        pieces_len(ps) == pieces_len(ps.subrange(0, i)) + ps[i].length + pieces_len(
            ps.subrange(i + 1, ps.len() as int),
        ),
{
    let a = ps.subrange(0, i);
    let b = ps.subrange(i + 1, ps.len() as int);
    assert(ps =~= a + seq![ps[i]] + b);
    lemma_pieces_text_concat(sources, a + seq![ps[i]], b);
    lemma_pieces_text_concat(sources, a, seq![ps[i]]);
    lemma_pieces_text_single(sources, ps[i]);
    lemma_pieces_len_concat(a + seq![ps[i]], b);
    lemma_pieces_len_concat(a, seq![ps[i]]);
}

/// The text of a prefix of the pieces, one piece longer.
pub proof fn lemma_prefix_step(sources: Seq<Seq<char>>, ps: Seq<Piece>, i: int)
    requires
        0 <= i < ps.len(),
    ensures
        pieces_text(sources, ps.subrange(0, i + 1)) == pieces_text(sources, ps.subrange(0, i))
            + piece_text(sources, ps[i]),
        pieces_len(ps.subrange(0, i + 1)) == pieces_len(ps.subrange(0, i)) + ps[i].length,
{
    assert(ps.subrange(0, i + 1).drop_last() =~= ps.subrange(0, i));
}

pub proof fn lemma_pieces_len_prefix(ps: Seq<Piece>, i: int)
    requires
        0 <= i <= ps.len(),
    ensures
        pieces_len(ps.subrange(0, i)) <= pieces_len(ps),
{
    assert(ps =~= ps.subrange(0, i) + ps.subrange(i, ps.len() as int));
    lemma_pieces_len_concat(ps.subrange(0, i), ps.subrange(i, ps.len() as int));
}

/// Reading `ps` over sources that agree on it gives the same text.
pub proof fn lemma_agree_text(a: Seq<Seq<char>>, b: Seq<Seq<char>>, ps: Seq<Piece>)
    requires
        sources_agree(a, b, ps),
    ensures
        pieces_text(a, ps) == pieces_text(b, ps),
        pieces_valid(b, ps),
    decreases ps.len(),
{
    if ps.len() > 0 {
        assert(piece_valid(a, ps[ps.len() - 1]));
        assert(sources_agree(a, b, ps.drop_last())) by {
            assert forall|i: int| 0 <= i < ps.drop_last().len() implies piece_valid(
                a,
                #[trigger] ps.drop_last()[i],
            ) && piece_valid(b, ps.drop_last()[i]) && piece_text(a, ps.drop_last()[i])
                == piece_text(b, ps.drop_last()[i]) by {
                assert(ps.drop_last()[i] == ps[i]);
            }
        }
        lemma_agree_text(a, b, ps.drop_last());
    }
    assert forall|i: int| 0 <= i < ps.len() implies #[trigger] piece_valid(b, ps[i]) by {
        assert(piece_valid(b, ps[i]));
    }
}

/// Sources that only grew agree with the old ones on every valid sequence.
pub proof fn lemma_extend_agree(a: Seq<Seq<char>>, b: Seq<Seq<char>>, ps: Seq<Piece>)
    requires
        sources_extend(a, b),
        pieces_valid(a, ps),
    ensures
        sources_agree(a, b, ps),
        pieces_text(a, ps) == pieces_text(b, ps),
        pieces_valid(b, ps),
{
    assert forall|i: int| 0 <= i < ps.len() implies piece_valid(a, #[trigger] ps[i])
        && piece_valid(b, ps[i]) && piece_text(a, ps[i]) == piece_text(b, ps[i]) by {
        assert(piece_valid(a, ps[i]));
        let s = ps[i].source as int;
        assert(a[s] == b[s].subrange(0, a[s].len() as int));
        assert(piece_text(a, ps[i]) =~= piece_text(b, ps[i]));
    }
    lemma_agree_text(a, b, ps);
}

/// Changes that undo alike give the same undo.
pub proof fn lemma_unapply_same_undo(ps: Seq<Piece>, cs: Seq<Change>, k: int, c: Change)
    requires
        0 <= k < cs.len(),
        same_undo(cs[k], c),
    ensures
        unapply(ps, cs.update(k, c)) == unapply(ps, cs),
    decreases cs.len(),
{
    let ds = cs.update(k, c);
    if k == cs.len() - 1 {
        assert(ds.drop_last() =~= cs.drop_last());
        assert(unapply_one(ps, ds.last()) == unapply_one(ps, cs.last()));
    } else {
        assert(ds.drop_last() =~= cs.drop_last().update(k, c));
        assert(ds.last() == cs.last());
        match unapply_one(ps, cs.last()) {
            Some(q) => {
                lemma_unapply_same_undo(q, cs.drop_last(), k, c);
            },
            None => {},
        }
    }
}

/// Undoing changes right after performing them gives the sequence back.
pub proof fn lemma_unapply_apply(ps: Seq<Piece>, cs: Seq<Change>)
    requires
        apply(ps, cs) is Some,
    ensures
        unapply(apply(ps, cs)->0, cs) == Some(ps),
    decreases cs.len(),
{
    if cs.len() > 0 {
        let q = apply(ps, cs.drop_last())->0;
        lemma_unapply_apply(ps, cs.drop_last());
        let r = apply_one(q, cs.last())->0;
        match cs.last() {
            Change::Insert { piece_index, new } => {
                assert(r.remove(piece_index as int) =~= q);
            },
            Change::Modify { piece_index, old, new } => {
                assert(r.update(piece_index as int, old) =~= q);
            },
            Change::Delete { piece_index, old } => {
                assert(r.insert(piece_index as int, old) =~= q);
            },
        }
        assert(unapply_one(r, cs.last()) == Some(q));
    }
}


/// The text of the first `i` pieces is the start of the whole text.
pub proof fn lemma_prefix_text(sources: Seq<Seq<char>>, ps: Seq<Piece>, i: int)
    requires
        0 <= i <= ps.len(),
        pieces_valid(sources, ps),
    ensures
        pieces_len(ps.subrange(0, i)) <= pieces_len(ps),
        pieces_text(sources, ps.subrange(0, i)) == pieces_text(sources, ps).subrange(
            0,
            pieces_len(ps.subrange(0, i)) as int,
        ),
{
    let a = ps.subrange(0, i);
    let b = ps.subrange(i, ps.len() as int);
    assert(ps =~= a + b);
    lemma_pieces_text_concat(sources, a, b);
    lemma_pieces_len_concat(a, b);
    assert(pieces_valid(sources, a)) by {
        assert forall|j: int| 0 <= j < a.len() implies #[trigger] piece_valid(sources, a[j]) by {
            assert(a[j] == ps[j]);
        }
    }
    lemma_pieces_text_len(sources, a);
    assert(pieces_text(sources, a) =~= pieces_text(sources, ps).subrange(
        0,
        pieces_len(a) as int,
    ));
}

/// Where piece `i` starts in the text, its characters are read from its source.
pub proof fn lemma_piece_chars(sources: Seq<Seq<char>>, ps: Seq<Piece>, i: int)
    requires
        0 <= i < ps.len(),
        pieces_valid(sources, ps),
    ensures
        pieces_len(ps.subrange(0, i)) + ps[i].length <= pieces_len(ps),
        pieces_len(ps.subrange(0, i + 1)) == pieces_len(ps.subrange(0, i)) + ps[i].length,
        pieces_text(sources, ps).len() == pieces_len(ps),
        forall|k: int|
            0 <= k < ps[i].length ==> #[trigger] pieces_text(sources, ps)[pieces_len(
                ps.subrange(0, i),
            ) + k] == sources[ps[i].source as int][ps[i].start + k],
{
    lemma_prefix_text(sources, ps, i + 1);
    lemma_prefix_step(sources, ps, i);
    lemma_pieces_text_len(sources, ps);
    let g = pieces_len(ps.subrange(0, i)) as int;
    assert(piece_valid(sources, ps[i]));
    assert forall|k: int| 0 <= k < ps[i].length implies #[trigger] pieces_text(sources, ps)[g
        + k] == sources[ps[i].source as int][ps[i].start + k] by {
        assert(pieces_text(sources, ps.subrange(0, i + 1))[g + k] == pieces_text(
            sources,
            ps,
        )[g + k]);
        assert(pieces_valid(sources, ps.subrange(0, i))) by {
            assert forall|j: int| 0 <= j < i implies #[trigger] piece_valid(
                sources,
                ps.subrange(0, i)[j],
            ) by {
                assert(ps.subrange(0, i)[j] == ps[j]);
            }
        }
        lemma_pieces_text_len(sources, ps.subrange(0, i));
    }
}


/// The text of three runs of pieces one after another.
pub proof fn lemma_text3(sources: Seq<Seq<char>>, a: Seq<Piece>, m: Seq<Piece>, b: Seq<Piece>)
    ensures
        pieces_text(sources, a + m + b) == pieces_text(sources, a) + pieces_text(sources, m)
            + pieces_text(sources, b),
{
    lemma_pieces_text_concat(sources, a + m, b);
    lemma_pieces_text_concat(sources, a, m);
}

/// Inserting piece `np` at index `i` inserts its text where piece `i` began.
pub proof fn lemma_insert_at(sources: Seq<Seq<char>>, ps: Seq<Piece>, i: int, np: Piece)
    requires
        0 <= i <= ps.len(),
        pieces_valid(sources, ps),
        piece_valid(sources, np),
    ensures
        pieces_len(ps.subrange(0, i)) <= pieces_len(ps),
        pieces_valid(sources, ps.insert(i, np)),
        pieces_text(sources, ps.insert(i, np)) == pieces_text(sources, ps).subrange(
            0,
            pieces_len(ps.subrange(0, i)) as int,
        ) + piece_text(sources, np) + pieces_text(sources, ps).subrange(
            pieces_len(ps.subrange(0, i)) as int,
            pieces_len(ps) as int,
        ),
{
    let a = ps.subrange(0, i);
    let b = ps.subrange(i, ps.len() as int);
    assert(ps.insert(i, np) =~= a + seq![np] + b);
    assert(ps =~= a + b);
    lemma_text3(sources, a, seq![np], b);
    lemma_pieces_text_single(sources, np);
    lemma_pieces_text_concat(sources, a, b);
    lemma_prefix_text(sources, ps, i);
    lemma_pieces_text_len(sources, ps);
    let t = pieces_text(sources, ps);
    let g = pieces_len(a) as int;
    assert(pieces_text(sources, b) =~= t.subrange(g, pieces_len(ps) as int));
    assert forall|j: int| 0 <= j < ps.insert(i, np).len() implies #[trigger] piece_valid(
        sources,
        ps.insert(i, np)[j],
    ) by {
        if j < i {
            assert(ps.insert(i, np)[j] == ps[j]);
        } else if j > i {
            assert(ps.insert(i, np)[j] == ps[j - 1]);
        }
    }
}

/// Splitting piece `i` at `k` and putting `np` between the halves inserts
/// the text of `np` at `k` characters into that piece.
pub proof fn lemma_split_insert(
    sources: Seq<Seq<char>>,
    ps: Seq<Piece>,
    i: int,
    k: int,
    np: Piece,
)
    requires
        0 <= i < ps.len(),
        0 <= k <= ps[i].length,
        piece_end(ps[i]) <= usize::MAX,
        pieces_valid(sources, ps),
        piece_valid(sources, np),
    ensures
        ({
            let p = ps[i];
            let l = Piece { source: p.source, start: p.start, length: k as usize };
            let r = Piece {
                source: p.source,
                start: (p.start + k) as usize,
                length: (p.length - k) as usize,
            };
            let g = pieces_len(ps.subrange(0, i)) as int;
            let t = pieces_text(sources, ps);
            let q = ps.subrange(0, i) + seq![l, np, r] + ps.subrange(i + 1, ps.len() as int);
            &&& pieces_valid(sources, q)
            &&& pieces_text(sources, q) == t.subrange(0, g + k) + piece_text(sources, np)
                + t.subrange(g + k, t.len() as int)
            &&& g + p.length <= t.len()
        }),
{
    let p = ps[i];
    let l = Piece { source: p.source, start: p.start, length: k as usize };
    let r = Piece { source: p.source, start: (p.start + k) as usize, length: (p.length - k) as usize };
    let a = ps.subrange(0, i);
    let b = ps.subrange(i + 1, ps.len() as int);
    let q = a + seq![l, np, r] + b;
    assert(piece_valid(sources, p));
    lemma_text3(sources, a, seq![l, np, r], b);
    assert(seq![l, np, r] =~= seq![l] + seq![np] + seq![r]);
    lemma_text3(sources, seq![l], seq![np], seq![r]);
    lemma_pieces_text_single(sources, l);
    lemma_pieces_text_single(sources, np);
    lemma_pieces_text_single(sources, r);
    lemma_pieces_text_split(sources, ps, i);
    lemma_prefix_text(sources, ps, i);
    lemma_piece_chars(sources, ps, i);
    let t = pieces_text(sources, ps);
    let g = pieces_len(a) as int;
    assert(pieces_text(sources, a).len() == g);
    assert(piece_text(sources, p) =~= piece_text(sources, l) + piece_text(sources, r)) by {
        let sp = sources[p.source as int];
        assert(piece_text(sources, l) =~= sp.subrange(p.start as int, p.start + k));
        assert(piece_text(sources, r) =~= sp.subrange(p.start + k, piece_end(p)));
    }
    assert(pieces_text(sources, q) =~= t.subrange(0, g + k) + piece_text(sources, np)
        + t.subrange(g + k, t.len() as int));
    assert forall|j: int| 0 <= j < q.len() implies #[trigger] piece_valid(sources, q[j]) by {
        if j < i {
            assert(q[j] == ps[j]);
        } else if j > i + 2 {
            assert(q[j] == ps[j - 2]);
        }
    }
}


/// Undoing `xs + ys` undoes `ys` first, then `xs`.
pub proof fn lemma_unapply_concat(ps: Seq<Piece>, xs: Seq<Change>, ys: Seq<Change>)
    ensures
        unapply(ps, xs + ys) == match unapply(ps, ys) {
            Some(q) => unapply(q, xs),
            None => None,
        },
    decreases ys.len(),
{
    if ys.len() == 0 {
        assert(xs + ys =~= xs);
    } else {
        assert((xs + ys).drop_last() =~= xs + ys.drop_last());
        assert((xs + ys).last() == ys.last());
        match unapply_one(ps, ys.last()) {
            Some(q) => {
                lemma_unapply_concat(q, xs, ys.drop_last());
            },
            None => {},
        }
    }
}

/// The changes that delete the pieces `m`, one after another, all at index `i`.
pub open spec fn deletes_at(i: usize, m: Seq<Piece>) -> Seq<Change> {
    Seq::new(m.len(), |k: int| Change::Delete { piece_index: i, old: m[k] })
}

/// Undoing the deletion of `m` from between `a` and `c` puts it back.
pub proof fn lemma_unapply_deletes(a: Seq<Piece>, m: Seq<Piece>, c: Seq<Piece>)
    requires
        a.len() <= usize::MAX,
    ensures
        unapply(a + c, deletes_at(a.len() as usize, m)) == Some(a + m + c),
    decreases m.len(),
{
    let d = deletes_at(a.len() as usize, m);
    if m.len() == 0 {
        assert(a + m + c =~= a + c);
    } else {
        let last = m.last();
        assert(d.last() == Change::Delete { piece_index: a.len() as usize, old: last });
        assert(d.drop_last() =~= deletes_at(a.len() as usize, m.drop_last()));
        assert((a + c).insert(a.len() as int, last) =~= a + (seq![last] + c));
        lemma_unapply_deletes(a, m.drop_last(), seq![last] + c);
        assert(a + m.drop_last() + (seq![last] + c) =~= a + m + c);
    }
}

/// Replacing piece `i` by the run `mid` replaces its text by that of `mid`.
pub proof fn lemma_replace_piece(sources: Seq<Seq<char>>, ps: Seq<Piece>, i: int, mid: Seq<Piece>)
    requires
        0 <= i < ps.len(),
        pieces_valid(sources, ps),
        pieces_valid(sources, mid),
    ensures
        ({
            let q = ps.subrange(0, i) + mid + ps.subrange(i + 1, ps.len() as int);
            let g = pieces_len(ps.subrange(0, i)) as int;
            let t = pieces_text(sources, ps);
            &&& pieces_valid(sources, q)
            &&& g + ps[i].length <= t.len()
            &&& t.len() == pieces_len(ps)
            &&& pieces_text(sources, q) == t.subrange(0, g) + pieces_text(sources, mid)
                + t.subrange(g + ps[i].length, t.len() as int)
            &&& t.subrange(g, g + ps[i].length) == piece_text(sources, ps[i])
        }),
{
    let a = ps.subrange(0, i);
    let b = ps.subrange(i + 1, ps.len() as int);
    let q = a + mid + b;
    lemma_text3(sources, a, mid, b);
    lemma_pieces_text_split(sources, ps, i);
    lemma_prefix_text(sources, ps, i);
    lemma_piece_chars(sources, ps, i);
    let t = pieces_text(sources, ps);
    let g = pieces_len(a) as int;
    assert(piece_valid(sources, ps[i]));
    assert(pieces_text(sources, a).len() == g);
    assert(piece_text(sources, ps[i]).len() == ps[i].length);
    assert(t.subrange(0, g) =~= pieces_text(sources, a));
    assert(t.subrange(g, g + ps[i].length) =~= piece_text(sources, ps[i]));
    assert(t.subrange(g + ps[i].length, t.len() as int) =~= pieces_text(sources, b));
    assert forall|j: int| 0 <= j < q.len() implies #[trigger] piece_valid(sources, q[j]) by {
        if j < i {
            assert(q[j] == ps[j]);
        } else if j < i + mid.len() {
            assert(q[j] == mid[j - i]);
        } else {
            assert(q[j] == ps[j - mid.len() + 1]);
        }
    }
}

/// Replacing pieces `i..=j` by `l` and `r` leaves the text of `ps` before
/// piece `i`, then those of `l` and `r`, then the text after piece `j`.
pub proof fn lemma_replace_run(
    sources: Seq<Seq<char>>,
    ps: Seq<Piece>,
    i: int,
    j: int,
    l: Piece,
    r: Piece,
)
    requires
        0 <= i < j < ps.len(),
        pieces_valid(sources, ps),
        piece_valid(sources, l),
        piece_valid(sources, r),
    ensures
        ({
            let q = ps.subrange(0, i) + seq![l, r] + ps.subrange(j + 1, ps.len() as int);
            let gi = pieces_len(ps.subrange(0, i)) as int;
            let gj = pieces_len(ps.subrange(0, j)) as int;
            let t = pieces_text(sources, ps);
            &&& pieces_valid(sources, q)
            &&& gi + ps[i].length <= gj
            &&& gj + ps[j].length <= t.len()
            &&& t.len() == pieces_len(ps)
            &&& pieces_text(sources, q) == t.subrange(0, gi) + piece_text(sources, l)
                + piece_text(sources, r) + t.subrange(gj + ps[j].length, t.len() as int)
            &&& t.subrange(gi, gi + ps[i].length) == piece_text(sources, ps[i])
            &&& t.subrange(gj, gj + ps[j].length) == piece_text(sources, ps[j])
        }),
{
    let a = ps.subrange(0, i);
    let b = ps.subrange(j + 1, ps.len() as int);
    let q = a + seq![l, r] + b;
    lemma_text3(sources, a, seq![l, r], b);
    assert(seq![l, r] =~= seq![l] + seq![r]);
    lemma_pieces_text_concat(sources, seq![l], seq![r]);
    lemma_pieces_text_single(sources, l);
    lemma_pieces_text_single(sources, r);
    lemma_prefix_text(sources, ps, i);
    lemma_prefix_text(sources, ps, j + 1);
    lemma_piece_chars(sources, ps, i);
    lemma_piece_chars(sources, ps, j);
    lemma_pieces_len_prefix(ps.subrange(0, j), i + 1);
    assert(ps.subrange(0, j).subrange(0, i + 1) =~= ps.subrange(0, i + 1));
    let t = pieces_text(sources, ps);
    let gi = pieces_len(a) as int;
    let gj = pieces_len(ps.subrange(0, j)) as int;
    assert(piece_valid(sources, ps[i]));
    assert(piece_valid(sources, ps[j]));
    assert(ps =~= ps.subrange(0, j + 1) + b);
    lemma_pieces_text_concat(sources, ps.subrange(0, j + 1), b);
    assert(pieces_valid(sources, ps.subrange(0, j + 1))) by {
        assert forall|k: int| 0 <= k < j + 1 implies #[trigger] piece_valid(
            sources,
            ps.subrange(0, j + 1)[k],
        ) by {
            assert(ps.subrange(0, j + 1)[k] == ps[k]);
        }
    }
    lemma_pieces_text_len(sources, ps.subrange(0, j + 1));
    assert(t.subrange(0, gi) =~= pieces_text(sources, a));
    assert(t.subrange(gj + ps[j].length, t.len() as int) =~= pieces_text(sources, b));
    assert forall|k: int| 0 <= k < ps[i].length implies #[trigger] t.subrange(
        gi,
        gi + ps[i].length,
    )[k] == piece_text(sources, ps[i])[k] by {
        assert(t[gi + k] == sources[ps[i].source as int][ps[i].start + k]);
    }
    assert(t.subrange(gi, gi + ps[i].length) =~= piece_text(sources, ps[i]));
    assert forall|k: int| 0 <= k < ps[j].length implies #[trigger] t.subrange(
        gj,
        gj + ps[j].length,
    )[k] == piece_text(sources, ps[j])[k] by {
        assert(t[gj + k] == sources[ps[j].source as int][ps[j].start + k]);
    }
    assert(t.subrange(gj, gj + ps[j].length) =~= piece_text(sources, ps[j]));
    assert forall|k: int| 0 <= k < q.len() implies #[trigger] piece_valid(sources, q[k]) by {
        if k < i {
            assert(q[k] == ps[k]);
        } else if k >= i + 2 {
            assert(q[k] == ps[k - i - 2 + j + 1]);
        }
    }
}

} // verus!
