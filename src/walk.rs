//! Laws of the group walk, stated over its state model.
use vstd::prelude::*;
use crate::error::{Error, is_mark};
use crate::groups::{
    CursorModel, ItemModel, WalkState, consume, cursor_next, drain, lemma_drain_shape, live,
};
use crate::scan::{Lexeme, Scan, lemma_scan_advances, scan};

verus! {

/// A walk state that a walk over input `d` can be in: the input fits the
/// address space and the position is in the input or is an error mark.
pub open spec fn walk_valid(d: Seq<u8>, st: WalkState) -> bool {
    &&& d.len() <= isize::MAX
    &&& 0 <= st.pos <= usize::MAX
    &&& (st.pos <= d.len() || is_mark(st.pos as usize))
}

proof fn lemma_end_is_done(d: Seq<u8>, strict: bool)
    ensures
        scan(d, d.len() as int, strict) is Done,
{
}

/// Once reading a cursor gives nothing, reading it again gives nothing and
/// leaves the walk as it is; so every later read gives nothing too.
pub proof fn lemma_exhausted_stays_exhausted(
    d: Seq<u8>,
    strict: bool,
    st: WalkState,
    c: CursorModel,
)
    requires
        walk_valid(d, st),
    ensures
        cursor_next(d, strict, st, c).0 is None ==> cursor_next(
            d,
            strict,
            cursor_next(d, strict, st, c).1,
            c,
        ) == (None::<ItemModel>, cursor_next(d, strict, st, c).1),
{
    let s2 = cursor_next(d, strict, st, c).1;
    lemma_end_is_done(d, strict);
    crate::error::lemma_marks_decode(Error::UnterminatedQuote, 0);
    if live(st, c) && st.pos <= d.len() {
        let depth = (c.level + 1) as nat;
        lemma_drain_shape(d, strict, st, depth);
        let s1 = drain(d, strict, st, depth);
        if s1.pos <= d.len() {
            lemma_scan_advances(d, s1.pos, strict);
            assert(s1.open[c.level as int] == st.open[c.level as int]) by {
                assert(s1.open.subrange(0, depth as int)[c.level as int] == st.open.subrange(
                    0,
                    depth as int,
                )[c.level as int]);
            }
            match scan(d, s1.pos, strict) {
                Scan::Done => {
                    if live(s2, c) {
                        lemma_drain_shape(d, strict, s2, depth);
                    }
                },
                _ => {},
            }
        }
    }
}

/// Reads cursor `c` until it gives nothing, discarding what it gives.
pub open spec fn read_out(d: Seq<u8>, strict: bool, st: WalkState, c: CursorModel) -> WalkState
    decreases d.len() - st.pos,
{
    let (m, s2) = cursor_next(d, strict, st, c);
    if m is Some && st.pos < s2.pos <= d.len() {
        read_out(d, strict, s2, c)
    } else {
        s2
    }
}

/// Draining to depth `k` and then to a smaller depth `j` is draining to `j`.
proof fn lemma_drain_twice(d: Seq<u8>, strict: bool, st: WalkState, k: nat, j: nat)
    requires
        walk_valid(d, st),
        j <= k,
    ensures
        drain(d, strict, drain(d, strict, st, k), j) == drain(d, strict, st, j),
    decreases d.len() - st.pos,
{
    lemma_end_is_done(d, strict);
    crate::error::lemma_marks_decode(Error::UnterminatedQuote, 0);
    if st.pos > d.len() || st.open.len() <= k {
    } else {
        lemma_scan_advances(d, st.pos, strict);
        match scan(d, st.pos, strict) {
            Scan::Tok(lx, q) => {
                lemma_drain_twice(d, strict, consume(st, lx, q), k, j);
            },
            _ => {},
        }
    }
}

/// One read of a cursor at depth `level` changes nothing that draining to
/// `level` would not do anyway, and keeps the cursors above it open.
proof fn lemma_read_within_drain(d: Seq<u8>, strict: bool, st: WalkState, c: CursorModel)
    requires
        walk_valid(d, st),
        st.open.len() >= c.level,
    ensures
        ({
            let s2 = cursor_next(d, strict, st, c).1;
            &&& drain(d, strict, s2, c.level as nat) == drain(d, strict, st, c.level as nat)
            &&& walk_valid(d, s2)
            &&& s2.open.len() >= c.level
            &&& s2.open.subrange(0, c.level as int) == st.open.subrange(0, c.level as int)
            &&& st.pos <= d.len() ==> st.pos <= s2.pos
        }),
{
    lemma_end_is_done(d, strict);
    crate::error::lemma_marks_decode(Error::UnterminatedQuote, 0);
    if live(st, c) && st.pos <= d.len() {
        let l = c.level as nat;
        let depth = (c.level + 1) as nat;
        lemma_drain_shape(d, strict, st, depth);
        lemma_drain_twice(d, strict, st, depth, l);
        let s1 = drain(d, strict, st, depth);
        assert(s1.open.subrange(0, l as int) =~= st.open.subrange(0, l as int)) by {
            assert forall|i: int| 0 <= i < l implies s1.open[i] == st.open[i] by {
                assert(s1.open.subrange(0, depth as int)[i] == st.open.subrange(0, depth as int)[i]);
            }
        }
        if s1.pos <= d.len() {
            lemma_scan_advances(d, s1.pos, strict);
            match scan(d, s1.pos, strict) {
                Scan::Tok(lx, q) => {
                    let s2 = consume(s1, lx, q);
                    assert(s2.open.subrange(0, l as int) =~= st.open.subrange(0, l as int));
                },
                _ => {},
            }
        }
    }
}

proof fn lemma_read_out_drains(d: Seq<u8>, strict: bool, st: WalkState, c: CursorModel)
    requires
        walk_valid(d, st),
        st.open.len() >= c.level,
    ensures
        ({
            let r = read_out(d, strict, st, c);
            &&& drain(d, strict, r, c.level as nat) == drain(d, strict, st, c.level as nat)
            &&& walk_valid(d, r)
            &&& r.open.len() >= c.level
            &&& r.open.subrange(0, c.level as int) == st.open.subrange(0, c.level as int)
        }),
    decreases d.len() - st.pos,
{
    lemma_read_within_drain(d, strict, st, c);
    let (m, s2) = cursor_next(d, strict, st, c);
    if m is Some && st.pos < s2.pos <= d.len() {
        lemma_read_out_drains(d, strict, s2, c);
    }
}

/// Abandoning a nested cursor `c` of cursor `p`, at whatever point of it, and
/// then reading `p` gives the same item and leaves the walk in the same state
/// as reading `c` out to its end first and then reading `p`.
pub proof fn lemma_abandon_same_as_read_out(
    d: Seq<u8>,
    strict: bool,
    st: WalkState,
    p: CursorModel,
    c: CursorModel,
)
    requires
        walk_valid(d, st),
        live(st, p),
        c.level == p.level + 1,
    ensures
        cursor_next(d, strict, st, p) == cursor_next(d, strict, read_out(d, strict, st, c), p),
{
    lemma_read_out_drains(d, strict, st, c);
    let r = read_out(d, strict, st, c);
    assert(r.open[p.level as int] == st.open[p.level as int]) by {
        assert(r.open.subrange(0, c.level as int)[p.level as int] == st.open.subrange(
            0,
            c.level as int,
        )[p.level as int]);
    }
    lemma_end_is_done(d, strict);
    crate::error::lemma_marks_decode(Error::UnterminatedQuote, 0);
    if st.pos > d.len() {
        assert(r == st);
    }
}

/// The number of open levels after token `lx`, when `k` were open before it.
pub open spec fn depth_after(lx: Lexeme, k: int) -> int {
    match lx {
        Lexeme::Begin => k + 1,
        Lexeme::End => k - 1,
        Lexeme::Text(_, _) => k,
    }
}

/// The flat tokens of `d` from position `p`, each paired with the number of
/// levels open before it, starting from `k`; the stream stops at the end of
/// the input or at an error.
pub open spec fn flat_pairs(d: Seq<u8>, strict: bool, p: int, k: int) -> Seq<(int, Lexeme)>
    decreases d.len() - p,
{
    if p < 0 || p > d.len() {
        seq![]
    } else {
        match scan(d, p, strict) {
            Scan::Tok(lx, q) => if p < q <= d.len() {
                seq![(k, lx)] + flat_pairs(d, strict, q, depth_after(lx, k))
            } else {
                seq![]
            },
            _ => seq![],
        }
    }
}

/// No closing parenthesis of the paired stream `s` closes the outermost level.
pub open spec fn keeps_top_open(s: Seq<(int, Lexeme)>) -> bool {
    forall|i: int| 0 <= i < s.len() && (#[trigger] s[i]).1 is End ==> s[i].0 > 1
}

/// The innermost open cursor of a walk.
pub open spec fn innermost(st: WalkState) -> CursorModel {
    CursorModel { level: (st.open.len() - 1) as nat, id: st.open.last() }
}

/// A depth-first walk that always reads the innermost open cursor, noting
/// with the number of open levels each text (as text), each nested group (as
/// an opening parenthesis) and each level that closes (as a closing
/// parenthesis); it stops when a read makes no progress.
pub open spec fn walk_pairs(d: Seq<u8>, strict: bool, st: WalkState) -> Seq<(int, Lexeme)>
    decreases d.len() - st.pos,
{
    if st.open.len() == 0 || st.pos < 0 || st.pos > d.len() {
        seq![]
    } else {
        let k = st.open.len() as int;
        let (m, s2) = cursor_next(d, strict, st, innermost(st));
        if !(st.pos < s2.pos <= d.len()) {
            seq![]
        } else {
            match m {
                Some(ItemModel::Text(a, b)) => seq![(k, Lexeme::Text(a, b))] + walk_pairs(
                    d,
                    strict,
                    s2,
                ),
                Some(ItemModel::Group(_)) => seq![(k, Lexeme::Begin)] + walk_pairs(d, strict, s2),
                None => if s2.open.len() < k {
                    seq![(k, Lexeme::End)] + walk_pairs(d, strict, s2)
                } else {
                    seq![]
                },
            }
        }
    }
}

/// Walking the groups item by item, always through the innermost open
/// cursor, gives the same (depth, token) pairs as the flat scanner from the
/// same position, for any input whose stream never closes the outermost
/// open level.
pub proof fn lemma_walk_matches_flat(d: Seq<u8>, strict: bool, st: WalkState)
    requires
        walk_valid(d, st),
        st.pos <= d.len(),
        st.open.len() >= 1,
        keeps_top_open(flat_pairs(d, strict, st.pos, st.open.len() as int)),
    ensures
        walk_pairs(d, strict, st) == flat_pairs(d, strict, st.pos, st.open.len() as int),
    decreases d.len() - st.pos,
{
    let k = st.open.len() as int;
    let c = innermost(st);
    let fl = flat_pairs(d, strict, st.pos, k);
    lemma_end_is_done(d, strict);
    crate::error::lemma_marks_decode(Error::UnterminatedQuote, 0);
    lemma_scan_advances(d, st.pos, strict);
    assert(drain(d, strict, st, (c.level + 1) as nat) == st);
    match scan(d, st.pos, strict) {
        Scan::Tok(lx, q) => {
            let s2 = consume(st, lx, q);
            let rest = flat_pairs(d, strict, q, depth_after(lx, k));
            assert(fl == seq![(k, lx)] + rest);
            assert(fl[0] == (k, lx));
            if lx is End {
                assert(k > 1);
            }
            assert(keeps_top_open(rest)) by {
                assert forall|i: int| 0 <= i < rest.len() && (#[trigger] rest[i]).1 is End implies rest[i].0
                    > 1 by {
                    assert(rest[i] == fl[i + 1]);
                }
            }
            assert(s2.open.len() == depth_after(lx, k));
            lemma_walk_matches_flat(d, strict, s2);
        },
        _ => {},
    }
}

} // verus!
