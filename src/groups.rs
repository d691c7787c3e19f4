use vstd::prelude::*;
use vstd::string::StringSliceAdditionalSpecFns;
use crate::error::{Error, error_of, is_mark, mark_of};
use crate::scan::{Lexeme, Scan, Token, lemma_scan_advances, next_token, scan};

verus! {

/// The identity of the top-level cursor; a nested cursor is identified by the
/// position of its opening parenthesis, which is always smaller.
pub const ROOT_ID: usize = usize::MAX;

/// The shared state of a walk: the scan position (or the mark of the error
/// that ended the scan) and the identities of the open cursors, outermost
/// first.
pub struct WalkState {
    pub pos: int,
    pub open: Seq<usize>,
}

/// A cursor as its nesting depth and its identity.
pub struct CursorModel {
    pub level: nat,
    pub id: usize,
}

/// An item as positions in the input.
pub enum ItemModel {
    /// The text `d[a..b]`.
    Text(int, int),
    /// A nested cursor.
    Group(CursorModel),
}

/// The cursor `c` can still produce items: it is the open cursor at its depth.
pub open spec fn live(st: WalkState, c: CursorModel) -> bool {
    c.level < st.open.len() && st.open[c.level as int] == c.id
}

/// The state after one token is consumed from a walk in progress: an opening
/// parenthesis opens a cursor named by its position, a closing one closes the
/// innermost cursor.
pub open spec fn consume(st: WalkState, lx: Lexeme, q: int) -> WalkState {
    match lx {
        Lexeme::Begin => WalkState { pos: q, open: st.open.push((q - 1) as usize) },
        Lexeme::End => WalkState { pos: q, open: st.open.drop_last() },
        Lexeme::Text(_, _) => WalkState { pos: q, open: st.open },
    }
}

/// Consumes and discards tokens until at most `depth` cursors are open, the
/// input is used up, or an error ends the scan.
pub open spec fn drain(d: Seq<u8>, strict: bool, st: WalkState, depth: nat) -> WalkState
    decreases d.len() - st.pos,
{
    if st.pos > d.len() || st.open.len() <= depth {
        st
    } else {
        match scan(d, st.pos, strict) {
            Scan::Done => WalkState { pos: d.len() as int, open: st.open },
            Scan::Fail(e) => WalkState { pos: mark_of(e) as int, open: st.open },
            Scan::Tok(lx, q) => if st.pos < q <= d.len() {
                drain(d, strict, consume(st, lx, q), depth)
            } else {
                st
            },
        }
    }
}

/// Draining keeps the cursors at depths below `depth` open and stops with
/// exactly `depth` cursors open, or at the end of the input, or on an error.
pub proof fn lemma_drain_shape(d: Seq<u8>, strict: bool, st: WalkState, depth: nat)
    requires
        st.open.len() >= depth,
        0 <= st.pos,
        d.len() <= isize::MAX,
    ensures
        ({
            let r = drain(d, strict, st, depth);
            &&& r.open.len() >= depth
            &&& r.open.subrange(0, depth as int) == st.open.subrange(0, depth as int)
            &&& (st.pos > d.len() ==> r == st)
            &&& (st.pos <= d.len() ==> (r.pos == d.len() || r.pos <= d.len() && r.open.len() == depth
                || r.pos > d.len() && is_mark(r.pos as usize)))
            &&& st.pos <= r.pos
            &&& (st.pos <= usize::MAX ==> r.pos <= usize::MAX)
        }),
    decreases d.len() - st.pos,
{
    if st.pos > d.len() || st.open.len() <= depth {
    } else {
        lemma_scan_advances(d, st.pos, strict);
        crate::error::lemma_marks_decode(Error::UnterminatedQuote, 0);
        match scan(d, st.pos, strict) {
            Scan::Tok(lx, q) => {
                let nx = consume(st, lx, q);
                assert(nx.open.subrange(0, depth as int) =~= st.open.subrange(0, depth as int));
                lemma_drain_shape(d, strict, nx, depth);
            },
            _ => {},
        }
    }
}

/// What reading cursor `c` returns, and the state after it. A cursor that is
/// not live, or a walk that has ended in an error, gives nothing. Otherwise
/// nested cursors of `c` that are still open are drained first; then an
/// opening parenthesis gives a nested cursor, a closing one closes `c`, and
/// text is handed out.
pub open spec fn cursor_next(d: Seq<u8>, strict: bool, st: WalkState, c: CursorModel) -> (
    Option<ItemModel>,
    WalkState,
) {
    if !live(st, c) || st.pos > d.len() {
        (None, st)
    } else {
        let s1 = drain(d, strict, st, (c.level + 1) as nat);
        if s1.pos > d.len() {
            (None, s1)
        } else {
            match scan(d, s1.pos, strict) {
                Scan::Done => (None, WalkState { pos: d.len() as int, open: s1.open }),
                Scan::Fail(e) => (None, WalkState { pos: mark_of(e) as int, open: s1.open }),
                Scan::Tok(Lexeme::Begin, q) => (
                    Some(ItemModel::Group(CursorModel { level: s1.open.len(), id: (q - 1) as usize })),
                    consume(s1, Lexeme::Begin, q),
                ),
                Scan::Tok(Lexeme::End, q) => (None, consume(s1, Lexeme::End, q)),
                Scan::Tok(Lexeme::Text(a, b), q) => (
                    Some(ItemModel::Text(a, b)),
                    consume(s1, Lexeme::Text(a, b), q),
                ),
            }
        }
    }
}

/// The input, the scan state and the open cursors of one walk over the groups
/// of an input.
#[must_use]
#[derive(Debug)]
pub struct Groups<'a> {
    data: &'a [u8],
    index: usize,
    strict: bool,
    open: Vec<usize>,
}

/// A cursor over one nesting level of a walk. It holds no reference: each read
/// goes through the `Groups` that made it.
#[derive(Clone, Copy, Debug, PartialEq, Eq)]
pub struct GroupsIter {
    level: usize,
    id: usize,
}

/// An item of a level: text, or the cursor of a nested group.
#[derive(Debug)]
pub enum Item<'a> {
    Str(&'a str),
    Group(GroupsIter),
}

impl GroupsIter {
    /// The cursor as depth and identity.
    pub closed spec fn model(&self) -> CursorModel {
        CursorModel { level: self.level as nat, id: self.id }
    }
}

/// Item `it` is the item `m` of input `d`.
pub open spec fn item_is(d: Seq<u8>, it: Item, m: ItemModel) -> bool {
    match (it, m) {
        (Item::Str(s), ItemModel::Text(a, b)) => s.spec_bytes() == d.subrange(a, b),
        (Item::Group(g), ItemModel::Group(c)) => g.model() == c,
        _ => false,
    }
}

/// The items `r` that a read returned are the items `m` of input `d`.
pub open spec fn returns_item(d: Seq<u8>, r: Option<Item>, m: Option<ItemModel>) -> bool {
    match (r, m) {
        (None, None) => true,
        (Some(it), Some(mi)) => item_is(d, it, mi),
        _ => false,
    }
}

/// The text `r` that a read returned is the text of the items `m` of input
/// `d`; anything but text gives `None`.
pub open spec fn returns_text(d: Seq<u8>, r: Option<&str>, m: Option<ItemModel>) -> bool {
    match m {
        Some(ItemModel::Text(a, b)) => r matches Some(s) && s.spec_bytes() == d.subrange(a, b),
        _ => r is None,
    }
}

/// The cursor `r` that a read returned is the nested cursor among the items
/// `m`; anything but a group gives `None`.
pub open spec fn returns_group(r: Option<GroupsIter>, m: Option<ItemModel>) -> bool {
    match m {
        Some(ItemModel::Group(c)) => r matches Some(g) && g.model() == c,
        _ => r is None,
    }
}

impl<'a> Groups<'a> {
    /// The input being walked.
    pub closed spec fn input(&self) -> Seq<u8> {
        self.data@
    }

    /// Whether atoms are held to printable ASCII.
    pub closed spec fn strict(&self) -> bool {
        self.strict
    }

    /// The shared state of the walk.
    pub closed spec fn state(&self) -> WalkState {
        WalkState { pos: self.index as int, open: self.open@ }
    }

    /// The input fits the address space and the position is in the input or
    /// is an error mark.
    pub closed spec fn wf(&self) -> bool {
        &&& self.data@.len() <= isize::MAX
        &&& (self.index <= self.data@.len() || is_mark(self.index))
    }

    /// A well-formed walk is in a state that the laws of the walk speak of.
    pub proof fn lemma_wf_walk_valid(&self)
        requires
            self.wf(),
        ensures
            crate::walk::walk_valid(self.input(), self.state()),
    {
    }

    fn drain(&mut self, depth: usize)
        requires
            old(self).wf(),
        ensures
            final(self).wf(),
            final(self).input() == old(self).input(),
            final(self).strict() == old(self).strict(),
            final(self).state() == drain(
                old(self).input(),
                old(self).strict(),
                old(self).state(),
                depth as nat,
            ),
    {
        let ghost d = self.data@;
        let ghost strict = self.strict;
        let ghost target = drain(d, strict, self.state(), depth as nat);
        let mut stopped = false;
        while self.index <= self.data.len() && self.open.len() > depth && !stopped
            invariant
                self.wf(),
                self.data@ == d,
                self.strict == strict,
                drain(d, strict, self.state(), depth as nat) == target,
                stopped ==> self.state() == target,
            decreases (if self.index > d.len() { 0 } else { 2 * (d.len() + 1 - self.index) }) + (if stopped { 0int } else { 1int }),
        {
            let (t, n) = next_token(self.data, self.index, self.strict);
            proof {
                lemma_scan_advances(d, self.index as int, strict);
                crate::error::lemma_marks_decode(Error::UnterminatedQuote, 0);
            }
            match t {
                None => {
                    stopped = true;
                },
                Some(Err(_)) => {},
                Some(Ok(Token::Begin)) => {
                    self.open.push(n - 1);
                },
                Some(Ok(Token::End)) => {
                    self.open.pop();
                },
                Some(Ok(Token::Str(_))) => {},
            }
            self.index = n;
        }
    }

    /// Opens the top level of the walk. Whatever is still open from an
    /// earlier walk is drained first, down to the end of the input (or a
    /// closing parenthesis that nothing opened), as abandoning it would.
    pub fn iter(&mut self) -> (r: GroupsIter)
        requires
            old(self).wf(),
        ensures
            final(self).wf(),
            final(self).input() == old(self).input(),
            final(self).strict() == old(self).strict(),
            final(self).state() == (WalkState {
                pos: drain(old(self).input(), old(self).strict(), old(self).state(), 0).pos,
                open: seq![ROOT_ID],
            }),
            r.model() == (CursorModel { level: 0, id: ROOT_ID }),
    {
        self.drain(0);
        self.open = Vec::new();
        self.open.push(ROOT_ID);
        proof {
            assert(self.open@ =~= seq![ROOT_ID]);
        }
        GroupsIter { level: 0, id: ROOT_ID }
    }

    /// Ends the walk, draining whatever is still open as abandoning it would,
    /// and reports the error that ended the scan, if any.
    pub fn into_error(self) -> (r: Option<Error>)
        requires
            self.wf(),
        ensures
            r == error_of(drain(self.input(), self.strict(), self.state(), 0).pos as usize),
    {
        let mut g = self;
        g.drain(0);
        Error::from_num(g.index)
    }
}

impl GroupsIter {
    /// The next item of this cursor's level: text, or the cursor of a nested
    /// group; `None` once the level is closed, the input is used up, an error
    /// has ended the scan, or the cursor is no longer live. Nested cursors
    /// that were left open are drained first.
    pub fn next<'a>(&self, g: &mut Groups<'a>) -> (r: Option<Item<'a>>)
        requires
            old(g).wf(),
        ensures
            final(g).wf(),
            final(g).input() == old(g).input(),
            final(g).strict() == old(g).strict(),
            final(g).state() == cursor_next(
                old(g).input(),
                old(g).strict(),
                old(g).state(),
                self.model(),
            ).1,
            returns_item(
                old(g).input(),
                r,
                cursor_next(old(g).input(), old(g).strict(), old(g).state(), self.model()).0,
            ),
    {
        if !(self.level < g.open.len() && g.open[self.level] == self.id) || g.index > g.data.len() {
            return None;
        }
        let ghost s0 = g.state();
        proof {
            lemma_drain_shape(g.data@, g.strict, s0, (self.level + 1) as nat);
        }
        g.drain(self.level + 1);
        if g.index > g.data.len() {
            return None;
        }
        let (t, n) = next_token(g.data, g.index, g.strict);
        proof {
            lemma_scan_advances(g.data@, g.index as int, g.strict);
            crate::error::lemma_marks_decode(Error::UnterminatedQuote, 0);
        }
        match t {
            None => {
                g.index = n;
                None
            },
            Some(Err(_)) => {
                g.index = n;
                None
            },
            Some(Ok(Token::Begin)) => {
                let level = g.open.len();
                g.open.push(n - 1);
                g.index = n;
                Some(Item::Group(GroupsIter { level, id: n - 1 }))
            },
            Some(Ok(Token::End)) => {
                g.open.pop();
                g.index = n;
                None
            },
            Some(Ok(Token::Str(s))) => {
                g.index = n;
                Some(Item::Str(s))
            },
        }
    }

    /// The next item if it is text; a nested group read in its place is
    /// abandoned and gives `None`.
    pub fn next_str<'a>(&self, g: &mut Groups<'a>) -> (r: Option<&'a str>)
        requires
            old(g).wf(),
        ensures
            final(g).wf(),
            final(g).input() == old(g).input(),
            final(g).strict() == old(g).strict(),
            final(g).state() == cursor_next(
                old(g).input(),
                old(g).strict(),
                old(g).state(),
                self.model(),
            ).1,
            returns_text(
                old(g).input(),
                r,
                cursor_next(old(g).input(), old(g).strict(), old(g).state(), self.model()).0,
            ),
    {
        match self.next(g) {
            Some(it) => it.into_str(),
            None => None,
        }
    }

    /// The next item if it is a nested group; text read in its place is
    /// skipped and gives `None`.
    pub fn next_group<'a>(&self, g: &mut Groups<'a>) -> (r: Option<GroupsIter>)
        requires
            old(g).wf(),
        ensures
            final(g).wf(),
            final(g).input() == old(g).input(),
            final(g).strict() == old(g).strict(),
            final(g).state() == cursor_next(
                old(g).input(),
                old(g).strict(),
                old(g).state(),
                self.model(),
            ).1,
            returns_group(
                r,
                cursor_next(old(g).input(), old(g).strict(), old(g).state(), self.model()).0,
            ),
    {
        match self.next(g) {
            Some(it) => it.into_group(),
            None => None,
        }
    }
}

impl<'a> Item<'a> {
    /// The text of a `Str` item; `None` for a group.
    pub fn into_str(self) -> (r: Option<&'a str>)
        ensures
            self matches Item::Str(s) ==> r == Some(s),
            self is Group ==> r is None,
    {
        match self {
            Item::Str(s) => Some(s),
            _ => None,
        }
    }

    /// The cursor of a `Group` item; `None` for text.
    pub fn into_group(self) -> (r: Option<GroupsIter>)
        ensures
            self matches Item::Group(c) ==> r == Some(c),
            self is Str ==> r is None,
    {
        match self {
            Item::Group(c) => Some(c),
            _ => None,
        }
    }
}

/// Starts a walk over the groups of `data`; atoms may hold any byte that does
/// not end them.
pub fn parse2<'a>(data: &'a [u8]) -> (r: Groups<'a>)
    requires
        data@.len() <= isize::MAX,
    ensures
        r.wf(),
        r.input() == data@,
        !r.strict(),
        r.state() == (WalkState { pos: 0, open: seq![] }),
{
    let r = Groups { data, index: 0, strict: false, open: Vec::new() };
    proof {
        assert(r.open@ =~= seq![]);
    }
    r
}

/// Starts a walk over the groups of `data`; an atom byte outside printable
/// ASCII ends the scan with `InvalidSymbolChar`.
pub fn parse2_strict<'a>(data: &'a [u8]) -> (r: Groups<'a>)
    requires
        data@.len() <= isize::MAX,
    ensures
        r.wf(),
        r.input() == data@,
        r.strict(),
        r.state() == (WalkState { pos: 0, open: seq![] }),
{
    let r = Groups { data, index: 0, strict: true, open: Vec::new() };
    proof {
        assert(r.open@ =~= seq![]);
    }
    r
}

} // verus!
