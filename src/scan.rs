use vstd::prelude::*;
use vstd::string::StringSliceAdditionalSpecFns;
use vstd::utf8::valid_utf8;
use crate::error::{Error, mark_of, is_mark};

verus! {

/// One token of the flat stream: an opening or closing parenthesis, or a
/// piece of text borrowed from the input.
#[derive(Clone, Copy, Debug, PartialEq, Eq, PartialOrd, Ord, Hash)]
pub enum Token<'a> {
    Begin,
    End,
    Str(&'a str),
}

impl<'a> Token<'a> {
    /// The text of a `Str` token; `None` for a parenthesis.
    pub fn into_str(self) -> (r: Option<&'a str>)
        ensures
            self matches Token::Str(s) ==> r == Some(s),
            !(self is Str) ==> r is None,
    {
        match self {
            Token::Str(s) => Some(s),
            _ => None,
        }
    }
}

/// ASCII whitespace: space, tab, line feed, form feed, carriage return.
pub open spec fn is_space(b: u8) -> bool {
    b == 0x20 || b == 0x09 || b == 0x0a || b == 0x0c || b == 0x0d
}

/// A byte that ends an unquoted atom without belonging to it.
pub open spec fn is_atom_end(b: u8) -> bool {
    b == 0x28 || b == 0x29 || is_space(b)
}

/// Printable ASCII other than the space.
pub open spec fn is_symbol_byte(b: u8) -> bool {
    0x21 <= b <= 0x7e
}

/// The first position at or after `p` that is neither whitespace nor inside a
/// `;` comment; `in_comment` says whether `p` lies inside a comment.
pub open spec fn skip(d: Seq<u8>, p: int, in_comment: bool) -> int
    decreases d.len() - p,
{
    if p >= d.len() {
        p
    } else if in_comment {
        skip(d, p + 1, d[p] != 0x0a)
    } else if is_space(d[p]) {
        skip(d, p + 1, false)
    } else if d[p] == 0x3b {
        skip(d, p + 1, true)
    } else {
        p
    }
}

/// The position of the quote `lim` that closes a quoted string whose body is
/// scanned from `p`; a backslash always takes the byte after it along.
pub open spec fn quote_close(d: Seq<u8>, p: int, lim: u8) -> Option<int>
    decreases d.len() + 1 - p,
{
    if p >= d.len() {
        None
    } else if d[p] == 0x5c {
        quote_close(d, p + 2, lim)
    } else if d[p] == lim {
        Some(p)
    } else {
        quote_close(d, p + 1, lim)
    }
}

/// The end of the unquoted atom that goes on at `p`.
pub open spec fn atom_end(d: Seq<u8>, p: int) -> int
    decreases d.len() - p,
{
    if p >= d.len() || is_atom_end(d[p]) {
        p
    } else {
        atom_end(d, p + 1)
    }
}

/// Every byte of `d[a..b]` is printable ASCII.
pub open spec fn all_symbol(d: Seq<u8>, a: int, b: int) -> bool {
    forall|k: int| a <= k < b ==> #[trigger] is_symbol_byte(d[k])
}

/// A token as positions in the input.
pub enum Lexeme {
    Begin,
    End,
    /// The text `d[a..b]`.
    Text(int, int),
}

/// What one scanning step finds.
pub enum Scan {
    /// Nothing but whitespace and comments is left.
    Done,
    /// A token, and the position after it.
    Tok(Lexeme, int),
    /// A lexical error.
    Fail(Error),
}

/// The text `d[a..b]`, followed by position `next`, if it is valid UTF-8.
pub open spec fn text_step(d: Seq<u8>, a: int, b: int, next: int) -> Scan {
    if valid_utf8(d.subrange(a, b)) {
        Scan::Tok(Lexeme::Text(a, b), next)
    } else {
        Scan::Fail(Error::InvalidUtf8)
    }
}

/// The next token of `d` from position `p`; `strict` asks that atoms hold
/// printable ASCII only.
pub open spec fn scan(d: Seq<u8>, p: int, strict: bool) -> Scan {
    let s = skip(d, p, false);
    if s >= d.len() {
        Scan::Done
    } else if d[s] == 0x28 {
        Scan::Tok(Lexeme::Begin, s + 1)
    } else if d[s] == 0x29 {
        Scan::Tok(Lexeme::End, s + 1)
    } else if d[s] == 0x22 || d[s] == 0x27 {
        match quote_close(d, s + 1, d[s]) {
            None => Scan::Fail(Error::UnterminatedQuote),
            Some(e) => text_step(d, s + 1, e, e + 1),
        }
    } else {
        let e = atom_end(d, s + 1);
        if strict && !all_symbol(d, s, e) {
            Scan::Fail(Error::InvalidSymbolChar)
        } else {
            text_step(d, s, e, e)
        }
    }
}

/// Token `t` is the lexeme `lx` of input `d`.
pub open spec fn token_is(d: Seq<u8>, t: Token, lx: Lexeme) -> bool {
    match (t, lx) {
        (Token::Begin, Lexeme::Begin) => true,
        (Token::End, Lexeme::End) => true,
        (Token::Str(s), Lexeme::Text(a, b)) => s.spec_bytes() == d.subrange(a, b),
        _ => false,
    }
}

/// The token `t` and position `n` that a step returns report `sc`: at the end
/// the position is the input's length, after an error it is the error's mark.
pub open spec fn reports(d: Seq<u8>, sc: Scan, t: Option<Result<Token, Error>>, n: usize) -> bool {
    match sc {
        Scan::Done => t is None && n == d.len(),
        Scan::Fail(e) => t == Some(Err::<Token, Error>(e)) && n == mark_of(e),
        Scan::Tok(lx, q) => n == q && (t matches Some(Ok(tk)) && token_is(d, tk, lx)),
    }
}

pub proof fn lemma_skip_bounds(d: Seq<u8>, p: int, c: bool)
    requires
        0 <= p <= d.len(),
    ensures
        p <= skip(d, p, c) <= d.len(),
    decreases d.len() - p,
{
    if p < d.len() {
        lemma_skip_bounds(d, p + 1, true);
        lemma_skip_bounds(d, p + 1, false);
    }
}

pub proof fn lemma_quote_close_bounds(d: Seq<u8>, p: int, lim: u8)
    requires
        0 <= p,
    ensures
        quote_close(d, p, lim) matches Some(e) ==> p <= e < d.len() && d[e] == lim,
    decreases d.len() + 1 - p,
{
    if p < d.len() {
        lemma_quote_close_bounds(d, p + 1, lim);
        lemma_quote_close_bounds(d, p + 2, lim);
    }
}

pub proof fn lemma_atom_end_bounds(d: Seq<u8>, p: int)
    requires
        0 <= p <= d.len(),
    ensures
        p <= atom_end(d, p) <= d.len(),
    decreases d.len() - p,
{
    if p < d.len() {
        lemma_atom_end_bounds(d, p + 1);
    }
}

proof fn lemma_all_symbol_extend(d: Seq<u8>, a: int, b: int)
    requires
        0 <= a <= b < d.len(),
    ensures
        all_symbol(d, a, b + 1) == (all_symbol(d, a, b) && is_symbol_byte(d[b])),
        all_symbol(d, a, a),
{
    if all_symbol(d, a, b) && is_symbol_byte(d[b]) {
        assert forall|k: int| a <= k < b + 1 implies #[trigger] is_symbol_byte(d[k]) by {
            if k < b {
                assert(is_symbol_byte(d[k]));
            }
        }
    }
}

/// Inside a quoted string a backslash takes the byte after it along, so a
/// quote right after a backslash does not close the string: the search goes
/// on behind it.
pub proof fn lemma_escaped_quote_stays_open(d: Seq<u8>, p: int, lim: u8)
    requires
        0 <= p,
        p + 1 < d.len(),
        d[p] == 0x5c,
        d[p + 1] == lim,
    ensures
        quote_close(d, p, lim) == quote_close(d, p + 2, lim),
        quote_close(d, p, lim) matches Some(e) ==> e >= p + 2,
{
    lemma_quote_close_bounds(d, p + 2, lim);
}

/// A successful step moves strictly forward and stays inside the input.
pub proof fn lemma_scan_advances(d: Seq<u8>, p: int, strict: bool)
    requires
        0 <= p <= d.len(),
    ensures
        scan(d, p, strict) matches Scan::Tok(lx, q) ==> p < q <= d.len() && (
            lx matches Lexeme::Text(a, b) ==> p <= a <= b <= d.len()),
{
    let s = skip(d, p, false);
    lemma_skip_bounds(d, p, false);
    if s < d.len() {
        lemma_quote_close_bounds(d, s + 1, d[s]);
        lemma_atom_end_bounds(d, s + 1);
    }
}

/// Relies on std::str::from_utf8: it accepts exactly the valid UTF-8 byte
/// sequences and hands them back as text, byte for byte.
#[verifier::external_body]
fn utf8_text<'a>(b: &'a [u8]) -> (r: Option<&'a str>)
    ensures
        r is Some <==> valid_utf8(b@),
        r matches Some(s) ==> s.spec_bytes() == b@,
{
    std::str::from_utf8(b).ok()
}

fn space_byte(b: u8) -> (r: bool)
    ensures
        r == is_space(b),
{
    b == 0x20 || b == 0x09 || b == 0x0a || b == 0x0c || b == 0x0d
}

fn text_token<'a>(data: &'a [u8], a: usize, b: usize, next: usize) -> (r: (
    Option<Result<Token<'a>, Error>>,
    usize,
))
    requires
        a <= b <= data@.len(),
    ensures
        reports(data@, text_step(data@, a as int, b as int, next as int), r.0, r.1),
{
    let piece = vstd::slice::slice_subrange(data, a, b);
    match utf8_text(piece) {
        Some(s) => (Some(Ok(Token::Str(s))), next),
        None => (Some(Err(Error::InvalidUtf8)), Error::InvalidUtf8.into_num()),
    }
}

/// Scans the next token of `data` from position `pos`.
pub fn next_token<'a>(data: &'a [u8], pos: usize, strict: bool) -> (r: (
    Option<Result<Token<'a>, Error>>,
    usize,
))
    requires
        pos <= data@.len() <= isize::MAX,
    ensures
        reports(data@, scan(data@, pos as int, strict), r.0, r.1),
{
    let ghost d = data@;
    let len = data.len();
    let mut i: usize = pos;
    let mut in_comment = false;
    while i < len && (in_comment || space_byte(data[i]) || data[i] == 0x3b)
        invariant
            pos <= i <= len,
            len == d.len(),
            d == data@,
            skip(d, i as int, in_comment) == skip(d, pos as int, false),
        decreases len - i,
    {
        if in_comment {
            in_comment = data[i] != 0x0a;
        } else if data[i] == 0x3b {
            in_comment = true;
        }
        i = i + 1;
    }
    if i >= len {
        return (None, len);
    }
    let c = data[i];
    if c == 0x28 {
        (Some(Ok(Token::Begin)), i + 1)
    } else if c == 0x29 {
        (Some(Ok(Token::End)), i + 1)
    } else if c == 0x22 || c == 0x27 {
        let mut j: usize = i + 1;
        while j < len && data[j] != c
            invariant
                i < j <= len + 1,
                len == d.len(),
                d == data@,
                len <= isize::MAX,
                c == d[i as int],
                c != 0x5c,
                quote_close(d, j as int, c) == quote_close(d, i + 1, c),
            decreases len + 1 - j,
        {
            if data[j] == 0x5c {
                j = j + 2;
            } else {
                j = j + 1;
            }
        }
        if j >= len {
            (Some(Err(Error::UnterminatedQuote)), Error::UnterminatedQuote.into_num())
        } else {
            text_token(data, i + 1, j, j + 1)
        }
    } else {
        let mut j: usize = i + 1;
        let mut clean = !strict || (0x21 <= c && c <= 0x7e);
        proof {
            lemma_all_symbol_extend(d, i as int, i as int);
        }
        while j < len && !(data[j] == 0x28 || data[j] == 0x29 || space_byte(data[j]))
            invariant
                i < j <= len,
                len == d.len(),
                d == data@,
                atom_end(d, j as int) == atom_end(d, i + 1),
                clean == (!strict || all_symbol(d, i as int, j as int)),
            decreases len - j,
        {
            proof {
                lemma_all_symbol_extend(d, i as int, j as int);
            }
            clean = clean && (!strict || (0x21 <= data[j] && data[j] <= 0x7e));
            j = j + 1;
        }
        if !clean {
            (Some(Err(Error::InvalidSymbolChar)), Error::InvalidSymbolChar.into_num())
        } else {
            text_token(data, i, j, j)
        }
    }
}

} // verus!

verus! {

/// The flat token stream of an input. After a lexical error it reports the
/// error once and then nothing more.
pub struct Iter<'a> {
    data: &'a [u8],
    index: usize,
    strict: bool,
}

impl<'a> Iter<'a> {
    /// The input being scanned.
    pub closed spec fn input(&self) -> Seq<u8> {
        self.data@
    }

    /// The scan position, or the mark of the error that ended the scan.
    pub closed spec fn position(&self) -> usize {
        self.index
    }

    /// Whether atoms are held to printable ASCII.
    pub closed spec fn strict(&self) -> bool {
        self.strict
    }

    /// The input fits the address space and the position is in the input or
    /// is an error mark.
    pub closed spec fn wf(&self) -> bool {
        &&& self.data@.len() <= isize::MAX
        &&& (self.index <= self.data@.len() || is_mark(self.index))
    }

    /// The next token, or the error that ends the scan; `None` once the input
    /// is used up or an error has been reported.
    pub fn next(&mut self) -> (r: Option<Result<Token<'a>, Error>>)
        requires
            old(self).wf(),
        ensures
            final(self).wf(),
            final(self).input() == old(self).input(),
            final(self).strict() == old(self).strict(),
            old(self).position() > old(self).input().len() ==> r is None && *final(self) == *old(
                self,
            ),
            old(self).position() <= old(self).input().len() ==> reports(
                old(self).input(),
                scan(old(self).input(), old(self).position() as int, old(self).strict()),
                r,
                final(self).position(),
            ),
    {
        if self.index > self.data.len() {
            return None;
        }
        let (t, n) = next_token(self.data, self.index, self.strict);
        proof {
            lemma_scan_advances(self.data@, self.index as int, self.strict);
            crate::error::lemma_marks_decode(Error::UnterminatedQuote, 0);
        }
        self.index = n;
        t
    }
}

/// Scans `data` as a flat stream of tokens; atoms may hold any byte that does
/// not end them.
pub fn parse<'a>(data: &'a [u8]) -> (r: Iter<'a>)
    requires
        data@.len() <= isize::MAX,
    ensures
        r.wf(),
        r.input() == data@,
        r.position() == 0,
        !r.strict(),
{
    Iter { data, index: 0, strict: false }
}

/// Scans `data` as a flat stream of tokens; an atom byte outside printable
/// ASCII is an `InvalidSymbolChar` error.
pub fn parse_strict<'a>(data: &'a [u8]) -> (r: Iter<'a>)
    requires
        data@.len() <= isize::MAX,
    ensures
        r.wf(),
        r.input() == data@,
        r.position() == 0,
        r.strict(),
{
    Iter { data, index: 0, strict: true }
}

} // verus!
