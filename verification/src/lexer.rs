//! Lexer: segments a source string into tokens with byte spans.
//!
//! The token grammar is regular: `\`, `fn` or the two UTF-8 bytes of the
//! lowercase lambda letter introduce an abstraction head; `=>` or `.`
//! separate the binders from the body; parentheses group; a maximal run of
//! ASCII letters is a variable (unless it is exactly `fn`). Whitespace is
//! skipped. A maximal run of bytes that starts no token and is not
//! whitespace is reported as one `InvalidCharSeq` error and lexing resumes
//! after it.
use vstd::prelude::*;
use vstd::slice::slice_index_get;
use vstd::string::StringSliceAdditionalSpecFns;

verus! {

/// A half-open byte range `[offset, offset + len)` into the source.
#[derive(Debug, Clone, Copy, PartialEq, Eq, Structural)]
pub struct Span {
    pub offset: usize,
    pub len: usize,
}

/// One past the last byte of the span.
pub open spec fn span_end(s: Span) -> int {
    s.offset + s.len
}

/// The span covering from the start of `l` to the end of `r`.
pub open spec fn spec_over(l: Span, r: Span) -> Span {
    Span { offset: l.offset, len: (span_end(r) - l.offset) as usize }
}

/// The span covering both `l` and `r`; callers guarantee `l` precedes `r`.
pub fn over(l: Span, r: Span) -> (s: Span)
    requires
        l.offset <= r.offset,
        span_end(r) <= usize::MAX,
    ensures
        s == spec_over(l, r),
{
    Span { offset: l.offset, len: r.offset + r.len - l.offset }
}

/// An item paired with the source span it was read from.
#[derive(Debug, Clone, Copy, PartialEq, Eq)]
pub struct Meta<T> {
    pub item: T,
    pub at: Span,
}

pub type Token = Meta<TkTy>;

/// The kind of a token.
#[derive(Debug, Clone, Copy, PartialEq, Eq, Structural)]
pub enum TkTy {
    /// `\`, `fn` or the lambda letter: the head of an abstraction.
    Function,
    /// `=>` or `.`: separates an abstraction's binders from its body.
    Abstraction,
    /// `(`
    LParen,
    /// `)`
    RParen,
    /// A maximal run of one or more ASCII letters, other than `fn`.
    Variable,
}

/// A lexing error. Lexing does not stop at one: the error is emitted in
/// stream position and lexing resumes after the offending bytes.
#[derive(Debug, Clone, Copy, PartialEq, Eq, Structural)]
pub enum Error {
    /// A run of bytes that starts no token and is not whitespace.
    InvalidCharSeq { at: Span },
    /// Never produced; kept so that the stream's error type has a neutral
    /// default.
    Other,
}

impl Error {
    /// The stable machine-readable code of this error.
    pub fn code(&self) -> (r: &'static str)
        ensures
            match self {
                Error::InvalidCharSeq { .. } => r@ == "lexer::invalid_char_seq"@,
                Error::Other => r@ == "lexer::other_error"@,
            },
    {
        match self {
            Error::InvalidCharSeq { .. } => "lexer::invalid_char_seq",
            Error::Other => "lexer::other_error",
        }
    }

    /// The human-readable message.
    pub fn message(&self) -> (r: &'static str)
        ensures
            match self {
                Error::InvalidCharSeq { .. } => r@ == "invalid char sequence"@,
                Error::Other => r@ == "other error"@,
            },
    {
        match self {
            Error::InvalidCharSeq { .. } => "invalid char sequence",
            Error::Other => "other error",
        }
    }

    /// The help hint.
    pub fn help(&self) -> (r: &'static str)
        ensures
            match self {
                Error::InvalidCharSeq { .. } => r@
                    == "these chars doesn't belong to this code. Haven't you mistyped?"@,
                Error::Other => r@ == "this shouldn't happen. contact me"@,
            },
    {
        match self {
            Error::InvalidCharSeq { .. } => "these chars doesn't belong to this code. Haven't you mistyped?",
            Error::Other => "this shouldn't happen. contact me",
        }
    }

    /// The span the error's label points at.
    pub fn label(&self) -> (r: Span)
        ensures
            match self {
                Error::InvalidCharSeq { at } => r == at,
                Error::Other => r == (Span { offset: 0, len: 0 }),
            },
    {
        match self {
            Error::InvalidCharSeq { at } => *at,
            Error::Other => Span { offset: 0, len: 0 },
        }
    }
}

impl Default for Error {
    fn default() -> (e: Self)
        ensures
            e == Error::Other,
    {
        Error::Other
    }
}

/// Whitespace: space, tab, newline, form feed.
pub open spec fn is_ws(b: u8) -> bool {
    b == 32 || b == 9 || b == 10 || b == 12
}

/// An ASCII letter.
pub open spec fn is_letter(b: u8) -> bool {
    (97 <= b && b <= 122) || (65 <= b && b <= 90)
}

/// First byte of `\` (92), `(` (40), `)` (41), `.` (46); `=` (61) followed
/// by `>` (62); the two UTF-8 bytes 206, 187 of the lambda letter; or a
/// letter: exactly the positions where a token begins.
pub open spec fn starts_token(src: Seq<u8>, i: int) -> bool {
    &&& 0 <= i < src.len()
    &&& {
        ||| is_letter(src[i])
        ||| src[i] == 92
        ||| src[i] == 40
        ||| src[i] == 41
        ||| src[i] == 46
        ||| (src[i] == 61 && i + 1 < src.len() && src[i + 1] == 62)
        ||| (src[i] == 206 && i + 1 < src.len() && src[i + 1] == 187)
    }
}

/// End of the maximal letter run beginning at `i`.
pub open spec fn letter_end(src: Seq<u8>, i: int) -> int
    decreases src.len() - i,
{
    if 0 <= i < src.len() && is_letter(src[i]) {
        letter_end(src, i + 1)
    } else {
        i
    }
}

/// End of the maximal run beginning at `i` of bytes that neither start a
/// token nor are whitespace.
pub open spec fn invalid_end(src: Seq<u8>, i: int) -> int
    decreases src.len() - i,
{
    if 0 <= i < src.len() && !is_ws(src[i]) && !starts_token(src, i) {
        invalid_end(src, i + 1)
    } else {
        i
    }
}

/// Kind and end of the token beginning at `i`; meaningful when
/// `starts_token(src, i)` holds. A letter run equal to exactly `fn`
/// (bytes 102, 110) is a `Function` head, any other letter run a
/// `Variable`; longest match applies throughout.
pub open spec fn token_at(src: Seq<u8>, i: int) -> (TkTy, int) {
    if is_letter(src[i]) {
        let j = letter_end(src, i);
        if j - i == 2 && src[i] == 102 && src[i + 1] == 110 {
            (TkTy::Function, j)
        } else {
            (TkTy::Variable, j)
        }
    } else if src[i] == 92 {
        (TkTy::Function, i + 1)
    } else if src[i] == 206 {
        (TkTy::Function, i + 2)
    } else if src[i] == 40 {
        (TkTy::LParen, i + 1)
    } else if src[i] == 41 {
        (TkTy::RParen, i + 1)
    } else if src[i] == 46 {
        (TkTy::Abstraction, i + 1)
    } else {
        (TkTy::Abstraction, i + 2)
    }
}

/// The stream of tokens and errors read from `src` starting at `i`.
pub open spec fn spec_lex(src: Seq<u8>, i: int) -> Seq<Result<Token, Error>>
    decreases src.len() - i,
{
    if i < 0 || i >= src.len() {
        Seq::empty()
    } else if is_ws(src[i]) {
        spec_lex(src, i + 1)
    } else if starts_token(src, i) {
        let (kind, j) = token_at(src, i);
        if i < j && j <= src.len() {
            seq![
                Ok(Meta { item: kind, at: Span { offset: i as usize, len: (j - i) as usize } }),
            ] + spec_lex(src, j)
        } else {
            Seq::empty()
        }
    } else {
        let j = invalid_end(src, i);
        if i < j && j <= src.len() {
            seq![
                Err(Error::InvalidCharSeq {
                    at: Span { offset: i as usize, len: (j - i) as usize },
                }),
            ] + spec_lex(src, j)
        } else {
            Seq::empty()
        }
    }
}

proof fn lemma_letter_end_bounds(src: Seq<u8>, i: int)
    requires
        0 <= i <= src.len(),
    ensures
        i <= letter_end(src, i) <= src.len(),
        i < src.len() && is_letter(src[i]) ==> i < letter_end(src, i),
        letter_end(src, i) == src.len() || !is_letter(src[letter_end(src, i)]),
    decreases src.len() - i,
{
    if i < src.len() && is_letter(src[i]) {
        lemma_letter_end_bounds(src, i + 1);
    }
}

proof fn lemma_invalid_end_bounds(src: Seq<u8>, i: int)
    requires
        0 <= i <= src.len(),
    ensures
        i <= invalid_end(src, i) <= src.len(),
        i < src.len() && !is_ws(src[i]) && !starts_token(src, i) ==> i < invalid_end(src, i),
        invalid_end(src, i) == src.len() || is_ws(src[invalid_end(src, i)]) || starts_token(
            src,
            invalid_end(src, i),
        ),
    decreases src.len() - i,
{
    if i < src.len() && !is_ws(src[i]) && !starts_token(src, i) {
        lemma_invalid_end_bounds(src, i + 1);
    }
}

fn is_ws_x(b: u8) -> (r: bool)
    ensures
        r == is_ws(b),
{
    b == 32 || b == 9 || b == 10 || b == 12
}

fn is_letter_x(b: u8) -> (r: bool)
    ensures
        r == is_letter(b),
{
    (97 <= b && b <= 122) || (65 <= b && b <= 90)
}

fn starts_tok(src: &[u8], i: usize) -> (r: bool)
    requires
        i < src@.len(),
    ensures
        r == starts_token(src@, i as int),
{
    let n = src.len();
    let b = *slice_index_get(src, i);
    if is_letter_x(b) || b == 92 || b == 40 || b == 41 || b == 46 {
        true
    } else if b == 61 || b == 206 {
        if i + 1 < n {
            let b2 = *slice_index_get(src, i + 1);
            (b == 61 && b2 == 62) || (b == 206 && b2 == 187)
        } else {
            false
        }
    } else {
        false
    }
}

/// Lex `src` from the front: every loop step takes one item, or skips one
/// whitespace byte, exactly as [`spec_lex`] does.
fn lex_bytes(src: &[u8]) -> (r: Vec<Result<Token, Error>>)
    ensures
        r@ == spec_lex(src@, 0),
{
    let mut out: Vec<Result<Token, Error>> = Vec::new();
    let mut i: usize = 0;
    while i < src.len()
        invariant
            i <= src@.len(),
            spec_lex(src@, 0) == out@ + spec_lex(src@, i as int),
        decreases src@.len() - i,
    {
        let b = *slice_index_get(src, i);
        if is_ws_x(b) {
            i = i + 1;
        } else if is_letter_x(b) {
            let mut j: usize = i;
            while j < src.len() && is_letter_x(*slice_index_get(src, j))
                invariant
                    i <= j <= src@.len(),
                    letter_end(src@, i as int) == letter_end(src@, j as int),
                decreases src@.len() - j,
            {
                j = j + 1;
            }
            proof {
                assert(letter_end(src@, j as int) == j);
            }
            let kind = if j - i == 2 && b == 102 && *slice_index_get(src, i + 1) == 110 {
                TkTy::Function
            } else {
                TkTy::Variable
            };
            out.push(Ok(Meta { item: kind, at: Span { offset: i, len: j - i } }));
            proof {
                assert(spec_lex(src@, 0) == out@ + spec_lex(src@, j as int));
            }
            i = j;
        } else if b == 92 || b == 40 || b == 41 || b == 46 {
            let kind = if b == 92 {
                TkTy::Function
            } else if b == 40 {
                TkTy::LParen
            } else if b == 41 {
                TkTy::RParen
            } else {
                TkTy::Abstraction
            };
            out.push(Ok(Meta { item: kind, at: Span { offset: i, len: 1 } }));
            i = i + 1;
        } else if b == 61 && i + 1 < src.len() && *slice_index_get(src, i + 1) == 62 {
            out.push(Ok(Meta { item: TkTy::Abstraction, at: Span { offset: i, len: 2 } }));
            i = i + 2;
        } else if b == 206 && i + 1 < src.len() && *slice_index_get(src, i + 1) == 187 {
            out.push(Ok(Meta { item: TkTy::Function, at: Span { offset: i, len: 2 } }));
            i = i + 2;
        } else {
            let mut j: usize = i + 1;
            proof {
                assert(invalid_end(src@, i as int) == invalid_end(src@, i + 1));
            }
            while j < src.len() && !is_ws_x(*slice_index_get(src, j)) && !starts_tok(src, j)
                invariant
                    i < j <= src@.len(),
                    invalid_end(src@, i as int) == invalid_end(src@, j as int),
                decreases src@.len() - j,
            {
                j = j + 1;
            }
            proof {
                assert(invalid_end(src@, j as int) == j);
            }
            out.push(Err(Error::InvalidCharSeq { at: Span { offset: i, len: j - i } }));
            i = j;
        }
    }
    proof {
        assert(spec_lex(src@, i as int) == Seq::<Result<Token, Error>>::empty());
        assert(out@ + Seq::<Result<Token, Error>>::empty() == out@);
    }
    out
}

/// The bytes of `src` under the span.
pub open spec fn text_at(src: Seq<u8>, sp: Span) -> Seq<u8> {
    src.subrange(sp.offset as int, span_end(sp))
}

impl<T> Meta<T> {
    /// The source bytes this item was read from.
    pub fn from_code<'a>(&self, src: &'a [u8]) -> (r: &'a [u8])
        requires
            span_end(self.at) <= src@.len(),
        ensures
            r@ == text_at(src@, self.at),
    {
        let n = src.len();
        proof {
            assert(span_end(self.at) <= n);
        }
        vstd::slice::slice_subrange(src, self.at.offset, self.at.offset + self.at.len)
    }
}

/// The span an item points at: a token's own span, or the span of the
/// rejected run.
pub open spec fn item_span(it: Result<Token, Error>) -> Span {
    match it {
        Ok(t) => t.at,
        Err(Error::InvalidCharSeq { at }) => at,
        Err(Error::Other) => Span { offset: 0, len: 0 },
    }
}

/// Every item's span is non-empty and lies within `[lo, hi)`.
pub open spec fn items_in_range(items: Seq<Result<Token, Error>>, lo: int, hi: int) -> bool {
    forall|k: int|
        0 <= k < items.len() ==> lo <= #[trigger] item_span(items[k]).offset
            && item_span(items[k]).len >= 1 && span_end(item_span(items[k])) <= hi
}

/// Items appear in source order, without overlap.
pub open spec fn items_ordered(items: Seq<Result<Token, Error>>) -> bool {
    forall|k: int|
        0 <= k < items.len() - 1 ==> span_end(#[trigger] item_span(items[k])) <= item_span(
            items[k + 1],
        ).offset
}

/// Position `p` falls under the span.
pub open spec fn in_span(sp: Span, p: int) -> bool {
    sp.offset <= p < span_end(sp)
}

/// Some item's span covers position `p`.
pub open spec fn covered(items: Seq<Result<Token, Error>>, p: int) -> bool {
    exists|k: int| 0 <= k < items.len() && in_span(item_span(#[trigger] items[k]), p)
}

/// Lexer span faithfulness: the items of [`spec_lex`] carry non-empty,
/// in-source, strictly ordered spans, and every source position outside all
/// of them is whitespace. Concatenating the bytes under the spans, in
/// order, therefore yields the source minus the skipped whitespace; the
/// successful tokens alone yield it minus whitespace and rejected runs.
#[verifier::rlimit(40)]
pub proof fn lemma_lex_faithful(src: Seq<u8>, i: int)
    requires
        0 <= i <= src.len(),
        src.len() <= usize::MAX,
    ensures
        items_in_range(spec_lex(src, i), i, src.len() as int),
        items_ordered(spec_lex(src, i)),
        forall|p: int| i <= p < src.len() && !covered(spec_lex(src, i), p) ==> is_ws(src[p]),
    decreases src.len() - i,
{
    let items = spec_lex(src, i);
    if i >= src.len() {
    } else if is_ws(src[i]) {
        lemma_lex_faithful(src, i + 1);
    } else {
        let j = if starts_token(src, i) {
            if is_letter(src[i]) {
                lemma_letter_end_bounds(src, i);
            }
            token_at(src, i).1
        } else {
            lemma_invalid_end_bounds(src, i);
            invalid_end(src, i)
        };
        assert(i < j <= src.len());
        let rest = spec_lex(src, j);
        lemma_lex_faithful(src, j);
        assert(items.len() == 1 + rest.len());
        assert(item_span(items[0]).offset == i && span_end(item_span(items[0])) == j);
        assert(forall|k: int| 1 <= k < items.len() ==> items[k] == rest[k - 1]);
        assert forall|k: int|
            0 <= k < items.len() implies i <= #[trigger] item_span(items[k]).offset && item_span(
            items[k],
        ).len >= 1 && span_end(item_span(items[k])) <= src.len() by {
            if k >= 1 {
                assert(item_span(items[k]) == item_span(rest[k - 1]));
            }
        }
        assert forall|k: int|
            0 <= k < items.len() - 1 implies span_end(#[trigger] item_span(items[k]))
            <= item_span(items[k + 1]).offset by {
            if k == 0 {
                assert(item_span(items[1]) == item_span(rest[0]));
            } else {
                assert(item_span(items[k]) == item_span(rest[k - 1]));
                assert(item_span(items[k + 1]) == item_span(rest[k]));
            }
        }
        assert forall|p: int| i <= p < src.len() && !covered(items, p) implies is_ws(src[p]) by {
            if p < j {
                assert(in_span(item_span(items[0]), p));
                assert(covered(items, p));
            } else {
                if covered(rest, p) {
                    let k = choose|k: int|
                        0 <= k < rest.len() && in_span(item_span(#[trigger] rest[k]), p);
                    assert(in_span(item_span(items[k + 1]), p));
                    assert(covered(items, p));
                }
            }
        }
    }
}

/// `src` with one byte inserted at position `p`.
pub open spec fn insert_at(src: Seq<u8>, p: int, w: u8) -> Seq<u8> {
    src.take(p) + seq![w] + src.skip(p)
}

/// The span moved `d` bytes to the right.
pub open spec fn shift_span(sp: Span, d: int) -> Span {
    Span { offset: (sp.offset + d) as usize, len: sp.len }
}

/// The item with its span moved `d` bytes to the right.
pub open spec fn shift_item(it: Result<Token, Error>, d: int) -> Result<Token, Error> {
    match it {
        Ok(t) => Ok(Meta { item: t.item, at: shift_span(t.at, d) }),
        Err(Error::InvalidCharSeq { at }) => Err(Error::InvalidCharSeq { at: shift_span(at, d) }),
        Err(Error::Other) => Err(Error::Other),
    }
}

/// The item as it reads after an insertion at `p`: spans wholly before
/// `p` stay, spans at or after it shift by one.
pub open spec fn nudge_item(it: Result<Token, Error>, p: int) -> Result<Token, Error> {
    if span_end(item_span(it)) <= p {
        it
    } else {
        shift_item(it, 1)
    }
}

/// No item's span strictly contains position `p`: the position lies
/// between tokens (or inside skipped whitespace).
pub open spec fn outside_items(items: Seq<Result<Token, Error>>, p: int) -> bool {
    forall|k: int|
        0 <= k < items.len() ==> !(item_span(#[trigger] items[k]).offset < p && p < span_end(
            item_span(items[k]),
        ))
}

proof fn lemma_insert_facts(src: Seq<u8>, p: int, w: u8)
    requires
        0 <= p <= src.len(),
    ensures
        insert_at(src, p, w).len() == src.len() + 1,
        forall|m: int| 0 <= m < p ==> #[trigger] insert_at(src, p, w)[m] == src[m],
        forall|m: int| p <= m < src.len() ==> #[trigger] insert_at(src, p, w)[m + 1] == src[m],
        insert_at(src, p, w)[p] == w,
{
}

proof fn lemma_starts_shift(src: Seq<u8>, p: int, w: u8, m: int)
    requires
        0 <= p <= m <= src.len(),
    ensures
        starts_token(insert_at(src, p, w), m + 1) == starts_token(src, m),
{
    lemma_insert_facts(src, p, w);
}

proof fn lemma_letter_end_shift(src: Seq<u8>, p: int, w: u8, i: int)
    requires
        0 <= p <= i <= src.len(),
    ensures
        letter_end(insert_at(src, p, w), i + 1) == letter_end(src, i) + 1,
    decreases src.len() - i,
{
    lemma_insert_facts(src, p, w);
    if i < src.len() && is_letter(src[i]) {
        lemma_letter_end_shift(src, p, w, i + 1);
    }
}

proof fn lemma_invalid_end_shift(src: Seq<u8>, p: int, w: u8, i: int)
    requires
        0 <= p <= i <= src.len(),
    ensures
        invalid_end(insert_at(src, p, w), i + 1) == invalid_end(src, i) + 1,
    decreases src.len() - i,
{
    lemma_insert_facts(src, p, w);
    lemma_starts_shift(src, p, w, i);
    if i < src.len() && !is_ws(src[i]) && !starts_token(src, i) {
        lemma_invalid_end_shift(src, p, w, i + 1);
    }
}

proof fn lemma_lex_shift(src: Seq<u8>, p: int, w: u8, i: int)
    requires
        0 <= p <= i <= src.len(),
        src.len() + 1 <= usize::MAX,
    ensures
        spec_lex(insert_at(src, p, w), i + 1) == spec_lex(src, i).map_values(
            |it: Result<Token, Error>| shift_item(it, 1),
        ),
    decreases src.len() - i,
{
    let s2 = insert_at(src, p, w);
    let f = |it: Result<Token, Error>| shift_item(it, 1);
    lemma_insert_facts(src, p, w);
    if i >= src.len() {
        assert(spec_lex(src, i).map_values(f) =~= Seq::<Result<Token, Error>>::empty());
    } else if is_ws(src[i]) {
        lemma_lex_shift(src, p, w, i + 1);
    } else if starts_token(src, i) {
        lemma_starts_shift(src, p, w, i);
        if is_letter(src[i]) {
            lemma_letter_end_shift(src, p, w, i);
            lemma_letter_end_bounds(src, i);
        }
        let (kind, j) = token_at(src, i);
        assert(i < j && j <= src.len());
        assert(token_at(s2, i + 1) == (kind, j + 1));
        let head = Ok::<Token, Error>(
            Meta { item: kind, at: Span { offset: i as usize, len: (j - i) as usize } },
        );
        let head2 = Ok::<Token, Error>(
            Meta {
                item: kind,
                at: Span { offset: (i + 1) as usize, len: (j - i) as usize },
            },
        );
        assert(spec_lex(src, i) == seq![head] + spec_lex(src, j));
        assert(spec_lex(s2, i + 1) == seq![head2] + spec_lex(s2, j + 1));
        assert(head2 == shift_item(head, 1));
        lemma_lex_shift(src, p, w, j);
        assert(spec_lex(s2, i + 1) =~= spec_lex(src, i).map_values(f)) by {
            let items = spec_lex(src, i);
            let tail = spec_lex(src, j);
            assert(forall|k: int| 0 <= k < tail.len() ==> items[k + 1] == tail[k]);
            assert(forall|k: int|
                0 <= k < tail.len() ==> #[trigger] tail.map_values(f)[k] == f(tail[k]));
            assert(forall|k: int|
                0 <= k < items.len() ==> #[trigger] items.map_values(f)[k] == f(items[k]));
        }
    } else {
        lemma_invalid_end_shift(src, p, w, i);
        lemma_invalid_end_bounds(src, i);
        let j = invalid_end(src, i);
        assert(i < j && j <= src.len());
        let head = Err::<Token, Error>(
            Error::InvalidCharSeq { at: Span { offset: i as usize, len: (j - i) as usize } },
        );
        let head2 = Err::<Token, Error>(
            Error::InvalidCharSeq {
                at: Span { offset: (i + 1) as usize, len: (j - i) as usize },
            },
        );
        assert(!is_ws(s2[i + 1]) && !starts_token(s2, i + 1)) by {
            lemma_starts_shift(src, p, w, i);
        }
        assert(spec_lex(src, i) == seq![head] + spec_lex(src, j));
        assert(spec_lex(s2, i + 1) == seq![head2] + spec_lex(s2, j + 1));
        assert(head2 == shift_item(head, 1));
        lemma_lex_shift(src, p, w, j);
        assert(spec_lex(s2, i + 1) =~= spec_lex(src, i).map_values(f)) by {
            let items = spec_lex(src, i);
            let tail = spec_lex(src, j);
            assert(forall|k: int| 0 <= k < tail.len() ==> items[k + 1] == tail[k]);
            assert(forall|k: int|
                0 <= k < tail.len() ==> #[trigger] tail.map_values(f)[k] == f(tail[k]));
            assert(forall|k: int|
                0 <= k < items.len() ==> #[trigger] items.map_values(f)[k] == f(items[k]));
        }
    }
}

proof fn lemma_letter_end_ins(src: Seq<u8>, p: int, w: u8, i: int)
    requires
        is_ws(w),
        0 <= i <= p <= src.len(),
        letter_end(src, i) <= p,
    ensures
        letter_end(insert_at(src, p, w), i) == letter_end(src, i),
    decreases src.len() - i,
{
    lemma_insert_facts(src, p, w);
    if i < src.len() && is_letter(src[i]) {
        lemma_letter_end_bounds(src, i + 1);
        lemma_letter_end_ins(src, p, w, i + 1);
    }
}

proof fn lemma_invalid_end_ins(src: Seq<u8>, p: int, w: u8, i: int)
    requires
        is_ws(w),
        0 <= i <= p <= src.len(),
        invalid_end(src, i) <= p,
        ({
            let e = invalid_end(src, i);
            e < p ==> (is_ws(src[e]) || starts_token(insert_at(src, p, w), e))
        }),
    ensures
        invalid_end(insert_at(src, p, w), i) == invalid_end(src, i),
    decreases src.len() - i,
{
    let s2 = insert_at(src, p, w);
    let e = invalid_end(src, i);
    lemma_insert_facts(src, p, w);
    if i < src.len() && !is_ws(src[i]) && !starts_token(src, i) {
        lemma_invalid_end_bounds(src, i + 1);
        assert(!starts_token(s2, i)) by {
            if i + 1 < p {
            } else {
                assert(i + 1 >= p && i < p);
                assert(i + 1 == p);
                assert(s2[i + 1] == w);
            }
        }
        lemma_invalid_end_ins(src, p, w, i + 1);
    } else {
        if i == e && e < p {
            if is_ws(src[e]) {
                assert(s2[e] == src[e]);
            }
        }
        assert(invalid_end(s2, i) == i) by {
            if i < s2.len() {
                if i == p {
                    assert(s2[p] == w);
                } else if i < p {
                    assert(s2[i] == src[i]);
                }
            }
        }
    }
}

/// Inserting one whitespace byte at a position that no item's span
/// strictly contains — between tokens — leaves every item's kind and
/// bytes unchanged: the stream is the old one with the spans at or
/// after the insertion shifted by one.
#[verifier::rlimit(80)]
pub proof fn lemma_ws_insertion(src: Seq<u8>, p: int, w: u8, i: int)
    requires
        is_ws(w),
        0 <= i <= p <= src.len(),
        src.len() + 1 <= usize::MAX,
        outside_items(spec_lex(src, i), p),
    ensures
        spec_lex(insert_at(src, p, w), i) == spec_lex(src, i).map_values(
            |it: Result<Token, Error>| nudge_item(it, p),
        ),
    decreases p - i,
{
    let s2 = insert_at(src, p, w);
    let f = |it: Result<Token, Error>| nudge_item(it, p);
    lemma_insert_facts(src, p, w);
    if i == p {
        assert(s2[p] == w);
        lemma_lex_shift(src, p, w, p);
        lemma_lex_faithful(src, p);
        assert(spec_lex(s2, p) == spec_lex(s2, p + 1));
        assert(spec_lex(s2, p) =~= spec_lex(src, p).map_values(f)) by {
            let items = spec_lex(src, p);
            assert forall|k: int| 0 <= k < items.len() implies shift_item(items[k], 1) == nudge_item(
                items[k],
                p,
            ) by {
                assert(p <= item_span(items[k]).offset && item_span(items[k]).len >= 1);
            }
        }
    } else {
        assert(i < p);
        if is_ws(src[i]) {
            lemma_ws_insertion(src, p, w, i + 1);
            assert(s2[i] == src[i]);
        } else if starts_token(src, i) {
            let (kind, j) = token_at(src, i);
            if is_letter(src[i]) {
                lemma_letter_end_bounds(src, i);
            }
            assert(i < j && j <= src.len());
            let head = Ok::<Token, Error>(
                Meta { item: kind, at: Span { offset: i as usize, len: (j - i) as usize } },
            );
            assert(spec_lex(src, i) == seq![head] + spec_lex(src, j));
            assert(spec_lex(src, i)[0] == head);
            assert(item_span(head).offset == i && span_end(item_span(head)) == j);
            assert(j <= p) by {
                assert(!(item_span(spec_lex(src, i)[0]).offset < p && p < span_end(
                    item_span(spec_lex(src, i)[0]),
                )));
            }
            assert(starts_token(s2, i)) by {
                if src[i] == 61 || src[i] == 206 {
                    if !is_letter(src[i]) {
                        assert(i + 2 == j && j <= p);
                        assert(s2[i + 1] == src[i + 1]);
                    }
                }
            }
            if is_letter(src[i]) {
                lemma_letter_end_bounds(src, i);
                lemma_letter_end_ins(src, p, w, i);
            } else if src[i] == 61 || src[i] == 206 {
                assert(s2[i + 1] == src[i + 1]);
            }
            assert(token_at(s2, i) == (kind, j));
            assert(outside_items(spec_lex(src, j), p)) by {
                let tail = spec_lex(src, j);
                assert forall|k: int|
                    0 <= k < tail.len() implies !(item_span(#[trigger] tail[k]).offset < p && p
                    < span_end(item_span(tail[k]))) by {
                    assert(spec_lex(src, i)[k + 1] == tail[k]);
                }
            }
            lemma_ws_insertion(src, p, w, j);
            assert(spec_lex(s2, i) =~= spec_lex(src, i).map_values(f));
        } else {
            lemma_invalid_end_bounds(src, i);
            let e = invalid_end(src, i);
            assert(i < e && e <= src.len());
            let head = Err::<Token, Error>(
                Error::InvalidCharSeq {
                    at: Span { offset: i as usize, len: (e - i) as usize },
                },
            );
            assert(spec_lex(src, i) == seq![head] + spec_lex(src, e));
            assert(spec_lex(src, i)[0] == head);
            assert(item_span(head).offset == i && span_end(item_span(head)) == e);
            assert(e <= p) by {
                assert(!(item_span(spec_lex(src, i)[0]).offset < p && p < span_end(
                    item_span(spec_lex(src, i)[0]),
                )));
            }
            assert(e < p ==> (is_ws(src[e]) || starts_token(s2, e))) by {
                if e < p && !is_ws(src[e]) {
                    assert(starts_token(src, e));
                    let (kind2, j2) = token_at(src, e);
                    if is_letter(src[e]) {
                        lemma_letter_end_bounds(src, e);
                    }
                    assert(e < j2 && j2 <= src.len());
                    let next = Ok::<Token, Error>(
                        Meta {
                            item: kind2,
                            at: Span { offset: e as usize, len: (j2 - e) as usize },
                        },
                    );
                    assert(spec_lex(src, e) == seq![next] + spec_lex(src, j2));
                    assert(spec_lex(src, i)[1] == spec_lex(src, e)[0]);
                    assert(item_span(next).offset == e && span_end(item_span(next)) == j2);
                    assert(j2 <= p) by {
                        assert(!(item_span(spec_lex(src, i)[1]).offset < p && p < span_end(
                            item_span(spec_lex(src, i)[1]),
                        )));
                    }
                    if src[e] == 61 || src[e] == 206 {
                        if !is_letter(src[e]) {
                            assert(e + 2 == j2 && j2 <= p);
                            assert(s2[e + 1] == src[e + 1]);
                        }
                    }
                }
            }
            lemma_invalid_end_ins(src, p, w, i);
            assert(outside_items(spec_lex(src, e), p)) by {
                let tail = spec_lex(src, e);
                assert forall|k: int|
                    0 <= k < tail.len() implies !(item_span(#[trigger] tail[k]).offset < p && p
                    < span_end(item_span(tail[k]))) by {
                    assert(spec_lex(src, i)[k + 1] == tail[k]);
                }
            }
            lemma_ws_insertion(src, p, w, e);
            assert(!is_ws(s2[i]) && !starts_token(s2, i)) by {
                assert(s2[i] == src[i]);
                if i + 1 < p {
                } else if i + 1 == p {
                    assert(s2[i + 1] == w);
                }
            }
            assert(spec_lex(s2, i) =~= spec_lex(src, i).map_values(f));
        }
    }
}

/// The successful tokens of a lex stream, in order.
pub open spec fn ok_tokens(items: Seq<Result<Token, Error>>) -> Seq<Token>
    decreases items.len(),
{
    if items.len() == 0 {
        Seq::empty()
    } else {
        let rest = ok_tokens(items.drop_first());
        match items[0] {
            Ok(t) => seq![t] + rest,
            Err(_) => rest,
        }
    }
}

/// Spans of earlier items end before later items begin, at any distance.
pub proof fn lemma_items_pairwise(items: Seq<Result<Token, Error>>, a: int, b: int)
    requires
        items_ordered(items),
        0 <= a < b < items.len(),
    ensures
        span_end(item_span(items[a])) <= item_span(items[b]).offset,
    decreases b - a,
{
    if a + 1 < b {
        lemma_items_pairwise(items, a + 1, b);
    }
}

/// The successful tokens inherit the stream's order and bounds: spans
/// are non-empty, lie within `[lo, hi)`, and never overlap.
pub proof fn lemma_ok_tokens_props(items: Seq<Result<Token, Error>>, lo: int, hi: int)
    requires
        items_in_range(items, lo, hi),
        items_ordered(items),
    ensures
        ({
            let toks = ok_tokens(items);
            &&& forall|k: int|
                0 <= k < toks.len() ==> lo <= #[trigger] toks[k].at.offset && toks[k].at.len >= 1
                    && span_end(toks[k].at) <= hi
            &&& forall|a: int, b: int|
                0 <= a < b < toks.len() ==> span_end(#[trigger] toks[a].at)
                    <= #[trigger] toks[b].at.offset
        }),
    decreases items.len(),
{
    let toks = ok_tokens(items);
    if items.len() > 0 {
        let rest = items.drop_first();
        let end0 = span_end(item_span(items[0]));
        assert(forall|k: int| 0 <= k < rest.len() ==> rest[k] == items[k + 1]);
        assert forall|k: int|
            0 <= k < rest.len() implies end0 <= #[trigger] item_span(rest[k]).offset by {
            lemma_items_pairwise(items, 0, k + 1);
        }
        lemma_ok_tokens_props(rest, end0, hi);
        let rtoks = ok_tokens(rest);
        match items[0] {
            Ok(t) => {
                assert(toks == seq![t] + rtoks);
                assert(toks[0] == t);
                assert(forall|k: int| 1 <= k < toks.len() ==> toks[k] == rtoks[k - 1]);
                assert forall|k: int|
                    0 <= k < toks.len() implies lo <= #[trigger] toks[k].at.offset
                    && toks[k].at.len >= 1 && span_end(toks[k].at) <= hi by {
                    if k >= 1 {
                        assert(toks[k] == rtoks[k - 1]);
                    }
                }
                assert forall|a: int, b: int|
                    0 <= a < b < toks.len() implies span_end(#[trigger] toks[a].at)
                    <= #[trigger] toks[b].at.offset by {
                    if a >= 1 {
                        assert(toks[a] == rtoks[a - 1] && toks[b] == rtoks[b - 1]);
                    } else {
                        assert(toks[b] == rtoks[b - 1]);
                        assert(end0 <= rtoks[b - 1].at.offset);
                    }
                }
            },
            Err(_) => {
                assert(toks == rtoks);
            },
        }
    }
}

/// A token as it reads after an insertion at `p`; see [`nudge_item`].
pub open spec fn nudge_token(t: Token, p: int) -> Token {
    if span_end(t.at) <= p {
        t
    } else {
        Meta { item: t.item, at: shift_span(t.at, 1) }
    }
}

/// Taking the successful tokens commutes with nudging, and each token
/// of a stream that avoids position `p` itself avoids it.
pub proof fn lemma_ok_tokens_nudge(items: Seq<Result<Token, Error>>, p: int)
    requires
        outside_items(items, p),
    ensures
        ok_tokens(items.map_values(|it: Result<Token, Error>| nudge_item(it, p))) == ok_tokens(
            items,
        ).map_values(|t: Token| nudge_token(t, p)),
        forall|k: int|
            0 <= k < ok_tokens(items).len() ==> (span_end(#[trigger] ok_tokens(items)[k].at) <= p
                || ok_tokens(items)[k].at.offset >= p),
    decreases items.len(),
{
    let fi = |it: Result<Token, Error>| nudge_item(it, p);
    let ft = |t: Token| nudge_token(t, p);
    if items.len() == 0 {
        assert(items.map_values(fi) =~= Seq::<Result<Token, Error>>::empty());
        assert(ok_tokens(items).map_values(ft) =~= Seq::<Token>::empty());
    } else {
        let rest = items.drop_first();
        assert(forall|k: int| 0 <= k < rest.len() ==> rest[k] == items[k + 1]);
        lemma_ok_tokens_nudge(rest, p);
        assert(items.map_values(fi).drop_first() =~= rest.map_values(fi));
        assert(items.map_values(fi)[0] == fi(items[0]));
        match items[0] {
            Ok(t) => {
                assert(!(t.at.offset < p && p < span_end(t.at))) by {
                    assert(item_span(items[0]) == t.at);
                }
                assert(nudge_item(items[0], p) == Ok::<Token, Error>(nudge_token(t, p)));
                assert(ok_tokens(items.map_values(fi)) == seq![nudge_token(t, p)] + ok_tokens(
                    rest.map_values(fi),
                ));
                assert(ok_tokens(items) == seq![t] + ok_tokens(rest));
                assert(ok_tokens(items).map_values(ft) =~= seq![nudge_token(t, p)] + ok_tokens(
                    rest,
                ).map_values(ft));
                assert(forall|k: int|
                    1 <= k < ok_tokens(items).len() ==> ok_tokens(items)[k] == ok_tokens(rest)[k
                        - 1]);
            },
            Err(e) => {
                assert(nudge_item(items[0], p) is Err);
                assert(ok_tokens(items.map_values(fi)) == ok_tokens(rest.map_values(fi)));
                assert(ok_tokens(items) == ok_tokens(rest));
            },
        }
    }
}

/// The errors of a lex stream, in order.
pub open spec fn err_items(items: Seq<Result<Token, Error>>) -> Seq<Error>
    decreases items.len(),
{
    if items.len() == 0 {
        Seq::empty()
    } else {
        let rest = err_items(items.drop_first());
        match items[0] {
            Ok(_) => rest,
            Err(e) => seq![e] + rest,
        }
    }
}

/// Split a lex stream into its tokens and its errors, each in source order.
pub fn partition_items(items: &Vec<Result<Token, Error>>) -> (r: (Vec<Token>, Vec<Error>))
    ensures
        r.0@ == ok_tokens(items@),
        r.1@ == err_items(items@),
{
    let mut toks: Vec<Token> = Vec::new();
    let mut errs: Vec<Error> = Vec::new();
    let n = items.len();
    proof {
        assert(items@.skip(0) =~= items@);
    }
    let mut k: usize = 0;
    while k < n
        invariant
            k <= n == items@.len(),
            ok_tokens(items@) == toks@ + ok_tokens(items@.skip(k as int)),
            err_items(items@) == errs@ + err_items(items@.skip(k as int)),
        decreases n - k,
    {
        proof {
            assert(items@.skip(k as int).drop_first() =~= items@.skip(k + 1));
            assert(items@.skip(k as int)[0] == items@[k as int]);
        }
        match items[k] {
            Ok(t) => {
                toks.push(t);
                proof {
                    assert(toks@ + ok_tokens(items@.skip(k + 1)) =~= ok_tokens(items@));
                }
            },
            Err(e) => {
                errs.push(e);
                proof {
                    assert(errs@ + err_items(items@.skip(k + 1)) =~= err_items(items@));
                }
            },
        }
        k = k + 1;
    }
    proof {
        assert(items@.skip(n as int) =~= Seq::<Result<Token, Error>>::empty());
        assert(toks@ + ok_tokens(items@.skip(n as int)) =~= toks@);
        assert(errs@ + err_items(items@.skip(n as int)) =~= errs@);
    }
    (toks, errs)
}

impl TkTy {
    /// Lex the whole source: tokens and errors in source order, each with
    /// the span of exactly the bytes it was read from.
    pub fn processed(s: &str) -> (r: Vec<Result<Token, Error>>)
        ensures
            r@ == spec_lex(s.spec_bytes(), 0),
    {
        lex_bytes(s.as_bytes())
    }
}

} // verus!
