//! Lexer for the Ogham language.
//!
//! Converts source text into a flat stream of tokens by maximal munch.
//! Whitespace and comments are emitted as tokens (not skipped) so that
//! the parser can build a lossless syntax tree.

use vstd::prelude::*;
use vstd::string::StringSliceAdditionalSpecFns;

verus! {

/// Every lexical element in the Ogham language.
#[derive(Debug, Clone, Copy, PartialEq, Eq, Hash, Structural)]
pub enum Token {
    KwPackage,
    KwImport,
    KwAs,
    KwType,
    KwShape,
    KwEnum,
    KwOneof,
    KwService,
    KwRpc,
    KwAnnotation,
    KwFor,
    KwVoid,
    KwStream,
    KwMap,
    KwPick,
    KwOmit,
    KwTrue,
    KwFalse,
    KwNow,
    KwSelf,
    KwDefault,
    KwCast,
    KwRemoved,
    KwReserved,
    KwFallback,
    LBrace,
    RBrace,
    LParen,
    RParen,
    LAngle,
    RAngle,
    LBracket,
    RBracket,
    Semicolon,
    Comma,
    Dot,
    Eq,
    Colon,
    ColonColon,
    At,
    Question,
    Pipe,
    Arrow,
    BackArrow,
    DotDot,
    Star,
    Brackets,
    Slash,
    Minus,
    StringLiteral,
    FloatLiteral,
    IntLiteral,
    Ident,
    Whitespace,
    LineComment,
    BlockComment,
}


impl Token {
    /// Returns `true` for whitespace and comments: trivia that the parser
    /// attaches to the tree but does not interpret.
    pub open spec fn spec_is_trivia(self) -> bool {
        self == Token::Whitespace || self == Token::LineComment || self == Token::BlockComment
    }

    /// Returns `true` for whitespace and comments.
    #[verifier::when_used_as_spec(spec_is_trivia)]
    pub fn is_trivia(self) -> (r: bool)
        ensures
            r == self.spec_is_trivia(),
    {
        match self {
            Token::Whitespace | Token::LineComment | Token::BlockComment => true,
            _ => false,
        }
    }
}

// ── Byte classes ───────────────────────────────────────────────────────

pub open spec fn is_ident_start(b: u8) -> bool {
    (97 <= b <= 122) || (65 <= b <= 90) || b == 95
}

pub open spec fn is_digit(b: u8) -> bool {
    48 <= b <= 57
}

pub open spec fn is_ident_continue(b: u8) -> bool {
    is_ident_start(b) || is_digit(b)
}

pub open spec fn is_space(b: u8) -> bool {
    b == 32 || b == 9 || b == 13 || b == 10
}

/// A UTF-8 continuation byte (`10xxxxxx`).
pub open spec fn is_continuation(b: u8) -> bool {
    128 <= b < 192
}

// ── The language of each token kind ────────────────────────────────────

/// `[a-zA-Z_][a-zA-Z0-9_]*`
pub open spec fn is_ident(w: Seq<u8>) -> bool {
    &&& w.len() > 0
    &&& is_ident_start(w[0])
    &&& forall|k: int| 1 <= k < w.len() ==> is_ident_continue(#[trigger] w[k])
}

/// `[0-9]+`
pub open spec fn is_int(w: Seq<u8>) -> bool {
    &&& w.len() > 0
    &&& forall|k: int| 0 <= k < w.len() ==> is_digit(#[trigger] w[k])
}

/// `[0-9]+\.[0-9]+`
pub open spec fn is_float(w: Seq<u8>) -> bool {
    exists|p: int|
        #![trigger w[p]]
        0 < p < w.len() - 1 && w[p] == 46 && forall|k: int|
            0 <= k < w.len() && k != p ==> is_digit(#[trigger] w[k])
}

/// The body of a string literal: `([^"\\]|\\.)*`, where `.` is any byte but a newline.
pub open spec fn body_ok(b: Seq<u8>) -> bool
    decreases b.len(),
{
    if b.len() == 0 {
        true
    } else if b[0] == 92 {
        b.len() >= 2 && b[1] != 10 && body_ok(b.subrange(2, b.len() as int))
    } else {
        b[0] != 34 && body_ok(b.subrange(1, b.len() as int))
    }
}

/// `"([^"\\]|\\.)*"`
pub open spec fn is_string_literal(w: Seq<u8>) -> bool {
    &&& w.len() >= 2
    &&& w[0] == 34
    &&& w[w.len() - 1] == 34
    &&& body_ok(w.subrange(1, w.len() - 1))
}

/// `[ \t\r\n]+`
pub open spec fn is_whitespace(w: Seq<u8>) -> bool {
    &&& w.len() > 0
    &&& forall|k: int| 0 <= k < w.len() ==> is_space(#[trigger] w[k])
}

/// `//[^\n]*`
pub open spec fn is_line_comment(w: Seq<u8>) -> bool {
    &&& w.len() >= 2
    &&& w[0] == 47
    &&& w[1] == 47
    &&& forall|k: int| 2 <= k < w.len() ==> #[trigger] w[k] != 10
}

/// `*/` starts at position `k` of `w`.
pub open spec fn closes_at(w: Seq<u8>, k: int) -> bool {
    w[k] == 42 && w[k + 1] == 47
}

/// `/\*[^*]*\*+(?:[^/*][^*]*\*+)*/`: an opening `/*`, then the first `*/`.
pub open spec fn is_block_comment(w: Seq<u8>) -> bool {
    &&& w.len() >= 4
    &&& w[0] == 47
    &&& w[1] == 42
    &&& w[w.len() - 2] == 42
    &&& w[w.len() - 1] == 47
    &&& forall|k: int| 2 <= k < w.len() - 2 ==> !#[trigger] closes_at(w, k)
}

/// Punctuation of one or two bytes.
pub open spec fn punct_kind(w: Seq<u8>) -> Option<Token> {
    if w.len() == 1 {
        let b = w[0];
        if b == 123 { Some(Token::LBrace) }
        else if b == 125 { Some(Token::RBrace) }
        else if b == 40 { Some(Token::LParen) }
        else if b == 41 { Some(Token::RParen) }
        else if b == 60 { Some(Token::LAngle) }
        else if b == 62 { Some(Token::RAngle) }
        else if b == 91 { Some(Token::LBracket) }
        else if b == 93 { Some(Token::RBracket) }
        else if b == 59 { Some(Token::Semicolon) }
        else if b == 44 { Some(Token::Comma) }
        else if b == 46 { Some(Token::Dot) }
        else if b == 61 { Some(Token::Eq) }
        else if b == 58 { Some(Token::Colon) }
        else if b == 64 { Some(Token::At) }
        else if b == 63 { Some(Token::Question) }
        else if b == 124 { Some(Token::Pipe) }
        else if b == 42 { Some(Token::Star) }
        else if b == 47 { Some(Token::Slash) }
        else if b == 45 { Some(Token::Minus) }
        else { None }
    } else if w.len() == 2 {
        let (a, b) = (w[0], w[1]);
        if a == 58 && b == 58 { Some(Token::ColonColon) }
        else if a == 45 && b == 62 { Some(Token::Arrow) }
        else if a == 60 && b == 45 { Some(Token::BackArrow) }
        else if a == 46 && b == 46 { Some(Token::DotDot) }
        else if a == 91 && b == 93 { Some(Token::Brackets) }
        else { None }
    } else {
        None
    }
}

/// The keyword tokens, in the order in which they are looked up.
pub open spec fn keyword_tokens() -> Seq<Token> {
    seq![Token::KwPackage, Token::KwImport, Token::KwAs, Token::KwType, Token::KwShape, Token::KwEnum, Token::KwOneof, Token::KwService, Token::KwRpc, Token::KwAnnotation, Token::KwFor, Token::KwVoid, Token::KwStream, Token::KwMap, Token::KwPick, Token::KwOmit, Token::KwTrue, Token::KwFalse, Token::KwNow, Token::KwSelf, Token::KwDefault, Token::KwCast, Token::KwRemoved, Token::KwReserved, Token::KwFallback]
}

/// The text of a keyword token.
pub open spec fn keyword_text(k: Token) -> Seq<u8> {
    match k {
        Token::KwPackage => seq![112u8, 97, 99, 107, 97, 103, 101],
        Token::KwImport => seq![105u8, 109, 112, 111, 114, 116],
        Token::KwAs => seq![97u8, 115],
        Token::KwType => seq![116u8, 121, 112, 101],
        Token::KwShape => seq![115u8, 104, 97, 112, 101],
        Token::KwEnum => seq![101u8, 110, 117, 109],
        Token::KwOneof => seq![111u8, 110, 101, 111, 102],
        Token::KwService => seq![115u8, 101, 114, 118, 105, 99, 101],
        Token::KwRpc => seq![114u8, 112, 99],
        Token::KwAnnotation => seq![97u8, 110, 110, 111, 116, 97, 116, 105, 111, 110],
        Token::KwFor => seq![102u8, 111, 114],
        Token::KwVoid => seq![118u8, 111, 105, 100],
        Token::KwStream => seq![115u8, 116, 114, 101, 97, 109],
        Token::KwMap => seq![109u8, 97, 112],
        Token::KwPick => seq![80u8, 105, 99, 107],
        Token::KwOmit => seq![79u8, 109, 105, 116],
        Token::KwTrue => seq![116u8, 114, 117, 101],
        Token::KwFalse => seq![102u8, 97, 108, 115, 101],
        Token::KwNow => seq![110u8, 111, 119],
        Token::KwSelf => seq![115u8, 101, 108, 102],
        Token::KwDefault => seq![100u8, 101, 102, 97, 117, 108, 116],
        Token::KwCast => seq![99u8, 97, 115, 116],
        Token::KwRemoved => seq![114u8, 101, 109, 111, 118, 101, 100],
        Token::KwReserved => seq![114u8, 101, 115, 101, 114, 118, 101, 100],
        Token::KwFallback => seq![102u8, 97, 108, 108, 98, 97, 99, 107],
        _ => Seq::empty(),
    }
}

/// The first keyword of `l` whose text is `w`.
pub open spec fn keyword_in(w: Seq<u8>, l: Seq<Token>) -> Option<Token>
    decreases l.len(),
{
    if l.len() == 0 {
        None
    } else if w == keyword_text(l[0]) {
        Some(l[0])
    } else {
        keyword_in(w, l.subrange(1, l.len() as int))
    }
}

pub open spec fn keyword_of(w: Seq<u8>) -> Option<Token> {
    keyword_in(w, keyword_tokens())
}

/// The token kind whose language contains `w`, if any. Keywords take
/// precedence over identifiers; the other languages are disjoint.
pub open spec fn classify(w: Seq<u8>) -> Option<Token> {
    if is_ident(w) {
        match keyword_of(w) {
            Some(k) => Some(k),
            None => Some(Token::Ident),
        }
    } else if is_int(w) {
        Some(Token::IntLiteral)
    } else if is_float(w) {
        Some(Token::FloatLiteral)
    } else if is_string_literal(w) {
        Some(Token::StringLiteral)
    } else if is_whitespace(w) {
        Some(Token::Whitespace)
    } else if is_line_comment(w) {
        Some(Token::LineComment)
    } else if is_block_comment(w) {
        Some(Token::BlockComment)
    } else {
        punct_kind(w)
    }
}

// ── Maximal munch ──────────────────────────────────────────────────────

/// The largest `n <= m` such that the `n` bytes at `i` form a token (0 if none).
pub open spec fn longest_from(s: Seq<u8>, i: int, m: int) -> int
    decreases m,
{
    if m <= 0 {
        0
    } else if classify(s.subrange(i, i + m)) is Some {
        m
    } else {
        longest_from(s, i, m - 1)
    }
}

/// Length of the longest token that starts at `i` (0 if no token starts there).
pub open spec fn longest_len(s: Seq<u8>, i: int) -> int {
    longest_from(s, i, s.len() - i)
}

/// A prefix of a string-literal body: a complete body, possibly followed
/// by one escape backslash still waiting for its escaped byte.
pub open spec fn body_viable(b: Seq<u8>) -> bool {
    body_ok(b) || (b.len() > 0 && b[b.len() - 1] == 92 && body_ok(b.subrange(0, b.len() - 1)))
}

/// The largest `n <= m` such that the `n` bytes after the quote at `i` are viable.
pub open spec fn viable_from(s: Seq<u8>, i: int, m: int) -> int
    decreases m,
{
    if m <= 0 {
        0
    } else if body_viable(s.subrange(i + 1, i + 1 + m)) {
        m
    } else {
        viable_from(s, i, m - 1)
    }
}

/// The first index `>= p` that is not inside a UTF-8 sequence.
pub open spec fn next_boundary(s: Seq<u8>, p: int) -> int
    decreases s.len() - p,
{
    if p >= s.len() || p < 0 || !is_continuation(s[p]) {
        p
    } else {
        next_boundary(s, p + 1)
    }
}

/// Bytes at `i` that start no token form an error. It extends over the
/// longest prefix of an unterminated string literal (at least one byte),
/// and then to the next character boundary.
pub open spec fn error_end(s: Seq<u8>, i: int) -> int {
    let len = if s[i] == 34 { 1 + viable_from(s, i, s.len() - i - 1) } else { 1 };
    next_boundary(s, i + len)
}

pub proof fn lemma_longest_from_bounds(s: Seq<u8>, i: int, m: int)
    ensures
        0 <= longest_from(s, i, m),
        longest_from(s, i, m) <= if m < 0 { 0 } else { m },
    decreases m,
{
    if m > 0 {
        lemma_longest_from_bounds(s, i, m - 1);
    }
}

pub proof fn lemma_viable_from_bounds(s: Seq<u8>, i: int, m: int)
    ensures
        0 <= viable_from(s, i, m),
        viable_from(s, i, m) <= if m < 0 { 0 } else { m },
    decreases m,
{
    if m > 0 {
        lemma_viable_from_bounds(s, i, m - 1);
    }
}

pub proof fn lemma_next_boundary_bounds(s: Seq<u8>, p: int)
    ensures
        next_boundary(s, p) >= p,
        p <= s.len() ==> next_boundary(s, p) <= s.len(),
    decreases s.len() - p,
{
    if p < s.len() && p >= 0 && is_continuation(s[p]) {
        lemma_next_boundary_bounds(s, p + 1);
    }
}

pub proof fn lemma_error_end_bounds(s: Seq<u8>, i: int)
    requires
        0 <= i < s.len(),
    ensures
        i < error_end(s, i) <= s.len(),
{
    lemma_viable_from_bounds(s, i, s.len() - i - 1);
    let len = if s[i] == 34 { 1 + viable_from(s, i, s.len() - i - 1) } else { 1 };
    lemma_next_boundary_bounds(s, i + len);
}

/// One lexed item: `(Some(kind), start, end)` for a token, `(None, start, end)` for an error.
pub type LexItem = (Option<Token>, int, int);

/// The lexing of `s` from byte `i` on, by maximal munch.
pub open spec fn lex_from(s: Seq<u8>, i: int) -> Seq<LexItem>
    decreases s.len() - i,
{
    if i < 0 || i >= s.len() {
        Seq::empty()
    } else {
        let n = longest_len(s, i);
        if n > 0 {
            proof {
                lemma_longest_from_bounds(s, i, s.len() - i);
            }
            seq![(classify(s.subrange(i, i + n)), i, i + n)] + lex_from(s, i + n)
        } else {
            let e = error_end(s, i);
            proof {
                lemma_error_end_bounds(s, i);
            }
            seq![(None, i, e)] + lex_from(s, e)
        }
    }
}

/// The lexing of the whole of `s`.
pub open spec fn lex_spec(s: Seq<u8>) -> Seq<LexItem> {
    lex_from(s, 0)
}


// ── Lemmas about the token languages ───────────────────────────────────

/// Facts that follow from the first byte of a candidate token alone.
pub proof fn lemma_first_byte(w: Seq<u8>)
    requires
        w.len() > 0,
    ensures
        !is_ident_start(w[0]) ==> !is_ident(w),
        !is_digit(w[0]) ==> !is_int(w) && !is_float(w),
        w[0] != 34 ==> !is_string_literal(w),
        !is_space(w[0]) ==> !is_whitespace(w),
        w[0] != 47 ==> !is_line_comment(w) && !is_block_comment(w),
        w.len() > 2 ==> punct_kind(w) is None,
{
    if is_float(w) {
        let p = choose|p: int|
            #![trigger w[p]]
            0 < p < w.len() - 1 && w[p] == 46 && forall|k: int|
                0 <= k < w.len() && k != p ==> is_digit(#[trigger] w[k]);
        assert(is_digit(w[0]));
    }
}

/// A complete string body can be followed by anything: the rest is read on its own.
pub proof fn lemma_body_concat(x: Seq<u8>, z: Seq<u8>)
    requires
        body_ok(x),
    ensures
        body_ok(x + z) == body_ok(z),
    decreases x.len(),
{
    if x.len() == 0 {
        assert(x + z =~= z);
    } else if x[0] == 92 {
        let x2 = x.subrange(2, x.len() as int);
        assert((x + z).subrange(2, (x + z).len() as int) =~= x2 + z);
        lemma_body_concat(x2, z);
    } else {
        let x1 = x.subrange(1, x.len() as int);
        assert((x + z).subrange(1, (x + z).len() as int) =~= x1 + z);
        lemma_body_concat(x1, z);
    }
}

pub proof fn lemma_longest_from_exact(s: Seq<u8>, i: int, m: int, n: int)
    requires
        0 < n <= m,
        classify(s.subrange(i, i + n)) is Some,
        forall|k: int| n < k <= m ==> #[trigger] classify(s.subrange(i, i + k)) is None,
    ensures
        longest_from(s, i, m) == n,
    decreases m,
{
    if m > n {
        assert(classify(s.subrange(i, i + m)) is None);
        lemma_longest_from_exact(s, i, m - 1, n);
    }
}

/// The longest token at `i` has length `n`.
pub proof fn lemma_longest_exact(s: Seq<u8>, i: int, n: int)
    requires
        0 <= i,
        0 < n <= s.len() - i,
        classify(s.subrange(i, i + n)) is Some,
        forall|k: int| n < k <= s.len() - i ==> #[trigger] classify(s.subrange(i, i + k)) is None,
    ensures
        longest_len(s, i) == n,
{
    lemma_longest_from_exact(s, i, s.len() - i, n);
}

pub proof fn lemma_longest_from_zero(s: Seq<u8>, i: int, m: int)
    requires
        forall|k: int| 0 < k <= m ==> #[trigger] classify(s.subrange(i, i + k)) is None,
    ensures
        longest_from(s, i, m) == 0,
    decreases m,
{
    if m > 0 {
        assert(classify(s.subrange(i, i + m)) is None);
        lemma_longest_from_zero(s, i, m - 1);
    }
}

pub proof fn lemma_viable_from_exact(s: Seq<u8>, i: int, m: int, v: int)
    requires
        0 <= v <= m,
        body_viable(s.subrange(i + 1, i + 1 + v)),
        forall|k: int| v < k <= m ==> !#[trigger] body_viable(s.subrange(i + 1, i + 1 + k)),
    ensures
        viable_from(s, i, m) == v,
    decreases m,
{
    if m > v {
        assert(!body_viable(s.subrange(i + 1, i + 1 + m)));
        lemma_viable_from_exact(s, i, m - 1, v);
    }
}

// ── Maximal munch, one token class at a time ───────────────────────────

pub proof fn lemma_ident_longest(s: Seq<u8>, i: int, j: int)
    requires
        0 <= i < j <= s.len(),
        is_ident(s.subrange(i, j)),
        j == s.len() || !is_ident_continue(s[j]),
    ensures
        longest_len(s, i) == j - i,
        classify(s.subrange(i, j)) == Some(
            match keyword_of(s.subrange(i, j)) {
                Some(k) => k,
                None => Token::Ident,
            },
        ),
{
    let w0 = s.subrange(i, j);
    assert(w0[0] == s[i]);
    assert forall|m: int| j - i < m <= s.len() - i implies #[trigger] classify(
        s.subrange(i, i + m),
    ) is None by {
        let w = s.subrange(i, i + m);
        assert(w[0] == s[i]);
        assert(w[j - i] == s[j]);
        lemma_first_byte(w);
    }
    lemma_longest_exact(s, i, j - i);
}

pub proof fn lemma_int_longest(s: Seq<u8>, i: int, j: int)
    requires
        0 <= i < j <= s.len(),
        is_int(s.subrange(i, j)),
        j == s.len() || !is_digit(s[j]),
        !(j + 1 < s.len() && s[j] == 46 && is_digit(s[j + 1])),
    ensures
        longest_len(s, i) == j - i,
        classify(s.subrange(i, j)) == Some(Token::IntLiteral),
{
    let w0 = s.subrange(i, j);
    assert(w0[0] == s[i]);
    lemma_first_byte(w0);
    assert forall|m: int| j - i < m <= s.len() - i implies #[trigger] classify(
        s.subrange(i, i + m),
    ) is None by {
        let w = s.subrange(i, i + m);
        assert(w[0] == s[i]);
        assert(w[j - i] == s[j]);
        lemma_first_byte(w);
        if is_float(w) {
            let p = choose|p: int|
                #![trigger w[p]]
                0 < p < w.len() - 1 && w[p] == 46 && forall|k: int|
                    0 <= k < w.len() && k != p ==> is_digit(#[trigger] w[k]);
            if p != j - i {
                assert(is_digit(w[j - i]));
            } else {
                assert(w[p + 1] == s[j + 1]);
                assert(is_digit(w[p + 1]));
            }
        }
    }
    lemma_longest_exact(s, i, j - i);
}

pub proof fn lemma_float_longest(s: Seq<u8>, i: int, j: int, k: int)
    requires
        0 <= i < j,
        j + 1 < k <= s.len(),
        is_int(s.subrange(i, j)),
        s[j] == 46,
        is_int(s.subrange(j + 1, k)),
        k == s.len() || !is_digit(s[k]),
    ensures
        longest_len(s, i) == k - i,
        classify(s.subrange(i, k)) == Some(Token::FloatLiteral),
{
    let w0 = s.subrange(i, k);
    assert(w0[0] == s[i]);
    assert(s.subrange(i, j)[0] == s[i]);
    lemma_first_byte(w0);
    assert(w0[j - i] == s[j]);
    assert forall|q: int| 0 <= q < w0.len() && q != j - i implies is_digit(#[trigger] w0[q]) by {
        if q < j - i {
            assert(s.subrange(i, j)[q] == s[i + q]);
        } else {
            assert(s.subrange(j + 1, k)[q - (j - i) - 1] == s[i + q]);
        }
    }
    assert(is_float(w0));
    assert forall|m: int| k - i < m <= s.len() - i implies #[trigger] classify(
        s.subrange(i, i + m),
    ) is None by {
        let w = s.subrange(i, i + m);
        assert(w[0] == s[i]);
        assert(w[j - i] == s[j]);
        assert(w[k - i] == s[k]);
        lemma_first_byte(w);
        if is_float(w) {
            let p = choose|p: int|
                #![trigger w[p]]
                0 < p < w.len() - 1 && w[p] == 46 && forall|q: int|
                    0 <= q < w.len() && q != p ==> is_digit(#[trigger] w[q]);
            if p != j - i {
                assert(is_digit(w[j - i]));
            } else {
                assert(is_digit(w[k - i]));
            }
        }
    }
    lemma_longest_exact(s, i, k - i);
}

pub proof fn lemma_string_longest(s: Seq<u8>, i: int, p: int)
    requires
        0 <= i < p < s.len(),
        s[i] == 34,
        s[p] == 34,
        body_ok(s.subrange(i + 1, p)),
    ensures
        longest_len(s, i) == p + 1 - i,
        classify(s.subrange(i, p + 1)) == Some(Token::StringLiteral),
{
    let w0 = s.subrange(i, p + 1);
    assert(w0[0] == s[i]);
    lemma_first_byte(w0);
    assert(w0.subrange(1, w0.len() - 1) =~= s.subrange(i + 1, p));
    assert forall|m: int| p + 1 - i < m <= s.len() - i implies #[trigger] classify(
        s.subrange(i, i + m),
    ) is None by {
        let w = s.subrange(i, i + m);
        assert(w[0] == s[i]);
        lemma_first_byte(w);
        let b = w.subrange(1, w.len() - 1);
        let x = s.subrange(i + 1, p);
        let z = s.subrange(p, i + m - 1);
        assert(b =~= x + z);
        lemma_body_concat(x, z);
        assert(z[0] == 34);
    }
    lemma_longest_exact(s, i, p + 1 - i);
}

pub proof fn lemma_string_error(s: Seq<u8>, i: int, p: int)
    requires
        0 <= i,
        i + 1 <= p <= s.len(),
        s[i] == 34,
        body_ok(s.subrange(i + 1, p)),
        forall|q: int| i + 1 <= q < p && body_ok(#[trigger] s.subrange(i + 1, q)) ==> s[q] != 34,
        p == s.len() || (s[p] == 92 && (p + 1 == s.len() || s[p + 1] == 10)),
    ensures
        longest_len(s, i) == 0,
        error_end(s, i) == if p == s.len() { p } else { p + 1 },
{
    let x = s.subrange(i + 1, p);
    assert forall|m: int| 0 < m <= s.len() - i implies #[trigger] classify(
        s.subrange(i, i + m),
    ) is None by {
        let w = s.subrange(i, i + m);
        assert(w[0] == s[i]);
        lemma_first_byte(w);
        if is_string_literal(w) {
            let q = i + m - 1;
            assert(w[w.len() - 1] == s[q]);
            assert(w.subrange(1, w.len() - 1) =~= s.subrange(i + 1, q));
            if q >= p {
                let z = s.subrange(p, q);
                assert(s.subrange(i + 1, q) =~= x + z);
                lemma_body_concat(x, z);
                if q > p {
                    assert(z[0] == 92);
                    if q >= p + 2 {
                        assert(z[1] == s[p + 1]);
                    }
                }
            }
        }
    }
    lemma_longest_from_zero(s, i, s.len() - i);
    let big = s.len() - i - 1;
    if p == s.len() {
        assert(s.subrange(i + 1, i + 1 + big) =~= x);
        lemma_viable_from_exact(s, i, big, big);
        lemma_next_boundary_bounds(s, s.len() as int);
    } else {
        let v = p - i;
        let bv = s.subrange(i + 1, i + 1 + v);
        assert(bv.subrange(0, bv.len() - 1) =~= x);
        assert forall|k: int| v < k <= big implies !#[trigger] body_viable(
            s.subrange(i + 1, i + 1 + k),
        ) by {
            let b = s.subrange(i + 1, i + 1 + k);
            let z = s.subrange(p, i + 1 + k);
            assert(b =~= x + z);
            lemma_body_concat(x, z);
            assert(z[0] == 92);
            assert(z[1] == s[p + 1]);
            let d = b.subrange(0, b.len() - 1);
            let zd = s.subrange(p, i + k);
            assert(d =~= x + zd);
            lemma_body_concat(x, zd);
            assert(zd[0] == 92);
            if zd.len() >= 2 {
                assert(zd[1] == s[p + 1]);
            }
        }
        lemma_viable_from_exact(s, i, big, v);
    }
}

pub proof fn lemma_whitespace_longest(s: Seq<u8>, i: int, j: int)
    requires
        0 <= i < j <= s.len(),
        is_whitespace(s.subrange(i, j)),
        j == s.len() || !is_space(s[j]),
    ensures
        longest_len(s, i) == j - i,
        classify(s.subrange(i, j)) == Some(Token::Whitespace),
{
    let w0 = s.subrange(i, j);
    assert(w0[0] == s[i]);
    lemma_first_byte(w0);
    assert forall|m: int| j - i < m <= s.len() - i implies #[trigger] classify(
        s.subrange(i, i + m),
    ) is None by {
        let w = s.subrange(i, i + m);
        assert(w[0] == s[i]);
        assert(w[j - i] == s[j]);
        lemma_first_byte(w);
    }
    lemma_longest_exact(s, i, j - i);
}

pub proof fn lemma_line_comment_longest(s: Seq<u8>, i: int, j: int)
    requires
        0 <= i,
        i + 2 <= j <= s.len(),
        is_line_comment(s.subrange(i, j)),
        j == s.len() || s[j] == 10,
    ensures
        longest_len(s, i) == j - i,
        classify(s.subrange(i, j)) == Some(Token::LineComment),
{
    let w0 = s.subrange(i, j);
    assert(w0[0] == s[i]);
    lemma_first_byte(w0);
    assert forall|m: int| j - i < m <= s.len() - i implies #[trigger] classify(
        s.subrange(i, i + m),
    ) is None by {
        let w = s.subrange(i, i + m);
        assert(w[0] == s[i]);
        assert(w[1] == s[i + 1]);
        assert(w0[1] == s[i + 1]);
        assert(w[j - i] == s[j]);
        lemma_first_byte(w);
    }
    lemma_longest_exact(s, i, j - i);
}

pub proof fn lemma_block_comment_longest(s: Seq<u8>, i: int, q: int)
    requires
        0 <= i,
        i + 2 <= q,
        q + 1 < s.len(),
        s[i] == 47,
        s[i + 1] == 42,
        closes_at(s, q),
        forall|r: int| i + 2 <= r < q ==> !#[trigger] closes_at(s, r),
    ensures
        longest_len(s, i) == q + 2 - i,
        classify(s.subrange(i, q + 2)) == Some(Token::BlockComment),
{
    let w0 = s.subrange(i, q + 2);
    assert(w0[0] == s[i]);
    assert(w0[1] == s[i + 1]);
    lemma_first_byte(w0);
    assert forall|k: int| 2 <= k < w0.len() - 2 implies !#[trigger] closes_at(w0, k) by {
        assert(w0[k] == s[i + k]);
        assert(w0[k + 1] == s[i + k + 1]);
        assert(!closes_at(s, i + k));
    }
    assert(w0[w0.len() - 2] == s[q]);
    assert(w0[w0.len() - 1] == s[q + 1]);
    assert forall|m: int| q + 2 - i < m <= s.len() - i implies #[trigger] classify(
        s.subrange(i, i + m),
    ) is None by {
        let w = s.subrange(i, i + m);
        assert(w[0] == s[i]);
        assert(w[1] == s[i + 1]);
        assert(w[q - i] == s[q]);
        assert(w[q - i + 1] == s[q + 1]);
        assert(closes_at(w, q - i));
        lemma_first_byte(w);
    }
    lemma_longest_exact(s, i, q + 2 - i);
}

pub proof fn lemma_open_comment_is_slash(s: Seq<u8>, i: int, q: int)
    requires
        0 <= i,
        i + 1 < s.len(),
        s[i] == 47,
        s[i + 1] == 42,
        q + 1 >= s.len(),
        forall|r: int| i + 2 <= r < q ==> !#[trigger] closes_at(s, r),
    ensures
        longest_len(s, i) == 1,
        classify(s.subrange(i, i + 1)) == Some(Token::Slash),
{
    let w0 = s.subrange(i, i + 1);
    assert(w0[0] == s[i]);
    lemma_first_byte(w0);
    assert forall|m: int| 1 < m <= s.len() - i implies #[trigger] classify(
        s.subrange(i, i + m),
    ) is None by {
        let w = s.subrange(i, i + m);
        assert(w[0] == s[i]);
        assert(w[1] == s[i + 1]);
        lemma_first_byte(w);
        if m >= 4 {
            assert(w[m - 2] == s[i + m - 2]);
            assert(w[m - 1] == s[i + m - 1]);
            assert(!closes_at(s, i + m - 2));
        }
    }
    lemma_longest_exact(s, i, 1);
}

pub proof fn lemma_slash_longest(s: Seq<u8>, i: int)
    requires
        0 <= i < s.len(),
        s[i] == 47,
        i + 1 == s.len() || (s[i + 1] != 47 && s[i + 1] != 42),
    ensures
        longest_len(s, i) == 1,
        classify(s.subrange(i, i + 1)) == Some(Token::Slash),
{
    let w0 = s.subrange(i, i + 1);
    assert(w0[0] == s[i]);
    lemma_first_byte(w0);
    assert forall|m: int| 1 < m <= s.len() - i implies #[trigger] classify(
        s.subrange(i, i + m),
    ) is None by {
        let w = s.subrange(i, i + m);
        assert(w[0] == s[i]);
        assert(w[1] == s[i + 1]);
        lemma_first_byte(w);
    }
    lemma_longest_exact(s, i, 1);
}

/// A byte that starts no token of the punctuation, identifier, number,
/// string, space or comment classes.
pub open spec fn starts_other(b: u8) -> bool {
    !is_ident_start(b) && !is_digit(b) && b != 34 && !is_space(b) && b != 47
}

pub proof fn lemma_punct_longest(s: Seq<u8>, i: int, n: int, k: Token)
    requires
        0 <= i,
        n == 1 || n == 2,
        i + n <= s.len(),
        starts_other(s[i]),
        punct_kind(s.subrange(i, i + n)) == Some(k),
        n == 1 ==> (i + 1 == s.len() || punct_kind(s.subrange(i, i + 2)) is None),
    ensures
        longest_len(s, i) == n,
        classify(s.subrange(i, i + n)) == Some(k),
{
    let w0 = s.subrange(i, i + n);
    assert(w0[0] == s[i]);
    lemma_first_byte(w0);
    assert forall|m: int| n < m <= s.len() - i implies #[trigger] classify(
        s.subrange(i, i + m),
    ) is None by {
        let w = s.subrange(i, i + m);
        assert(w[0] == s[i]);
        lemma_first_byte(w);
    }
    lemma_longest_exact(s, i, n);
}

pub proof fn lemma_other_error(s: Seq<u8>, i: int)
    requires
        0 <= i < s.len(),
        starts_other(s[i]),
        punct_kind(s.subrange(i, i + 1)) is None,
    ensures
        longest_len(s, i) == 0,
        error_end(s, i) == next_boundary(s, i + 1),
{
    let w1 = s.subrange(i, i + 1);
    assert(w1[0] == s[i]);
    assert forall|m: int| 0 < m <= s.len() - i implies #[trigger] classify(
        s.subrange(i, i + m),
    ) is None by {
        let w = s.subrange(i, i + m);
        assert(w[0] == s[i]);
        lemma_first_byte(w);
    }
    lemma_longest_from_zero(s, i, s.len() - i);
}

// ── Executable lexer ───────────────────────────────────────────────────

/// Whether `s[i..j]` equals `t`.
fn bytes_equal_at(s: &[u8], i: usize, j: usize, t: &[u8]) -> (r: bool)
    requires
        i <= j <= s.len(),
    ensures
        r == (s@.subrange(i as int, j as int) == t@),
{
    if j - i != t.len() {
        assert(s@.subrange(i as int, j as int).len() != t@.len());
        return false;
    }
    let mut k: usize = 0;
    while k < t.len()
        invariant
            0 <= k <= t.len(),
            j - i == t.len(),
            i <= j <= s.len(),
            forall|q: int| 0 <= q < k ==> s@[i + q] == t@[q],
        decreases t.len() - k,
    {
        if s[i + k] != t[k] {
            assert(s@.subrange(i as int, j as int)[k as int] != t@[k as int]);
            return false;
        }
        k += 1;
    }
    assert(s@.subrange(i as int, j as int) =~= t@);
    true
}

/// Whether `s[i..j]` is the text of keyword `k`.
fn keyword_matches(s: &[u8], i: usize, j: usize, k: Token) -> (r: bool)
    requires
        i <= j <= s.len(),
    ensures
        r == (s@.subrange(i as int, j as int) == keyword_text(k)),
{
    match k {
        Token::KwPackage => {
            let t: [u8; 7] = [112u8, 97, 99, 107, 97, 103, 101];
            assert(t@ =~= keyword_text(Token::KwPackage));
            bytes_equal_at(s, i, j, &t)
        },
        Token::KwImport => {
            let t: [u8; 6] = [105u8, 109, 112, 111, 114, 116];
            assert(t@ =~= keyword_text(Token::KwImport));
            bytes_equal_at(s, i, j, &t)
        },
        Token::KwAs => {
            let t: [u8; 2] = [97u8, 115];
            assert(t@ =~= keyword_text(Token::KwAs));
            bytes_equal_at(s, i, j, &t)
        },
        Token::KwType => {
            let t: [u8; 4] = [116u8, 121, 112, 101];
            assert(t@ =~= keyword_text(Token::KwType));
            bytes_equal_at(s, i, j, &t)
        },
        Token::KwShape => {
            let t: [u8; 5] = [115u8, 104, 97, 112, 101];
            assert(t@ =~= keyword_text(Token::KwShape));
            bytes_equal_at(s, i, j, &t)
        },
        Token::KwEnum => {
            let t: [u8; 4] = [101u8, 110, 117, 109];
            assert(t@ =~= keyword_text(Token::KwEnum));
            bytes_equal_at(s, i, j, &t)
        },
        Token::KwOneof => {
            let t: [u8; 5] = [111u8, 110, 101, 111, 102];
            assert(t@ =~= keyword_text(Token::KwOneof));
            bytes_equal_at(s, i, j, &t)
        },
        Token::KwService => {
            let t: [u8; 7] = [115u8, 101, 114, 118, 105, 99, 101];
            assert(t@ =~= keyword_text(Token::KwService));
            bytes_equal_at(s, i, j, &t)
        },
        Token::KwRpc => {
            let t: [u8; 3] = [114u8, 112, 99];
            assert(t@ =~= keyword_text(Token::KwRpc));
            bytes_equal_at(s, i, j, &t)
        },
        Token::KwAnnotation => {
            let t: [u8; 10] = [97u8, 110, 110, 111, 116, 97, 116, 105, 111, 110];
            assert(t@ =~= keyword_text(Token::KwAnnotation));
            bytes_equal_at(s, i, j, &t)
        },
        Token::KwFor => {
            let t: [u8; 3] = [102u8, 111, 114];
            assert(t@ =~= keyword_text(Token::KwFor));
            bytes_equal_at(s, i, j, &t)
        },
        Token::KwVoid => {
            let t: [u8; 4] = [118u8, 111, 105, 100];
            assert(t@ =~= keyword_text(Token::KwVoid));
            bytes_equal_at(s, i, j, &t)
        },
        Token::KwStream => {
            let t: [u8; 6] = [115u8, 116, 114, 101, 97, 109];
            assert(t@ =~= keyword_text(Token::KwStream));
            bytes_equal_at(s, i, j, &t)
        },
        Token::KwMap => {
            let t: [u8; 3] = [109u8, 97, 112];
            assert(t@ =~= keyword_text(Token::KwMap));
            bytes_equal_at(s, i, j, &t)
        },
        Token::KwPick => {
            let t: [u8; 4] = [80u8, 105, 99, 107];
            assert(t@ =~= keyword_text(Token::KwPick));
            bytes_equal_at(s, i, j, &t)
        },
        Token::KwOmit => {
            let t: [u8; 4] = [79u8, 109, 105, 116];
            assert(t@ =~= keyword_text(Token::KwOmit));
            bytes_equal_at(s, i, j, &t)
        },
        Token::KwTrue => {
            let t: [u8; 4] = [116u8, 114, 117, 101];
            assert(t@ =~= keyword_text(Token::KwTrue));
            bytes_equal_at(s, i, j, &t)
        },
        Token::KwFalse => {
            let t: [u8; 5] = [102u8, 97, 108, 115, 101];
            assert(t@ =~= keyword_text(Token::KwFalse));
            bytes_equal_at(s, i, j, &t)
        },
        Token::KwNow => {
            let t: [u8; 3] = [110u8, 111, 119];
            assert(t@ =~= keyword_text(Token::KwNow));
            bytes_equal_at(s, i, j, &t)
        },
        Token::KwSelf => {
            let t: [u8; 4] = [115u8, 101, 108, 102];
            assert(t@ =~= keyword_text(Token::KwSelf));
            bytes_equal_at(s, i, j, &t)
        },
        Token::KwDefault => {
            let t: [u8; 7] = [100u8, 101, 102, 97, 117, 108, 116];
            assert(t@ =~= keyword_text(Token::KwDefault));
            bytes_equal_at(s, i, j, &t)
        },
        Token::KwCast => {
            let t: [u8; 4] = [99u8, 97, 115, 116];
            assert(t@ =~= keyword_text(Token::KwCast));
            bytes_equal_at(s, i, j, &t)
        },
        Token::KwRemoved => {
            let t: [u8; 7] = [114u8, 101, 109, 111, 118, 101, 100];
            assert(t@ =~= keyword_text(Token::KwRemoved));
            bytes_equal_at(s, i, j, &t)
        },
        Token::KwReserved => {
            let t: [u8; 8] = [114u8, 101, 115, 101, 114, 118, 101, 100];
            assert(t@ =~= keyword_text(Token::KwReserved));
            bytes_equal_at(s, i, j, &t)
        },
        Token::KwFallback => {
            let t: [u8; 8] = [102u8, 97, 108, 108, 98, 97, 99, 107];
            assert(t@ =~= keyword_text(Token::KwFallback));
            bytes_equal_at(s, i, j, &t)
        },
        _ => {
            let t: [u8; 0] = [];
            assert(t@ =~= keyword_text(k));
            bytes_equal_at(s, i, j, &t)
        },
    }
}

/// The keyword whose text is `s[i..j]`, if any.
fn keyword_at(s: &[u8], i: usize, j: usize) -> (r: Option<Token>)
    requires
        i <= j <= s.len(),
    ensures
        r == keyword_of(s@.subrange(i as int, j as int)),
{
    let kws: [Token; 25] = [Token::KwPackage, Token::KwImport, Token::KwAs, Token::KwType, Token::KwShape, Token::KwEnum, Token::KwOneof, Token::KwService, Token::KwRpc, Token::KwAnnotation, Token::KwFor, Token::KwVoid, Token::KwStream, Token::KwMap, Token::KwPick, Token::KwOmit, Token::KwTrue, Token::KwFalse, Token::KwNow, Token::KwSelf, Token::KwDefault, Token::KwCast, Token::KwRemoved, Token::KwReserved, Token::KwFallback];
    let ghost w = s@.subrange(i as int, j as int);
    assert(kws@ =~= keyword_tokens());
    assert(kws@.subrange(0, 25) =~= kws@);
    let mut t: usize = 0;
    while t < 25
        invariant
            t <= 25,
            i <= j <= s.len(),
            kws@ == keyword_tokens(),
            w == s@.subrange(i as int, j as int),
            keyword_in(w, kws@.subrange(t as int, 25)) == keyword_of(w),
        decreases 25 - t,
    {
        let k = kws[t];
        let ghost rest = kws@.subrange(t as int, 25);
        assert(rest[0] == k);
        if keyword_matches(s, i, j, k) {
            return Some(k);
        }
        assert(rest.subrange(1, rest.len() as int) =~= kws@.subrange(t + 1, 25));
        t += 1;
    }
    assert(kws@.subrange(25, 25).len() == 0);
    None
}



fn ident_start(b: u8) -> (r: bool)
    ensures
        r == is_ident_start(b),
{
    (97 <= b && b <= 122) || (65 <= b && b <= 90) || b == 95
}

fn digit(b: u8) -> (r: bool)
    ensures
        r == is_digit(b),
{
    48 <= b && b <= 57
}

fn space(b: u8) -> (r: bool)
    ensures
        r == is_space(b),
{
    b == 32 || b == 9 || b == 13 || b == 10
}

fn ident_end(s: &[u8], i: usize) -> (j: usize)
    requires
        i < s.len(),
        is_ident_start(s@[i as int]),
    ensures
        i < j <= s.len(),
        is_ident(s@.subrange(i as int, j as int)),
        j == s.len() || !is_ident_continue(s@[j as int]),
{
    let mut j = i + 1;
    while j < s.len() && (ident_start(s[j]) || digit(s[j]))
        invariant
            i < j <= s.len(),
            is_ident_start(s@[i as int]),
            forall|k: int| i + 1 <= k < j ==> is_ident_continue(#[trigger] s@[k]),
        decreases s.len() - j,
    {
        j += 1;
    }
    let ghost w = s@.subrange(i as int, j as int);
    assert forall|k: int| 1 <= k < w.len() implies is_ident_continue(#[trigger] w[k]) by {
        assert(w[k] == s@[i + k]);
    }
    assert(w[0] == s@[i as int]);
    j
}

fn digits_end(s: &[u8], from: usize) -> (j: usize)
    requires
        from <= s.len(),
    ensures
        from <= j <= s.len(),
        j > from ==> is_int(s@.subrange(from as int, j as int)),
        j == s.len() || !is_digit(s@[j as int]),
{
    let mut j = from;
    while j < s.len() && digit(s[j])
        invariant
            from <= j <= s.len(),
            forall|k: int| from <= k < j ==> is_digit(#[trigger] s@[k]),
        decreases s.len() - j,
    {
        j += 1;
    }
    let ghost w = s@.subrange(from as int, j as int);
    assert forall|k: int| 0 <= k < w.len() implies is_digit(#[trigger] w[k]) by {
        assert(w[k] == s@[from + k]);
    }
    j
}

fn spaces_end(s: &[u8], i: usize) -> (j: usize)
    requires
        i < s.len(),
        is_space(s@[i as int]),
    ensures
        i < j <= s.len(),
        is_whitespace(s@.subrange(i as int, j as int)),
        j == s.len() || !is_space(s@[j as int]),
{
    let mut j = i + 1;
    while j < s.len() && space(s[j])
        invariant
            i < j <= s.len(),
            forall|k: int| i <= k < j ==> is_space(#[trigger] s@[k]),
        decreases s.len() - j,
    {
        j += 1;
    }
    let ghost w = s@.subrange(i as int, j as int);
    assert forall|k: int| 0 <= k < w.len() implies is_space(#[trigger] w[k]) by {
        assert(w[k] == s@[i + k]);
    }
    j
}

/// End of a line comment that starts at `i`.
fn line_end(s: &[u8], i: usize) -> (j: usize)
    requires
        i + 2 <= s.len(),
        s@[i as int] == 47,
        s@[i + 1] == 47,
    ensures
        i + 2 <= j <= s.len(),
        is_line_comment(s@.subrange(i as int, j as int)),
        j == s.len() || s@[j as int] == 10,
{
    let mut j = i + 2;
    while j < s.len() && s[j] != 10
        invariant
            i + 2 <= j <= s.len(),
            forall|k: int| i + 2 <= k < j ==> #[trigger] s@[k] != 10,
        decreases s.len() - j,
    {
        j += 1;
    }
    let ghost w = s@.subrange(i as int, j as int);
    assert forall|k: int| 2 <= k < w.len() implies #[trigger] w[k] != 10 by {
        assert(w[k] == s@[i + k]);
    }
    assert(w[0] == s@[i as int]);
    assert(w[1] == s@[i + 1]);
    j
}

/// The first `q >= from` where `*/` starts, or a `q` with `q + 1 >= s.len()` if none does.
fn comment_close(s: &[u8], from: usize) -> (q: usize)
    requires
        from <= s.len(),
    ensures
        from <= q <= s.len(),
        q + 1 < s.len() ==> closes_at(s@, q as int),
        forall|r: int| from <= r < q ==> !#[trigger] closes_at(s@, r),
{
    let mut q = from;
    while q < s.len() && q + 1 < s.len()
        invariant
            from <= q <= s.len(),
            forall|r: int| from <= r < q ==> !#[trigger] closes_at(s@, r),
        decreases s.len() - q,
    {
        if s[q] == 42 && s[q + 1] == 47 {
            return q;
        }
        q += 1;
    }
    q
}

/// Scan a string body after the quote at `i`. Returns `(true, p)` when the
/// closing quote is at `p`, and `(false, p)` when the literal cannot be closed:
/// `p` is the end of input or an escape backslash before a newline or the end.
fn string_scan(s: &[u8], i: usize) -> (r: (bool, usize))
    requires
        i < s.len(),
        s@[i as int] == 34,
    ensures
        i + 1 <= r.1 <= s.len(),
        body_ok(s@.subrange(i + 1, r.1 as int)),
        forall|q: int|
            i + 1 <= q < r.1 && body_ok(#[trigger] s@.subrange(i + 1, q)) ==> s@[q] != 34,
        r.0 ==> r.1 < s.len() && s@[r.1 as int] == 34,
        !r.0 ==> r.1 == s.len() || (s@[r.1 as int] == 92 && (r.1 + 1 == s.len() || s@[r.1 + 1]
            == 10)),
{
    let mut p = i + 1;
    assert(s@.subrange(i + 1, p as int) =~= Seq::<u8>::empty());
    while p < s.len()
        invariant
            i + 1 <= p <= s.len(),
            body_ok(s@.subrange(i + 1, p as int)),
            forall|q: int|
                i + 1 <= q < p && body_ok(#[trigger] s@.subrange(i + 1, q)) ==> s@[q] != 34,
        decreases s.len() - p,
    {
        let b = s[p];
        let ghost x = s@.subrange(i + 1, p as int);
        if b == 34 {
            return (true, p);
        } else if b == 92 {
            if p + 1 < s.len() && s[p + 1] != 10 {
                proof {
                    let z = s@.subrange(p as int, p + 2);
                    assert(s@.subrange(i + 1, p + 2) =~= x + z);
                    lemma_body_concat(x, z);
                    assert(z.subrange(2, 2) =~= Seq::<u8>::empty());
                    assert(body_ok(z.subrange(2, 2)));
                    assert(z[0] == 92 && z[1] == s@[p + 1]);
                    assert(body_ok(z));
                    let z1 = s@.subrange(p as int, p + 1);
                    assert(s@.subrange(i + 1, p + 1) =~= x + z1);
                    lemma_body_concat(x, z1);
                    assert(!body_ok(z1));
                }
                p += 2;
            } else {
                return (false, p);
            }
        } else {
            proof {
                let z = s@.subrange(p as int, p + 1);
                assert(s@.subrange(i + 1, p + 1) =~= x + z);
                lemma_body_concat(x, z);
                assert(z.subrange(1, 1) =~= Seq::<u8>::empty());
                assert(body_ok(z.subrange(1, 1)));
                assert(z[0] == b);
                assert(body_ok(z));
            }
            p += 1;
        }
    }
    (false, p)
}

/// The first index at or after `p` that starts a character.
fn boundary_at(s: &[u8], p: usize) -> (q: usize)
    requires
        p <= s.len(),
    ensures
        q == next_boundary(s@, p as int),
{
    let mut q = p;
    while q < s.len() && 128 <= s[q] && s[q] < 192
        invariant
            p <= q <= s.len(),
            next_boundary(s@, q as int) == next_boundary(s@, p as int),
        decreases s.len() - q,
    {
        q += 1;
    }
    q
}

/// Punctuation at `i`: its kind and length.
fn punct_at(s: &[u8], i: usize) -> (r: Option<(Token, usize)>)
    requires
        i < s.len(),
    ensures
        match r {
            Some((k, n)) => {
                &&& n == 1 || n == 2
                &&& i + n <= s.len()
                &&& punct_kind(s@.subrange(i as int, i + n)) == Some(k)
                &&& n == 1 ==> (i + 1 == s.len() || punct_kind(s@.subrange(i as int, i + 2)) is None)
            },
            None => punct_kind(s@.subrange(i as int, i + 1)) is None,
        },
{
    let b = s[i];
    let next: u8 = if i + 1 < s.len() { s[i + 1] } else { 0 };
    let ghost w1 = s@.subrange(i as int, i + 1);
    assert(w1[0] == b);
    proof {
        if i + 1 < s.len() {
            let w2 = s@.subrange(i as int, i + 2);
            assert(w2[0] == b);
            assert(w2[1] == next);
        }
    }
    let r = if b == 58 {
        if next == 58 { Some((Token::ColonColon, 2)) } else { Some((Token::Colon, 1)) }
    } else if b == 45 {
        if next == 62 { Some((Token::Arrow, 2)) } else { Some((Token::Minus, 1)) }
    } else if b == 60 {
        if next == 45 { Some((Token::BackArrow, 2)) } else { Some((Token::LAngle, 1)) }
    } else if b == 46 {
        if next == 46 { Some((Token::DotDot, 2)) } else { Some((Token::Dot, 1)) }
    } else if b == 91 {
        if next == 93 { Some((Token::Brackets, 2)) } else { Some((Token::LBracket, 1)) }
    } else if b == 123 { Some((Token::LBrace, 1)) }
    else if b == 125 { Some((Token::RBrace, 1)) }
    else if b == 40 { Some((Token::LParen, 1)) }
    else if b == 41 { Some((Token::RParen, 1)) }
    else if b == 62 { Some((Token::RAngle, 1)) }
    else if b == 93 { Some((Token::RBracket, 1)) }
    else if b == 59 { Some((Token::Semicolon, 1)) }
    else if b == 44 { Some((Token::Comma, 1)) }
    else if b == 61 { Some((Token::Eq, 1)) }
    else if b == 64 { Some((Token::At, 1)) }
    else if b == 63 { Some((Token::Question, 1)) }
    else if b == 124 { Some((Token::Pipe, 1)) }
    else if b == 42 { Some((Token::Star, 1)) }
    else if b == 47 { Some((Token::Slash, 1)) }
    else { None };
    r
}

/// The next lexed item at `i`: a token kind (or `None` for an error) and its end.
fn scan_item(s: &[u8], i: usize) -> (r: (Option<Token>, usize))
    requires
        i < s.len(),
    ensures
        i < r.1 <= s.len(),
        lex_from(s@, i as int) == seq![(r.0, i as int, r.1 as int)] + lex_from(s@, r.1 as int),
{
    let ghost sv = s@;
    let b = s[i];
    if ident_start(b) {
        let j = ident_end(s, i);
        let k = keyword_at(s, i, j);
        proof { lemma_ident_longest(sv, i as int, j as int); }
        let kind = match k { Some(kw) => kw, None => Token::Ident };
        (Some(kind), j)
    } else if digit(b) {
        let j = digits_end(s, i);
        if j < s.len() && j + 1 < s.len() && s[j] == 46 && digit(s[j + 1]) {
            let k = digits_end(s, j + 1);
            proof { lemma_float_longest(sv, i as int, j as int, k as int); }
            (Some(Token::FloatLiteral), k)
        } else {
            proof { lemma_int_longest(sv, i as int, j as int); }
            (Some(Token::IntLiteral), j)
        }
    } else if b == 34 {
        let (closed, p) = string_scan(s, i);
        if closed {
            proof { lemma_string_longest(sv, i as int, p as int); }
            (Some(Token::StringLiteral), p + 1)
        } else {
            proof { lemma_string_error(sv, i as int, p as int); }
            let e = if p == s.len() { p } else { p + 1 };
            (None, e)
        }
    } else if space(b) {
        let j = spaces_end(s, i);
        proof { lemma_whitespace_longest(sv, i as int, j as int); }
        (Some(Token::Whitespace), j)
    } else if b == 47 && i + 1 < s.len() && s[i + 1] == 47 {
        let j = line_end(s, i);
        proof { lemma_line_comment_longest(sv, i as int, j as int); }
        (Some(Token::LineComment), j)
    } else if b == 47 && i + 1 < s.len() && s[i + 1] == 42 {
        let q = comment_close(s, i + 2);
        if q < s.len() && q + 1 < s.len() {
            proof { lemma_block_comment_longest(sv, i as int, q as int); }
            (Some(Token::BlockComment), q + 2)
        } else {
            proof { lemma_open_comment_is_slash(sv, i as int, q as int); }
            (Some(Token::Slash), i + 1)
        }
    } else if b == 47 {
        proof { lemma_slash_longest(sv, i as int); }
        (Some(Token::Slash), i + 1)
    } else {
        match punct_at(s, i) {
            Some((k, n)) => {
                proof { lemma_punct_longest(sv, i as int, n as int, k); }
                (Some(k), i + n)
            },
            None => {
                proof { lemma_other_error(sv, i as int); }
                let e = boundary_at(s, i + 1);
                proof { lemma_next_boundary_bounds(sv, i + 1); }
                (None, e)
            },
        }
    }
}


/// Byte offset range in source text.
pub type Span = std::ops::Range<usize>;

/// A token with its byte span in the source text.
#[derive(Debug, PartialEq, Eq)]
pub struct LexedToken {
    pub kind: Token,
    pub span: Span,
}

impl Clone for LexedToken {
    fn clone(&self) -> (r: Self)
        ensures
            r == *self,
    {
        LexedToken { kind: self.kind, span: self.span.start..self.span.end }
    }
}

/// The lexed item that a result of [`lex`] stands for.
pub open spec fn item_of(r: Result<LexedToken, Span>) -> LexItem {
    match r {
        Ok(t) => (Some(t.kind), t.span.start as int, t.span.end as int),
        Err(sp) => (None, sp.start as int, sp.end as int),
    }
}

/// Lex the entire source into a list of tokens.
/// Bytes that start no token produce an `Err` with their span: the caller
/// decides how to report them.
pub fn lex(source: &str) -> (tokens: Vec<Result<LexedToken, Span>>)
    ensures
        tokens@.map_values(|r: Result<LexedToken, Span>| item_of(r)) == lex_spec(
            source.spec_bytes(),
        ),
{
    let s = source.as_bytes();
    let mut tokens: Vec<Result<LexedToken, Span>> = Vec::new();
    let mut i: usize = 0;
    while i < s.len()
        invariant
            i <= s.len(),
            s@ == source.spec_bytes(),
            tokens@.map_values(|r: Result<LexedToken, Span>| item_of(r)) + lex_from(s@, i as int)
                == lex_from(s@, 0),
        decreases s.len() - i,
    {
        let (kind, end) = scan_item(s, i);
        let ghost old_view = tokens@.map_values(|r: Result<LexedToken, Span>| item_of(r));
        let item = match kind {
            Some(k) => Ok(LexedToken { kind: k, span: i..end }),
            None => Err(i..end),
        };
        tokens.push(item);
        assert(tokens@.map_values(|r: Result<LexedToken, Span>| item_of(r)) =~= old_view.push(
            (kind, i as int, end as int),
        ));
        assert(old_view.push((kind, i as int, end as int)) + lex_from(s@, end as int) =~= old_view
            + (seq![(kind, i as int, end as int)] + lex_from(s@, end as int)));
        i = end;
    }
    assert(lex_from(s@, i as int) =~= Seq::<LexItem>::empty());
    assert(tokens@.map_values(|r: Result<LexedToken, Span>| item_of(r)) =~= lex_from(s@, 0));
    tokens
}

/// Lexing is lossless: the items tile the source. Each item is nonempty,
/// each starts where the previous one ends, the first starts at `i` and
/// the last ends at the end of the source.
pub proof fn lemma_lex_tiles(s: Seq<u8>, i: int)
    requires
        0 <= i <= s.len(),
    ensures
        ({
            let l = lex_from(s, i);
            &&& (l.len() == 0 <==> i == s.len())
            &&& forall|k: int| 0 <= k < l.len() ==> (#[trigger] l[k]).1 < l[k].2
            &&& forall|k: int| 0 <= k < l.len() - 1 ==> (#[trigger] l[k]).2 == l[k + 1].1
            &&& l.len() > 0 ==> l[0].1 == i && l[l.len() - 1].2 == s.len()
        }),
    decreases s.len() - i,
{
    if i < s.len() {
        let n = longest_len(s, i);
        let e = if n > 0 {
            lemma_longest_from_bounds(s, i, s.len() - i);
            i + n
        } else {
            lemma_error_end_bounds(s, i);
            error_end(s, i)
        };
        lemma_lex_tiles(s, e);
        let l = lex_from(s, i);
        let rest = lex_from(s, e);
        assert(l == seq![l[0]] + rest);
        assert(l[0].2 == e);
        assert forall|k: int| 0 <= k < l.len() implies (#[trigger] l[k]).1 < l[k].2 by {
            if k > 0 {
                assert(l[k] == rest[k - 1]);
            }
        }
        assert forall|k: int| 0 <= k < l.len() - 1 implies (#[trigger] l[k]).2 == l[k + 1].1 by {
            if k > 0 {
                assert(l[k] == rest[k - 1]);
            }
            assert(l[k + 1] == rest[k]);
        }
        if rest.len() > 0 {
            assert(l[l.len() - 1] == rest[rest.len() - 1]);
        }
    }
}

/// The lexing of a whole source tiles it from byte 0 to its end.
pub proof fn lemma_lex_spec_tiles(s: Seq<u8>)
    ensures
        ({
            let l = lex_spec(s);
            &&& (l.len() == 0 <==> s.len() == 0)
            &&& forall|k: int| 0 <= k < l.len() ==> (#[trigger] l[k]).1 < l[k].2
            &&& forall|k: int| 0 <= k < l.len() - 1 ==> (#[trigger] l[k]).2 == l[k + 1].1
            &&& l.len() > 0 ==> l[0].1 == 0 && l[l.len() - 1].2 == s.len()
        }),
{
    lemma_lex_tiles(s, 0);
}

} // verus!
