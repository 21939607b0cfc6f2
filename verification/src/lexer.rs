//! The lexer: source bytes to spanned tokens.
//!
//! Whitespace and `//` line comments are skipped between tokens. An integer
//! literal is an optional `-` immediately followed by decimal digits; an
//! identifier is an ASCII letter followed by letters, digits or `_`, with
//! `shape` and `move` reclassified as keywords; a tag is `#` followed by
//! zero or more letters, digits, `_` or `-`. A byte that can start no token
//! is skipped with one diagnostic, and lexing resumes; a literal outside
//! the numeric range is skipped whole, also with one diagnostic.

use vstd::prelude::*;

use crate::diag::{Diag, DiagKind, Span};

verus! {

/// A half-open byte-offset span attached to a node.
#[derive(Debug, Clone, PartialEq)]
pub struct Spanned<T> {
    pub node: T,
    pub span: Span,
}

/// One lexical token.
#[derive(Debug, Clone, PartialEq)]
pub enum Token {
    Num(i64),
    Ident(Vec<u8>),
    Shape,
    Move,
    Tag(Vec<u8>),
    At,
    Comma,
    Colon,
    OpenCurly,
    CloseCurly,
    OpenSquare,
    CloseSquare,
}

/// The mathematical shape of a token.
pub enum TokenV {
    Num(int),
    Ident(Seq<u8>),
    Shape,
    Move,
    Tag(Seq<u8>),
    At,
    Comma,
    Colon,
    OpenCurly,
    CloseCurly,
    OpenSquare,
    CloseSquare,
}

pub open spec fn token_view(t: Token) -> TokenV {
    match t {
        Token::Num(n) => TokenV::Num(n as int),
        Token::Ident(v) => TokenV::Ident(v@),
        Token::Shape => TokenV::Shape,
        Token::Move => TokenV::Move,
        Token::Tag(v) => TokenV::Tag(v@),
        Token::At => TokenV::At,
        Token::Comma => TokenV::Comma,
        Token::Colon => TokenV::Colon,
        Token::OpenCurly => TokenV::OpenCurly,
        Token::CloseCurly => TokenV::CloseCurly,
        Token::OpenSquare => TokenV::OpenSquare,
        Token::CloseSquare => TokenV::CloseSquare,
    }
}

/// A token with its span, mathematically.
pub struct SToken {
    pub tok: TokenV,
    pub start: int,
    pub end: int,
}

pub open spec fn spanned_views(ts: Seq<Spanned<Token>>) -> Seq<SToken> {
    ts.map_values(
        |st: Spanned<Token>|
            SToken { tok: token_view(st.node), start: st.span.start as int, end: st.span.end as int },
    )
}

pub open spec fn is_ws(b: u8) -> bool {
    b == 9 || b == 10 || b == 11 || b == 12 || b == 13 || b == 32
}

pub open spec fn is_digit(b: u8) -> bool {
    48 <= b <= 57
}

pub open spec fn is_alpha(b: u8) -> bool {
    (65 <= b <= 90) || (97 <= b <= 122)
}

pub open spec fn is_ident_cont(b: u8) -> bool {
    is_alpha(b) || is_digit(b) || b == 95
}

pub open spec fn is_tag_char(b: u8) -> bool {
    is_alpha(b) || is_digit(b) || b == 95 || b == 45
}

/// The position of the next line feed at or after `i`, or the end of input.
pub open spec fn line_end(s: Seq<u8>, i: int) -> int
    decreases s.len() - i,
{
    if 0 <= i < s.len() {
        if s[i] == 10 {
            i
        } else {
            line_end(s, i + 1)
        }
    } else {
        s.len() as int
    }
}

pub proof fn lemma_line_end(s: Seq<u8>, i: int)
    requires
        0 <= i <= s.len(),
    ensures
        i <= line_end(s, i) <= s.len(),
    decreases s.len() - i,
{
    if i < s.len() && s[i] != 10 {
        lemma_line_end(s, i + 1);
    }
}

/// The position of the first byte after `i` that is neither whitespace nor
/// part of a `//` comment.
pub open spec fn skip_trivia(s: Seq<u8>, i: int) -> int
    decreases s.len() - i,
    via skip_trivia_decreases
{
    if 0 <= i < s.len() {
        if is_ws(s[i]) {
            skip_trivia(s, i + 1)
        } else if s[i] == 47 && i + 1 < s.len() && s[i + 1] == 47 {
            skip_trivia(s, line_end(s, i + 2))
        } else {
            i
        }
    } else {
        i
    }
}

#[via_fn]
proof fn skip_trivia_decreases(s: Seq<u8>, i: int) {
    if 0 <= i < s.len() && !is_ws(s[i]) && s[i] == 47 && i + 1 < s.len() && s[i + 1] == 47 {
        lemma_line_end(s, i + 2);
    }
}

pub proof fn lemma_skip_trivia(s: Seq<u8>, i: int)
    requires
        0 <= i <= s.len(),
    ensures
        i <= skip_trivia(s, i) <= s.len(),
    decreases s.len() - i,
{
    if 0 <= i < s.len() {
        if is_ws(s[i]) {
            lemma_skip_trivia(s, i + 1);
        } else if s[i] == 47 && i + 1 < s.len() && s[i + 1] == 47 {
            lemma_line_end(s, i + 2);
            lemma_skip_trivia(s, line_end(s, i + 2));
        }
    }
}

/// The end of a maximal digit run starting at `i`.
pub open spec fn digits_end(s: Seq<u8>, i: int) -> int
    decreases s.len() - i,
{
    if 0 <= i < s.len() && is_digit(s[i]) {
        digits_end(s, i + 1)
    } else {
        i
    }
}

/// The end of a maximal identifier-continuation run starting at `i`.
pub open spec fn ident_end(s: Seq<u8>, i: int) -> int
    decreases s.len() - i,
{
    if 0 <= i < s.len() && is_ident_cont(s[i]) {
        ident_end(s, i + 1)
    } else {
        i
    }
}

/// The end of a maximal tag-character run starting at `i`.
pub open spec fn tag_end(s: Seq<u8>, i: int) -> int
    decreases s.len() - i,
{
    if 0 <= i < s.len() && is_tag_char(s[i]) {
        tag_end(s, i + 1)
    } else {
        i
    }
}

pub proof fn lemma_digits_end(s: Seq<u8>, i: int)
    requires
        0 <= i <= s.len(),
    ensures
        i <= digits_end(s, i) <= s.len(),
    decreases s.len() - i,
{
    if 0 <= i < s.len() && is_digit(s[i]) {
        lemma_digits_end(s, i + 1);
    }
}

pub proof fn lemma_ident_end(s: Seq<u8>, i: int)
    requires
        0 <= i <= s.len(),
    ensures
        i <= ident_end(s, i) <= s.len(),
    decreases s.len() - i,
{
    if 0 <= i < s.len() && is_ident_cont(s[i]) {
        lemma_ident_end(s, i + 1);
    }
}

pub proof fn lemma_tag_end(s: Seq<u8>, i: int)
    requires
        0 <= i <= s.len(),
    ensures
        i <= tag_end(s, i) <= s.len(),
    decreases s.len() - i,
{
    if 0 <= i < s.len() && is_tag_char(s[i]) {
        lemma_tag_end(s, i + 1);
    }
}

/// The value of the decimal digit run `s[i..end)`.
pub open spec fn digits_val(s: Seq<u8>, i: int, end: int) -> int
    decreases end - i,
{
    if i >= end {
        0
    } else {
        digits_val(s, i, end - 1) * 10 + (s[end - 1] - 48)
    }
}

pub open spec fn shape_kw() -> Seq<u8> {
    seq![115u8, 104u8, 97u8, 112u8, 101u8]
}

pub open spec fn move_kw() -> Seq<u8> {
    seq![109u8, 111u8, 118u8, 101u8]
}

/// The outcome of scanning one token at a position that holds no trivia.
pub enum Scan {
    /// A token and the position after it.
    Tok(TokenV, int),
    /// An integer literal out of range; the position after its digits.
    Overflow(int),
    /// No token can start here.
    Bad,
}

/// Scan the token starting exactly at `i` (`i` past all trivia).
pub open spec fn scan_token(s: Seq<u8>, i: int) -> Scan
    recommends
        0 <= i < s.len(),
{
    let b = s[i];
    if is_digit(b) || (b == 45 && i + 1 < s.len() && is_digit(s[i + 1])) {
        let dstart = if b == 45 {
            i + 1
        } else {
            i
        };
        let dend = digits_end(s, dstart);
        let mag = digits_val(s, dstart, dend);
        if b == 45 {
            if mag <= 0x8000_0000_0000_0000 {
                Scan::Tok(TokenV::Num(-mag), dend)
            } else {
                Scan::Overflow(dend)
            }
        } else {
            if mag <= 0x7fff_ffff_ffff_ffff {
                Scan::Tok(TokenV::Num(mag), dend)
            } else {
                Scan::Overflow(dend)
            }
        }
    } else if is_alpha(b) {
        let end = ident_end(s, i + 1);
        let w = s.subrange(i, end);
        if w == shape_kw() {
            Scan::Tok(TokenV::Shape, end)
        } else if w == move_kw() {
            Scan::Tok(TokenV::Move, end)
        } else {
            Scan::Tok(TokenV::Ident(w), end)
        }
    } else if b == 35 {
        let end = tag_end(s, i + 1);
        Scan::Tok(TokenV::Tag(s.subrange(i + 1, end)), end)
    } else if b == 64 {
        Scan::Tok(TokenV::At, i + 1)
    } else if b == 44 {
        Scan::Tok(TokenV::Comma, i + 1)
    } else if b == 58 {
        Scan::Tok(TokenV::Colon, i + 1)
    } else if b == 123 {
        Scan::Tok(TokenV::OpenCurly, i + 1)
    } else if b == 125 {
        Scan::Tok(TokenV::CloseCurly, i + 1)
    } else if b == 91 {
        Scan::Tok(TokenV::OpenSquare, i + 1)
    } else if b == 93 {
        Scan::Tok(TokenV::CloseSquare, i + 1)
    } else {
        Scan::Bad
    }
}

pub proof fn lemma_scan_advances(s: Seq<u8>, i: int)
    requires
        0 <= i < s.len(),
    ensures
        match scan_token(s, i) {
            Scan::Tok(_, e) => i < e <= s.len(),
            Scan::Overflow(e) => i < e <= s.len(),
            Scan::Bad => true,
        },
{
    lemma_digits_end(s, i);
    if i + 1 <= s.len() {
        lemma_digits_end(s, i + 1);
        lemma_ident_end(s, i + 1);
        lemma_tag_end(s, i + 1);
    }
}

/// The token stream of the whole input from position `i`.
pub open spec fn lex_toks(s: Seq<u8>, i: int) -> Seq<SToken>
    recommends
        0 <= i <= s.len(),
    decreases s.len() - i,
    via lex_toks_decreases
{
    let j = skip_trivia(s, i);
    if !(0 <= i <= s.len()) || j >= s.len() {
        Seq::empty()
    } else {
        match scan_token(s, j) {
            Scan::Tok(t, e) => seq![SToken { tok: t, start: j, end: e }] + lex_toks(s, e),
            Scan::Overflow(e) => lex_toks(s, e),
            Scan::Bad => lex_toks(s, j + 1),
        }
    }
}

#[via_fn]
proof fn lex_toks_decreases(s: Seq<u8>, i: int) {
    if 0 <= i <= s.len() {
        lemma_skip_trivia(s, i);
        let j = skip_trivia(s, i);
        if j < s.len() {
            lemma_scan_advances(s, j);
        }
    }
}

/// The diagnostics of the whole input from position `i`.
pub open spec fn lex_diags(s: Seq<u8>, i: int) -> Seq<Diag>
    recommends
        0 <= i <= s.len(),
    decreases s.len() - i,
    via lex_diags_decreases
{
    let j = skip_trivia(s, i);
    if !(0 <= i <= s.len()) || j >= s.len() {
        Seq::empty()
    } else {
        match scan_token(s, j) {
            Scan::Tok(t, e) => lex_diags(s, e),
            Scan::Overflow(e) => seq![
                Diag {
                    kind: DiagKind::NumberOverflow,
                    span: Span { start: j as usize, end: e as usize },
                },
            ] + lex_diags(s, e),
            Scan::Bad => seq![
                Diag {
                    kind: DiagKind::UnexpectedChar,
                    span: Span { start: j as usize, end: (j + 1) as usize },
                },
            ] + lex_diags(s, j + 1),
        }
    }
}

#[via_fn]
proof fn lex_diags_decreases(s: Seq<u8>, i: int) {
    if 0 <= i <= s.len() {
        lemma_skip_trivia(s, i);
        let j = skip_trivia(s, i);
        if j < s.len() {
            lemma_scan_advances(s, j);
        }
    }
}

/// Advance past whitespace and line comments.
fn skip_trivia_exec(src: &Vec<u8>, start: usize) -> (r: usize)
    requires
        start <= src@.len(),
    ensures
        r as int == skip_trivia(src@, start as int),
        start <= r <= src@.len(),
{
    let n = src.len();
    let mut i = start;
    loop
        invariant
            start <= i <= n,
            n == src@.len(),
            skip_trivia(src@, start as int) == skip_trivia(src@, i as int),
        ensures
            i <= n,
            skip_trivia(src@, start as int) == skip_trivia(src@, i as int),
            i as int == skip_trivia(src@, i as int),
        decreases n - i,
    {
        if i >= n {
            break ;
        }
        let b = src[i];
        if b == 9 || b == 10 || b == 11 || b == 12 || b == 13 || b == 32 {
            i = i + 1;
        } else if b == 47 && i + 1 < n && src[i + 1] == 47 {
            let mut j = i + 2;
            while j < n && src[j] != 10
                invariant
                    i + 2 <= j <= n,
                    n == src@.len(),
                    line_end(src@, i as int + 2) == line_end(src@, j as int),
                decreases n - j,
            {
                j = j + 1;
            }
            proof {
                assert(line_end(src@, j as int) == j as int);
            }
            i = j;
        } else {
            break ;
        }
    }
    proof {
        lemma_skip_trivia(src@, start as int);
    }
    i
}

/// The end of the maximal digit run from `start`.
fn digits_end_exec(src: &Vec<u8>, start: usize) -> (r: usize)
    requires
        start <= src@.len(),
    ensures
        r as int == digits_end(src@, start as int),
        start <= r <= src@.len(),
{
    let n = src.len();
    let mut i = start;
    while i < n && src[i] >= 48 && src[i] <= 57
        invariant
            start <= i <= n,
            n == src@.len(),
            digits_end(src@, start as int) == digits_end(src@, i as int),
        decreases n - i,
    {
        i = i + 1;
    }
    i
}

/// The end of the maximal identifier run from `start`.
fn ident_end_exec(src: &Vec<u8>, start: usize) -> (r: usize)
    requires
        start <= src@.len(),
    ensures
        r as int == ident_end(src@, start as int),
        start <= r <= src@.len(),
{
    let n = src.len();
    let mut i = start;
    while i < n && (
        (src[i] >= 65 && src[i] <= 90) || (src[i] >= 97 && src[i] <= 122) || (src[i] >= 48
            && src[i] <= 57) || src[i] == 95
    )
        invariant
            start <= i <= n,
            n == src@.len(),
            ident_end(src@, start as int) == ident_end(src@, i as int),
        decreases n - i,
    {
        i = i + 1;
    }
    i
}

/// The end of the maximal tag-character run from `start`.
fn tag_end_exec(src: &Vec<u8>, start: usize) -> (r: usize)
    requires
        start <= src@.len(),
    ensures
        r as int == tag_end(src@, start as int),
        start <= r <= src@.len(),
{
    let n = src.len();
    let mut i = start;
    while i < n && (
        (src[i] >= 65 && src[i] <= 90) || (src[i] >= 97 && src[i] <= 122) || (src[i] >= 48
            && src[i] <= 57) || src[i] == 95 || src[i] == 45
    )
        invariant
            start <= i <= n,
            n == src@.len(),
            tag_end(src@, start as int) == tag_end(src@, i as int),
        decreases n - i,
    {
        i = i + 1;
    }
    i
}

/// The bytes `src[a..b)` as an owned vector.
fn copy_range(src: &Vec<u8>, a: usize, b: usize) -> (r: Vec<u8>)
    requires
        a <= b <= src@.len(),
    ensures
        r@ == src@.subrange(a as int, b as int),
{
    let mut out: Vec<u8> = Vec::new();
    let mut i = a;
    while i < b
        invariant
            a <= i <= b <= src@.len(),
            out@ == src@.subrange(a as int, i as int),
        decreases b - i,
    {
        out.push(src[i]);
        proof {
            assert(out@ =~= src@.subrange(a as int, i as int + 1));
        }
        i = i + 1;
    }
    out
}

/// Whether `w` spells the keyword `shape`.
fn is_shape_word(w: &Vec<u8>) -> (r: bool)
    ensures
        r <==> w@ == shape_kw(),
{
    if w.len() == 5 && w[0] == 115 && w[1] == 104 && w[2] == 97 && w[3] == 112 && w[4] == 101 {
        proof {
            assert(w@ =~= shape_kw());
        }
        true
    } else {
        proof {
            if w@ == shape_kw() {
                assert(w@.len() == 5);
            }
        }
        false
    }
}

/// Whether `w` spells the keyword `move`.
fn is_move_word(w: &Vec<u8>) -> (r: bool)
    ensures
        r <==> w@ == move_kw(),
{
    if w.len() == 4 && w[0] == 109 && w[1] == 111 && w[2] == 118 && w[3] == 101 {
        proof {
            assert(w@ =~= move_kw());
        }
        true
    } else {
        proof {
            if w@ == move_kw() {
                assert(w@.len() == 4);
            }
        }
        false
    }
}

/// Read the digit run `src[dstart..dend)` into an accumulator that stops
/// growing once it exceeds the `u64` range.
fn read_digits(src: &Vec<u8>, dstart: usize, dend: usize) -> (r: u128)
    requires
        dstart <= dend <= src@.len(),
        dend as int == digits_end(src@, dstart as int),
    ensures
        digits_val(src@, dstart as int, dend as int) <= u64::MAX ==> r as int == digits_val(
            src@,
            dstart as int,
            dend as int,
        ),
        digits_val(src@, dstart as int, dend as int) > u64::MAX ==> r > u64::MAX,
        digits_val(src@, dstart as int, dend as int) >= 0,
{
    let mut acc: u128 = 0;
    let mut i = dstart;
    while i < dend
        invariant
            dstart <= i <= dend <= src@.len(),
            dend as int == digits_end(src@, dstart as int),
            acc <= 0xffff_ffff_ffff_ffff_fu128,
            digits_val(src@, dstart as int, i as int) <= u64::MAX ==> acc as int == digits_val(
                src@,
                dstart as int,
                i as int,
            ),
            digits_val(src@, dstart as int, i as int) > u64::MAX ==> acc > u64::MAX,
            digits_val(src@, dstart as int, i as int) >= 0,
        decreases dend - i,
    {
        let d = src[i];
        proof {
            lemma_digits_run(src@, dstart as int, dend as int, i as int);
        }
        if acc <= u64::MAX as u128 {
            acc = acc * 10 + (d - 48) as u128;
        }
        proof {
            let prev = digits_val(src@, dstart as int, i as int);
            let cur = digits_val(src@, dstart as int, i as int + 1);
            assert(cur == prev * 10 + (src@[i as int] - 48));
            if prev > u64::MAX {
                assert(cur >= prev * 10) by (nonlinear_arith)
                    requires
                        prev > 0,
                        cur == prev * 10 + (src@[i as int] - 48),
                        src@[i as int] >= 48,
                ;
            }
        }
        i = i + 1;
    }
    acc
}

/// Every byte of a digit run is a digit.
proof fn lemma_digits_run(s: Seq<u8>, start: int, end: int, i: int)
    requires
        0 <= start <= i < end <= s.len(),
        end == digits_end(s, start),
    ensures
        is_digit(s[i]),
    decreases i - start,
{
    lemma_digits_end(s, start);
    if i > start {
        assert(is_digit(s[start]));
        lemma_digits_run(s, start + 1, end, i);
    }
}

/// Lex the whole input: its tokens in order, and one diagnostic for every
/// byte or out-of-range literal that was skipped.
pub fn lexer(src: &Vec<u8>) -> (r: (Vec<Spanned<Token>>, Vec<Diag>))
    ensures
        spanned_views(r.0@) == lex_toks(src@, 0),
        r.1@ == lex_diags(src@, 0),
{
    let n = src.len();
    let mut tokens: Vec<Spanned<Token>> = Vec::new();
    let mut diags: Vec<Diag> = Vec::new();
    let mut pos: usize = 0;
    loop
        invariant
            pos <= n,
            n == src@.len(),
            lex_toks(src@, 0) == spanned_views(tokens@) + lex_toks(src@, pos as int),
            lex_diags(src@, 0) == diags@ + lex_diags(src@, pos as int),
        ensures
            lex_toks(src@, 0) == spanned_views(tokens@) + lex_toks(src@, pos as int),
            lex_diags(src@, 0) == diags@ + lex_diags(src@, pos as int),
            lex_toks(src@, pos as int) == Seq::<SToken>::empty(),
            lex_diags(src@, pos as int) == Seq::<Diag>::empty(),
        decreases n - pos,
    {
        let ghost old_pos = pos as int;
        let ghost old_tokens = tokens@;
        let ghost old_diags = diags@;
        let j = skip_trivia_exec(src, pos);
        if j >= n {
            proof {
                assert(lex_toks(src@, pos as int) =~= Seq::<SToken>::empty());
                assert(lex_diags(src@, pos as int) =~= Seq::<Diag>::empty());
            }
            break ;
        }
        let b = src[j];
        if (b >= 48 && b <= 57) || (b == 45 && j + 1 < n && src[j + 1] >= 48 && src[j + 1] <= 57) {
            let dstart = if b == 45 {
                j + 1
            } else {
                j
            };
            let dend = digits_end_exec(src, dstart);
            let acc = read_digits(src, dstart, dend);
            let bound: u128 = if b == 45 {
                0x8000_0000_0000_0000u128
            } else {
                0x7fff_ffff_ffff_ffffu128
            };
            if acc <= bound {
                let value: i64 = if b == 45 {
                    (-(acc as i128)) as i64
                } else {
                    acc as i64
                };
                tokens.push(
                    Spanned { node: Token::Num(value), span: Span { start: j, end: dend } },
                );
                proof {
                    let stok = SToken { tok: TokenV::Num(value as int), start: j as int, end: dend as int };
                    assert(scan_token(src@, j as int) == Scan::Tok(
                        TokenV::Num(value as int),
                        dend as int,
                    ));
                    assert(spanned_views(tokens@) =~= spanned_views(old_tokens).push(stok));
                    assert(spanned_views(old_tokens) + (seq![stok] + lex_toks(src@, dend as int))
                        =~= spanned_views(tokens@) + lex_toks(src@, dend as int));
                }
            } else {
                diags.push(
                    Diag { kind: DiagKind::NumberOverflow, span: Span { start: j, end: dend } },
                );
                proof {
                    let d = Diag { kind: DiagKind::NumberOverflow, span: Span { start: j, end: dend } };
                    assert(scan_token(src@, j as int) == Scan::Overflow(dend as int));
                    assert(diags@ =~= old_diags.push(d));
                    assert(old_diags + (seq![d] + lex_diags(src@, dend as int)) =~= diags@
                        + lex_diags(src@, dend as int));
                }
            }
            pos = dend;
        } else if (b >= 65 && b <= 90) || (b >= 97 && b <= 122) {
            let end = ident_end_exec(src, j + 1);
            let word = copy_range(src, j, end);
            let ghost wordv = word@;
            let tok = if is_shape_word(&word) {
                Token::Shape
            } else if is_move_word(&word) {
                Token::Move
            } else {
                Token::Ident(word)
            };
            proof {
                assert(token_view(tok) == (if wordv == shape_kw() {
                    TokenV::Shape
                } else if wordv == move_kw() {
                    TokenV::Move
                } else {
                    TokenV::Ident(wordv)
                }));
            }
            tokens.push(Spanned { node: tok, span: Span { start: j, end } });
            proof {
                let ghost t = (if wordv == shape_kw() {
                    TokenV::Shape
                } else if wordv == move_kw() {
                    TokenV::Move
                } else {
                    TokenV::Ident(wordv)
                });
                let stok = SToken { tok: t, start: j as int, end: end as int };
                assert(scan_token(src@, j as int) == Scan::Tok(t, end as int));
                assert(spanned_views(tokens@) =~= spanned_views(old_tokens).push(stok));
                assert(spanned_views(old_tokens) + (seq![stok] + lex_toks(src@, end as int))
                    =~= spanned_views(tokens@) + lex_toks(src@, end as int));
            }
            pos = end;
        } else if b == 35 {
            let end = tag_end_exec(src, j + 1);
            let name = copy_range(src, j + 1, end);
            let ghost namev = name@;
            tokens.push(Spanned { node: Token::Tag(name), span: Span { start: j, end } });
            proof {
                let stok = SToken { tok: TokenV::Tag(namev), start: j as int, end: end as int };
                assert(scan_token(src@, j as int) == Scan::Tok(TokenV::Tag(namev), end as int));
                assert(spanned_views(tokens@) =~= spanned_views(old_tokens).push(stok));
                assert(spanned_views(old_tokens) + (seq![stok] + lex_toks(src@, end as int))
                    =~= spanned_views(tokens@) + lex_toks(src@, end as int));
            }
            pos = end;
        } else if b == 64 || b == 44 || b == 58 || b == 123 || b == 125 || b == 91 || b == 93 {
            let tok = if b == 64 {
                Token::At
            } else if b == 44 {
                Token::Comma
            } else if b == 58 {
                Token::Colon
            } else if b == 123 {
                Token::OpenCurly
            } else if b == 125 {
                Token::CloseCurly
            } else if b == 91 {
                Token::OpenSquare
            } else {
                Token::CloseSquare
            };
            let ghost t = token_view(tok);
            tokens.push(Spanned { node: tok, span: Span { start: j, end: j + 1 } });
            proof {
                let stok = SToken { tok: t, start: j as int, end: j as int + 1 };
                assert(scan_token(src@, j as int) == Scan::Tok(t, j as int + 1));
                assert(spanned_views(tokens@) =~= spanned_views(old_tokens).push(stok));
                assert(spanned_views(old_tokens) + (seq![stok] + lex_toks(src@, j as int + 1))
                    =~= spanned_views(tokens@) + lex_toks(src@, j as int + 1));
            }
            pos = j + 1;
        } else {
            diags.push(
                Diag { kind: DiagKind::UnexpectedChar, span: Span { start: j, end: j + 1 } },
            );
            proof {
                let d = Diag {
                    kind: DiagKind::UnexpectedChar,
                    span: Span { start: j, end: (j + 1) as usize },
                };
                assert(scan_token(src@, j as int) is Bad);
                assert(diags@ =~= old_diags.push(d));
                assert(old_diags + (seq![d] + lex_diags(src@, j as int + 1)) =~= diags@
                    + lex_diags(src@, j as int + 1));
            }
            pos = j + 1;
        }
    }
    (tokens, diags)
}

} // verus!
