//! The command forest the grammar parser produces.
//!
//! A document is an ordered list of shape blocks, each an ordered list of
//! drawing commands. Commands carry the byte offset of their defining
//! coordinate so a resolved edge can be mapped back to a source line.

use vstd::prelude::*;

use crate::diag::{Diag, DiagKind, Span};
use crate::geometry::Color;
use crate::lexer::{lex_diags, lex_toks, lexer, spanned_views, SToken, Spanned, Token, TokenV};

verus! {

/// A coordinate expression. Only `Absolute` and `Relative` may bind a tag;
/// a `Reference` resolves a previously bound tag and never binds one.
#[derive(Debug, Clone, PartialEq)]
pub enum Coord {
    Absolute(i64, i64, Option<Vec<u8>>),
    Relative(i64, i64, Option<Vec<u8>>),
    Reference(Vec<u8>),
}

/// One drawing command: move the cursor without drawing, draw an edge to a
/// coordinate, or run a nested block that restores the cursor on exit.
#[derive(Debug)]
pub enum CommandKind {
    Move(Coord),
    Draw(Coord, Color),
    Nested(Vec<Command>),
}

/// A command with the byte offset of its defining coordinate.
#[derive(Debug)]
pub struct Command {
    pub kind: CommandKind,
    pub src_index: usize,
}

/// The mathematical shape of a coordinate.
pub enum CoordV {
    Absolute(int, int, Option<Seq<u8>>),
    Relative(int, int, Option<Seq<u8>>),
    Reference(Seq<u8>),
}

/// The mathematical shape of a command.
pub enum CmdKindV {
    Move(CoordV),
    Draw(CoordV, Color),
    Nested(Seq<CmdV>),
}

pub struct CmdV {
    pub kind: CmdKindV,
    pub src: int,
}

pub open spec fn opt_name_view(t: Option<Vec<u8>>) -> Option<Seq<u8>> {
    match t {
        Some(v) => Some(v@),
        None => None,
    }
}

pub open spec fn coord_view(c: Coord) -> CoordV {
    match c {
        Coord::Absolute(x, y, t) => CoordV::Absolute(x as int, y as int, opt_name_view(t)),
        Coord::Relative(x, y, t) => CoordV::Relative(x as int, y as int, opt_name_view(t)),
        Coord::Reference(t) => CoordV::Reference(t@),
    }
}

pub open spec fn cmd_view(c: Command) -> CmdV
    decreases c, 1nat,
{
    CmdV { kind: kind_view(c.kind), src: c.src_index as int }
}

pub open spec fn kind_view(k: CommandKind) -> CmdKindV
    decreases k, 3nat,
{
    match k {
        CommandKind::Move(c) => CmdKindV::Move(coord_view(c)),
        CommandKind::Draw(c, color) => CmdKindV::Draw(coord_view(c), color),
        CommandKind::Nested(v) => CmdKindV::Nested(cmds_view(v@)),
    }
}

pub open spec fn cmds_view(s: Seq<Command>) -> Seq<CmdV>
    decreases s, 2nat,
{
    if s.len() == 0 {
        Seq::empty()
    } else {
        seq![cmd_view(s[0])] + cmds_view(s.drop_first())
    }
}

/// Appending a command appends its view.
pub proof fn lemma_cmds_view_push(s: Seq<Command>, c: Command)
    ensures
        cmds_view(s.push(c)) =~= cmds_view(s).push(cmd_view(c)),
    decreases s.len(),
{
    if s.len() == 0 {
        assert(s.push(c).drop_first() =~= Seq::<Command>::empty());
        assert(s.push(c)[0] == c);
        assert(cmds_view(s.push(c)) == seq![cmd_view(c)] + cmds_view(s.push(c).drop_first()));
        assert(cmds_view(s.push(c).drop_first()) == Seq::<CmdV>::empty());
    } else {
        assert(s.push(c)[0] == s[0]);
        assert(s.push(c).drop_first() =~= s.drop_first().push(c));
        lemma_cmds_view_push(s.drop_first(), c);
        assert(cmds_view(s.push(c)) == seq![cmd_view(s[0])] + cmds_view(s.drop_first().push(c)));
    }
}

pub open spec fn blocks_views(bs: Seq<Vec<Command>>) -> Seq<Seq<CmdV>> {
    bs.map_values(|b: Vec<Command>| cmds_view(b@))
}

/// Parse a coordinate at token index `i`: the coordinate, the token index
/// after it, and the byte offset of its first token.
pub open spec fn p_coord(toks: Seq<SToken>, i: int) -> Option<(CoordV, int, int)> {
    let n = toks.len() as int;
    if 0 <= i < n && toks[i].tok is Num && i + 2 < n && toks[i + 1].tok is Comma && toks[i
        + 2].tok is Num {
        let x = toks[i].tok->Num_0;
        let y = toks[i + 2].tok->Num_0;
        if i + 3 < n && toks[i + 3].tok is Tag {
            Some((CoordV::Relative(x, y, Some(toks[i + 3].tok->Tag_0)), i + 4, toks[i].start))
        } else {
            Some((CoordV::Relative(x, y, None), i + 3, toks[i].start))
        }
    } else if 0 <= i < n && toks[i].tok is At {
        if i + 1 < n && toks[i + 1].tok is Tag {
            Some((CoordV::Reference(toks[i + 1].tok->Tag_0), i + 2, toks[i].start))
        } else if i + 3 < n && toks[i + 1].tok is Num && toks[i + 2].tok is Comma && toks[i
            + 3].tok is Num {
            let x = toks[i + 1].tok->Num_0;
            let y = toks[i + 3].tok->Num_0;
            if i + 4 < n && toks[i + 4].tok is Tag {
                Some((CoordV::Absolute(x, y, Some(toks[i + 4].tok->Tag_0)), i + 5, toks[i].start))
            } else {
                Some((CoordV::Absolute(x, y, None), i + 4, toks[i].start))
            }
        } else {
            None
        }
    } else {
        None
    }
}

/// One parsed attribute: its key, its value, and the value's span.
pub struct AttrV {
    pub key: Seq<u8>,
    pub value: Seq<u8>,
    pub vstart: int,
    pub vend: int,
}

/// Parse the entries of an attribute list after its `[`, up to and past the
/// closing `]`: `key : value` pairs separated by commas, a trailing comma
/// allowed.
pub open spec fn p_attr_entries(toks: Seq<SToken>, i: int) -> Option<(Seq<AttrV>, int)>
    decreases toks.len() - i,
{
    let n = toks.len() as int;
    if !(0 <= i < n) {
        None
    } else if toks[i].tok is CloseSquare {
        Some((Seq::empty(), i + 1))
    } else if i + 2 < n && toks[i].tok is Ident && toks[i + 1].tok is Colon && toks[i
        + 2].tok is Ident {
        let entry = AttrV {
            key: toks[i].tok->Ident_0,
            value: toks[i + 2].tok->Ident_0,
            vstart: toks[i + 2].start,
            vend: toks[i + 2].end,
        };
        let after = i + 3;
        if after < n && toks[after].tok is Comma {
            match p_attr_entries(toks, after + 1) {
                Some((rest, next)) => Some((seq![entry] + rest, next)),
                None => None,
            }
        } else if after < n && toks[after].tok is CloseSquare {
            Some((seq![entry], after + 1))
        } else {
            None
        }
    } else {
        None
    }
}

pub proof fn lemma_p_attr_entries_advances(toks: Seq<SToken>, i: int)
    ensures
        match p_attr_entries(toks, i) {
            Some((_, next)) => i < next <= toks.len(),
            None => true,
        },
    decreases toks.len() - i,
{
    let n = toks.len() as int;
    if 0 <= i < n && !(toks[i].tok is CloseSquare) && i + 2 < n && toks[i].tok is Ident && toks[i
        + 1].tok is Colon && toks[i + 2].tok is Ident {
        if i + 3 < n && toks[i + 3].tok is Comma {
            lemma_p_attr_entries_advances(toks, i + 4);
        }
    }
}

pub open spec fn color_kw() -> Seq<u8> {
    seq![99u8, 111u8, 108u8, 111u8, 114u8]
}

/// The attribute that decides the color: the last entry keyed `color`.
pub open spec fn color_attr(attrs: Seq<AttrV>) -> Option<AttrV>
    decreases attrs.len(),
{
    if attrs.len() == 0 {
        None
    } else if attrs.last().key == color_kw() {
        Some(attrs.last())
    } else {
        color_attr(attrs.drop_last())
    }
}

/// The color a name denotes, if it is part of the vocabulary.
pub open spec fn color_of_name(s: Seq<u8>) -> Option<Color> {
    if s == seq![116u8, 114u8, 97u8, 110u8, 115u8, 112u8, 97u8, 114u8, 101u8, 110u8, 116u8] {
        Some(Color::Transparent)
    } else if s == seq![119u8, 104u8, 105u8, 116u8, 101u8] {
        Some(Color::White)
    } else if s == seq![98u8, 108u8, 97u8, 99u8, 107u8] {
        Some(Color::Black)
    } else if s == seq![114u8, 101u8, 100u8] {
        Some(Color::Red)
    } else if s == seq![103u8, 114u8, 101u8, 101u8, 110u8] {
        Some(Color::Green)
    } else if s == seq![98u8, 108u8, 117u8, 101u8] {
        Some(Color::Blue)
    } else if s == seq![121u8, 101u8, 108u8, 108u8, 111u8, 119u8] {
        Some(Color::Yellow)
    } else if s == seq![109u8, 97u8, 103u8, 101u8, 110u8, 116u8, 97u8] {
        Some(Color::Magenta)
    } else if s == seq![99u8, 121u8, 97u8, 110u8] {
        Some(Color::Cyan)
    } else {
        None
    }
}

/// The color an attribute list selects, and the diagnostic of an unknown
/// color name (black substituted). Without a usable entry: black.
pub open spec fn attrs_color(attrs: Seq<AttrV>) -> (Color, Seq<Diag>) {
    match color_attr(attrs) {
        None => (Color::Black, Seq::empty()),
        Some(a) => match color_of_name(a.value) {
            Some(c) => (c, Seq::empty()),
            None => (
                Color::Black,
                seq![
                    Diag {
                        kind: DiagKind::UnknownColor,
                        span: Span { start: a.vstart as usize, end: a.vend as usize },
                    },
                ],
            ),
        },
    }
}

/// The outcome of parsing one command.
pub enum PCmd {
    Parsed(CmdV, Seq<Diag>, int),
    NoMatch,
}

/// Parse one command at token index `i`: `move` followed by a coordinate,
/// or an optional attribute list followed by a coordinate (a draw).
pub open spec fn p_command(toks: Seq<SToken>, i: int) -> PCmd {
    let n = toks.len() as int;
    if !(0 <= i < n) {
        PCmd::NoMatch
    } else if toks[i].tok is Move {
        match p_coord(toks, i + 1) {
            Some((c, end, _)) => PCmd::Parsed(
                CmdV { kind: CmdKindV::Move(c), src: toks[i].start },
                Seq::empty(),
                end,
            ),
            None => PCmd::NoMatch,
        }
    } else if toks[i].tok is OpenSquare {
        match p_attr_entries(toks, i + 1) {
            Some((attrs, after)) => match p_coord(toks, after) {
                Some((c, end, src)) => {
                    let (color, ds) = attrs_color(attrs);
                    PCmd::Parsed(CmdV { kind: CmdKindV::Draw(c, color), src }, ds, end)
                },
                None => PCmd::NoMatch,
            },
            None => PCmd::NoMatch,
        }
    } else {
        match p_coord(toks, i) {
            Some((c, end, src)) => PCmd::Parsed(
                CmdV { kind: CmdKindV::Draw(c, Color::Black), src },
                Seq::empty(),
                end,
            ),
            None => PCmd::NoMatch,
        }
    }
}

pub proof fn lemma_p_command_advances(toks: Seq<SToken>, i: int)
    ensures
        match p_command(toks, i) {
            PCmd::Parsed(_, _, next) => i < next <= toks.len(),
            PCmd::NoMatch => true,
        },
{
    lemma_p_attr_entries_advances(toks, i + 1);
}

/// What parsing the items of one block yields: the commands and diagnostics
/// collected, and the token index after the closing `}` (or the end of
/// input for an unclosed block, with a diagnostic at the opening brace).
pub struct BlockRes {
    pub cmds: Seq<CmdV>,
    pub diags: Seq<Diag>,
    pub next: int,
}

/// Parse block items from `i` until the closing `}`. A token no command
/// can start from is skipped with a diagnostic, and parsing resumes inside
/// the block.
pub open spec fn p_block_items(toks: Seq<SToken>, i: int, open_span: Span) -> BlockRes
    decreases toks.len() - i,
    via p_block_items_decreases
{
    let n = toks.len() as int;
    if !(0 <= i < n) {
        BlockRes {
            cmds: Seq::empty(),
            diags: seq![Diag { kind: DiagKind::UnclosedBlock, span: open_span }],
            next: if i < 0 {
                0
            } else {
                n
            },
        }
    } else if toks[i].tok is CloseCurly {
        BlockRes { cmds: Seq::empty(), diags: Seq::empty(), next: i + 1 }
    } else {
        match p_command(toks, i) {
            PCmd::Parsed(cmd, ds, next) => {
                let rest = p_block_items(toks, next, open_span);
                BlockRes {
                    cmds: seq![cmd] + rest.cmds,
                    diags: ds + rest.diags,
                    next: rest.next,
                }
            },
            PCmd::NoMatch => {
                let rest = p_block_items(toks, i + 1, open_span);
                BlockRes {
                    cmds: rest.cmds,
                    diags: seq![
                        Diag {
                            kind: DiagKind::UnexpectedToken,
                            span: Span {
                                start: toks[i].start as usize,
                                end: toks[i].end as usize,
                            },
                        },
                    ] + rest.diags,
                    next: rest.next,
                }
            },
        }
    }
}

#[via_fn]
proof fn p_block_items_decreases(toks: Seq<SToken>, i: int, open_span: Span) {
    lemma_p_command_advances(toks, i);
}

pub proof fn lemma_p_block_items_bounds(toks: Seq<SToken>, i: int, open_span: Span)
    requires
        0 <= i,
    ensures
        p_block_items(toks, i, open_span).next <= toks.len(),
        i <= toks.len() ==> i <= p_block_items(toks, i, open_span).next,
        i > toks.len() ==> p_block_items(toks, i, open_span).next == toks.len(),
    decreases toks.len() - i,
{
    let n = toks.len() as int;
    if 0 <= i < n && !(toks[i].tok is CloseCurly) {
        lemma_p_command_advances(toks, i);
        match p_command(toks, i) {
            PCmd::Parsed(_, _, next) => {
                lemma_p_block_items_bounds(toks, next, open_span);
            },
            PCmd::NoMatch => {
                lemma_p_block_items_bounds(toks, i + 1, open_span);
            },
        }
    }
}

/// The shapes of the whole program from token index `i`: each `shape { .. }`
/// or bare `{ .. }` block yields one shape's command list; any other token
/// is skipped with a diagnostic.
pub open spec fn p_program_blocks(toks: Seq<SToken>, i: int) -> Seq<Seq<CmdV>>
    decreases toks.len() - i,
    via p_program_blocks_decreases
{
    let n = toks.len() as int;
    if !(0 <= i < n) {
        Seq::empty()
    } else if toks[i].tok is Shape && i + 1 < n && toks[i + 1].tok is OpenCurly {
        let blk = p_block_items(
            toks,
            i + 2,
            Span { start: toks[i + 1].start as usize, end: toks[i + 1].end as usize },
        );
        seq![blk.cmds] + p_program_blocks(toks, blk.next)
    } else if toks[i].tok is OpenCurly {
        let blk = p_block_items(
            toks,
            i + 1,
            Span { start: toks[i].start as usize, end: toks[i].end as usize },
        );
        seq![blk.cmds] + p_program_blocks(toks, blk.next)
    } else {
        p_program_blocks(toks, i + 1)
    }
}

#[via_fn]
proof fn p_program_blocks_decreases(toks: Seq<SToken>, i: int) {
    let n = toks.len() as int;
    if 0 <= i < n {
        if toks[i].tok is Shape && i + 1 < n && toks[i + 1].tok is OpenCurly {
            lemma_p_block_items_bounds(toks, i + 2, Span {
                start: toks[i + 1].start as usize,
                end: toks[i + 1].end as usize,
            });
        } else if toks[i].tok is OpenCurly {
            lemma_p_block_items_bounds(toks, i + 1, Span {
                start: toks[i].start as usize,
                end: toks[i].end as usize,
            });
        }
    }
}

/// The diagnostics of the whole program from token index `i`.
pub open spec fn p_program_diags(toks: Seq<SToken>, i: int) -> Seq<Diag>
    decreases toks.len() - i,
    via p_program_diags_decreases
{
    let n = toks.len() as int;
    if !(0 <= i < n) {
        Seq::empty()
    } else if toks[i].tok is Shape && i + 1 < n && toks[i + 1].tok is OpenCurly {
        let blk = p_block_items(
            toks,
            i + 2,
            Span { start: toks[i + 1].start as usize, end: toks[i + 1].end as usize },
        );
        blk.diags + p_program_diags(toks, blk.next)
    } else if toks[i].tok is OpenCurly {
        let blk = p_block_items(
            toks,
            i + 1,
            Span { start: toks[i].start as usize, end: toks[i].end as usize },
        );
        blk.diags + p_program_diags(toks, blk.next)
    } else {
        let kind = if toks[i].tok is Shape {
            DiagKind::ExpectedBlock
        } else {
            DiagKind::UnexpectedToken
        };
        seq![
            Diag {
                kind,
                span: Span { start: toks[i].start as usize, end: toks[i].end as usize },
            },
        ] + p_program_diags(toks, i + 1)
    }
}

#[via_fn]
proof fn p_program_diags_decreases(toks: Seq<SToken>, i: int) {
    let n = toks.len() as int;
    if 0 <= i < n {
        if toks[i].tok is Shape && i + 1 < n && toks[i + 1].tok is OpenCurly {
            lemma_p_block_items_bounds(toks, i + 2, Span {
                start: toks[i + 1].start as usize,
                end: toks[i + 1].end as usize,
            });
        } else if toks[i].tok is OpenCurly {
            lemma_p_block_items_bounds(toks, i + 1, Span {
                start: toks[i].start as usize,
                end: toks[i].end as usize,
            });
        }
    }
}

/// Parse a coordinate at token index `i`.
fn try_coord(tokens: &Vec<Spanned<Token>>, i: usize) -> (r: Option<(Coord, usize, usize)>)
    ensures
        ({
            let spec = p_coord(spanned_views(tokens@), i as int);
            match r {
                Some((c, end, src)) => spec == Some((coord_view(c), end as int, src as int)),
                None => spec is None,
            }
        }),
{
    let n = tokens.len();
    if i < n && n - i > 2 {
        if let (Token::Num(x), Token::Comma, Token::Num(y)) = (
            &tokens[i].node,
            &tokens[i + 1].node,
            &tokens[i + 2].node,
        ) {
            if n - i > 3 {
                if let Token::Tag(name) = &tokens[i + 3].node {
                    return Some(
                        (
                            Coord::Relative(*x, *y, Some(crate::resolver::bytes_clone(name))),
                            i + 4,
                            tokens[i].span.start,
                        ),
                    );
                }
            }
            return Some((Coord::Relative(*x, *y, None), i + 3, tokens[i].span.start));
        }
    }
    if i < n {
        if let Token::At = &tokens[i].node {
            if i + 1 < n {
                if let Token::Tag(name) = &tokens[i + 1].node {
                    return Some(
                        (
                            Coord::Reference(crate::resolver::bytes_clone(name)),
                            i + 2,
                            tokens[i].span.start,
                        ),
                    );
                }
            }
            if n - i > 3 {
                if let (Token::Num(x), Token::Comma, Token::Num(y)) = (
                    &tokens[i + 1].node,
                    &tokens[i + 2].node,
                    &tokens[i + 3].node,
                ) {
                    if n - i > 4 {
                        if let Token::Tag(name) = &tokens[i + 4].node {
                            return Some(
                                (
                                    Coord::Absolute(
                                        *x,
                                        *y,
                                        Some(crate::resolver::bytes_clone(name)),
                                    ),
                                    i + 5,
                                    tokens[i].span.start,
                                ),
                            );
                        }
                    }
                    return Some((Coord::Absolute(*x, *y, None), i + 4, tokens[i].span.start));
                }
            }
            return None;
        }
    }
    None
}

/// One parsed attribute, executably.
struct AttrE {
    key: Vec<u8>,
    value: Vec<u8>,
    vspan: Span,
}

spec fn attr_view(a: AttrE) -> AttrV {
    AttrV { key: a.key@, value: a.value@, vstart: a.vspan.start as int, vend: a.vspan.end as int }
}

spec fn attrs_views(s: Seq<AttrE>) -> Seq<AttrV> {
    s.map_values(|a: AttrE| attr_view(a))
}

/// Parse the entries of an attribute list after its `[`.
fn try_attr_entries(tokens: &Vec<Spanned<Token>>, start: usize) -> (r: Option<(Vec<AttrE>, usize)>)
    requires
        start <= tokens@.len(),
    ensures
        ({
            let spec = p_attr_entries(spanned_views(tokens@), start as int);
            match r {
                Some((attrs, next)) => spec == Some((attrs_views(attrs@), next as int)),
                None => spec is None,
            }
        }),
{
    let ghost toks = spanned_views(tokens@);
    let n = tokens.len();
    let mut acc: Vec<AttrE> = Vec::new();
    let mut i = start;
    proof {
        assert(attrs_views(acc@) =~= Seq::<AttrV>::empty());
    }
    loop
        invariant
            i <= n,
            n == tokens@.len(),
            toks == spanned_views(tokens@),
            ({
                let whole = p_attr_entries(toks, start as int);
                let rest = p_attr_entries(toks, i as int);
                match rest {
                    Some((restv, next)) => whole == Some((attrs_views(acc@) + restv, next)),
                    None => whole is None,
                }
            }),
        ensures
            ({
                let whole = p_attr_entries(toks, start as int);
                let rest = p_attr_entries(toks, i as int);
                match rest {
                    Some((restv, next)) => whole == Some((attrs_views(acc@) + restv, next)),
                    None => whole is None,
                }
            }),
            i <= n,
            i < n ==> p_attr_entries(toks, i as int) == Some::<(Seq<AttrV>, int)>(
                (Seq::<AttrV>::empty(), i as int + 1),
            ),
            i >= n ==> p_attr_entries(toks, i as int) is None,
        decreases n - i,
    {
        if i >= n {
            break ;
        }
        if let Token::CloseSquare = &tokens[i].node {
            break ;
        }
        if n - i > 2 {
            let ghost old_acc = acc@;
            if let (Token::Ident(key), Token::Colon, Token::Ident(value)) = (
                &tokens[i].node,
                &tokens[i + 1].node,
                &tokens[i + 2].node,
            ) {
                let entry = AttrE {
                    key: crate::resolver::bytes_clone(key),
                    value: crate::resolver::bytes_clone(value),
                    vspan: tokens[i + 2].span,
                };
                let after = i + 3;
                if after < n {
                    if let Token::Comma = &tokens[after].node {
                        acc.push(entry);
                        proof {
                            assert(attrs_views(acc@) =~= attrs_views(old_acc).push(
                                attr_view(acc@.last()),
                            ));
                            assert forall|restv: Seq<AttrV>|
                                true implies attrs_views(old_acc) + (seq![
                                attr_view(acc@.last()),
                            ] + restv) =~= attrs_views(acc@) + restv by {}
                        }
                        i = after + 1;
                        continue ;
                    }
                    if let Token::CloseSquare = &tokens[after].node {
                        acc.push(entry);
                        proof {
                            assert(attrs_views(acc@) =~= attrs_views(old_acc).push(
                                attr_view(acc@.last()),
                            ));
                            assert(attrs_views(old_acc) + seq![attr_view(acc@.last())]
                                =~= attrs_views(acc@));
                            assert(p_attr_entries(toks, i as int) == Some::<(Seq<AttrV>, int)>(
                                (seq![attr_view(acc@.last())], after as int + 1),
                            ));
                        }
                        return Some((acc, after + 1));
                    }
                }
                return None;
            }
        }
        return None;
    }
    if i < n {
        proof {
            assert(p_attr_entries(toks, i as int) == Some::<(Seq<AttrV>, int)>(
                (Seq::empty(), i as int + 1),
            ));
            assert(attrs_views(acc@) + Seq::<AttrV>::empty() =~= attrs_views(acc@));
        }
        return Some((acc, i + 1));
    }
    None
}

/// The color a name denotes, executably.
pub fn color_from_name(w: &Vec<u8>) -> (r: Option<Color>)
    ensures
        r == color_of_name(w@),
{
    let n = w.len();
    if n == 11 && w[0] == 116 && w[1] == 114 && w[2] == 97 && w[3] == 110 && w[4] == 115 && w[5]
        == 112 && w[6] == 97 && w[7] == 114 && w[8] == 101 && w[9] == 110 && w[10] == 116 {
        proof {
            assert(w@ =~= seq![
                116u8, 114u8, 97u8, 110u8, 115u8, 112u8, 97u8, 114u8, 101u8, 110u8, 116u8,
            ]);
        }
        Some(Color::Transparent)
    } else if n == 5 && w[0] == 119 && w[1] == 104 && w[2] == 105 && w[3] == 116 && w[4] == 101 {
        proof {
            assert(w@ =~= seq![119u8, 104u8, 105u8, 116u8, 101u8]);
        }
        Some(Color::White)
    } else if n == 5 && w[0] == 98 && w[1] == 108 && w[2] == 97 && w[3] == 99 && w[4] == 107 {
        proof {
            assert(w@ =~= seq![98u8, 108u8, 97u8, 99u8, 107u8]);
        }
        Some(Color::Black)
    } else if n == 3 && w[0] == 114 && w[1] == 101 && w[2] == 100 {
        proof {
            assert(w@ =~= seq![114u8, 101u8, 100u8]);
        }
        Some(Color::Red)
    } else if n == 5 && w[0] == 103 && w[1] == 114 && w[2] == 101 && w[3] == 101 && w[4] == 110 {
        proof {
            assert(w@ =~= seq![103u8, 114u8, 101u8, 101u8, 110u8]);
        }
        Some(Color::Green)
    } else if n == 4 && w[0] == 98 && w[1] == 108 && w[2] == 117 && w[3] == 101 {
        proof {
            assert(w@ =~= seq![98u8, 108u8, 117u8, 101u8]);
        }
        Some(Color::Blue)
    } else if n == 6 && w[0] == 121 && w[1] == 101 && w[2] == 108 && w[3] == 108 && w[4] == 111
        && w[5] == 119 {
        proof {
            assert(w@ =~= seq![121u8, 101u8, 108u8, 108u8, 111u8, 119u8]);
        }
        Some(Color::Yellow)
    } else if n == 7 && w[0] == 109 && w[1] == 97 && w[2] == 103 && w[3] == 101 && w[4] == 110
        && w[5] == 116 && w[6] == 97 {
        proof {
            assert(w@ =~= seq![109u8, 97u8, 103u8, 101u8, 110u8, 116u8, 97u8]);
        }
        Some(Color::Magenta)
    } else if n == 4 && w[0] == 99 && w[1] == 121 && w[2] == 97 && w[3] == 110 {
        proof {
            assert(w@ =~= seq![99u8, 121u8, 97u8, 110u8]);
        }
        Some(Color::Cyan)
    } else {
        None
    }
}

/// Whether `w` spells the attribute key `color`.
fn is_color_key(w: &Vec<u8>) -> (r: bool)
    ensures
        r <==> w@ == color_kw(),
{
    if w.len() == 5 && w[0] == 99 && w[1] == 111 && w[2] == 108 && w[3] == 111 && w[4] == 114 {
        proof {
            assert(w@ =~= color_kw());
        }
        true
    } else {
        proof {
            if w@ == color_kw() {
                assert(w@.len() == 5);
            }
        }
        false
    }
}

/// The color an attribute list selects, with the diagnostic of an unknown
/// color name.
fn pick_color(attrs: &Vec<AttrE>) -> (r: (Color, Option<Diag>))
    ensures
        ({
            let (c, ds) = attrs_color(attrs_views(attrs@));
            r.0 == c && (match r.1 {
                Some(d) => ds == seq![d],
                None => ds == Seq::<Diag>::empty(),
            })
        }),
{
    let mut i = attrs.len();
    proof {
        assert(attrs_views(attrs@).take(attrs@.len() as int) =~= attrs_views(attrs@));
    }
    while i > 0
        invariant
            i <= attrs@.len(),
            color_attr(attrs_views(attrs@)) == color_attr(attrs_views(attrs@).take(i as int)),
        decreases i,
    {
        proof {
            assert(attrs_views(attrs@).take(i as int).drop_last() =~= attrs_views(attrs@).take(
                i as int - 1,
            ));
            assert(attrs_views(attrs@).take(i as int).last() == attrs_views(attrs@)[i - 1]);
            assert(attrs_views(attrs@)[i - 1] == attr_view(attrs@[i - 1]));
        }
        i = i - 1;
        if is_color_key(&attrs[i].key) {
            let a = &attrs[i];
            match color_from_name(&a.value) {
                Some(c) => {
                    return (c, None);
                },
                None => {
                    return (
                        Color::Black,
                        Some(Diag { kind: DiagKind::UnknownColor, span: a.vspan }),
                    );
                },
            }
        }
    }
    proof {
        assert(attrs_views(attrs@).take(0) =~= Seq::<AttrV>::empty());
    }
    (Color::Black, None)
}

/// Parse one command at token index `i`: the command, the diagnostic of an
/// unknown color if one was named, and the index after the command.
fn try_command(tokens: &Vec<Spanned<Token>>, i: usize) -> (r: Option<(Command, Option<Diag>, usize)>)
    requires
        i <= tokens@.len(),
    ensures
        ({
            let spec = p_command(spanned_views(tokens@), i as int);
            match r {
                Some((cmd, od, next)) => spec == PCmd::Parsed(
                    cmd_view(cmd),
                    match od {
                        Some(d) => seq![d],
                        None => Seq::<Diag>::empty(),
                    },
                    next as int,
                ),
                None => spec is NoMatch,
            }
        }),
{
    let n = tokens.len();
    if i >= n {
        return None;
    }
    if let Token::Move = &tokens[i].node {
        match try_coord(tokens, i + 1) {
            Some((c, end, _)) => {
                return Some(
                    (
                        Command { kind: CommandKind::Move(c), src_index: tokens[i].span.start },
                        None,
                        end,
                    ),
                );
            },
            None => {
                return None;
            },
        }
    }
    if let Token::OpenSquare = &tokens[i].node {
        match try_attr_entries(tokens, i + 1) {
            Some((attrs, after)) => {
                proof {
                    lemma_p_attr_entries_advances(spanned_views(tokens@), i as int + 1);
                }
                match try_coord(tokens, after) {
                    Some((c, end, src)) => {
                        let (color, od) = pick_color(&attrs);
                        return Some(
                            (
                                Command { kind: CommandKind::Draw(c, color), src_index: src },
                                od,
                                end,
                            ),
                        );
                    },
                    None => {
                        return None;
                    },
                }
            },
            None => {
                return None;
            },
        }
    }
    match try_coord(tokens, i) {
        Some((c, end, src)) => Some(
            (
                Command { kind: CommandKind::Draw(c, Color::Black), src_index: src },
                None,
                end,
            ),
        ),
        None => None,
    }
}

/// Append all diagnostics of `src` to `dst`.
fn push_all_diags(dst: &mut Vec<Diag>, src: &Vec<Diag>)
    ensures
        final(dst)@ == old(dst)@ + src@,
{
    let n = src.len();
    for i in 0..n
        invariant
            n == src@.len(),
            dst@ == old(dst)@ + src@.take(i as int),
    {
        dst.push(src[i]);
        proof {
            assert(dst@ =~= old(dst)@ + src@.take(i as int + 1));
        }
    }
    proof {
        assert(src@.take(n as int) =~= src@);
        assert(dst@ =~= old(dst)@ + src@);
    }
}

/// Parse the items of one block, after its opening `{`: the commands and
/// diagnostics collected, and the token index after the closing `}`.
fn parse_block_items(tokens: &Vec<Spanned<Token>>, start: usize, open_span: Span) -> (r: (
    Vec<Command>,
    Vec<Diag>,
    usize,
))
    requires
        start <= tokens@.len(),
    ensures
        ({
            let blk = p_block_items(spanned_views(tokens@), start as int, open_span);
            &&& cmds_view(r.0@) == blk.cmds
            &&& r.1@ == blk.diags
            &&& r.2 as int == blk.next
            &&& start <= r.2 <= tokens@.len()
        }),
{
    let ghost toks = spanned_views(tokens@);
    let n = tokens.len();
    let mut cmds: Vec<Command> = Vec::new();
    let mut diags: Vec<Diag> = Vec::new();
    let mut i = start;
    proof {
        assert(cmds_view(cmds@) =~= Seq::<CmdV>::empty());
    }
    loop
        invariant_except_break
            ({
                let whole = p_block_items(toks, start as int, open_span);
                let rest = p_block_items(toks, i as int, open_span);
                &&& whole.cmds == cmds_view(cmds@) + rest.cmds
                &&& whole.diags == diags@ + rest.diags
                &&& whole.next == rest.next
            }),
        invariant
            start <= i <= n,
            n == tokens@.len(),
            toks == spanned_views(tokens@),
        ensures
            ({
                let whole = p_block_items(toks, start as int, open_span);
                &&& whole.cmds == cmds_view(cmds@)
                &&& whole.diags == diags@
                &&& whole.next == i as int
                &&& start <= i <= n
            }),
        decreases n - i,
    {
        let ghost old_cmds = cmds@;
        let ghost old_diags = diags@;
        if i >= n {
            diags.push(Diag { kind: DiagKind::UnclosedBlock, span: open_span });
            proof {
                let rest = p_block_items(toks, i as int, open_span);
                assert(rest.next == n as int);
                assert(cmds_view(cmds@) + rest.cmds =~= cmds_view(cmds@));
                assert(old_diags + rest.diags =~= diags@);
            }
            break ;
        }
        if let Token::CloseCurly = &tokens[i].node {
            i = i + 1;
            proof {
                let rest = p_block_items(toks, i as int - 1, open_span);
                assert(cmds_view(cmds@) + rest.cmds =~= cmds_view(cmds@));
                assert(old_diags + rest.diags =~= diags@);
            }
            break ;
        }
        proof {
            lemma_p_command_advances(toks, i as int);
        }
        match try_command(tokens, i) {
            Some((cmd, od, next)) => {
                let ghost cmdv = cmd_view(cmd);
                cmds.push(cmd);
                proof {
                    lemma_cmds_view_push(old_cmds, cmds@.last());
                    assert(cmds@.drop_last() =~= old_cmds);
                    assert(cmds@ =~= old_cmds.push(cmds@.last()));
                }
                match od {
                    Some(d) => {
                        diags.push(d);
                        proof {
                            assert(diags@ =~= old_diags.push(d));
                        }
                    },
                    None => {},
                }
                proof {
                    let rest = p_block_items(toks, i as int, open_span);
                    let rest2 = p_block_items(toks, next as int, open_span);
                    assert(cmds_view(old_cmds) + (seq![cmdv] + rest2.cmds) =~= cmds_view(cmds@)
                        + rest2.cmds);
                    let ds: Seq<Diag> = match od {
                        Some(d) => seq![d],
                        None => Seq::empty(),
                    };
                    assert(old_diags + (ds + rest2.diags) =~= diags@ + rest2.diags);
                }
                i = next;
            },
            None => {
                diags.push(
                    Diag { kind: DiagKind::UnexpectedToken, span: tokens[i].span },
                );
                proof {
                    let rest2 = p_block_items(toks, i as int + 1, open_span);
                    let d = Diag { kind: DiagKind::UnexpectedToken, span: tokens@[i as int].span };
                    assert(toks[i as int].start == tokens@[i as int].span.start as int);
                    assert(toks[i as int].end == tokens@[i as int].span.end as int);
                    assert(old_diags + (seq![d] + rest2.diags) =~= diags@ + rest2.diags);
                }
                i = i + 1;
            },
        }
    }
    (cmds, diags, i)
}

/// Parse a token stream into the shape blocks of the program, with the
/// diagnostics of everything that had to be skipped or substituted.
pub fn parse_tokens(tokens: &Vec<Spanned<Token>>) -> (r: (Vec<Vec<Command>>, Vec<Diag>))
    ensures
        blocks_views(r.0@) == p_program_blocks(spanned_views(tokens@), 0),
        r.1@ == p_program_diags(spanned_views(tokens@), 0),
{
    let ghost toks = spanned_views(tokens@);
    let n = tokens.len();
    let mut blocks: Vec<Vec<Command>> = Vec::new();
    let mut diags: Vec<Diag> = Vec::new();
    let mut i: usize = 0;
    proof {
        assert(blocks_views(blocks@) =~= Seq::<Seq<CmdV>>::empty());
    }
    loop
        invariant
            i <= n,
            n == tokens@.len(),
            toks == spanned_views(tokens@),
            p_program_blocks(toks, 0) == blocks_views(blocks@) + p_program_blocks(toks, i as int),
            p_program_diags(toks, 0) == diags@ + p_program_diags(toks, i as int),
        ensures
            p_program_blocks(toks, 0) == blocks_views(blocks@) + p_program_blocks(toks, i as int),
            p_program_diags(toks, 0) == diags@ + p_program_diags(toks, i as int),
            i >= n,
        decreases n - i,
    {
        if i >= n {
            break ;
        }
        let ghost old_blocks = blocks@;
        let ghost old_diags = diags@;
        let is_shape = matches!(&tokens[i].node, Token::Shape);
        let shape_block = is_shape && i + 1 < n && matches!(&tokens[i + 1].node, Token::OpenCurly);
        let bare_block = matches!(&tokens[i].node, Token::OpenCurly);
        if shape_block || bare_block {
            let bstart = if shape_block {
                i + 2
            } else {
                i + 1
            };
            let open_span = if shape_block {
                tokens[i + 1].span
            } else {
                tokens[i].span
            };
            let (cmds, bdiags, next) = parse_block_items(tokens, bstart, open_span);
            let ghost cmdsv = cmds_view(cmds@);
            blocks.push(cmds);
            push_all_diags(&mut diags, &bdiags);
            proof {
                assert(blocks_views(blocks@) =~= blocks_views(old_blocks).push(cmdsv));
                let blk = p_block_items(toks, bstart as int, open_span);
                assert(blocks_views(old_blocks) + (seq![blk.cmds] + p_program_blocks(
                    toks,
                    blk.next,
                )) =~= blocks_views(blocks@) + p_program_blocks(toks, blk.next));
                assert(old_diags + (blk.diags + p_program_diags(toks, blk.next)) =~= diags@
                    + p_program_diags(toks, blk.next));
            }
            i = next;
        } else {
            let kind = if is_shape {
                DiagKind::ExpectedBlock
            } else {
                DiagKind::UnexpectedToken
            };
            let d = Diag { kind, span: tokens[i].span };
            diags.push(d);
            proof {
                assert(diags@ =~= old_diags.push(d));
                assert(old_diags + (seq![d] + p_program_diags(toks, i as int + 1)) =~= diags@
                    + p_program_diags(toks, i as int + 1));
                assert(blocks_views(blocks@) + p_program_blocks(toks, i as int + 1)
                    == blocks_views(old_blocks) + p_program_blocks(toks, i as int + 1));
            }
            i = i + 1;
        }
    }
    proof {
        assert(p_program_blocks(toks, i as int) =~= Seq::<Seq<CmdV>>::empty());
        assert(p_program_diags(toks, i as int) =~= Seq::<Diag>::empty());
        assert(blocks_views(blocks@) + Seq::<Seq<CmdV>>::empty() =~= blocks_views(blocks@));
        assert(diags@ + Seq::<Diag>::empty() =~= diags@);
    }
    (blocks, diags)
}

/// Compile source text into the program's shape blocks: lex, then parse,
/// with the lexer's diagnostics followed by the parser's.
pub fn parse(src: &Vec<u8>) -> (r: (Vec<Vec<Command>>, Vec<Diag>))
    ensures
        blocks_views(r.0@) == p_program_blocks(lex_toks(src@, 0), 0),
        r.1@ == lex_diags(src@, 0) + p_program_diags(lex_toks(src@, 0), 0),
{
    let (tokens, mut diags) = lexer(src);
    let (blocks, pdiags) = parse_tokens(&tokens);
    push_all_diags(&mut diags, &pdiags);
    (blocks, diags)
}

} // verus!
