use blueprint::diag::DiagKind;
use blueprint::geometry::Color;
use blueprint::lexer::lexer;
use blueprint::parser::{parse, parse_tokens, Command, CommandKind, Coord};

fn coord_eq(a: &Coord, b: &Coord) -> bool {
    a == b
}

fn kind_eq(a: &CommandKind, b: &CommandKind) -> bool {
    match (a, b) {
        (CommandKind::Move(ca), CommandKind::Move(cb)) => coord_eq(ca, cb),
        (CommandKind::Draw(ca, la), CommandKind::Draw(cb, lb)) => coord_eq(ca, cb) && la == lb,
        (CommandKind::Nested(va), CommandKind::Nested(vb)) => cmds_eq(va, vb),
        _ => false,
    }
}

fn cmd_eq(a: &Command, b: &Command) -> bool {
    a.src_index == b.src_index && kind_eq(&a.kind, &b.kind)
}

fn cmds_eq(a: &[Command], b: &[Command]) -> bool {
    a.len() == b.len() && a.iter().zip(b.iter()).all(|(x, y)| cmd_eq(x, y))
}

#[test]
fn test_parser() {
    let src = "{ move @0,0 #p0 0,5 5,5 5,0 [color:blue] @#p0 }";
    let (tokens, lex_diags) = lexer(&src.as_bytes().to_vec());
    assert!(lex_diags.is_empty());
    let (res, diags) = parse_tokens(&tokens);
    assert!(diags.is_empty());
    assert_eq!(res.len(), 1);
    let expected = vec![
        Command { kind: CommandKind::Move(Coord::Absolute(0, 0, Some(b"p0".to_vec()))), src_index: 2 },
        Command { kind: CommandKind::Draw(Coord::Relative(0, 5, None), Color::Black), src_index: 16 },
        Command { kind: CommandKind::Draw(Coord::Relative(5, 5, None), Color::Black), src_index: 20 },
        Command { kind: CommandKind::Draw(Coord::Relative(5, 0, None), Color::Black), src_index: 24 },
        Command { kind: CommandKind::Draw(Coord::Reference(b"p0".to_vec()), Color::Blue), src_index: 41 },
    ];
    assert!(cmds_eq(&res[0], &expected));
}

#[test]
fn parser_recovers_inside_a_block() {
    let (blocks, diags) = parse(&b"{ : @1,2 }".to_vec());
    assert_eq!(blocks.len(), 1);
    assert_eq!(blocks[0].len(), 1);
    assert_eq!(diags.len(), 1);
    assert_eq!(diags[0].kind, DiagKind::UnexpectedToken);
}

#[test]
fn parser_reports_unclosed_block() {
    let (blocks, diags) = parse(&b"{ @1,2".to_vec());
    assert_eq!(blocks.len(), 1);
    assert_eq!(blocks[0].len(), 1);
    assert_eq!(diags.len(), 1);
    assert_eq!(diags[0].kind, DiagKind::UnclosedBlock);
}

#[test]
fn parser_reports_shape_without_block_and_goes_on() {
    let (blocks, diags) = parse(&b"shape shape { 1,1 2,2 }".to_vec());
    assert_eq!(blocks.len(), 1);
    assert_eq!(blocks[0].len(), 2);
    assert_eq!(diags.len(), 1);
    assert_eq!(diags[0].kind, DiagKind::ExpectedBlock);
}

#[test]
fn parser_parses_several_independent_blocks() {
    let (blocks, diags) = parse(&b"shape { @0,0 1,1 } { 2,2 }".to_vec());
    assert!(diags.is_empty());
    assert_eq!(blocks.len(), 2);
    assert_eq!(blocks[0].len(), 2);
    assert_eq!(blocks[1].len(), 1);
}

#[test]
fn attribute_list_takes_last_color_and_allows_trailing_comma() {
    let (blocks, diags) = parse(&b"{ @0,0 [color:red,color:cyan,] 1,1 }".to_vec());
    assert!(diags.is_empty());
    assert_eq!(blocks.len(), 1);
    match &blocks[0][1].kind {
        CommandKind::Draw(_, color) => assert_eq!(*color, Color::Cyan),
        _ => panic!("expected a draw command"),
    }
}
