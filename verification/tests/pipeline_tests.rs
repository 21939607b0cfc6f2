use blueprint::geometry::{Bound, Color, Edge, Point, Shape, Translate};
use blueprint::parser::{Command, CommandKind, Coord};
use blueprint::parser::parse;
use blueprint::resolver::{newline_offsets, BlueprintLoader};
use blueprint::Blueprint;

fn compile(src: &str) -> Result<Blueprint, blueprint::resolver::ResolveError> {
    let bytes = src.as_bytes().to_vec();
    let offsets = newline_offsets(&bytes);
    let (blocks, _diags) = parse(&bytes);
    BlueprintLoader::new().exec(&blocks, &offsets)
}

#[test]
fn closed_rectangle_via_tag_reference() {
    let bp = compile("shape { @0,0 #p0 0,5 5,5 5,0 @#p0 }").unwrap();
    let shapes = bp.shapes_iter();
    assert_eq!(shapes.len(), 1);
    let edges = shapes[0].edges_iter();
    assert_eq!(edges.len(), 4);
    assert_eq!(edges[3].to, edges[0].from);
}

#[test]
fn sequential_absolute_coordinates_yield_one_edge_less() {
    let bp = compile("{ @0,0 @4,0 @4,4 }").unwrap();
    let shapes = bp.shapes_iter();
    assert_eq!(shapes.len(), 1);
    let edges = shapes[0].edges_iter();
    assert_eq!(edges.len(), 2);
    assert_eq!(edges[0].from, Point::new(0, 0));
    assert_eq!(edges[0].to, Point::new(4, 0));
    assert_eq!(edges[1].from, Point::new(4, 0));
    assert_eq!(edges[1].to, Point::new(4, 4));
}

#[test]
fn command_syntax_variant_with_colored_closing_edge() {
    let bp = compile("{ move @0,0 #p0 0,5 5,5 5,0 [color:blue] @#p0 }").unwrap();
    let shapes = bp.shapes_iter();
    assert_eq!(shapes.len(), 1);
    let edges = shapes[0].edges_iter();
    assert_eq!(edges.len(), 4);
    assert_eq!(edges[3].color, Color::Blue);
    for e in edges.iter().take(3) {
        assert_eq!(e.color, Color::Black);
    }
    assert_eq!(edges[3].to, edges[0].from);
}

#[test]
fn unknown_color_is_one_recoverable_diagnostic_with_default_color() {
    let src = "{ @0,0 [color:puce] 0,5 }";
    let bytes = src.as_bytes().to_vec();
    let offsets = newline_offsets(&bytes);
    let (blocks, diags) = parse(&bytes);
    assert_eq!(diags.len(), 1);
    assert_eq!(diags[0].kind, blueprint::diag::DiagKind::UnknownColor);
    let bp = BlueprintLoader::new().exec(&blocks, &offsets).unwrap();
    let edges = bp.shapes_iter()[0].edges_iter();
    assert_eq!(edges.len(), 1);
    assert_eq!(edges[0].color, Color::Black);
}

#[test]
fn unresolved_tag_is_fatal_and_names_the_tag() {
    let err = compile("{ @0,0 @#missing }").unwrap_err();
    assert_eq!(err.tag, b"missing".to_vec());
}

#[test]
fn resolved_model_is_translated_to_origin() {
    let bp = compile("{ @10,20 5,5 }").unwrap();
    let edges = bp.shapes_iter()[0].edges_iter();
    assert_eq!(edges.len(), 1);
    assert_eq!(edges[0].from, Point::new(0, 0));
    assert_eq!(edges[0].to, Point::new(5, 5));
}

#[test]
fn nested_scope_restores_the_cursor() {
    // resolver semantics checked directly: a nested block must not leak
    // its cursor into the enclosing scope
    let blocks = vec![vec![
        Command { kind: CommandKind::Draw(Coord::Absolute(1, 1, None), Color::Black), src_index: 0 },
        Command {
            kind: CommandKind::Nested(vec![Command {
                kind: CommandKind::Draw(Coord::Absolute(10, 10, None), Color::Black),
                src_index: 0,
            }]),
            src_index: 0,
        },
        Command { kind: CommandKind::Draw(Coord::Relative(1, 0, None), Color::Black), src_index: 0 },
    ]];
    let bp = BlueprintLoader::new().exec(&blocks, &vec![]).unwrap();
    let shapes = bp.shapes_iter();
    // the nested block pushes its own shape first; all coordinates are then
    // shifted by the global top-left corner (1,1)
    assert_eq!(shapes.len(), 2);
    let inner = shapes[0].edges_iter();
    assert_eq!(inner.len(), 1);
    assert_eq!(inner[0].to, Point::new(9, 9));
    let outer = shapes[1].edges_iter();
    assert_eq!(outer.len(), 1);
    // the relative draw starts from (1,1), not from the nested (10,10)
    assert_eq!(outer[0].from, Point::new(0, 0));
    assert_eq!(outer[0].to, Point::new(1, 0));
}

#[test]
fn translate_round_trip_reproduces_points() {
    let mut bp = Blueprint::default();
    bp.push(Shape::from_edges(vec![
        Edge::new(-3, 4, 7, -2, Color::Black, 1),
        Edge::new(0, 0, 5, 5, Color::Red, 2),
    ]));
    let (top_left, _) = bp.boundaries();
    assert_eq!(top_left, Point::new(-3, -2));
    bp.translate_to_origin();
    bp.translate(top_left.x, top_left.y);
    let edges = bp.shapes_iter()[0].edges_iter();
    assert_eq!(edges[0].from, Point::new(-3, 4));
    assert_eq!(edges[0].to, Point::new(7, -2));
    assert_eq!(edges[1].from, Point::new(0, 0));
    assert_eq!(edges[1].to, Point::new(5, 5));
}

#[test]
fn scaling_by_one_changes_nothing() {
    let mut bp = Blueprint::default();
    bp.push(Shape::from_edges(vec![Edge::new(1, 2, 3, 4, Color::Black, 1)]));
    let scaled = bp.scale(1, 1);
    let edges = scaled.shapes_iter()[0].edges_iter();
    assert_eq!(edges[0].from, Point::new(1, 2));
    assert_eq!(edges[0].to, Point::new(3, 4));
}

#[test]
fn scaling_rounds_halves_away_from_zero() {
    let e = Edge::new(1, 3, -1, -3, Color::Black, 1);
    let half = e.scale(1, 2);
    assert_eq!(half.from, Point::new(1, 2));
    assert_eq!(half.to, Point::new(-1, -2));
    let double = e.scale(2, 1);
    assert_eq!(double.from, Point::new(2, 6));
    assert_eq!(double.to, Point::new(-2, -6));
}

#[test]
fn empty_block_yields_an_empty_shape() {
    let bp = compile("{ }").unwrap();
    let shapes = bp.shapes_iter();
    assert_eq!(shapes.len(), 1);
    assert!(shapes[0].edges_iter().is_empty());
}

#[test]
fn line_numbers_come_from_newline_offsets() {
    let bp = compile("{ @0,0\n1,1\n2,2 }").unwrap();
    let edges = bp.shapes_iter()[0].edges_iter();
    assert_eq!(edges.len(), 2);
    assert_eq!(edges[0].line, 2);
    assert_eq!(edges[1].line, 3);
}
