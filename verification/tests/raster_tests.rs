use blueprint::canvas::{Canvas, Draw};
use blueprint::geometry::{Color, Edge, Point};
use blueprint::geometry::Shape;
use blueprint::ppm::PpmImage;

#[test]
fn horizontal_edge_fills_every_pixel_of_its_row() {
    let edge = Edge::new(0, 0, 2, 0, Color::Black, 1);
    let mut canvas = Canvas::new(3, 1);
    edge.draw(&mut canvas);
    assert_eq!(canvas.get(0, 0), Color::Black);
    assert_eq!(canvas.get(1, 0), Color::Black);
    assert_eq!(canvas.get(2, 0), Color::Black);
}

#[test]
fn vertical_edge_fills_its_column() {
    let edge = Edge::new(1, 0, 1, 2, Color::Red, 1);
    let mut canvas = Canvas::new(3, 3);
    edge.draw(&mut canvas);
    for y in 0..3 {
        assert_eq!(canvas.get(1, y), Color::Red);
        assert_eq!(canvas.get(0, y), Color::White);
        assert_eq!(canvas.get(2, y), Color::White);
    }
}

#[test]
fn diagonal_edge_steps_along_x() {
    let edge = Edge::new(0, 0, 2, 2, Color::Black, 1);
    let mut canvas = Canvas::new(3, 3);
    edge.draw(&mut canvas);
    assert_eq!(canvas.get(0, 0), Color::Black);
    assert_eq!(canvas.get(1, 1), Color::Black);
    assert_eq!(canvas.get(2, 2), Color::Black);
    assert_eq!(canvas.get(1, 0), Color::White);
    assert_eq!(canvas.get(0, 1), Color::White);
}

#[test]
fn right_to_left_edge_walks_backwards() {
    let edge = Edge::new(2, 0, 0, 2, Color::Black, 1);
    let mut canvas = Canvas::new(3, 3);
    edge.draw(&mut canvas);
    assert_eq!(canvas.get(2, 0), Color::Black);
    assert_eq!(canvas.get(1, 1), Color::Black);
    assert_eq!(canvas.get(0, 2), Color::Black);
}

#[test]
fn transparent_edges_are_never_written() {
    let edge = Edge::new(0, 0, 2, 0, Color::Transparent, 1);
    let mut canvas = Canvas::new(3, 1);
    edge.draw(&mut canvas);
    for x in 0..3 {
        assert_eq!(canvas.get(x, 0), Color::White);
    }
    let zero_alpha = Edge::new(0, 0, 2, 0, Color::Custom(9, 9, 9, 0), 1);
    zero_alpha.draw(&mut canvas);
    for x in 0..3 {
        assert_eq!(canvas.get(x, 0), Color::White);
    }
}

#[test]
fn pad_blits_at_the_margin_offset_over_white() {
    let mut canvas = Canvas::new(1, 1);
    canvas.set(0, 0, Color::Black);
    let padded = canvas.pad(1, 1);
    assert_eq!(padded.width(), 3);
    assert_eq!(padded.height(), 3);
    for x in 0..3 {
        for y in 0..3 {
            let expected = if x == 1 && y == 1 { Color::Black } else { Color::White };
            assert_eq!(padded.get(x, y), expected);
        }
    }
}

#[test]
fn ppm_text_has_header_and_rows() {
    let mut canvas = Canvas::new(2, 1);
    canvas.set(0, 0, Color::Red);
    let image = PpmImage::new(&canvas);
    let mut reader = image.reader();
    let mut bytes = Vec::new();
    loop {
        let chunk = reader.read(7);
        if chunk.is_empty() {
            break;
        }
        bytes.extend_from_slice(&chunk);
    }
    assert!(reader.is_done());
    assert_eq!(String::from_utf8(bytes).unwrap(), "P3\n2 1\n255\n255 0 0 255 255 255\n");
}

#[test]
fn projection_clamps_to_the_edge_bounding_box() {
    let edge = Edge::new(0, 0, 10, 0, Color::Black, 1);
    let inside = Point::new(5, 5);
    assert_eq!(inside.closest_point_on_edge(&edge), Point::new(5, 0));
    let beyond = Point::new(15, 3);
    assert_eq!(beyond.closest_point_on_edge(&edge), Point::new(10, 0));
    let before = Point::new(-4, -4);
    assert_eq!(before.closest_point_on_edge(&edge), Point::new(0, 0));
    assert_eq!(inside.distance_squared_to_point(&Point::new(5, 0)), 25);
}

#[test]
fn closest_edge_skips_transparent_edges() {
    let mut bp = blueprint::Blueprint::default();
    bp.push(Shape::from_edges(vec![
        Edge::new(0, 1, 10, 1, Color::Transparent, 1),
        Edge::new(0, 5, 10, 5, Color::Black, 2),
    ]));
    let (edge, point, d2) = bp.find_closest_edge(Point::new(5, 0)).unwrap();
    assert_eq!(edge.color, Color::Black);
    assert_eq!(point, Point::new(5, 5));
    assert_eq!(d2, 25);
}

#[test]
fn canvas_is_sized_from_the_model_bounds() {
    let mut bp = blueprint::Blueprint::default();
    bp.push(Shape::from_edges(vec![Edge::new(0, 0, 4, 2, Color::Black, 1)]));
    let canvas = Canvas::from_blueprint(&bp);
    assert_eq!(canvas.width(), 5);
    assert_eq!(canvas.height(), 3);
    assert_eq!(canvas.get(0, 0), Color::Black);
    assert_eq!(canvas.get(4, 2), Color::Black);
}
