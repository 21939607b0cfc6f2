use blueprint::geometry::{Color, Edge, Point, Shape};
use blueprint::zoom::ZoomLevel;

#[test]
fn zoom() {
    let zoom = ZoomLevel::default();
    assert_eq!(zoom, ZoomLevel { num: 1, denum: 1 });
    let zoom = zoom.zoom_in();
    assert_eq!(zoom, ZoomLevel { num: 2, denum: 1 });
    let zoom = zoom.zoom_in();
    assert_eq!(zoom, ZoomLevel { num: 3, denum: 1 });
    let zoom = zoom.zoom_out();
    assert_eq!(zoom, ZoomLevel { num: 2, denum: 1 });
    let zoom = zoom.zoom_out();
    assert_eq!(zoom, ZoomLevel { num: 1, denum: 1 });
    let zoom = zoom.zoom_out();
    assert_eq!(zoom, ZoomLevel { num: 1, denum: 2 });
    let zoom = zoom.zoom_out();
    assert_eq!(zoom, ZoomLevel { num: 1, denum: 3 });
    let zoom = zoom.zoom_in();
    assert_eq!(zoom, ZoomLevel { num: 1, denum: 2 });
    let zoom = zoom.zoom_in();
    assert_eq!(zoom, ZoomLevel { num: 1, denum: 1 });
    let zoom = zoom.zoom_in();
    assert_eq!(zoom, ZoomLevel { num: 2, denum: 1 });
}

#[test]
fn zoomed_rendering_scales_by_the_zoom_fraction() {
    let mut bp = blueprint::Blueprint::default();
    bp.push(Shape::from_edges(vec![Edge::new(0, 0, 4, 6, Color::Black, 1)]));
    let zoom = ZoomLevel::default().zoom_out().zoom_out();
    assert_eq!(zoom, ZoomLevel { num: 1, denum: 3 });
    let scaled = bp.scale(zoom.num as u32, zoom.denum as u32);
    let edges = scaled.shapes_iter()[0].edges_iter();
    assert_eq!(edges[0].from, Point::new(0, 0));
    assert_eq!(edges[0].to, Point::new(1, 2));
}
