//! A compiler and renderer for a small textual language describing
//! line-drawings ("blueprints").
//!
//! Source text is lexed into spanned tokens, parsed into a forest of drawing
//! commands with recoverable diagnostics, resolved into a geometric model of
//! shapes and edges (with scoped cursor and tag semantics), and finally
//! rasterized onto a pixel canvas that can be serialized as plain-text RGB.

pub mod canvas;
pub mod diag;
pub mod geometry;
pub mod laws;
pub mod lexer;
pub mod parser;
pub mod ppm;
pub mod resolver;
pub mod zoom;

pub use canvas::Canvas;
pub use geometry::Blueprint;
pub use geometry::Color;
pub use geometry::Edge;
pub use geometry::Point;
pub use geometry::Shape;
