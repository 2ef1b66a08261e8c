//! Integer 2D rasterization: a pixel canvas with disc and thick-line
//! primitives, Cohen-Sutherland line clipping, a Bresenham stepper, and a
//! binary portable-pixmap serializer, together with the integer vector and
//! affine-transform utilities the rasterizer and its callers build on.

pub mod board;
pub mod canvas;
pub mod coordsys;
pub mod model;
pub mod transform;
pub mod vector;
