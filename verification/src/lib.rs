//! A minimal software 3D rasterizer.
//!
//! The library loads a triangulated mesh from wavefront-style text, computes
//! flat per-face lighting, projects each face to screen space, scan-converts
//! the triangles into a framebuffer with a per-pixel depth test, and encodes
//! the result as an uncompressed true-color image.
//!
//! All geometry is carried in exact integer arithmetic: world-space
//! coordinates are decimal fixed-point values (six fractional digits) and
//! screen-space coordinates are plain integers.  Every interpolation
//! truncates toward zero, which pins pixel placement exactly.

pub mod framebuffer;
pub mod geometry;
pub mod numeric;
pub mod pipeline;
pub mod rasterizer;
pub mod shading;
pub mod tga;
pub mod wavefront;
