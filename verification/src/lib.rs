//! Prism art: isometric vector pictures built from axis-aligned unit cubes.
//!
//! The pipeline runs leaves first: shapes are built in an [`arena::ShapeVec`],
//! turned into unit faces ([`face`]), put on a canvas of triangle cells
//! ([`canvas`]), split into per-colour layers and reduced to polygon outlines
//! ([`poly`]).
//!
//! Colours are carried as [`color::Paint`]: the caller keeps the channels of
//! each colour and blends those that let light through; the library decides
//! which faces meet on which cell, and in which order.

/// Vectors, axes and axis-aligned boxes
pub mod math;

/// Axis-aligned prisms and their intersection and difference
pub mod geom;

/// Shapes as lists of prisms, and the arena that holds them
pub mod shape;

/// What holds of the shape algebra as a whole
pub mod laws;

/// The store of shapes and the handles into it
pub mod arena;

/// Packed colours and the classes of their alpha channel
pub mod color;

/// Unit faces, their order and the faces of a shape
pub mod face;

/// Sparse grids of triangle cells and maps that keep the order of their keys
pub mod grid;

/// Layers of cells, their spanning trees and their outlines
pub mod poly;

/// The canvas of triangle cells and the layers made from it
pub mod canvas;

/// Coloured prisms by themselves and their subtraction
pub mod flat;

/// Trees of nested prisms with cuts
pub mod tree;

/// What a script can call, and the errors that it can meet
pub mod builtin;

/// The bounds of a picture
pub mod svg;

pub use builtin::{Builtin, Error};
pub use poly::polygons_from_layers;
