use vstd::prelude::*;
use crate::coord::Coord;

verus! {

/// A polygon: an outer ring (a closed coordinate sequence) plus zero or
/// more inner rings. This library only ever produces zero inner rings.
#[derive(Clone, Debug, PartialEq)]
pub struct Polygon {
    pub exterior: Vec<Coord>,
    pub interiors: Vec<Vec<Coord>>,
}

/// An ordered collection of polygons; built here with exactly one.
#[derive(Clone, Debug, PartialEq)]
pub struct GeometryCollection {
    pub polygons: Vec<Polygon>,
}

/// The result of a build: either a bare polygon or a collection
/// wrapping one, selected by the `collection` flag.
#[derive(Clone, Debug, PartialEq)]
pub enum GeoType {
    Polygon(Polygon),
    GeometryCollection(GeometryCollection),
}

/// Why a build was rejected.
#[derive(Clone, Copy, Debug, PartialEq, Eq, Structural)]
pub enum BuildError {
    /// Fewer than 3 vertices were requested.
    InvalidVertexCount,
    /// A bounding axis has min >= max.
    InvalidBounds,
    /// A hull collapsed to fewer than 3 distinct vertices while the
    /// caller asked for degenerate hulls to be rejected.
    DegenerateInput,
    /// More vertices were requested than the library accepts.
    VertexCountTooLarge,
}

} // verus!
