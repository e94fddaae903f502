use vstd::prelude::*;

verus! {

/// The conditions under which a part of a tile cannot be produced.
#[derive(Clone, Copy, Debug, PartialEq, Eq, Structural)]
pub enum TileError {
    /// The tile column or row does not exist at the requested zoom.
    InvalidTileAddress,
    /// The datasource could not be opened or read for a layer.
    DatasourceUnavailable,
    /// A geometry is of a kind that the geometry model does not hold, or one
    /// of its parts is not of the kind that its parent asks for.
    UnsupportedGeometry,
    /// An attribute value has no counterpart among the attribute value types.
    UnmappedAttributeType,
    /// Clipping left a shape that cannot be encoded.
    EncodingInvariantViolation,
}

} // verus!
