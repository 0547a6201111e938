use vstd::prelude::*;

verus! {

/// The header keys that a PCD header must provide before the payload
/// starts.  `Viewpoint` is optional in a file and so never missing.
#[derive(Clone, Copy, PartialEq, Eq, Structural, Debug)]
pub enum HeaderKey {
    Version,
    Fields,
    Size,
    Type,
    Count,
    Width,
    Height,
    Points,
    Data,
}

/// The first violation found when a point cloud is checked against its
/// metadata.
#[derive(Clone, Copy, PartialEq, Eq, Structural, Debug)]
pub enum InvariantKind {
    /// `width * height` differs from `npoints`.
    ShapeMismatch,
    /// The number of stored fields differs from the schema length.
    FieldCountMismatch,
    /// A stored field's name does not appear in the schema.
    UnknownField,
    /// A stored field's row count differs from the point total.
    FieldLengthMismatch,
    /// A stored field's dtype differs from its schema entry.
    FieldDtypeMismatch,
}

/// Every recoverable failure of the library.
#[derive(Clone, Copy, PartialEq, Eq, Structural, Debug)]
pub enum PcdError {
    /// A (category, size) pair or a numeric-type name outside the ten
    /// supported dtypes.
    UnsupportedDtype,
    /// A required header key never appeared before the `DATA` line.
    MissingHeaderField(HeaderKey),
    /// A header line that does not follow the grammar.
    MalformedHeaderLine,
    /// The input ended inside the header or inside the payload.
    UnexpectedEof,
    /// A payload buffer whose length is not the expected element count
    /// times the element size, or an ASCII line with the wrong number of
    /// values.
    PayloadLengthMismatch,
    /// An ASCII payload token that does not parse under its field's dtype.
    MalformedValue,
    /// A field added with a dtype or count differing from the schema.
    SchemaMismatch,
    /// The two operands of a strided update hold different dtypes.
    DtypeMismatch,
    /// The two strided selections enumerate different row counts.
    LengthMismatch,
    /// The point cloud's fields and metadata disagree.
    InvariantViolation(InvariantKind),
    /// The LZF coder refused the payload.
    CompressionFailure,
    /// File input or output failed; raised only outside the library.
    IoFailure,
}

} // verus!
