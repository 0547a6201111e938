use vstd::prelude::*;
use crate::error::PcdError;

verus! {

/// The closed set of element types a field can hold: unsigned and signed
/// integers of 1, 2, 4 and 8 bytes, and IEEE 754 binary32/binary64 values.
/// Float values travel through the library as their bit patterns; the
/// library never computes with them.
#[derive(Clone, Copy, PartialEq, Eq, Structural, Debug, Hash)]
pub enum Dtype {
    U8,
    U16,
    U32,
    U64,
    I8,
    I16,
    I32,
    I64,
    F32,
    F64,
}

/// Byte width of one element of dtype `d`.
pub open spec fn dtype_size(d: Dtype) -> nat {
    match d {
        Dtype::U8 | Dtype::I8 => 1,
        Dtype::U16 | Dtype::I16 => 2,
        Dtype::U32 | Dtype::I32 | Dtype::F32 => 4,
        Dtype::U64 | Dtype::I64 | Dtype::F64 => 8,
    }
}

/// Category letter of dtype `d`: 'U' unsigned, 'I' signed, 'F' float.
pub open spec fn dtype_category(d: Dtype) -> char {
    match d {
        Dtype::U8 | Dtype::U16 | Dtype::U32 | Dtype::U64 => 'U',
        Dtype::I8 | Dtype::I16 | Dtype::I32 | Dtype::I64 => 'I',
        Dtype::F32 | Dtype::F64 => 'F',
    }
}

/// The dtype determined by a category letter and a byte width; the ten
/// valid combinations and nothing else.
pub open spec fn dtype_from_category_size(c: char, s: nat) -> Result<Dtype, PcdError> {
    if c == 'U' && s == 1 {
        Ok(Dtype::U8)
    } else if c == 'U' && s == 2 {
        Ok(Dtype::U16)
    } else if c == 'U' && s == 4 {
        Ok(Dtype::U32)
    } else if c == 'U' && s == 8 {
        Ok(Dtype::U64)
    } else if c == 'I' && s == 1 {
        Ok(Dtype::I8)
    } else if c == 'I' && s == 2 {
        Ok(Dtype::I16)
    } else if c == 'I' && s == 4 {
        Ok(Dtype::I32)
    } else if c == 'I' && s == 8 {
        Ok(Dtype::I64)
    } else if c == 'F' && s == 4 {
        Ok(Dtype::F32)
    } else if c == 'F' && s == 8 {
        Ok(Dtype::F64)
    } else {
        Err(PcdError::UnsupportedDtype)
    }
}

/// The canonical external numeric-type name of dtype `d`.
pub open spec fn numpy_name(d: Dtype) -> Seq<char> {
    match d {
        Dtype::U8 => "uint8"@,
        Dtype::U16 => "uint16"@,
        Dtype::U32 => "uint32"@,
        Dtype::U64 => "uint64"@,
        Dtype::I8 => "int8"@,
        Dtype::I16 => "int16"@,
        Dtype::I32 => "int32"@,
        Dtype::I64 => "int64"@,
        Dtype::F32 => "float32"@,
        Dtype::F64 => "float64"@,
    }
}

/// The dtype whose canonical external name is `s`, if any.
pub open spec fn dtype_from_numpy_name(s: Seq<char>) -> Option<Dtype> {
    if s == numpy_name(Dtype::U8) {
        Some(Dtype::U8)
    } else if s == numpy_name(Dtype::U16) {
        Some(Dtype::U16)
    } else if s == numpy_name(Dtype::U32) {
        Some(Dtype::U32)
    } else if s == numpy_name(Dtype::U64) {
        Some(Dtype::U64)
    } else if s == numpy_name(Dtype::I8) {
        Some(Dtype::I8)
    } else if s == numpy_name(Dtype::I16) {
        Some(Dtype::I16)
    } else if s == numpy_name(Dtype::I32) {
        Some(Dtype::I32)
    } else if s == numpy_name(Dtype::I64) {
        Some(Dtype::I64)
    } else if s == numpy_name(Dtype::F32) {
        Some(Dtype::F32)
    } else if s == numpy_name(Dtype::F64) {
        Some(Dtype::F64)
    } else {
        None
    }
}

impl Dtype {
    /// Byte width of one element: 1, 2, 4 or 8.
    pub fn get_size(&self) -> (r: usize)
        ensures
            r == dtype_size(*self),
    {
        match self {
            Dtype::U8 | Dtype::I8 => 1,
            Dtype::U16 | Dtype::I16 => 2,
            Dtype::U32 | Dtype::I32 | Dtype::F32 => 4,
            Dtype::U64 | Dtype::I64 | Dtype::F64 => 8,
        }
    }

    /// Category as a string: "U" unsigned, "I" signed, "F" float.
    pub fn get_type(&self) -> (r: &'static str)
        ensures
            r@ == seq![dtype_category(*self)],
    {
        proof {
            reveal_strlit("U");
            reveal_strlit("I");
            reveal_strlit("F");
        }
        match self {
            Dtype::U8 | Dtype::U16 | Dtype::U32 | Dtype::U64 => "U",
            Dtype::I8 | Dtype::I16 | Dtype::I32 | Dtype::I64 => "I",
            Dtype::F32 | Dtype::F64 => "F",
        }
    }

    /// The dtype for a category letter and a byte width; any pair outside
    /// the ten valid combinations is unsupported.
    pub fn from_category_size(c: char, s: usize) -> (r: Result<Dtype, PcdError>)
        ensures
            r == dtype_from_category_size(c, s as nat),
    {
        if c == 'U' && s == 1 {
            Ok(Dtype::U8)
        } else if c == 'U' && s == 2 {
            Ok(Dtype::U16)
        } else if c == 'U' && s == 4 {
            Ok(Dtype::U32)
        } else if c == 'U' && s == 8 {
            Ok(Dtype::U64)
        } else if c == 'I' && s == 1 {
            Ok(Dtype::I8)
        } else if c == 'I' && s == 2 {
            Ok(Dtype::I16)
        } else if c == 'I' && s == 4 {
            Ok(Dtype::I32)
        } else if c == 'I' && s == 8 {
            Ok(Dtype::I64)
        } else if c == 'F' && s == 4 {
            Ok(Dtype::F32)
        } else if c == 'F' && s == 8 {
            Ok(Dtype::F64)
        } else {
            Err(PcdError::UnsupportedDtype)
        }
    }

    /// The dtype for a one-letter category string and a byte width.
    pub fn from_type_size(t: &str, s: &usize) -> (r: Result<Dtype, PcdError>)
        ensures
            t@.len() == 1 ==> r == dtype_from_category_size(t@[0], *s as nat),
            t@.len() != 1 ==> r == Err::<Dtype, PcdError>(PcdError::UnsupportedDtype),
    {
        if t.unicode_len() == 1 {
            let c = t.get_char(0);
            Self::from_category_size(c, *s)
        } else {
            Err(PcdError::UnsupportedDtype)
        }
    }

    /// The dtype named by an external numeric-type name such as "uint8"
    /// or "float64".
    pub fn from_numpy_dtype(dtype: &str) -> (r: Option<Dtype>)
        ensures
            r == dtype_from_numpy_name(dtype@),
    {
        let d = dtype.to_owned();
        if d == "uint8".to_owned() {
            Some(Dtype::U8)
        } else if d == "uint16".to_owned() {
            Some(Dtype::U16)
        } else if d == "uint32".to_owned() {
            Some(Dtype::U32)
        } else if d == "uint64".to_owned() {
            Some(Dtype::U64)
        } else if d == "int8".to_owned() {
            Some(Dtype::I8)
        } else if d == "int16".to_owned() {
            Some(Dtype::I16)
        } else if d == "int32".to_owned() {
            Some(Dtype::I32)
        } else if d == "int64".to_owned() {
            Some(Dtype::I64)
        } else if d == "float32".to_owned() {
            Some(Dtype::F32)
        } else if d == "float64".to_owned() {
            Some(Dtype::F64)
        } else {
            None
        }
    }

    /// The canonical external numeric-type name of this dtype.
    pub fn as_numpy_dtype(&self) -> (r: &'static str)
        ensures
            r@ == numpy_name(*self),
    {
        match self {
            Dtype::U8 => "uint8",
            Dtype::U16 => "uint16",
            Dtype::U32 => "uint32",
            Dtype::U64 => "uint64",
            Dtype::I8 => "int8",
            Dtype::I16 => "int16",
            Dtype::I32 => "int32",
            Dtype::I64 => "int64",
            Dtype::F32 => "float32",
            Dtype::F64 => "float64",
        }
    }
}

} // verus!
