use vstd::prelude::*;
use crate::dtype::{dtype_category, dtype_from_category_size, dtype_size, Dtype};
use crate::error::PcdError;
use crate::fielddata::ceil_div;

verus! {

/// Bit pattern of the IEEE binary32 value one.
pub const ONE_BITS32: u32 = 0x3F80_0000;

/// Sensor pose: translation and orientation quaternion.  Each component is
/// the bit pattern of an IEEE binary32 value; the library never computes
/// with the pose, it only stores and transports it.
#[derive(Clone, Copy, PartialEq, Eq, Structural, Debug)]
pub struct Viewpoint {
    pub tx: u32,
    pub ty: u32,
    pub tz: u32,
    pub qw: u32,
    pub qx: u32,
    pub qy: u32,
    pub qz: u32,
}

/// The identity pose: zero translation, unit quaternion.
pub open spec fn identity_viewpoint() -> Viewpoint {
    Viewpoint { tx: 0, ty: 0, tz: 0, qw: ONE_BITS32, qx: 0, qy: 0, qz: 0 }
}

impl Viewpoint {
    /// Builds a pose from seven component bit patterns in the order
    /// tx, ty, tz, qw, qx, qy, qz.
    pub fn from(values: Vec<u32>) -> (r: Viewpoint)
        requires
            values@.len() == 7,
        ensures
            r == (Viewpoint {
                tx: values@[0],
                ty: values@[1],
                tz: values@[2],
                qw: values@[3],
                qx: values@[4],
                qy: values@[5],
                qz: values@[6],
            }),
    {
        Viewpoint {
            tx: values[0],
            ty: values[1],
            tz: values[2],
            qw: values[3],
            qx: values[4],
            qy: values[5],
            qz: values[6],
        }
    }

    /// The seven component bit patterns in the order tx, ty, tz, qw, qx,
    /// qy, qz.
    pub fn to_vec(&self) -> (r: Vec<u32>)
        ensures
            r@ == seq![self.tx, self.ty, self.tz, self.qw, self.qx, self.qy, self.qz],
    {
        let mut v: Vec<u32> = Vec::new();
        v.push(self.tx);
        v.push(self.ty);
        v.push(self.tz);
        v.push(self.qw);
        v.push(self.qx);
        v.push(self.qy);
        v.push(self.qz);
        proof {
            assert(v@ =~= seq![self.tx, self.ty, self.tz, self.qw, self.qx, self.qy, self.qz]);
        }
        v
    }
}

impl Default for Viewpoint {
    /// The identity pose.
    fn default() -> (r: Self)
        ensures
            r == identity_viewpoint(),
    {
        Viewpoint { tx: 0, ty: 0, tz: 0, qw: ONE_BITS32, qx: 0, qy: 0, qz: 0 }
    }
}

/// The payload layout of a PCD file.
#[derive(Clone, Copy, PartialEq, Eq, Structural, Debug)]
pub enum Encoding {
    Ascii,
    Binary,
    BinaryCompressed,
}

/// The lower-case on-disk name of an encoding.
pub open spec fn encoding_name(e: Encoding) -> Seq<char> {
    match e {
        Encoding::Ascii => "ascii"@,
        Encoding::Binary => "binary"@,
        Encoding::BinaryCompressed => "binary_compressed"@,
    }
}

/// The encoding named by an on-disk name, if any.
pub open spec fn encoding_from_name(s: Seq<char>) -> Option<Encoding> {
    if s == encoding_name(Encoding::Ascii) {
        Some(Encoding::Ascii)
    } else if s == encoding_name(Encoding::Binary) {
        Some(Encoding::Binary)
    } else if s == encoding_name(Encoding::BinaryCompressed) {
        Some(Encoding::BinaryCompressed)
    } else {
        None
    }
}

impl Encoding {
    /// The lower-case on-disk name of this encoding.
    pub fn as_str(&self) -> (r: &'static str)
        ensures
            r@ == encoding_name(*self),
    {
        match self {
            Encoding::Ascii => "ascii",
            Encoding::Binary => "binary",
            Encoding::BinaryCompressed => "binary_compressed",
        }
    }

    /// The encoding named by `s`, if any.
    pub fn from_str(s: &str) -> (r: Option<Encoding>)
        ensures
            r == encoding_from_name(s@),
    {
        let o = s.to_owned();
        if o == "ascii".to_owned() {
            Some(Encoding::Ascii)
        } else if o == "binary".to_owned() {
            Some(Encoding::Binary)
        } else if o == "binary_compressed".to_owned() {
            Some(Encoding::BinaryCompressed)
        } else {
            None
        }
    }
}

impl Default for Encoding {
    /// Compressed binary, the densest layout.
    fn default() -> (r: Self)
        ensures
            r == Encoding::BinaryCompressed,
    {
        Encoding::BinaryCompressed
    }
}

/// One schema entry: a field's name, element type and per-point vector
/// width.
#[derive(Clone, Debug, PartialEq)]
pub struct FieldMeta {
    pub name: String,
    pub dtype: Dtype,
    pub count: usize,
}

impl FieldMeta {
    /// Byte width of one element of this field.
    pub fn get_size(&self) -> (r: usize)
        ensures
            r == dtype_size(self.dtype),
    {
        self.dtype.get_size()
    }

    /// Category string of this field's dtype.
    pub fn get_type(&self) -> (r: &'static str)
        ensures
            r@ == seq![dtype_category(self.dtype)],
    {
        self.dtype.get_type()
    }
}

/// Bytes one point occupies across the fields `s`: the sum over the
/// entries of element size times vector width.
pub open spec fn point_size(s: Seq<FieldMeta>) -> nat
    decreases s.len(),
{
    if s.len() == 0 {
        0
    } else {
        point_size(s.drop_last()) + dtype_size(s.last().dtype) * (s.last().count as nat)
    }
}

/// Values one point holds across the fields `s`: the sum of the vector
/// widths.
pub open spec fn total_count(s: Seq<FieldMeta>) -> nat
    decreases s.len(),
{
    if s.len() == 0 {
        0
    } else {
        total_count(s.drop_last()) + (s.last().count as nat)
    }
}

/// Bytes the whole column of field `fm` occupies for `npoints` points.
pub open spec fn column_size(fm: FieldMeta, npoints: nat) -> nat {
    npoints * (fm.count as nat) * dtype_size(fm.dtype)
}

/// The ordered list of schema entries; the order fixes the on-disk field
/// order.
#[derive(Clone, Debug, PartialEq)]
pub struct FieldSchema(pub Vec<FieldMeta>);

impl FieldSchema {
    /// An empty schema.
    pub fn new() -> (r: Self)
        ensures
            r.0@ =~= Seq::<FieldMeta>::empty(),
    {
        FieldSchema(Vec::new())
    }

    /// Whether the schema holds no fields.
    pub fn is_empty(&self) -> (r: bool)
        ensures
            r == (self.0@.len() == 0),
    {
        self.0.len() == 0
    }

    /// The number of fields in the schema.
    pub fn len(&self) -> (r: usize)
        ensures
            r == self.0@.len(),
    {
        self.0.len()
    }

    /// The schema entry at position `i`.
    pub fn get(&self, i: usize) -> (r: &FieldMeta)
        requires
            i < self.0@.len(),
        ensures
            *r == self.0@[i as int],
    {
        &self.0[i]
    }
}

/// Width recomputed by `Metadata::trim` for `n` points at a prior height
/// `h`: the old height is kept as the divisor (at least one row) and the
/// width is rounded up.
pub open spec fn trim_width(h: nat, n: nat) -> nat {
    let h1 = if h == 0 { 1nat } else { h };
    n / h1 + (if n % h1 != 0 { 1nat } else { 0nat })
}

/// Height recomputed by `Metadata::trim` for `n` points once the width is
/// `w`: points divided by width, rounded up; one row when the cloud is
/// empty.
pub open spec fn trim_height(w: nat, n: nat) -> nat {
    if w == 0 {
        1
    } else {
        n / w + (if n % w != 0 { 1nat } else { 0nat })
    }
}

/// Everything a PCD header carries about a cloud: the field schema, the
/// grid shape, the pose, the payload encoding and the format version.
#[derive(Clone, Debug, PartialEq)]
pub struct Metadata {
    pub fields: FieldSchema,
    pub width: usize,
    pub height: usize,
    pub npoints: usize,
    pub viewpoint: Viewpoint,
    pub encoding: Encoding,
    pub version: String,
}

impl Metadata {
    /// Builds a metadata record from parallel lists of field names,
    /// category strings, element sizes and optional vector widths
    /// (defaulting to one per field), plus shape, an optional pose (seven
    /// binary32 bit patterns), an optional encoding name (defaulting to
    /// the compressed layout) and an optional version (defaulting to
    /// "0.7").  Fails when a (category, size) pair or the encoding name is
    /// not supported.
    pub fn new(
        names: Vec<String>,
        types: Vec<String>,
        sizes: Vec<usize>,
        counts: Option<Vec<usize>>,
        width: usize,
        height: usize,
        npoints: usize,
        viewpoint: Option<Vec<u32>>,
        encoding: Option<&str>,
        version: Option<&str>,
    ) -> (r: Result<Metadata, PcdError>)
        requires
            types@.len() == names@.len(),
            sizes@.len() == names@.len(),
            counts matches Some(c) ==> c@.len() == names@.len(),
            viewpoint matches Some(v) ==> v@.len() == 7,
        ensures
            r is Ok <==> encoding_from_name(
                match encoding {
                    Some(e) => e@,
                    None => "binary_compressed"@,
                },
            ) is Some && (forall|i: int|
                0 <= i < names@.len() ==> (#[trigger] types@[i])@.len() == 1
                    && dtype_from_category_size(types@[i]@[0], sizes@[i] as nat) is Ok),
            r matches Err(e) ==> (e == PcdError::MalformedValue <==> encoding_from_name(
                match encoding {
                    Some(e2) => e2@,
                    None => "binary_compressed"@,
                },
            ) is None),
            r matches Err(e) ==> e == PcdError::MalformedValue || e == PcdError::UnsupportedDtype,
            r matches Ok(md) ==> {
                &&& md.fields.0@.len() == names@.len()
                &&& forall|i: int|
                    0 <= i < names@.len() ==> {
                        &&& (#[trigger] md.fields.0@[i]).name@ == names@[i]@
                        &&& types@[i]@.len() == 1
                        &&& Ok::<Dtype, PcdError>(md.fields.0@[i].dtype)
                            == dtype_from_category_size(types@[i]@[0], sizes@[i] as nat)
                        &&& md.fields.0@[i].count == (match counts {
                            Some(c) => c@[i],
                            None => 1usize,
                        })
                    }
                &&& md.width == width
                &&& md.height == height
                &&& md.npoints == npoints
                &&& md.viewpoint == (match viewpoint {
                    Some(v) => Viewpoint {
                        tx: v@[0],
                        ty: v@[1],
                        tz: v@[2],
                        qw: v@[3],
                        qx: v@[4],
                        qy: v@[5],
                        qz: v@[6],
                    },
                    None => identity_viewpoint(),
                })
                &&& Some(md.encoding) == encoding_from_name(
                    match encoding {
                        Some(e) => e@,
                        None => "binary_compressed"@,
                    },
                )
                &&& md.version@ == (match version {
                    Some(v) => v@,
                    None => "0.7"@,
                })
            },
    {
        let enc_name: &str = match encoding {
            Some(e) => e,
            None => "binary_compressed",
        };
        let enc = match Encoding::from_str(enc_name) {
            Some(e) => e,
            None => {
                return Err(PcdError::MalformedValue);
            },
        };
        let vp = match viewpoint {
            Some(v) => Viewpoint::from(v),
            None => Viewpoint::default(),
        };
        let ver: String = match version {
            Some(v) => v.to_owned(),
            None => "0.7".to_owned(),
        };
        let n = names.len();
        let mut entries: Vec<FieldMeta> = Vec::new();
        let mut i: usize = 0;
        while i < n
            invariant
                i <= n,
                n == names@.len(),
                types@.len() == n,
                sizes@.len() == n,
                counts matches Some(c) ==> c@.len() == n,
                encoding_from_name(
                    match encoding {
                        Some(e2) => e2@,
                        None => "binary_compressed"@,
                    },
                ) is Some,
                entries@.len() == i,
                forall|j: int|
                    0 <= j < i ==> {
                        &&& (#[trigger] entries@[j]).name@ == names@[j]@
                        &&& types@[j]@.len() == 1
                        &&& Ok::<Dtype, PcdError>(entries@[j].dtype) == dtype_from_category_size(
                            types@[j]@[0],
                            sizes@[j] as nat,
                        )
                        &&& entries@[j].count == (match counts {
                            Some(c) => c@[j],
                            None => 1usize,
                        })
                    },
            decreases n - i,
        {
            let dtype = match Dtype::from_type_size(types[i].as_str(), &sizes[i]) {
                Ok(d) => d,
                Err(e) => {
                    return Err(e);
                },
            };
            let count: usize = match &counts {
                Some(c) => c[i],
                None => 1,
            };
            entries.push(FieldMeta { name: names[i].clone(), dtype, count });
            i += 1;
        }
        proof {
            assert forall|j: int|
                0 <= j < n implies (#[trigger] types@[j])@.len() == 1 && dtype_from_category_size(
                types@[j]@[0],
                sizes@[j] as nat,
            ) is Ok by {
                // the built entry witnesses the pair's validity
                let e = entries@[j];
            }
        }
        Ok(Metadata {
            fields: FieldSchema(entries),
            width,
            height,
            npoints,
            viewpoint: vp,
            encoding: enc,
            version: ver,
        })
    }

    /// Sets the point total to `n` and recomputes width and height so that
    /// the previous aspect ratio is roughly kept: the height stays the
    /// divisor and both dimensions are rounded up.
    pub fn trim(&mut self, n: usize)
        ensures
            final(self).npoints == n,
            final(self).width == trim_width(old(self).height as nat, n as nat),
            final(self).height == trim_height(final(self).width as nat, n as nat),
            final(self).fields == old(self).fields,
            final(self).viewpoint == old(self).viewpoint,
            final(self).encoding == old(self).encoding,
            final(self).version == old(self).version,
    {
        self.npoints = n;
        let h: usize = if self.height == 0 { 1 } else { self.height };
        let w: usize = ceil_div(n, h);
        self.width = w;
        self.height = if w == 0 { 1 } else { ceil_div(n, w) };
    }
}

impl Default for Metadata {
    /// An empty cloud: no fields, zero points in a zero-by-one grid,
    /// identity pose, compressed encoding, version "0.7".
    fn default() -> (r: Self)
        ensures
            r.fields.0@ =~= Seq::<FieldMeta>::empty(),
            r.width == 0,
            r.height == 1,
            r.npoints == 0,
            r.viewpoint == identity_viewpoint(),
            r.encoding == Encoding::BinaryCompressed,
            r.version@ == "0.7"@,
    {
        Metadata {
            fields: FieldSchema::new(),
            width: 0,
            height: 1,
            npoints: 0,
            viewpoint: Viewpoint::default(),
            encoding: Encoding::default(),
            version: "0.7".to_owned(),
        }
    }
}


/// Whether two metadata records carry the same content: same schema
/// entries (by name text, dtype and count), same shape, pose, encoding
/// and version text.
pub open spec fn meta_like(a: Metadata, b: Metadata) -> bool {
    &&& a.fields.0@.len() == b.fields.0@.len()
    &&& forall|i: int|
        0 <= i < a.fields.0@.len() ==> {
            &&& (#[trigger] a.fields.0@[i]).name@ == b.fields.0@[i].name@
            &&& a.fields.0@[i].dtype == b.fields.0@[i].dtype
            &&& a.fields.0@[i].count == b.fields.0@[i].count
        }
    &&& a.width == b.width
    &&& a.height == b.height
    &&& a.npoints == b.npoints
    &&& a.viewpoint == b.viewpoint
    &&& a.encoding == b.encoding
    &&& a.version@ == b.version@
}

impl Metadata {
    /// A fresh metadata record with the same content.
    pub fn duplicate(&self) -> (r: Metadata)
        ensures
            meta_like(r, *self),
    {
        let n = self.fields.len();
        let mut entries: Vec<FieldMeta> = Vec::new();
        let mut i: usize = 0;
        while i < n
            invariant
                i <= n,
                n == self.fields.0@.len(),
                entries@.len() == i,
                forall|j: int|
                    0 <= j < i ==> {
                        &&& (#[trigger] entries@[j]).name@ == self.fields.0@[j].name@
                        &&& entries@[j].dtype == self.fields.0@[j].dtype
                        &&& entries@[j].count == self.fields.0@[j].count
                    },
            decreases n - i,
        {
            let fm = self.fields.get(i);
            entries.push(FieldMeta { name: fm.name.clone(), dtype: fm.dtype, count: fm.count });
            i += 1;
        }
        Metadata {
            fields: FieldSchema(entries),
            width: self.width,
            height: self.height,
            npoints: self.npoints,
            viewpoint: self.viewpoint,
            encoding: self.encoding,
            version: self.version.clone(),
        }
    }
}

} // verus!
