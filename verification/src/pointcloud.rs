use vstd::prelude::*;
use crate::dtype::{dtype_size, Dtype};
use crate::error::{InvariantKind, PcdError};
use crate::fielddata::{strided_row, strided_row_count, strided_selects, FieldData};
use crate::metadata::{meta_like, trim_height, trim_width, Encoding, FieldMeta, Metadata};

verus! {

/// One named field column of a point cloud.
#[derive(Clone, Debug, PartialEq)]
pub struct Field {
    pub name: String,
    pub data: FieldData,
}

/// A point cloud: the named field columns and the metadata they follow.
/// Field names act as a unique key.
#[derive(Clone, Debug, PartialEq)]
pub struct PointCloud {
    pub fields: Vec<Field>,
    pub metadata: Metadata,
}

/// Whether every schema entry admits a column allocation on this machine:
/// a positive vector width and byte extents that fit a `usize`.
pub open spec fn schema_allocatable(metas: Seq<FieldMeta>, npoints: nat) -> bool {
    forall|i: int|
        0 <= i < metas.len() ==> {
            &&& (#[trigger] metas[i]).count >= 1
            &&& metas[i].count * dtype_size(metas[i].dtype) <= usize::MAX
            &&& npoints * ((metas[i].count) * dtype_size(metas[i].dtype)) <= usize::MAX
        }
}

/// Whether schema entry `m` describes stored field `f`: same name text
/// and same dtype.  The row count is checked against the point total
/// separately; the vector width is not part of the invariant set.
pub open spec fn meta_matches_field(m: FieldMeta, f: Field) -> bool {
    &&& m.name@ == f.name@
    &&& m.dtype == f.data.dtype_spec()
}

/// Whether some entry of `metas` describes the stored field `f`.
pub open spec fn has_matching_meta(metas: Seq<FieldMeta>, f: Field) -> bool
    decreases metas.len(),
{
    if metas.len() == 0 {
        false
    } else {
        meta_matches_field(metas.last(), f) || has_matching_meta(metas.drop_last(), f)
    }
}


/// Whether the names of the schema entries are pairwise distinct.
pub open spec fn meta_names_unique(metas: Seq<FieldMeta>) -> bool {
    forall|i: int, j: int|
        0 <= i < j < metas.len() ==> (#[trigger] metas[i]).name@ != (#[trigger] metas[j]).name@
}

/// Whether the names of the stored fields are pairwise distinct.
pub open spec fn field_names_unique(fields: Seq<Field>) -> bool {
    forall|i: int, j: int|
        0 <= i < j < fields.len() ==> (#[trigger] fields[i]).name@ != (#[trigger] fields[j]).name@
}

/// The column stored under `name` among `fields`, if any; when several
/// fields carry the name, the last one.
pub open spec fn named_field_data(fields: Seq<Field>, name: Seq<char>) -> Option<FieldData>
    decreases fields.len(),
{
    if fields.len() == 0 {
        None
    } else if fields.last().name@ == name {
        Some(fields.last().data)
    } else {
        named_field_data(fields.drop_last(), name)
    }
}

/// When exactly one field carries `name`, the lookup returns its column.
pub proof fn lemma_named_field_lookup(fields: Seq<Field>, name: Seq<char>, k: int)
    requires
        0 <= k < fields.len(),
        fields[k].name@ == name,
        forall|m: int| 0 <= m < fields.len() && m != k ==> (#[trigger] fields[m]).name@ != name,
    ensures
        named_field_data(fields, name) == Some(fields[k].data),
    decreases fields.len(),
{
    if k == fields.len() - 1 {
    } else {
        assert(fields[fields.len() - 1].name@ != name);
        assert forall|m: int|
            0 <= m < fields.drop_last().len() && m != k implies (#[trigger] fields.drop_last()[m]).name@
            != name by {
            assert(fields.drop_last()[m] == fields[m]);
        }
        lemma_named_field_lookup(fields.drop_last(), name, k);
    }
}

/// When no field carries `name`, the lookup returns nothing.
pub proof fn lemma_named_field_absent(fields: Seq<Field>, name: Seq<char>)
    requires
        forall|m: int| 0 <= m < fields.len() ==> (#[trigger] fields[m]).name@ != name,
    ensures
        named_field_data(fields, name) is None,
    decreases fields.len(),
{
    if fields.len() > 0 {
        assert forall|m: int|
            0 <= m < fields.drop_last().len() implies (#[trigger] fields.drop_last()[m]).name@
            != name by {
            assert(fields.drop_last()[m] == fields[m]);
        }
        lemma_named_field_absent(fields.drop_last(), name);
    }
}

impl PointCloud {
    /// Structural well-formedness: every stored column is well formed.
    pub open spec fn wf(&self) -> bool {
        forall|i: int| 0 <= i < self.fields@.len() ==> (#[trigger] self.fields@[i]).data.wf()
    }

    /// Every stored column holds exactly the metadata's point total.
    pub open spec fn points_consistent(&self) -> bool {
        forall|i: int|
            0 <= i < self.fields@.len() ==> (#[trigger] self.fields@[i]).data.npoints_spec()
                == self.metadata.npoints
    }

    /// The invariant set a live point cloud must satisfy: the grid shape
    /// multiplies out to the point total, the schema and the stored fields
    /// have the same length, every stored field has a schema entry of the
    /// same name with the same dtype and vector width, and every stored
    /// column holds exactly the point total.
    pub open spec fn valid(&self) -> bool {
        &&& (self.metadata.height as nat) * (self.metadata.width as nat)
            == self.metadata.npoints as nat
        &&& self.metadata.fields.0@.len() == self.fields@.len()
        &&& forall|i: int|
            0 <= i < self.fields@.len() ==> has_matching_meta(
                self.metadata.fields.0@,
                #[trigger] self.fields@[i],
            )
        &&& self.points_consistent()
    }

    /// A cloud with one zero-filled column per schema entry of `md`.
    pub fn new(md: Metadata) -> (pc: PointCloud)
        requires
            schema_allocatable(md.fields.0@, md.npoints as nat),
        ensures
            pc.metadata == md,
            pc.wf(),
            pc.points_consistent(),
            pc.fields@.len() == md.fields.0@.len(),
            forall|i: int|
                0 <= i < pc.fields@.len() ==> {
                    let f = #[trigger] pc.fields@[i];
                    &&& f.name@ == md.fields.0@[i].name@
                    &&& f.data.dtype_spec() == md.fields.0@[i].dtype
                    &&& f.data.count_spec() == md.fields.0@[i].count
                    &&& f.data.npoints_spec() == md.npoints
                    &&& f.data.data_spec() == Seq::new(f.data.data_spec().len(), |k: int| 0u8)
                },
    {
        let npoints = md.npoints;
        let n = md.fields.len();
        let mut fields: Vec<Field> = Vec::new();
        let mut i: usize = 0;
        while i < n
            invariant
                i <= n,
                n == md.fields.0@.len(),
                schema_allocatable(md.fields.0@, npoints as nat),
                fields@.len() == i,
                forall|j: int|
                    0 <= j < i ==> {
                        let f = #[trigger] fields@[j];
                        &&& f.name@ == md.fields.0@[j].name@
                        &&& f.data.dtype_spec() == md.fields.0@[j].dtype
                        &&& f.data.count_spec() == md.fields.0@[j].count
                        &&& f.data.npoints_spec() == npoints
                        &&& f.data.wf()
                        &&& f.data.data_spec() == Seq::new(f.data.data_spec().len(), |k: int| 0u8)
                    },
            decreases n - i,
        {
            let fm = md.fields.get(i);
            let data = FieldData::new(fm.dtype, npoints, fm.count);
            fields.push(Field { name: fm.name.clone(), data });
            i += 1;
        }
        PointCloud { fields, metadata: md }
    }

    /// A cloud with the given metadata and no stored fields yet; the
    /// caller populates it incrementally.
    pub fn empty(md: Metadata) -> (pc: PointCloud)
        ensures
            pc.metadata == md,
            pc.fields@.len() == 0,
            pc.wf(),
    {
        PointCloud { fields: Vec::new(), metadata: md }
    }

    /// The number of points, as the metadata records it.
    pub fn len(&self) -> (r: usize)
        ensures
            r == self.metadata.npoints,
    {
        self.metadata.npoints
    }

    /// Checks the invariant set and reports the first violation found:
    /// the grid shape against the point total, the field tally against the
    /// schema, then each stored field's schema entry and point total.
    pub fn check_pointcloud(&self) -> (r: Result<(), PcdError>)
        ensures
            r is Ok <==> self.valid(),
            r matches Err(e) ==> e matches PcdError::InvariantViolation(_),
    {
        match self.metadata.height.checked_mul(self.metadata.width) {
            Some(p) => {
                if p != self.metadata.npoints {
                    return Err(PcdError::InvariantViolation(InvariantKind::ShapeMismatch));
                }
            },
            None => {
                return Err(PcdError::InvariantViolation(InvariantKind::ShapeMismatch));
            },
        }
        if self.metadata.fields.len() != self.fields.len() {
            return Err(PcdError::InvariantViolation(InvariantKind::FieldCountMismatch));
        }
        let nf = self.fields.len();
        let nm = self.metadata.fields.len();
        let mut i: usize = 0;
        while i < nf
            invariant
                nf == self.fields@.len(),
                nm == self.metadata.fields.0@.len(),
                i <= nf,
                forall|a: int|
                    0 <= a < i ==> has_matching_meta(
                        self.metadata.fields.0@,
                        #[trigger] self.fields@[a],
                    ),
                forall|a: int|
                    0 <= a < i ==> (#[trigger] self.fields@[a]).data.npoints_spec()
                        == self.metadata.npoints,
            decreases nf - i,
        {
            let f = &self.fields[i];
            let mut found: bool = false;
            let mut name_found: bool = false;
            let mut j: usize = 0;
            while j < nm
                invariant
                    nm == self.metadata.fields.0@.len(),
                    j <= nm,
                    i < nf == self.fields@.len(),
                    *f == self.fields@[i as int],
                    found <==> has_matching_meta(
                        self.metadata.fields.0@.take(j as int),
                        self.fields@[i as int],
                    ),
                decreases nm - j,
            {
                let m = self.metadata.fields.get(j);
                proof {
                    let metas = self.metadata.fields.0@;
                    assert(metas.take(j + 1).drop_last() =~= metas.take(j as int));
                    assert(metas.take(j + 1).last() == metas[j as int]);
                }
                if m.name == f.name {
                    name_found = true;
                    if m.dtype.eq_kind(&f.data.dtype()) {
                        found = true;
                    }
                }
                j += 1;
            }
            proof {
                assert(self.metadata.fields.0@.take(nm as int) =~= self.metadata.fields.0@);
            }
            if !found {
                if name_found {
                    return Err(PcdError::InvariantViolation(InvariantKind::FieldDtypeMismatch));
                }
                return Err(PcdError::InvariantViolation(InvariantKind::UnknownField));
            }
            if f.data.npoints() != self.metadata.npoints {
                return Err(PcdError::InvariantViolation(InvariantKind::FieldLengthMismatch));
            }
            i += 1;
        }
        Ok(())
    }


    /// Adds or replaces the column `name` with `buffer`, the little-endian
    /// bytes of an (npoints x count) matrix of `dtype` elements.  When the
    /// schema already lists the name, the given dtype and vector width
    /// must match it, else the call fails with `SchemaMismatch`; when it
    /// does not, the entry is appended.  A buffer whose length is not
    /// npoints times count times the element size fails with
    /// `PayloadLengthMismatch`; an empty name or a zero width fails with
    /// `MalformedValue`.  On failure nothing changes.
    #[verifier::rlimit(60)]
    pub fn set_field(&mut self, name: &str, dtype: Dtype, count: usize, buffer: &[u8]) -> (r:
        Result<(), PcdError>)
        requires
            old(self).wf(),
            meta_names_unique(old(self).metadata.fields.0@),
            field_names_unique(old(self).fields@),
        ensures
            final(self).wf(),
            meta_names_unique(final(self).metadata.fields.0@),
            field_names_unique(final(self).fields@),
            r is Err ==> *final(self) == *old(self),
            ({
                let metas = old(self).metadata.fields.0@;
                let named = exists|j: int|
                    0 <= j < metas.len() && (#[trigger] metas[j]).name@ == name@;
                let compatible = forall|j: int|
                    0 <= j < metas.len() && (#[trigger] metas[j]).name@ == name@ ==> metas[j].dtype
                        == dtype && metas[j].count == count;
                if name@.len() == 0 || count == 0 {
                    r == Err::<(), PcdError>(PcdError::MalformedValue)
                } else if !compatible {
                    r == Err::<(), PcdError>(PcdError::SchemaMismatch)
                } else if count as nat * dtype_size(dtype) > usize::MAX || buffer@.len() != old(
                    self,
                ).metadata.npoints as nat * (count as nat * dtype_size(dtype)) {
                    r == Err::<(), PcdError>(PcdError::PayloadLengthMismatch)
                } else {
                    &&& r == Ok::<(), PcdError>(())
                    &&& final(self).metadata.width == old(self).metadata.width
                    &&& final(self).metadata.height == old(self).metadata.height
                    &&& final(self).metadata.npoints == old(self).metadata.npoints
                    &&& final(self).metadata.viewpoint == old(self).metadata.viewpoint
                    &&& final(self).metadata.encoding == old(self).metadata.encoding
                    &&& final(self).metadata.version == old(self).metadata.version
                    &&& (if named {
                        final(self).metadata.fields.0@ == metas
                    } else {
                        final(self).metadata.fields.0@.len() == metas.len() + 1
                            && final(self).metadata.fields.0@.subrange(0, metas.len() as int)
                            == metas && final(self).metadata.fields.0@.last().name@ == name@
                            && final(self).metadata.fields.0@.last().dtype == dtype
                            && final(self).metadata.fields.0@.last().count == count
                    })
                    &&& named_field_data(final(self).fields@, name@) matches Some(fd) && {
                        &&& fd.dtype_spec() == dtype
                        &&& fd.count_spec() == count
                        &&& fd.npoints_spec() == old(self).metadata.npoints
                        &&& fd.data_spec() == buffer@
                    }
                    &&& forall|i: int|
                        0 <= i < old(self).fields@.len() && (#[trigger] old(self).fields@[i]).name@
                            != name@ ==> exists|i2: int|
                            0 <= i2 < final(self).fields@.len()
                                && #[trigger] final(self).fields@[i2] == old(self).fields@[i]
                }
            }),
    {
        if name.unicode_len() == 0 || count == 0 {
            return Err(PcdError::MalformedValue);
        }
        let blen = buffer.len();
        let owned = name.to_owned();
        let nm = self.metadata.fields.len();
        let mut meta_idx: usize = nm;
        let mut j: usize = 0;
        while j < nm
            invariant
                nm == self.metadata.fields.0@.len(),
                self.metadata.fields.0@ == old(self).metadata.fields.0@,
                j <= nm,
                meta_idx <= nm,
                owned@ == name@,
                meta_idx == nm ==> forall|k: int|
                    0 <= k < j ==> (#[trigger] old(self).metadata.fields.0@[k]).name@ != name@,
                meta_idx < nm ==> old(self).metadata.fields.0@[meta_idx as int].name@ == name@,
            decreases nm - j,
        {
            if meta_idx == nm && self.metadata.fields.get(j).name == owned {
                meta_idx = j;
            }
            j += 1;
        }
        let ghost metas0 = old(self).metadata.fields.0@;
        proof {
            if meta_idx < nm {
                assert(exists|j2: int|
                    0 <= j2 < metas0.len() && (#[trigger] metas0[j2]).name@ == name@);
            }
        }
        if meta_idx < nm {
            let m = self.metadata.fields.get(meta_idx);
            if !m.dtype.eq_kind(&dtype) || m.count != count {
                return Err(PcdError::SchemaMismatch);
            }
            proof {
                assert forall|j2: int|
                    0 <= j2 < metas0.len() && (#[trigger] metas0[j2]).name@ == name@ implies
                    metas0[j2].dtype == dtype && metas0[j2].count == count by {
                    if j2 != meta_idx as int {
                        assert(metas0[j2].name@ != metas0[meta_idx as int].name@);
                    }
                }
            }
        }
        let es = dtype.get_size();
        let rs = match count.checked_mul(es) {
            Some(v) => v,
            None => {
                return Err(PcdError::PayloadLengthMismatch);
            },
        };
        let expected = match self.metadata.npoints.checked_mul(rs) {
            Some(v) => v,
            None => {
                proof {
                    lemma_buffer_len_bound(
                        blen as nat,
                        self.metadata.npoints as nat,
                        count as nat,
                        dtype_size(dtype),
                    );
                }
                return Err(PcdError::PayloadLengthMismatch);
            },
        };
        if blen != expected {
            return Err(PcdError::PayloadLengthMismatch);
        }
        let mut fd = FieldData::new(dtype, self.metadata.npoints, count);
        fd.assign_from_buffer(buffer);
        if meta_idx == nm {
            self.metadata.fields.0.push(FieldMeta { name: owned.clone(), dtype, count });
            proof {
                assert(self.metadata.fields.0@.subrange(0, metas0.len() as int) =~= metas0);
                assert forall|a: int, b: int|
                    0 <= a < b < self.metadata.fields.0@.len() implies (#[trigger] self.metadata.fields.0@[a]).name@
                    != (#[trigger] self.metadata.fields.0@[b]).name@ by {
                    if b == self.metadata.fields.0@.len() - 1 {
                        assert(self.metadata.fields.0@[a] == metas0[a]);
                        assert(metas0[a].name@ != name@);
                        assert(self.metadata.fields.0@[b].name@ == name@);
                    } else {
                        assert(self.metadata.fields.0@[a] == metas0[a]);
                        assert(self.metadata.fields.0@[b] == metas0[b]);
                    }
                }
            }
        }
        let nf = self.fields.len();
        let mut field_idx: usize = nf;
        let mut i: usize = 0;
        while i < nf
            invariant
                nf == self.fields@.len(),
                self.fields@ == old(self).fields@,
                i <= nf,
                field_idx <= nf,
                owned@ == name@,
                field_idx == nf ==> forall|k: int|
                    0 <= k < i ==> (#[trigger] old(self).fields@[k]).name@ != name@,
                field_idx < nf ==> old(self).fields@[field_idx as int].name@ == name@,
            decreases nf - i,
        {
            if field_idx == nf && self.fields[i].name == owned {
                field_idx = i;
            }
            i += 1;
        }
        let ghost fields0 = old(self).fields@;
        if field_idx < nf {
            self.fields[field_idx] = Field { name: owned, data: fd };
            proof {
                assert forall|i3: int| 0 <= i3 < self.fields@.len() implies (#[trigger] self.fields@[i3]).data.wf() by {
                    if i3 != field_idx as int {
                        assert(self.fields@[i3] == fields0[i3]);
                    }
                }
                assert forall|a: int, b: int|
                    0 <= a < b < self.fields@.len() implies (#[trigger] self.fields@[a]).name@ != (
                #[trigger] self.fields@[b]).name@ by {
                    if a == field_idx as int {
                        assert(self.fields@[b] == fields0[b]);
                        assert(fields0[b].name@ != fields0[field_idx as int].name@);
                    } else if b == field_idx as int {
                        assert(self.fields@[a] == fields0[a]);
                        assert(fields0[a].name@ != fields0[field_idx as int].name@);
                    } else {
                        assert(self.fields@[a] == fields0[a]);
                        assert(self.fields@[b] == fields0[b]);
                    }
                }
                assert forall|m2: int|
                    0 <= m2 < self.fields@.len() && m2 != field_idx as int implies (
                #[trigger] self.fields@[m2]).name@ != name@ by {
                    assert(self.fields@[m2] == fields0[m2]);
                    assert(fields0[m2].name@ != fields0[field_idx as int].name@);
                }
                lemma_named_field_lookup(self.fields@, name@, field_idx as int);
                assert forall|i2: int|
                    0 <= i2 < fields0.len() && (#[trigger] fields0[i2]).name@ != name@ implies
                    exists|i3: int|
                    0 <= i3 < self.fields@.len() && #[trigger] self.fields@[i3] == fields0[i2] by {
                    assert(self.fields@[i2] == fields0[i2]);
                }
            }
        } else {
            self.fields.push(Field { name: owned, data: fd });
            proof {
                assert forall|i3: int| 0 <= i3 < self.fields@.len() implies (#[trigger] self.fields@[i3]).data.wf() by {
                    if i3 != self.fields@.len() - 1 {
                        assert(self.fields@[i3] == fields0[i3]);
                    }
                }
                assert forall|a: int, b: int|
                    0 <= a < b < self.fields@.len() implies (#[trigger] self.fields@[a]).name@ != (
                #[trigger] self.fields@[b]).name@ by {
                    if b == self.fields@.len() - 1 {
                        assert(self.fields@[a] == fields0[a]);
                        assert(fields0[a].name@ != name@);
                        assert(self.fields@[b].name@ == name@);
                    } else {
                        assert(self.fields@[a] == fields0[a]);
                        assert(self.fields@[b] == fields0[b]);
                    }
                }
                assert forall|m2: int|
                    0 <= m2 < self.fields@.len() && m2 != self.fields@.len() - 1 implies (
                #[trigger] self.fields@[m2]).name@ != name@ by {
                    assert(self.fields@[m2] == fields0[m2]);
                }
                lemma_named_field_lookup(self.fields@, name@, self.fields@.len() - 1);
                assert forall|i2: int|
                    0 <= i2 < fields0.len() && (#[trigger] fields0[i2]).name@ != name@ implies
                    exists|i3: int|
                    0 <= i3 < self.fields@.len() && #[trigger] self.fields@[i3] == fields0[i2] by {
                    assert(self.fields@[i2] == fields0[i2]);
                }
            }
        }
        Ok(())
    }


    /// A new, independent cloud holding rows `start`, `start + step`,
    /// `start + 2 * step`, ... below `stop` of every field, in that order,
    /// with the point total set to the selection's row count and the shape
    /// recomputed as `Metadata::trim` does.
    pub fn slice(&self, start: usize, stop: usize, step: usize) -> (r: PointCloud)
        requires
            self.wf(),
            self.points_consistent(),
            step >= 1,
            start <= stop,
            stop <= self.metadata.npoints,
        ensures
            r.wf(),
            r.points_consistent(),
            r.metadata.npoints == strided_row_count(start as nat, stop as nat, step as nat),
            r.metadata.width == trim_width(self.metadata.height as nat, r.metadata.npoints as nat),
            r.metadata.height == trim_height(r.metadata.width as nat, r.metadata.npoints as nat),
            r.metadata.viewpoint == self.metadata.viewpoint,
            r.metadata.encoding == self.metadata.encoding,
            r.metadata.version@ == self.metadata.version@,
            r.metadata.fields.0@.len() == self.metadata.fields.0@.len(),
            forall|i: int|
                0 <= i < r.metadata.fields.0@.len() ==> {
                    &&& (#[trigger] r.metadata.fields.0@[i]).name@
                        == self.metadata.fields.0@[i].name@
                    &&& r.metadata.fields.0@[i].dtype == self.metadata.fields.0@[i].dtype
                    &&& r.metadata.fields.0@[i].count == self.metadata.fields.0@[i].count
                },
            r.fields@.len() == self.fields@.len(),
            forall|i: int|
                0 <= i < r.fields@.len() ==> {
                    let f = #[trigger] r.fields@[i];
                    let g = self.fields@[i];
                    &&& f.name@ == g.name@
                    &&& f.data.dtype_spec() == g.data.dtype_spec()
                    &&& f.data.count_spec() == g.data.count_spec()
                    &&& f.data.npoints_spec() == r.metadata.npoints
                    &&& forall|k: int|
                        0 <= k < f.data.npoints_spec() ==> #[trigger] f.data.row_spec(k)
                            == strided_row(g.data, start as int, step as int, k)
                },
    {
        let n = crate::fielddata::ceil_div(stop - start, step);
        let mut md = self.metadata.duplicate();
        md.trim(n);
        let nf = self.fields.len();
        let mut fields: Vec<Field> = Vec::new();
        let mut i: usize = 0;
        while i < nf
            invariant
                self.wf(),
                self.points_consistent(),
                step >= 1,
                start <= stop <= self.metadata.npoints,
                nf == self.fields@.len(),
                i <= nf,
                n == strided_row_count(start as nat, stop as nat, step as nat),
                fields@.len() == i,
                forall|a: int|
                    0 <= a < i ==> {
                        let f = #[trigger] fields@[a];
                        let g = self.fields@[a];
                        &&& f.name@ == g.name@
                        &&& f.data.wf()
                        &&& f.data.dtype_spec() == g.data.dtype_spec()
                        &&& f.data.count_spec() == g.data.count_spec()
                        &&& f.data.npoints_spec() == n
                        &&& forall|k: int|
                            0 <= k < f.data.npoints_spec() ==> #[trigger] f.data.row_spec(k)
                                == strided_row(g.data, start as int, step as int, k)
                    },
            decreases nf - i,
        {
            let f = &self.fields[i];
            let data = f.data.slice(start, stop, step);
            fields.push(Field { name: f.name.clone(), data });
            i += 1;
        }
        PointCloud { fields, metadata: md }
    }

    /// Overwrites the strided row selection `start .. stop` with step
    /// `step` of every field with the rows of `donor`'s same-named field,
    /// taken contiguously from its top.  Fields without a donor
    /// counterpart stay unchanged.  Fails with `LengthMismatch` when the
    /// donor's point total differs from the selection's row count, leaving
    /// the cloud unchanged; fails with `DtypeMismatch` when a donor
    /// field's element type differs from its counterpart's, in which case
    /// fields earlier in the order already carry the donor rows.
    pub fn update_slice(&mut self, donor: &PointCloud, start: usize, stop: usize, step: usize) -> (r:
        Result<(), PcdError>)
        requires
            old(self).wf(),
            donor.wf(),
            old(self).points_consistent(),
            donor.points_consistent(),
            field_names_unique(donor.fields@),
            step >= 1,
            start <= stop,
            stop <= old(self).metadata.npoints,
            forall|i: int, j: int|
                0 <= i < old(self).fields@.len() && 0 <= j < donor.fields@.len() && (
                #[trigger] old(self).fields@[i]).name@ == (#[trigger] donor.fields@[j]).name@
                    ==> old(self).fields@[i].data.count_spec() == donor.fields@[j].data.count_spec(),
        ensures
            final(self).wf(),
            final(self).points_consistent(),
            final(self).metadata == old(self).metadata,
            final(self).fields@.len() == old(self).fields@.len(),
            forall|i: int|
                0 <= i < final(self).fields@.len() ==> {
                    let f = #[trigger] final(self).fields@[i];
                    let g = old(self).fields@[i];
                    &&& f.name@ == g.name@
                    &&& f.data.dtype_spec() == g.data.dtype_spec()
                    &&& f.data.count_spec() == g.data.count_spec()
                    &&& f.data.npoints_spec() == g.data.npoints_spec()
                },
            r is Ok <==> donor.metadata.npoints == strided_row_count(
                start as nat,
                stop as nat,
                step as nat,
            ) && (forall|i: int, j: int|
                0 <= i < old(self).fields@.len() && 0 <= j < donor.fields@.len() && (
                #[trigger] old(self).fields@[i]).name@ == (#[trigger] donor.fields@[j]).name@
                    ==> old(self).fields@[i].data.dtype_spec() == donor.fields@[j].data.dtype_spec()),
            ({
                let n = strided_row_count(start as nat, stop as nat, step as nat);
                if donor.metadata.npoints != n {
                    r == Err::<(), PcdError>(PcdError::LengthMismatch) && *final(self) == *old(self)
                } else if r is Ok {
                    forall|i: int|
                        0 <= i < final(self).fields@.len() ==> {
                            let f = #[trigger] final(self).fields@[i];
                            let g = old(self).fields@[i];
                            match named_field_data(donor.fields@, g.name@) {
                                Some(dfd) => {
                                    &&& forall|k: int|
                                        0 <= k < n ==> #[trigger] strided_row(
                                            f.data,
                                            start as int,
                                            step as int,
                                            k,
                                        ) == dfd.row_spec(k)
                                    &&& forall|j2: int|
                                        0 <= j2 < g.data.npoints_spec() && !strided_selects(
                                            start as int,
                                            stop as int,
                                            step as int,
                                            j2,
                                        ) ==> #[trigger] f.data.row_spec(j2) == g.data.row_spec(j2)
                                },
                                None => f.data == g.data,
                            }
                        }
                } else {
                    r == Err::<(), PcdError>(PcdError::DtypeMismatch)
                }
            }),
    {
        let n = crate::fielddata::ceil_div(stop - start, step);
        if donor.metadata.npoints != n {
            return Err(PcdError::LengthMismatch);
        }
        let nf = self.fields.len();
        let nd = donor.fields.len();
        let mut i: usize = 0;
        while i < nf
            invariant
                self.wf(),
                donor.wf(),
                donor.points_consistent(),
                old(self).points_consistent(),
                field_names_unique(donor.fields@),
                step >= 1,
                start <= stop <= old(self).metadata.npoints,
                self.metadata == old(self).metadata,
                nf == self.fields@.len(),
                nf == old(self).fields@.len(),
                nd == donor.fields@.len(),
                i <= nf,
                n == strided_row_count(start as nat, stop as nat, step as nat),
                donor.metadata.npoints == n,
                forall|i2: int, j: int|
                    0 <= i2 < old(self).fields@.len() && 0 <= j < donor.fields@.len() && (
                #[trigger] old(self).fields@[i2]).name@ == (#[trigger] donor.fields@[j]).name@
                        ==> old(self).fields@[i2].data.count_spec()
                        == donor.fields@[j].data.count_spec(),
                forall|a: int|
                    0 <= a < nf ==> {
                        let f = #[trigger] self.fields@[a];
                        let g = old(self).fields@[a];
                        &&& f.name@ == g.name@
                        &&& f.data.dtype_spec() == g.data.dtype_spec()
                        &&& f.data.count_spec() == g.data.count_spec()
                        &&& f.data.npoints_spec() == g.data.npoints_spec()
                    },
                forall|a: int| i <= a < nf ==> #[trigger] self.fields@[a] == old(self).fields@[a],
                forall|i2: int, j: int|
                    0 <= i2 < i && 0 <= j < nd && (#[trigger] old(self).fields@[i2]).name@ == (
                    #[trigger] donor.fields@[j]).name@ ==> old(self).fields@[i2].data.dtype_spec()
                        == donor.fields@[j].data.dtype_spec(),
                forall|a: int|
                    0 <= a < i ==> {
                        let f = #[trigger] self.fields@[a];
                        let g = old(self).fields@[a];
                        match named_field_data(donor.fields@, g.name@) {
                            Some(dfd) => {
                                &&& forall|k: int|
                                    0 <= k < n ==> #[trigger] strided_row(
                                        f.data,
                                        start as int,
                                        step as int,
                                        k,
                                    ) == dfd.row_spec(k)
                                &&& forall|j2: int|
                                    0 <= j2 < g.data.npoints_spec() && !strided_selects(
                                        start as int,
                                        stop as int,
                                        step as int,
                                        j2,
                                    ) ==> #[trigger] f.data.row_spec(j2) == g.data.row_spec(j2)
                            },
                            None => f.data == g.data,
                        }
                    },
            decreases nf - i,
        {
            let mut j: usize = 0;
            let mut donor_idx: usize = nd;
            while j < nd
                invariant
                    nd == donor.fields@.len(),
                    nf == self.fields@.len(),
                    i < nf,
                    j <= nd,
                    donor_idx <= nd,
                    donor_idx == nd ==> forall|k: int|
                        0 <= k < j ==> (#[trigger] donor.fields@[k]).name@
                            != self.fields@[i as int].name@,
                    donor_idx < nd ==> donor.fields@[donor_idx as int].name@
                        == self.fields@[i as int].name@,
                decreases nd - j,
            {
                if donor_idx == nd && donor.fields[j].name == self.fields[i].name {
                    donor_idx = j;
                }
                j += 1;
            }
            let ghost pre = *self;
            let ghost gname = old(self).fields@[i as int].name@;
            if donor_idx < nd {
                proof {
                    assert forall|m2: int|
                        0 <= m2 < donor.fields@.len() && m2 != donor_idx as int implies (
                    #[trigger] donor.fields@[m2]).name@ != gname by {}
                    lemma_named_field_lookup(donor.fields@, gname, donor_idx as int);
                }
                let dnp = donor.fields[donor_idx].data.npoints();
                proof {
                    vstd::arithmetic::div_mod::lemma_div_basics(dnp as int);
                    vstd::arithmetic::div_mod::lemma_fundamental_div_mod(dnp as int, 1);
                    assert(strided_row_count(0, dnp as nat, 1) == dnp);
                }
                let res = self.fields[i].data.update_slice_strided(
                    &donor.fields[donor_idx].data,
                    start,
                    stop,
                    step,
                    0,
                    dnp,
                    1,
                );
                match res {
                    Ok(()) => {},
                    Err(_) => {
                        proof {
                            assert forall|a: int|
                                0 <= a < nf implies {
                                let f = #[trigger] self.fields@[a];
                                let g = old(self).fields@[a];
                                &&& f.name@ == g.name@
                                &&& f.data.dtype_spec() == g.data.dtype_spec()
                                &&& f.data.count_spec() == g.data.count_spec()
                                &&& f.data.npoints_spec() == g.data.npoints_spec()
                            } by {
                                if a != i as int {
                                    assert(self.fields@[a] == pre.fields@[a]);
                                }
                            }
                            // the checked pair witnesses the dtype mismatch
                            assert(old(self).fields@[i as int].name@ == donor.fields@[donor_idx as int].name@);
                            assert(old(self).fields@[i as int].data.dtype_spec()
                                != donor.fields@[donor_idx as int].data.dtype_spec());
                        }
                        return Err(PcdError::DtypeMismatch);
                    },
                }
                proof {
                    assert forall|i2: int, j: int|
                        0 <= i2 < i + 1 && 0 <= j < nd && (#[trigger] old(self).fields@[i2]).name@
                        == (#[trigger] donor.fields@[j]).name@ implies old(
                    self,
                    ).fields@[i2].data.dtype_spec() == donor.fields@[j].data.dtype_spec() by {
                        if i2 == i as int {
                            assert(donor.fields@[j].name@ == donor.fields@[donor_idx as int].name@);
                            if j != donor_idx as int {
                                assert(donor.fields@[j].name@ != donor.fields@[donor_idx as int].name@);
                            }
                        }
                    }
                }
                proof {
                    assert forall|a: int|
                        0 <= a < nf implies {
                        let f = #[trigger] self.fields@[a];
                        let g = old(self).fields@[a];
                        &&& f.name@ == g.name@
                        &&& f.data.dtype_spec() == g.data.dtype_spec()
                        &&& f.data.count_spec() == g.data.count_spec()
                        &&& f.data.npoints_spec() == g.data.npoints_spec()
                    } by {
                        if a != i as int {
                            assert(self.fields@[a] == pre.fields@[a]);
                        }
                    }
                    assert forall|a: int| i + 1 <= a < nf implies #[trigger] self.fields@[a] == old(
                    self,
                    ).fields@[a] by {
                        assert(self.fields@[a] == pre.fields@[a]);
                    }
                    assert forall|a: int|
                        0 <= a < i + 1 implies ({
                        let f = #[trigger] self.fields@[a];
                        let g = old(self).fields@[a];
                        match named_field_data(donor.fields@, g.name@) {
                            Some(dfd) => {
                                &&& forall|k: int|
                                    0 <= k < n ==> #[trigger] strided_row(
                                        f.data,
                                        start as int,
                                        step as int,
                                        k,
                                    ) == dfd.row_spec(k)
                                &&& forall|j2: int|
                                    0 <= j2 < g.data.npoints_spec() && !strided_selects(
                                        start as int,
                                        stop as int,
                                        step as int,
                                        j2,
                                    ) ==> #[trigger] f.data.row_spec(j2) == g.data.row_spec(j2)
                            },
                            None => f.data == g.data,
                        }
                    }) by {
                        if a < i as int {
                            assert(self.fields@[a] == pre.fields@[a]);
                        }
                    }
                }
            } else {
                proof {
                    assert forall|m2: int|
                        0 <= m2 < donor.fields@.len() implies (#[trigger] donor.fields@[m2]).name@
                        != gname by {}
                    lemma_named_field_absent(donor.fields@, gname);
                }
            }
            i += 1;
        }
        Ok(())
    }


    /// Serializes the cloud: the header, then the payload in the
    /// metadata's encoding.  Fails with `PayloadLengthMismatch` when the
    /// payload would not fit the machine or the 32-bit length words of the
    /// compressed form, and with `CompressionFailure` when LZF refuses the
    /// column buffer.
    pub fn to_pcd_bytes(&self) -> (r: Result<Vec<u8>, PcdError>)
        requires
            self.wf(),
            self.points_consistent(),
        ensures
            r is Ok <==> (match self.metadata.encoding {
                Encoding::Ascii => true,
                Encoding::Binary => crate::io::fields_point_size(self.fields@) <= usize::MAX
                    && self.metadata.npoints as nat * crate::io::fields_point_size(self.fields@)
                    <= usize::MAX,
                Encoding::BinaryCompressed => crate::io::column_buffer(self.fields@).len()
                    < vstd::arithmetic::power2::pow2(32) && (crate::io::lzf_compressed(
                    crate::io::column_buffer(self.fields@),
                ) matches Some(c) && c.len() < vstd::arithmetic::power2::pow2(32)),
            }),
            r matches Ok(v) ==> {
                &&& self.metadata.encoding == Encoding::Ascii ==> v@ == crate::io::header_text(
                    self.metadata,
                ) + crate::io::ascii_payload(self.fields@, self.metadata.npoints as nat)
                &&& self.metadata.encoding == Encoding::Binary ==> v@ == crate::io::header_text(
                    self.metadata,
                ) + crate::io::binary_payload(self.fields@, self.metadata.npoints as nat)
                &&& self.metadata.encoding == Encoding::BinaryCompressed ==> {
                    &&& crate::io::lzf_compressed(crate::io::column_buffer(self.fields@))
                        matches Some(c)
                    &&& v@ == crate::io::header_text(self.metadata) + crate::io::le_bytes(
                        c.len(),
                        4,
                    ) + crate::io::le_bytes(crate::io::column_buffer(self.fields@).len(), 4) + c
                }
            },
            r matches Err(e) ==> e == PcdError::PayloadLengthMismatch || e
                == PcdError::CompressionFailure,
    {
        let mut out = crate::io::write_header(&self.metadata);
        match self.metadata.encoding {
            Encoding::Ascii => {
                let mut body = crate::io::write_ascii_data(self);
                out.append(&mut body);
                Ok(out)
            },
            Encoding::Binary => {
                let nf = self.fields.len();
                let mut fps: usize = 0;
                let mut i: usize = 0;
                while i < nf
                    invariant
                        self.wf(),
                        self.metadata.encoding == Encoding::Binary,
                        nf == self.fields@.len(),
                        i <= nf,
                        fps == crate::io::fields_point_size(self.fields@.take(i as int)),
                    decreases nf - i,
                {
                    let rs = self.fields[i].data.count() * self.fields[i].data.dtype().get_size();
                    proof {
                        assert(self.fields@.take(i + 1).drop_last() =~= self.fields@.take(i as int));
                        assert(self.fields@.take(i + 1).last() == self.fields@[i as int]);
                        crate::io::lemma_fields_point_size_prefix(self.fields@, i + 1);
                    }
                    let fps2 = match fps.checked_add(rs) {
                        Some(v) => v,
                        None => {
                            return Err(PcdError::PayloadLengthMismatch);
                        },
                    };
                    fps = fps2;
                    i += 1;
                }
                proof {
                    assert(self.fields@.take(nf as int) =~= self.fields@);
                }
                match self.metadata.npoints.checked_mul(fps) {
                    Some(_) => {},
                    None => {
                        return Err(PcdError::PayloadLengthMismatch);
                    },
                }
                let mut body = crate::io::write_binary_data(self);
                out.append(&mut body);
                Ok(out)
            },
            Encoding::BinaryCompressed => {
                match crate::io::write_compressed_data(self) {
                    Ok(mut body) => {
                        out.append(&mut body);
                        Ok(out)
                    },
                    Err(e) => Err(e),
                }
            },
        }
    }

    /// Parses a whole PCD file: the header as `header_result` describes
    /// it, then the payload in the header's encoding, into a fresh cloud
    /// whose fields follow the parsed schema in order.  Succeeds exactly
    /// when the header parses, every schema extent fits the machine, and
    /// the payload meets its encoding's reader condition at the payload
    /// start; on failure the error is the failing stage's.
    pub fn from_pcd_bytes(data: &[u8]) -> (r: Result<PointCloud, PcdError>)
        ensures
            r is Ok <==> (crate::utils::header_result(data@, 0) matches Ok(h)
                && crate::utils::view_allocatable(h.0.fields, h.0.npoints) && (match h.0.encoding {
                Encoding::Ascii => forall|p: int|
                    0 <= p < h.0.npoints ==> ((#[trigger] crate::io::content_line_at(
                        data@,
                        h.1,
                        p,
                    )) matches Some(l) && crate::utils::view_row_ok(
                        h.0.fields,
                        data@.subrange(l.0, l.1),
                    )),
                Encoding::Binary => h.1 + h.0.npoints * crate::utils::view_point_size(h.0.fields)
                    <= data@.len(),
                Encoding::BinaryCompressed => ({
                    let clen = crate::numtext::le_val(data@.subrange(h.1, h.1 + 4));
                    let ulen = crate::numtext::le_val(data@.subrange(h.1 + 4, h.1 + 8));
                    &&& h.1 + 8 <= data@.len()
                    &&& h.1 + 8 + clen <= data@.len()
                    &&& (crate::io::lzf_decompressed(
                        data@.subrange(h.1 + 8, h.1 + 8 + clen),
                        ulen,
                    ) matches Some(b) && b.len() == crate::utils::view_total_size(
                        h.0.fields,
                        h.0.npoints,
                    ))
                }),
            })),
            r matches Ok(pc) ==> (crate::utils::header_result(data@, 0) matches Ok(h) && {
                &&& pc.metadata.version@ == h.0.version
                &&& pc.metadata.width as int == h.0.width
                &&& pc.metadata.height as int == h.0.height
                &&& pc.metadata.npoints as int == h.0.npoints
                &&& pc.metadata.viewpoint == h.0.viewpoint
                &&& pc.metadata.encoding == h.0.encoding
                &&& pc.metadata.fields.0@.len() == h.0.fields.len()
                &&& forall|i: int|
                    0 <= i < pc.metadata.fields.0@.len() ==> {
                        let fm = #[trigger] pc.metadata.fields.0@[i];
                        fm.name@ == h.0.fields[i].0 && fm.dtype == h.0.fields[i].1 && fm.count
                            as int == h.0.fields[i].2
                    }
                &&& pc.wf()
                &&& pc.points_consistent()
                &&& pc.fields@.len() == pc.metadata.fields.0@.len()
                &&& forall|i: int|
                    0 <= i < pc.fields@.len() ==> meta_matches_field(
                        #[trigger] pc.metadata.fields.0@[i],
                        pc.fields@[i],
                    ) && pc.metadata.fields.0@[i].count == pc.fields@[i].data.count_spec()
                &&& (match h.0.encoding {
                    Encoding::Ascii => forall|i: int, p: int, e: int|
                        0 <= i < pc.fields@.len() && 0 <= p < h.0.npoints && 0 <= e
                            < pc.fields@[i].data.count_spec() ==> (crate::io::content_line_at(
                            data@,
                            h.1,
                            p,
                        ) matches Some(l) && crate::io::element_from_token(
                            pc.fields@[i].data.dtype_spec(),
                            crate::utils::view_token_at(h.0.fields, data@.subrange(l.0, l.1), i, e),
                        ) == Some(#[trigger] crate::io::elem_at(pc.fields@[i].data, p, e))),
                    Encoding::Binary => crate::io::binary_payload(pc.fields@, h.0.npoints as nat)
                        == data@.subrange(
                        h.1,
                        h.1 + h.0.npoints * crate::utils::view_point_size(h.0.fields),
                    ),
                    Encoding::BinaryCompressed => ({
                        let clen = crate::numtext::le_val(data@.subrange(h.1, h.1 + 4));
                        let ulen = crate::numtext::le_val(data@.subrange(h.1 + 4, h.1 + 8));
                        crate::io::lzf_decompressed(data@.subrange(h.1 + 8, h.1 + 8 + clen), ulen)
                            matches Some(b) && crate::io::column_buffer(pc.fields@) == b
                    }),
                })
            }),
            r matches Err(e) ==> (match crate::utils::header_result(data@, 0) {
                Err(he) => e == he,
                Ok(h) => {
                    if !crate::utils::view_allocatable(h.0.fields, h.0.npoints) {
                        e == PcdError::MalformedHeaderLine
                    } else {
                        e == PcdError::UnexpectedEof || e == PcdError::MalformedValue || e
                            == PcdError::PayloadLengthMismatch || e == PcdError::CompressionFailure
                    }
                },
            }),
    {
        let dlen = data.len();
        let (md, body_start) = match crate::utils::load_metadata(data, 0) {
            Ok(v) => v,
            Err(e) => {
                return Err(e);
            },
        };
        let ghost h = crate::utils::header_result(data@, 0)->Ok_0;
        proof {
            assert(crate::utils::fields_follow_view_meta(h.0.fields, md.fields.0@)) by {
                assert forall|k: int|
                    0 <= k < md.fields.0@.len() implies (#[trigger] md.fields.0@[k]).dtype
                    == h.0.fields[k].1 && md.fields.0@[k].count as int == h.0.fields[k].2 by {}
            }
        }
        let nf = md.fields.len();
        let mut i: usize = 0;
        while i < nf
            invariant
                i <= nf,
                nf == md.fields.0@.len(),
                crate::utils::header_result(data@, 0) == Ok::<
                    (crate::utils::HeaderView, int),
                    PcdError,
                >(h),
                crate::utils::fields_follow_view_meta(h.0.fields, md.fields.0@),
                h.0.fields.len() == nf,
                forall|k: int| 0 <= k < md.fields.0@.len() ==> (#[trigger] md.fields.0@[k]).count >= 1,
                schema_allocatable(md.fields.0@.take(i as int), md.npoints as nat),
                md.npoints as int == h.0.npoints,
            decreases nf - i,
        {
            let fm = md.fields.get(i);
            let rs = match fm.count.checked_mul(fm.dtype.get_size()) {
                Some(v) => v,
                None => {
                    proof {
                        assert(!crate::utils::view_allocatable(h.0.fields, h.0.npoints)) by {
                            assert(h.0.fields[i as int].2 * dtype_size(h.0.fields[i as int].1)
                                > usize::MAX);
                        }
                    }
                    return Err(PcdError::MalformedHeaderLine);
                },
            };
            match md.npoints.checked_mul(rs) {
                Some(_) => {},
                None => {
                    proof {
                        assert(!crate::utils::view_allocatable(h.0.fields, h.0.npoints)) by {
                            assert(h.0.npoints * (h.0.fields[i as int].2 * dtype_size(
                                h.0.fields[i as int].1,
                            )) > usize::MAX);
                        }
                    }
                    return Err(PcdError::MalformedHeaderLine);
                },
            }
            proof {
                assert(md.fields.0@.take(i + 1).drop_last() =~= md.fields.0@.take(i as int));
                assert(md.fields.0@.take(i + 1)[i as int] == md.fields.0@[i as int]);
                assert forall|k: int|
                    0 <= k < i + 1 implies {
                    let m = #[trigger] md.fields.0@.take(i + 1)[k];
                    &&& m.count >= 1
                    &&& m.count * crate::dtype::dtype_size(m.dtype) <= usize::MAX
                    &&& md.npoints as nat * ((m.count) * crate::dtype::dtype_size(m.dtype))
                        <= usize::MAX
                } by {
                    assert(md.fields.0@.take(i + 1)[k] == md.fields.0@[k]);
                    if k < i as int {
                        assert(md.fields.0@.take(i as int)[k] == md.fields.0@[k]);
                    }
                }
            }
            i += 1;
        }
        proof {
            assert(md.fields.0@.take(nf as int) =~= md.fields.0@);
            assert(crate::utils::view_allocatable(h.0.fields, h.0.npoints)) by {
                assert forall|k: int|
                    0 <= k < h.0.fields.len() implies (#[trigger] h.0.fields[k]).2 * dtype_size(
                    h.0.fields[k].1,
                ) <= usize::MAX && h.0.npoints * (h.0.fields[k].2 * dtype_size(h.0.fields[k].1))
                    <= usize::MAX by {
                    assert(md.fields.0@.take(nf as int)[k] == md.fields.0@[k]);
                    let m = md.fields.0@[k];
                }
            }
        }
        let ghost md0 = md;
        let enc = md.encoding;
        let mut pc = PointCloud::new(md);
        proof {
            assert(body_start <= data@.len());
            assert(crate::utils::fields_follow_view(h.0.fields, pc.fields@)) by {
                assert forall|k: int|
                    0 <= k < pc.fields@.len() implies (#[trigger] pc.fields@[k]).data.dtype_spec()
                    == h.0.fields[k].1 && pc.fields@[k].data.count_spec() as int
                    == h.0.fields[k].2 by {
                    assert(md0.fields.0@[k].dtype == h.0.fields[k].1);
                }
            }
        }
        let ghost alloc = pc;
        let res = match enc {
            Encoding::Ascii => crate::io::read_ascii_data(&mut pc, data, body_start),
            Encoding::Binary => crate::io::read_binary_data(&mut pc, data, body_start),
            Encoding::BinaryCompressed => crate::io::read_compressed_data(
                &mut pc,
                data,
                body_start,
            ),
        };
        proof {
            match enc {
                Encoding::Ascii => {
                    assert forall|p: int|
                        0 <= p < h.0.npoints implies ((#[trigger] crate::io::content_line_at(
                        data@,
                        h.1,
                        p,
                    )) matches Some(l) && crate::utils::view_row_ok(
                        h.0.fields,
                        data@.subrange(l.0, l.1),
                    )) == ((crate::io::content_line_at(data@, h.1, p)) matches Some(l2)
                        && crate::io::ascii_row_ok(alloc.fields@, data@.subrange(l2.0, l2.1))) by {
                        if crate::io::content_line_at(data@, h.1, p) is Some {
                            let l = crate::io::content_line_at(data@, h.1, p).unwrap();
                            crate::utils::lemma_view_row_ok(
                                h.0.fields,
                                alloc.fields@,
                                data@.subrange(l.0, l.1),
                            );
                        }
                    }
                },
                Encoding::Binary => {
                    crate::utils::lemma_view_point_size(h.0.fields, alloc.fields@);
                },
                Encoding::BinaryCompressed => {
                    crate::utils::lemma_view_total_size(h.0.fields, alloc.fields@, h.0.npoints);
                },
            }
        }
        match res {
            Ok(_) => {
                proof {
                    assert forall|i2: int|
                        0 <= i2 < pc.fields@.len() implies meta_matches_field(
                        #[trigger] pc.metadata.fields.0@[i2],
                        pc.fields@[i2],
                    ) && pc.metadata.fields.0@[i2].count == pc.fields@[i2].data.count_spec() by {}
                    if enc == Encoding::Ascii {
                        assert forall|i2: int, p: int, e: int|
                            0 <= i2 < pc.fields@.len() && 0 <= p < h.0.npoints && 0 <= e
                                < pc.fields@[i2].data.count_spec() implies (crate::io::content_line_at(
                            data@,
                            h.1,
                            p,
                        ) matches Some(l) && crate::io::element_from_token(
                            pc.fields@[i2].data.dtype_spec(),
                            crate::utils::view_token_at(h.0.fields, data@.subrange(l.0, l.1), i2, e),
                        ) == Some(#[trigger] crate::io::elem_at(pc.fields@[i2].data, p, e))) by {
                            let l = crate::io::content_line_at(data@, h.1, p).unwrap();
                            let line = data@.subrange(l.0, l.1);
                            crate::utils::lemma_view_count_prefix(h.0.fields, alloc.fields@, i2);
                            assert(crate::utils::view_token_at(h.0.fields, line, i2, e)
                                == crate::io::row_token_at(alloc.fields@, line, i2, e));
                        }
                    }
                }
                Ok(pc)
            },
            Err(e) => Err(e),
        }
    }

    /// The column stored under `name`, if any.
    pub fn get_field(&self, name: &str) -> (r: Option<&FieldData>)
        ensures
            r is Some <==> exists|j: int|
                0 <= j < self.fields@.len() && (#[trigger] self.fields@[j]).name@ == name@,
            r matches Some(fd) ==> exists|j: int|
                0 <= j < self.fields@.len() && (#[trigger] self.fields@[j]).name@ == name@
                    && *fd == self.fields@[j].data,
    {
        let n = self.fields.len();
        let owned = name.to_owned();
        let mut i: usize = 0;
        while i < n
            invariant
                n == self.fields@.len(),
                i <= n,
                owned@ == name@,
                forall|j: int| 0 <= j < i ==> (#[trigger] self.fields@[j]).name@ != name@,
            decreases n - i,
        {
            if self.fields[i].name == owned {
                return Some(&self.fields[i].data);
            }
            i += 1;
        }
        None
    }
}


/// A byte buffer's length fits the machine, so a matrix whose extent
/// overflows the machine cannot be its size.
pub(crate) proof fn lemma_buffer_len_bound(blen: nat, np: nat, cnt: nat, es: nat)
    requires
        blen <= usize::MAX,
    ensures
        np * (cnt * es) > usize::MAX ==> blen != np * (cnt * es),
        cnt * es > usize::MAX && np >= 1 ==> blen != np * (cnt * es),
{
    if cnt * es > usize::MAX && np >= 1 {
        assert(np * (cnt * es) >= 1 * (cnt * es)) by (nonlinear_arith)
            requires
                np >= 1,
        ;
    }
}

} // verus!
