use vstd::prelude::*;
use crate::dtype::{dtype_size, Dtype};
use crate::error::PcdError;

verus! {

/// Number of rows a strided half-open selection `start .. end` with step
/// `step` enumerates: the difference divided by the step, rounded up.
pub open spec fn strided_row_count(start: nat, end: nat, step: nat) -> nat
    recommends
        start <= end,
        step >= 1,
{
    let d = (end - start) as nat;
    d / step + (if d % step != 0 { 1nat } else { 0nat })
}

/// Whether row `j` belongs to the strided selection `start .. end` with
/// step `step`.
pub open spec fn strided_selects(start: int, end: int, step: int, j: int) -> bool {
    start <= j < end && (j - start) % step == 0
}

/// The bytes at row position `j` of a buffer of `rs`-byte rows.
pub open spec fn row_at(s: Seq<u8>, rs: nat, j: int) -> Seq<u8> {
    s.subrange(j * rs, j * rs + rs)
}

/// Quotient of `n` by `d`, rounded up.
pub(crate) fn ceil_div(n: usize, d: usize) -> (r: usize)
    requires
        d >= 1,
    ensures
        r == n as nat / d as nat + (if n as nat % d as nat != 0 { 1nat } else { 0nat }),
        r <= n,
{
    let q = n / d;
    if n % d == 0 {
        q
    } else {
        proof {
            vstd::arithmetic::div_mod::lemma_fundamental_div_mod(n as int, d as int);
            assert(d >= 2);
            vstd::arithmetic::mul::lemma_mul_inequality(1, d as int, q as int);
            assert(q < n);
        }
        q + 1
    }
}

/// A vector of `n` zero bytes.
pub(crate) fn zero_vec(n: usize) -> (r: Vec<u8>)
    ensures
        r@ == Seq::new(n as nat, |i: int| 0u8),
{
    let mut v: Vec<u8> = Vec::new();
    let mut i: usize = 0;
    while i < n
        invariant
            i <= n,
            v@ =~= Seq::new(i as nat, |k: int| 0u8),
        decreases n - i,
    {
        v.push(0u8);
        i += 1;
    }
    proof {
        assert(v@ =~= Seq::new(n as nat, |i: int| 0u8));
    }
    v
}

/// Copies `len` bytes from `src` at `src_off` into `dst` at `dst_off`,
/// leaving every other byte of `dst` unchanged.
pub(crate) fn copy_bytes(dst: &mut Vec<u8>, dst_off: usize, src: &[u8], src_off: usize, len: usize)
    requires
        dst_off + len <= old(dst)@.len(),
        src_off + len <= src@.len(),
        dst_off + len <= usize::MAX,
        src_off + len <= usize::MAX,
    ensures
        final(dst)@.len() == old(dst)@.len(),
        forall|k: int|
            dst_off <= k < dst_off + len ==> #[trigger] final(dst)@[k] == src@[src_off - dst_off
                + k],
        forall|k: int|
            0 <= k < old(dst)@.len() && !(dst_off <= k < dst_off + len)
                ==> #[trigger] final(dst)@[k] == old(dst)@[k],
{
    let mut t: usize = 0;
    while t < len
        invariant
            t <= len,
            dst_off + len <= dst@.len(),
            src_off + len <= src@.len(),
            dst_off + len <= usize::MAX,
            src_off + len <= usize::MAX,
            dst@.len() == old(dst)@.len(),
            forall|k: int|
                dst_off <= k < dst_off + t ==> #[trigger] dst@[k] == src@[src_off - dst_off + k],
            forall|k: int|
                0 <= k < dst@.len() && !(dst_off <= k < dst_off + t)
                    ==> #[trigger] dst@[k] == old(dst)@[k],
        decreases len - t,
    {
        let v = src[src_off + t];
        dst[dst_off + t] = v;
        t += 1;
    }
}

/// One field's column of data: a dense (npoints x count) matrix of
/// elements of a single dtype, held as little-endian bytes in row-major
/// order.  Float elements are held as the bytes of their bit patterns;
/// the library stores and moves them without computing with them.
#[derive(Clone, Debug, PartialEq)]
pub struct FieldData {
    dtype: Dtype,
    npoints: usize,
    count: usize,
    data: Vec<u8>,
}

/// The bytes of the `i`-th row of the selection of `fd`'s rows that
/// starts at `start` and advances by `step`.
pub open spec fn strided_row(fd: FieldData, start: int, step: int, i: int) -> Seq<u8> {
    fd.row_spec(start + i * step)
}

impl FieldData {
    /// The element type of this field.
    pub closed spec fn dtype_spec(&self) -> Dtype {
        self.dtype
    }

    /// The number of points (rows).
    pub closed spec fn npoints_spec(&self) -> nat {
        self.npoints as nat
    }

    /// The per-point vector width (columns).
    pub closed spec fn count_spec(&self) -> nat {
        self.count as nat
    }

    /// The full little-endian byte buffer, row-major.
    pub closed spec fn data_spec(&self) -> Seq<u8> {
        self.data@
    }

    /// Bytes one row occupies.
    pub open spec fn row_size_spec(&self) -> nat {
        self.count_spec() * dtype_size(self.dtype_spec())
    }

    /// The bytes of row `i`.
    pub open spec fn row_spec(&self, i: int) -> Seq<u8> {
        row_at(self.data_spec(), self.row_size_spec(), i)
    }

    /// Well-formedness: at least one column, the buffer's size fits the
    /// machine and holds exactly npoints rows.
    pub open spec fn wf(&self) -> bool {
        &&& self.count_spec() >= 1
        &&& self.row_size_spec() <= usize::MAX
        &&& self.npoints_spec() * self.row_size_spec() <= usize::MAX
        &&& self.data_spec().len() == self.npoints_spec() * self.row_size_spec()
    }

    /// A zero-filled column for `npoints` points with `count` elements of
    /// type `dtype` per point.  The caller guarantees valid dimensions.
    pub fn new(dtype: Dtype, npoints: usize, count: usize) -> (r: FieldData)
        requires
            count >= 1,
            count * dtype_size(dtype) <= usize::MAX,
            npoints * (count * dtype_size(dtype)) <= usize::MAX,
        ensures
            r.wf(),
            r.dtype_spec() == dtype,
            r.npoints_spec() == npoints,
            r.count_spec() == count,
            r.data_spec() == Seq::new(
                npoints as nat * (count as nat * dtype_size(dtype)),
                |i: int| 0u8,
            ),
    {
        let rs: usize = count * dtype.get_size();
        let total: usize = npoints * rs;
        let data = zero_vec(total);
        FieldData { dtype, npoints, count, data }
    }

    /// The total number of values held: npoints times count.
    pub fn len(&self) -> (r: usize)
        requires
            self.wf(),
        ensures
            r == self.npoints_spec() * self.count_spec(),
    {
        proof {
            lemma_count_product_bound(
                self.npoints_spec(),
                self.count_spec(),
                dtype_size(self.dtype_spec()),
            );
        }
        self.npoints * self.count
    }

    /// The number of points (rows).
    pub fn npoints(&self) -> (r: usize)
        ensures
            r == self.npoints_spec(),
    {
        self.npoints
    }

    /// The per-point vector width (columns).
    pub fn count(&self) -> (r: usize)
        ensures
            r == self.count_spec(),
    {
        self.count
    }

    /// The element type.
    pub fn dtype(&self) -> (r: Dtype)
        ensures
            r == self.dtype_spec(),
    {
        self.dtype
    }

    /// A copy of the whole column as little-endian bytes, row-major.
    pub fn get_data(&self) -> (r: Vec<u8>)
        ensures
            r@ == self.data_spec(),
    {
        vstd::slice::slice_to_vec(self.data.as_slice())
    }

    /// A copy of row `row_idx` as little-endian bytes.
    pub fn get_row(&self, row_idx: usize) -> (r: Vec<u8>)
        requires
            self.wf(),
            row_idx < self.npoints_spec(),
        ensures
            r@ == self.row_spec(row_idx as int),
    {
        let rs: usize = self.count * self.dtype.get_size();
        proof {
            lemma_row_in_buffer(self.npoints_spec(), rs as nat, row_idx as nat);
        }
        let start: usize = row_idx * rs;
        let mut out = zero_vec(rs);
        copy_bytes(&mut out, 0, self.data.as_slice(), start, rs);
        proof {
            assert(out@ =~= self.row_spec(row_idx as int));
        }
        out
    }

    /// Overwrites row `row_idx` with the given little-endian bytes, whose
    /// length must be exactly one row.
    pub fn assign_row_from_buffer(&mut self, row_idx: usize, buffer: &[u8])
        requires
            old(self).wf(),
            row_idx < old(self).npoints_spec(),
            buffer@.len() == old(self).row_size_spec(),
        ensures
            final(self).wf(),
            final(self).dtype_spec() == old(self).dtype_spec(),
            final(self).npoints_spec() == old(self).npoints_spec(),
            final(self).count_spec() == old(self).count_spec(),
            final(self).row_spec(row_idx as int) == buffer@,
            forall|j: int|
                0 <= j < old(self).npoints_spec() && j != row_idx
                    ==> #[trigger] final(self).row_spec(j) == old(self).row_spec(j),
    {
        let rs: usize = self.count * self.dtype.get_size();
        proof {
            lemma_row_in_buffer(self.npoints_spec(), rs as nat, row_idx as nat);
        }
        let start: usize = row_idx * rs;
        copy_bytes(&mut self.data, start, buffer, 0, rs);
        proof {
            assert(self.row_spec(row_idx as int) =~= buffer@);
            assert forall|j: int|
                0 <= j < old(self).npoints_spec() && j != row_idx implies #[trigger] self.row_spec(
                j,
            ) == old(self).row_spec(j) by {
                lemma_row_in_buffer(old(self).npoints_spec(), rs as nat, j as nat);
                lemma_rows_disjoint(j, row_idx as int, rs as nat);
                assert(self.row_spec(j) =~= old(self).row_spec(j));
            }
        }
    }

    /// Replaces the whole column with the given little-endian bytes, whose
    /// length must be exactly npoints times count times the element size.
    pub fn assign_from_buffer(&mut self, buffer: &[u8])
        requires
            old(self).wf(),
            buffer@.len() == old(self).data_spec().len(),
        ensures
            final(self).wf(),
            final(self).dtype_spec() == old(self).dtype_spec(),
            final(self).npoints_spec() == old(self).npoints_spec(),
            final(self).count_spec() == old(self).count_spec(),
            final(self).data_spec() == buffer@,
    {
        self.data = vstd::slice::slice_to_vec(buffer);
    }

    /// A new, independent column holding rows `start`, `start + step`,
    /// `start + 2 * step`, ... below `stop`, in that order.
    pub fn slice(&self, start: usize, stop: usize, step: usize) -> (r: FieldData)
        requires
            self.wf(),
            step >= 1,
            start <= stop,
            stop <= self.npoints_spec(),
        ensures
            r.wf(),
            r.dtype_spec() == self.dtype_spec(),
            r.count_spec() == self.count_spec(),
            r.npoints_spec() == strided_row_count(start as nat, stop as nat, step as nat),
            forall|i: int|
                0 <= i < r.npoints_spec() ==> #[trigger] r.row_spec(i) == strided_row(
                    *self,
                    start as int,
                    step as int,
                    i,
                ),
    {
        let rs: usize = self.count * self.dtype.get_size();
        let n: usize = ceil_div(stop - start, step);
        proof {
            vstd::arithmetic::mul::lemma_mul_inequality(
                n as int,
                self.npoints_spec() as int,
                rs as int,
            );
        }
        let total: usize = n * rs;
        let mut out = zero_vec(total);
        let mut i: usize = 0;
        while i < n
            invariant
                self.wf(),
                step >= 1,
                start <= stop <= self.npoints_spec(),
                rs == self.row_size_spec(),
                n == strided_row_count(start as nat, stop as nat, step as nat),
                n <= self.npoints_spec(),
                i <= n,
                n * rs <= usize::MAX,
                out@.len() == n * rs,
                forall|j: int|
                    0 <= j < i ==> #[trigger] row_at(out@, rs as nat, j) == strided_row(
                        *self,
                        start as int,
                        step as int,
                        j,
                    ),
            decreases n - i,
        {
            proof {
                lemma_selected_index(start as nat, stop as nat, step as nat, i as nat);
                lemma_row_in_buffer(self.npoints_spec(), rs as nat, (start + i * step) as nat);
                lemma_row_in_buffer(n as nat, rs as nat, i as nat);
            }
            let src_row: usize = start + i * step;
            let ghost out_prev = out@;
            copy_bytes(&mut out, i * rs, self.data.as_slice(), src_row * rs, rs);
            proof {
                assert forall|j: int| 0 <= j < i + 1 implies #[trigger] row_at(out@, rs as nat, j)
                    == strided_row(*self, start as int, step as int, j) by {
                    lemma_row_in_buffer(n as nat, rs as nat, j as nat);
                    if j < i {
                        lemma_rows_disjoint(j, i as int, rs as nat);
                        assert(row_at(out@, rs as nat, j) =~= row_at(out_prev, rs as nat, j));
                    } else {
                        assert(row_at(out@, rs as nat, j) =~= self.row_spec(start + j * step));
                    }
                }
            }
            i += 1;
        }
        FieldData { dtype: self.dtype, npoints: n, count: self.count, data: out }
    }

    /// Copies the strided row selection of `new_field` given by
    /// `new_start .. new_end` with step `new_step` onto this column's rows
    /// `orig_start .. orig_end` with step `orig_step`, in order.  Fails
    /// with `LengthMismatch` when the two selections enumerate different
    /// row counts, then with `DtypeMismatch` when the element types
    /// differ; in both cases this column is unchanged.
    pub fn update_slice_strided(
        &mut self,
        new_field: &FieldData,
        orig_start: usize,
        orig_end: usize,
        orig_step: usize,
        new_start: usize,
        new_end: usize,
        new_step: usize,
    ) -> (r: Result<(), PcdError>)
        requires
            old(self).wf(),
            new_field.wf(),
            orig_step >= 1,
            new_step >= 1,
            orig_start <= orig_end,
            orig_end <= old(self).npoints_spec(),
            new_start <= new_end,
            new_end <= new_field.npoints_spec(),
            old(self).count_spec() == new_field.count_spec(),
        ensures
            final(self).wf(),
            final(self).dtype_spec() == old(self).dtype_spec(),
            final(self).npoints_spec() == old(self).npoints_spec(),
            final(self).count_spec() == old(self).count_spec(),
            ({
                let n_orig = strided_row_count(
                    orig_start as nat,
                    orig_end as nat,
                    orig_step as nat,
                );
                let n_new = strided_row_count(new_start as nat, new_end as nat, new_step as nat);
                if n_orig != n_new {
                    r == Err::<(), PcdError>(PcdError::LengthMismatch) && *final(self) == *old(self)
                } else if old(self).dtype_spec() != new_field.dtype_spec() {
                    r == Err::<(), PcdError>(PcdError::DtypeMismatch) && *final(self) == *old(self)
                } else {
                    &&& r == Ok::<(), PcdError>(())
                    &&& forall|i: int|
                        0 <= i < n_orig ==> #[trigger] strided_row(
                            *final(self),
                            orig_start as int,
                            orig_step as int,
                            i,
                        ) == strided_row(*new_field, new_start as int, new_step as int, i)
                    &&& forall|j: int|
                        0 <= j < old(self).npoints_spec() && !strided_selects(
                            orig_start as int,
                            orig_end as int,
                            orig_step as int,
                            j,
                        ) ==> #[trigger] final(self).row_spec(j) == old(self).row_spec(j)
                }
            }),
    {
        let n_orig: usize = ceil_div(orig_end - orig_start, orig_step);
        let n_new: usize = ceil_div(new_end - new_start, new_step);
        if n_orig != n_new {
            return Err(PcdError::LengthMismatch);
        }
        if !self.dtype.eq_kind(&new_field.dtype) {
            return Err(PcdError::DtypeMismatch);
        }
        let mut i: usize = 0;
        while i < n_orig
            invariant
                old(self).wf(),
                self.wf(),
                new_field.wf(),
                self.dtype_spec() == old(self).dtype_spec(),
                self.npoints_spec() == old(self).npoints_spec(),
                self.count_spec() == old(self).count_spec(),
                self.dtype_spec() == new_field.dtype_spec(),
                self.count_spec() == new_field.count_spec(),
                orig_step >= 1,
                new_step >= 1,
                orig_start <= orig_end <= old(self).npoints_spec(),
                new_start <= new_end <= new_field.npoints_spec(),
                n_orig == strided_row_count(orig_start as nat, orig_end as nat, orig_step as nat),
                n_orig == strided_row_count(new_start as nat, new_end as nat, new_step as nat),
                i <= n_orig,
                forall|k: int|
                    0 <= k < i ==> #[trigger] strided_row(
                        *self,
                        orig_start as int,
                        orig_step as int,
                        k,
                    ) == strided_row(*new_field, new_start as int, new_step as int, k),
                forall|j: int|
                    0 <= j < old(self).npoints_spec() && !(strided_selects(
                        orig_start as int,
                        orig_end as int,
                        orig_step as int,
                        j,
                    ) && (j - orig_start) / (orig_step as int) < i) ==> #[trigger] self.row_spec(j)
                        == old(self).row_spec(j),
            decreases n_orig - i,
        {
            proof {
                lemma_selected_index(
                    orig_start as nat,
                    orig_end as nat,
                    orig_step as nat,
                    i as nat,
                );
                lemma_selected_index(new_start as nat, new_end as nat, new_step as nat, i as nat);
            }
            let dst_row: usize = orig_start + i * orig_step;
            let src_row: usize = new_start + i * new_step;
            proof {
                lemma_row_in_buffer(
                    new_field.npoints_spec(),
                    new_field.row_size_spec(),
                    src_row as nat,
                );
            }
            let src = new_field.get_row(src_row);
            let ghost prev = *self;
            self.assign_row_from_buffer(dst_row, src.as_slice());
            proof {
                assert forall|j: int|
                    0 <= j < old(self).npoints_spec() && !(strided_selects(
                        orig_start as int,
                        orig_end as int,
                        orig_step as int,
                        j,
                    ) && (j - orig_start) / (orig_step as int) < i + 1) implies #[trigger] self
                    .row_spec(j) == old(self).row_spec(j) by {
                    assert(j != dst_row);
                    assert(self.row_spec(j) == prev.row_spec(j));
                }
                assert forall|k: int| 0 <= k < i + 1 implies #[trigger] strided_row(
                    *self,
                    orig_start as int,
                    orig_step as int,
                    k,
                ) == strided_row(*new_field, new_start as int, new_step as int, k) by {
                    if k < i {
                        lemma_strided_rows_distinct(
                            orig_start as nat,
                            orig_step as nat,
                            k as nat,
                            i as nat,
                        );
                        lemma_selected_index(
                            orig_start as nat,
                            orig_end as nat,
                            orig_step as nat,
                            k as nat,
                        );
                        assert(strided_row(prev, orig_start as int, orig_step as int, k)
                            == strided_row(*new_field, new_start as int, new_step as int, k));
                        assert(self.row_spec(orig_start + k * orig_step) == prev.row_spec(
                            orig_start + k * orig_step,
                        ));
                    } else {
                        assert(k == i);
                        assert(self.row_spec(dst_row as int) == src@);
                        assert(src@ == new_field.row_spec(src_row as int));
                    }
                }
            }
            i += 1;
        }
        Ok(())
    }
}

impl Dtype {
    /// Whether two dtypes are the same variant.
    pub(crate) fn eq_kind(&self, other: &Dtype) -> (r: bool)
        ensures
            r == (*self == *other),
    {
        *self == *other
    }
}

/// For `j < np`, row `j` lies inside a buffer of `np` rows of `rs` bytes.
pub(crate) proof fn lemma_row_in_buffer(np: nat, rs: nat, j: nat)
    requires
        j < np,
    ensures
        j * rs + rs == (j + 1) * rs,
        (j + 1) * rs <= np * rs,
        j * rs <= np * rs,
{
    assert(j * rs + rs == (j + 1) * rs) by (nonlinear_arith);
    vstd::arithmetic::mul::lemma_mul_inequality(j as int + 1, np as int, rs as int);
    vstd::arithmetic::mul::lemma_mul_inequality(j as int, np as int, rs as int);
}

/// Two distinct rows occupy disjoint byte ranges.
pub(crate) proof fn lemma_rows_disjoint(a: int, b: int, rs: nat)
    requires
        a != b,
        a >= 0,
        b >= 0,
    ensures
        a < b ==> a * rs + rs <= b * rs,
        b < a ==> b * rs + rs <= a * rs,
{
    if a < b {
        assert(a * rs + rs == (a + 1) * rs) by (nonlinear_arith);
        vstd::arithmetic::mul::lemma_mul_inequality(a + 1, b, rs as int);
    } else {
        assert(b * rs + rs == (b + 1) * rs) by (nonlinear_arith);
        vstd::arithmetic::mul::lemma_mul_inequality(b + 1, a, rs as int);
    }
}

/// The `i`-th row of a strided selection lies below the selection's end,
/// belongs to the selection, and is the selection's `i`-th member.
pub(crate) proof fn lemma_selected_index(start: nat, end: nat, step: nat, i: nat)
    requires
        step >= 1,
        start <= end,
        i < strided_row_count(start, end, step),
    ensures
        start + i * step < end,
        strided_selects(start as int, end as int, step as int, (start + i * step) as int),
        ((start + i * step - start) as int) / (step as int) == i,
{
    let d = (end - start) as nat;
    vstd::arithmetic::div_mod::lemma_fundamental_div_mod(d as int, step as int);
    if d % step == 0 {
        assert(i < d / step);
        assert(i * step + step <= (d / step) * step) by (nonlinear_arith)
            requires
                i + 1 <= d / step,
                step >= 1,
        ;
        assert((d / step) * step == d);
    } else {
        assert(i <= d / step);
        assert(i * step <= (d / step) * step) by (nonlinear_arith)
            requires
                i <= d / step,
                step >= 1,
        ;
        assert((d / step) * step < d);
    }
    vstd::arithmetic::div_mod::lemma_mod_multiples_basic(i as int, step as int);
    vstd::arithmetic::div_mod::lemma_div_by_multiple(i as int, step as int);
}

/// Distinct selection indices land on distinct rows.
pub(crate) proof fn lemma_strided_rows_distinct(start: nat, step: nat, k: nat, i: nat)
    requires
        step >= 1,
        k != i,
    ensures
        start + k * step != start + i * step,
{
    if k < i {
        assert(k * step < i * step) by (nonlinear_arith)
            requires
                k < i,
                step >= 1,
        ;
    } else {
        assert(i * step < k * step) by (nonlinear_arith)
            requires
                i < k,
                step >= 1,
        ;
    }
}

/// The product of the two matrix extents is bounded by the byte buffer
/// that holds them.
pub(crate) proof fn lemma_count_product_bound(np: nat, cnt: nat, es: nat)
    requires
        np * (cnt * es) <= usize::MAX,
        es >= 1,
    ensures
        np * cnt <= usize::MAX,
{
    assert(np * cnt <= np * (cnt * es)) by (nonlinear_arith)
        requires
            es >= 1,
    ;
}

} // verus!
