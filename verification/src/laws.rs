use vstd::prelude::*;
use crate::dtype::{
    dtype_category, dtype_from_category_size, dtype_from_numpy_name, dtype_size, numpy_name, Dtype,
};
use crate::error::PcdError;
use crate::fielddata::{row_at, strided_row, strided_row_count, strided_selects, FieldData};
use crate::io::{
    binary_payload, column_buffer, element_from_token, element_token, fields_point_size,
    lemma_binary_payload_len, lemma_fields_point_size_congruent, lemma_le_bytes_of_le_val,
    lemma_le_val_bound, lemma_point_record_len, point_record,
};
use crate::numtext::{
    dec_digits, digits_val, le_val, lemma_dec_digits_roundtrip, lemma_digits_val_shift,
};
use crate::pointcloud::{has_matching_meta, meta_matches_field, Field, PointCloud};
use crate::metadata::FieldMeta;
use vstd::arithmetic::power2::pow2;
use vstd::arithmetic::div_mod::{lemma_fundamental_div_mod, lemma_fundamental_div_mod_converse};

verus! {

/// Law: for every dtype, its category letter and byte width map back to
/// the same dtype.
pub proof fn lemma_dtype_category_size_roundtrip(d: Dtype)
    ensures
        dtype_from_category_size(dtype_category(d), dtype_size(d)) == Ok::<Dtype, PcdError>(d),
{
}

/// Law: whenever a (category, size) pair names a dtype, that dtype's
/// category letter and byte width are exactly the given pair.
pub proof fn lemma_dtype_category_size_inverse(c: char, s: nat)
    ensures
        dtype_from_category_size(c, s) matches Ok(d) ==> dtype_category(d) == c && dtype_size(d)
            == s,
{
}

/// Law: for every dtype, its external numeric-type name maps back to the
/// same dtype.
pub proof fn lemma_dtype_numpy_name_roundtrip(d: Dtype)
    ensures
        dtype_from_numpy_name(numpy_name(d)) == Some(d),
{
    reveal_strlit("uint8");
    reveal_strlit("uint16");
    reveal_strlit("uint32");
    reveal_strlit("uint64");
    reveal_strlit("int8");
    reveal_strlit("int16");
    reveal_strlit("int32");
    reveal_strlit("int64");
    reveal_strlit("float32");
    reveal_strlit("float64");
    assert("uint8"@.len() == 5);
    assert("uint16"@.len() == 6);
    assert("uint32"@.len() == 6);
    assert("uint64"@.len() == 6);
    assert("int8"@.len() == 4);
    assert("int16"@.len() == 5);
    assert("int32"@.len() == 5);
    assert("int64"@.len() == 5);
    assert("float32"@.len() == 7);
    assert("float64"@.len() == 7);
    assert("uint8"@[0] == 'u');
    assert("int16"@[0] == 'i');
    assert("int32"@[0] == 'i');
    assert("int64"@[0] == 'i');
    assert("int16"@[3] == '1');
    assert("int32"@[3] == '3');
    assert("int64"@[3] == '6');
    assert("uint16"@[4] == '1');
    assert("uint32"@[4] == '3');
    assert("uint64"@[4] == '6');
    assert("float32"@[5] == '3');
    assert("float64"@[5] == '6');
}

/// Law: whenever a name names a dtype, that dtype's external name is
/// exactly the given name.
pub proof fn lemma_dtype_numpy_name_inverse(s: Seq<char>)
    ensures
        dtype_from_numpy_name(s) matches Some(d) ==> numpy_name(d) == s,
{
}


/// The number of rows of a strided selection equals the usual ceiling
/// formula: the span plus the step less one, divided by the step.
pub proof fn lemma_strided_row_count_is_ceil(start: nat, end: nat, step: nat)
    requires
        start <= end,
        step >= 1,
    ensures
        strided_row_count(start, end, step) == ((end - start + step - 1) as int) / (step as int),
{
    let d = (end - start) as int;
    let s = step as int;
    let q = d / s;
    let r = d % s;
    lemma_fundamental_div_mod(d, s);
    if r == 0 {
        assert(d + s - 1 == q * s + (s - 1));
        lemma_fundamental_div_mod_converse(d + s - 1, s, q, s - 1);
    } else {
        assert(d + s - 1 == (q + 1) * s + (r - 1)) by (nonlinear_arith)
            requires
                d == q * s + r,
                s >= 1,
        ;
        lemma_fundamental_div_mod_converse(d + s - 1, s, q + 1, r - 1);
    }
}

/// Law: a whole-range slice with step one reproduces the field unchanged.
/// `r` is any result that `FieldData::slice` may return for the arguments
/// `(0, npoints, 1)`, described by that function's contract.
pub proof fn lemma_slice_identity(fd: FieldData, r: FieldData)
    requires
        fd.wf(),
        r.wf(),
        r.dtype_spec() == fd.dtype_spec(),
        r.count_spec() == fd.count_spec(),
        r.npoints_spec() == strided_row_count(0, fd.npoints_spec(), 1),
        forall|i: int|
            0 <= i < r.npoints_spec() ==> #[trigger] r.row_spec(i) == strided_row(fd, 0, 1, i),
    ensures
        r.npoints_spec() == fd.npoints_spec(),
        r.data_spec() == fd.data_spec(),
{
    let np = fd.npoints_spec();
    let rs = fd.row_size_spec();
    lemma_row_size_pos(fd);
    assert(r.data_spec().len() == fd.data_spec().len());
    assert forall|p: int| 0 <= p < fd.data_spec().len() implies r.data_spec()[p]
        == fd.data_spec()[p] by {
        let q = p / rs as int;
        lemma_fundamental_div_mod(p, rs as int);
        vstd::arithmetic::div_mod::lemma_div_pos_is_pos(p, rs as int);
        assert(q < np) by (nonlinear_arith)
            requires
                (rs as int) * q + p % (rs as int) == p,
                p < np * rs,
                0 <= p % (rs as int),
                rs >= 1,
                q >= 0,
        ;

        crate::fielddata::lemma_row_in_buffer(np, rs, q as nat);
        assert(r.row_spec(q) == strided_row(fd, 0, 1, q));
        assert(strided_row(fd, 0, 1, q) == fd.row_spec(q));
        assert(r.row_spec(q)[p - q * rs] == r.data_spec()[p]);
        assert(fd.row_spec(q)[p - q * rs] == fd.data_spec()[p]);
    }
    assert(r.data_spec() =~= fd.data_spec());
}

/// Law: a strided update with step one on both sides and equal-length
/// ranges overwrites exactly the target rows with the donor rows, in
/// order, and leaves every other row unchanged.  `before` and `after` are
/// the states around a call of `FieldData::update_slice_strided` that
/// returned success, described by that function's contract.
pub proof fn lemma_update_contiguous(
    before: FieldData,
    after: FieldData,
    donor: FieldData,
    a: nat,
    b: nat,
    c: nat,
    d: nat,
)
    requires
        before.wf(),
        after.wf(),
        donor.wf(),
        a <= b <= before.npoints_spec(),
        c <= d <= donor.npoints_spec(),
        b - a == d - c,
        after.npoints_spec() == before.npoints_spec(),
        after.count_spec() == before.count_spec(),
        after.dtype_spec() == before.dtype_spec(),
        forall|i: int|
            0 <= i < strided_row_count(a, b, 1) ==> #[trigger] strided_row(after, a as int, 1, i)
                == strided_row(donor, c as int, 1, i),
        forall|j: int|
            0 <= j < before.npoints_spec() && !strided_selects(a as int, b as int, 1, j)
                ==> #[trigger] after.row_spec(j) == before.row_spec(j),
    ensures
        forall|j: int|
            a <= j < b ==> #[trigger] after.row_spec(j) == donor.row_spec(c + (j - a)),
        forall|j: int|
            0 <= j < before.npoints_spec() && !(a <= j < b) ==> #[trigger] after.row_spec(j)
                == before.row_spec(j),
{
    assert(strided_row_count(a, b, 1) == b - a);
    assert forall|j: int| a <= j < b implies #[trigger] after.row_spec(j) == donor.row_spec(
        c + (j - a),
    ) by {
        let i = j - a;
        assert(strided_row(after, a as int, 1, i) == strided_row(donor, c as int, 1, i));
        assert(a + i * 1 == j);
        assert(c + i * 1 == c + (j - a));
    }
}

/// Row sizes are positive for well-formed fields.
pub proof fn lemma_row_size_pos(fd: FieldData)
    requires
        fd.wf(),
    ensures
        fd.row_size_spec() >= 1,
        fd.row_size_spec() >= fd.count_spec(),
{
    assert(crate::dtype::dtype_size(fd.dtype_spec()) >= 1);
    assert(fd.count_spec() * crate::dtype::dtype_size(fd.dtype_spec()) >= fd.count_spec() * 1)
        by (nonlinear_arith)
        requires
            crate::dtype::dtype_size(fd.dtype_spec()) >= 1,
    ;
}


/// Two field lists of one shape whose records at `p` coincide hold the
/// same rows at `p`.
pub proof fn lemma_point_record_inverts(f1: Seq<Field>, f2: Seq<Field>, p: int)
    requires
        f1.len() == f2.len(),
        forall|i: int|
            0 <= i < f1.len() ==> {
                &&& (#[trigger] f1[i]).data.wf()
                &&& (#[trigger] f2[i]).data.wf()
                &&& f1[i].data.row_size_spec() == f2[i].data.row_size_spec()
                &&& 0 <= p < f1[i].data.npoints_spec()
                &&& 0 <= p < f2[i].data.npoints_spec()
            },
        point_record(f1, p) == point_record(f2, p),
    ensures
        forall|i: int|
            0 <= i < f1.len() ==> #[trigger] f1[i].data.row_spec(p) == #[trigger] f2[i].data.row_spec(p),
    decreases f1.len(),
{
    if f1.len() > 0 {
        let a = point_record(f1.drop_last(), p);
        let b = f1.last().data.row_spec(p);
        let a2 = point_record(f2.drop_last(), p);
        let b2 = f2.last().data.row_spec(p);
        assert forall|i: int|
            0 <= i < f1.drop_last().len() implies {
            &&& (#[trigger] f1.drop_last()[i]).data.wf()
            &&& (#[trigger] f2.drop_last()[i]).data.wf()
            &&& f1.drop_last()[i].data.row_size_spec() == f2.drop_last()[i].data.row_size_spec()
            &&& 0 <= p < f1.drop_last()[i].data.npoints_spec()
            &&& 0 <= p < f2.drop_last()[i].data.npoints_spec()
        } by {
            assert(f1.drop_last()[i] == f1[i]);
            assert(f2.drop_last()[i] == f2[i]);
        }
        crate::fielddata::lemma_row_in_buffer(
            f1.last().data.npoints_spec(),
            f1.last().data.row_size_spec(),
            p as nat,
        );
        crate::fielddata::lemma_row_in_buffer(
            f2.last().data.npoints_spec(),
            f2.last().data.row_size_spec(),
            p as nat,
        );
        assert(b.len() == b2.len());
        assert forall|i: int|
            0 <= i < f1.drop_last().len() implies (#[trigger] f1.drop_last()[i]).data.wf() && 0 <= p
            < f1.drop_last()[i].data.npoints_spec() by {
            assert(f1.drop_last()[i] == f1[i]);
            // mention the paired element so the joint shape hypothesis applies
            let y = f2[i];
        }
        assert forall|i: int|
            0 <= i < f2.drop_last().len() implies (#[trigger] f2.drop_last()[i]).data.wf() && 0 <= p
            < f2.drop_last()[i].data.npoints_spec() by {
            assert(f2.drop_last()[i] == f2[i]);
            // mention the paired element so the joint shape hypothesis applies
            let x = f1[i];
        }
        lemma_point_record_len(f1.drop_last(), p);
        lemma_point_record_len(f2.drop_last(), p);
        assert forall|i: int|
            0 <= i < f1.drop_last().len() implies (#[trigger] f1.drop_last()[i]).data.row_size_spec()
            == (#[trigger] f2.drop_last()[i]).data.row_size_spec() by {
            assert(f1.drop_last()[i] == f1[i]);
            assert(f2.drop_last()[i] == f2[i]);
        }
        lemma_fields_point_size_congruent(f1.drop_last(), f2.drop_last());
        assert(a.len() == a2.len());
        assert(a =~= (a + b).subrange(0, a.len() as int));
        assert(a2 =~= (a2 + b2).subrange(0, a2.len() as int));
        assert(b =~= (a + b).subrange(a.len() as int, (a + b).len() as int));
        assert(b2 =~= (a2 + b2).subrange(a2.len() as int, (a2 + b2).len() as int));
        lemma_point_record_inverts(f1.drop_last(), f2.drop_last(), p);
        assert forall|i: int| 0 <= i < f1.len() implies #[trigger] f1[i].data.row_spec(p)
            == #[trigger] f2[i].data.row_spec(p) by {
            if i < f1.len() - 1 {
                assert(f1.drop_last()[i] == f1[i]);
                assert(f2.drop_last()[i] == f2[i]);
                assert(f1.drop_last()[i].data.row_spec(p) == f2.drop_last()[i].data.row_spec(p));
            }
        }
    }
}

/// Law: the raw binary payload determines the rows.  Two field lists of
/// one shape with one payload hold the same rows everywhere below `np`;
/// so writing a cloud's binary payload and reading it back into a cloud
/// of the same shape reproduces every field's data.
pub proof fn lemma_binary_payload_inverts(f1: Seq<Field>, f2: Seq<Field>, np: nat)
    requires
        f1.len() == f2.len(),
        forall|i: int|
            0 <= i < f1.len() ==> {
                &&& (#[trigger] f1[i]).data.wf()
                &&& (#[trigger] f2[i]).data.wf()
                &&& f1[i].data.row_size_spec() == f2[i].data.row_size_spec()
                &&& np <= f1[i].data.npoints_spec()
                &&& np <= f2[i].data.npoints_spec()
            },
        binary_payload(f1, np) == binary_payload(f2, np),
    ensures
        forall|i: int, p: int|
            0 <= i < f1.len() && 0 <= p < np ==> #[trigger] f1[i].data.row_spec(p)
                == #[trigger] f2[i].data.row_spec(p),
    decreases np,
{
    if np > 0 {
        let a = binary_payload(f1, (np - 1) as nat);
        let b = point_record(f1, np - 1);
        let a2 = binary_payload(f2, (np - 1) as nat);
        let b2 = point_record(f2, np - 1);
        assert forall|i: int|
            0 <= i < f1.len() implies (#[trigger] f1[i]).data.wf() && (np - 1) as nat
            <= f1[i].data.npoints_spec() by {
            // mention the paired element so the joint shape hypothesis applies
            let y = f2[i];
        }
        assert forall|i: int|
            0 <= i < f2.len() implies (#[trigger] f2[i]).data.wf() && (np - 1) as nat
            <= f2[i].data.npoints_spec() by {
            // mention the paired element so the joint shape hypothesis applies
            let x = f1[i];
        }
        lemma_binary_payload_len(f1, (np - 1) as nat);
        lemma_binary_payload_len(f2, (np - 1) as nat);
        assert forall|i: int|
            0 <= i < f1.len() implies (#[trigger] f1[i]).data.row_size_spec() == (
        #[trigger] f2[i]).data.row_size_spec() by {}
        lemma_fields_point_size_congruent(f1, f2);
        assert(a.len() == a2.len());
        assert(a =~= (a + b).subrange(0, a.len() as int));
        assert(a2 =~= (a2 + b2).subrange(0, a2.len() as int));
        assert(b =~= (a + b).subrange(a.len() as int, (a + b).len() as int));
        assert(b2 =~= (a2 + b2).subrange(a2.len() as int, (a2 + b2).len() as int));
        assert forall|i: int|
            0 <= i < f1.len() implies {
            &&& (#[trigger] f1[i]).data.wf()
            &&& (#[trigger] f2[i]).data.wf()
            &&& f1[i].data.row_size_spec() == f2[i].data.row_size_spec()
            &&& 0 <= np - 1 < f1[i].data.npoints_spec()
            &&& 0 <= np - 1 < f2[i].data.npoints_spec()
        } by {}
        lemma_point_record_inverts(f1, f2, np - 1);
        lemma_binary_payload_inverts(f1, f2, (np - 1) as nat);
        assert forall|i: int, p: int|
            0 <= i < f1.len() && 0 <= p < np implies #[trigger] f1[i].data.row_spec(p)
            == #[trigger] f2[i].data.row_spec(p) by {
            if p < np - 1 {
            }
        }
    }
}

/// Law: the column-major buffer determines the columns.  Two field lists
/// whose columns have one length each and whose buffers coincide hold the
/// same column bytes field for field; so writing a cloud's compressed
/// payload and decompressing it back into a cloud of the same shape
/// reproduces every field's data, by the LZF round trip.
pub proof fn lemma_column_buffer_inverts(f1: Seq<Field>, f2: Seq<Field>)
    requires
        f1.len() == f2.len(),
        forall|i: int|
            0 <= i < f1.len() ==> (#[trigger] f1[i]).data.data_spec().len() == (
            #[trigger] f2[i]).data.data_spec().len(),
        column_buffer(f1) == column_buffer(f2),
    ensures
        forall|i: int|
            0 <= i < f1.len() ==> (#[trigger] f1[i]).data.data_spec() == (
            #[trigger] f2[i]).data.data_spec(),
    decreases f1.len(),
{
    if f1.len() > 0 {
        let a = column_buffer(f1.drop_last());
        let b = f1.last().data.data_spec();
        let a2 = column_buffer(f2.drop_last());
        let b2 = f2.last().data.data_spec();
        assert forall|i: int|
            0 <= i < f1.drop_last().len() implies (#[trigger] f1.drop_last()[i]).data.data_spec().len()
            == (#[trigger] f2.drop_last()[i]).data.data_spec().len() by {
            assert(f1.drop_last()[i] == f1[i]);
            assert(f2.drop_last()[i] == f2[i]);
        }
        lemma_column_buffer_same_len(f1.drop_last(), f2.drop_last());
        assert(a.len() == a2.len());
        assert(a =~= (a + b).subrange(0, a.len() as int));
        assert(a2 =~= (a2 + b2).subrange(0, a2.len() as int));
        assert(b =~= (a + b).subrange(a.len() as int, (a + b).len() as int));
        assert(b2 =~= (a2 + b2).subrange(a2.len() as int, (a2 + b2).len() as int));
        lemma_column_buffer_inverts(f1.drop_last(), f2.drop_last());
        assert forall|i: int| 0 <= i < f1.len() implies (#[trigger] f1[i]).data.data_spec() == (
        #[trigger] f2[i]).data.data_spec() by {
            if i < f1.len() - 1 {
                assert(f1.drop_last()[i] == f1[i]);
                assert(f2.drop_last()[i] == f2[i]);
            }
        }
    }
}

/// Column buffers of same-shaped field lists have one length.
pub proof fn lemma_column_buffer_same_len(f1: Seq<Field>, f2: Seq<Field>)
    requires
        f1.len() == f2.len(),
        forall|i: int|
            0 <= i < f1.len() ==> (#[trigger] f1[i]).data.data_spec().len() == (
            #[trigger] f2[i]).data.data_spec().len(),
    ensures
        column_buffer(f1).len() == column_buffer(f2).len(),
    decreases f1.len(),
{
    if f1.len() > 0 {
        assert forall|i: int|
            0 <= i < f1.drop_last().len() implies (#[trigger] f1.drop_last()[i]).data.data_spec().len()
            == (#[trigger] f2.drop_last()[i]).data.data_spec().len() by {
            assert(f1.drop_last()[i] == f1[i]);
            assert(f2.drop_last()[i] == f2[i]);
        }
        lemma_column_buffer_same_len(f1.drop_last(), f2.drop_last());
    }
}


/// Law: for the integer dtypes, the ASCII token of an element reads back
/// as exactly that element; the text round trip of the ASCII payload
/// loses nothing on integer fields.  Float tokens are rounded to six
/// fraction digits when written, so they are left out here.
pub proof fn lemma_element_token_roundtrip_int(dt: Dtype, elem: Seq<u8>)
    requires
        elem.len() == dtype_size(dt),
        dt != Dtype::F32,
        dt != Dtype::F64,
    ensures
        element_from_token(dt, element_token(dt, elem)) == Some(elem),
{
    let w = dtype_size(dt);
    let v = le_val(elem);
    lemma_le_val_bound(elem);
    lemma_le_bytes_of_le_val(elem);
    vstd::arithmetic::power2::lemma2_to64();
    vstd::arithmetic::power2::lemma_pow2_adds((8 * w - 1) as nat, 1);
    let half = pow2((8 * w - 1) as nat);
    match dt {
        Dtype::U8 | Dtype::U16 | Dtype::U32 | Dtype::U64 => {
            let tok = dec_digits(v);
            lemma_dec_digits_roundtrip(v);
            assert(tok[0] != 45);
            assert(crate::io::int_token(tok) == Some((false, v)));
        },
        Dtype::I8 | Dtype::I16 | Dtype::I32 | Dtype::I64 => {
            if v >= half {
                let m = (pow2((8 * w) as nat) - v) as nat;
                assert(1 <= m <= half);
                let d = dec_digits(m);
                lemma_dec_digits_roundtrip(m);
                let tok = seq![45u8] + d;
                assert(tok[0] == 45);
                assert(tok.len() >= 2);
                assert forall|i: int|
                    1 <= i < tok.len() implies crate::numtext::is_digit(#[trigger] tok[i]) by {
                    assert(tok[i] == d[i - 1]);
                }
                assert forall|i: int| 0 <= i < d.len() implies tok[1 + i] == d[i] by {}
                lemma_digits_val_shift(tok, d, 1, 0, d.len() as int);
                assert(digits_val(tok, 1, tok.len() as int) == m);
                assert(crate::io::int_token(tok) == Some((true, m)));
                assert((pow2((8 * w) as nat) - m) as nat == v);
                assert(element_token(dt, elem) == tok);
            } else {
                let tok = dec_digits(v);
                lemma_dec_digits_roundtrip(v);
                assert(tok[0] != 45);
                assert(crate::io::int_token(tok) == Some((false, v)));
            }
        },
        _ => {},
    }
}


/// A schema entry that describes a field witnesses a match in its list.
pub proof fn lemma_has_matching_meta_at(metas: Seq<FieldMeta>, f: Field, j: int)
    requires
        0 <= j < metas.len(),
        meta_matches_field(metas[j], f),
    ensures
        has_matching_meta(metas, f),
    decreases metas.len(),
{
    if j == metas.len() - 1 {
    } else {
        assert(metas.drop_last()[j] == metas[j]);
        lemma_has_matching_meta_at(metas.drop_last(), f, j);
    }
}

/// Law: a cloud whose stored fields line up with its schema entry by
/// entry, whose columns all hold the point total, and whose grid shape
/// multiplies out to the point total satisfies the whole invariant set;
/// in particular, clouds built from a consistent header pass the
/// invariant check.
pub proof fn lemma_aligned_cloud_valid(pc: PointCloud)
    requires
        (pc.metadata.height as nat) * (pc.metadata.width as nat) == pc.metadata.npoints as nat,
        pc.metadata.fields.0@.len() == pc.fields@.len(),
        forall|i: int|
            0 <= i < pc.fields@.len() ==> meta_matches_field(
                #[trigger] pc.metadata.fields.0@[i],
                pc.fields@[i],
            ),
        pc.points_consistent(),
    ensures
        pc.valid(),
{
    assert forall|i: int| 0 <= i < pc.fields@.len() implies has_matching_meta(
        pc.metadata.fields.0@,
        #[trigger] pc.fields@[i],
    ) by {
        lemma_has_matching_meta_at(pc.metadata.fields.0@, pc.fields@[i], i);
    }
}

} // verus!
