use vstd::prelude::*;
use vstd::arithmetic::power2::pow2;
use crate::dtype::{dtype_size, Dtype};
use crate::error::PcdError;
use crate::fielddata::{row_at, FieldData};
use crate::pointcloud::{Field, PointCloud};
use crate::metadata::{Encoding, FieldMeta, Metadata};
use vstd::utf8::encode_utf8;
use crate::floattext::{
    float32_fixed6, float32_of_decimal, float64_fixed6, float64_of_decimal, format_float32,
    format_float64, parse_float32, parse_float64,
};
use crate::numtext::{
    all_digits, dec_digits, digits_val, le_bytes_to_u64, le_val, lemma_digits_val_bound,
    parse_u64_digits, pow2_u64, push_dec_u64, u64_to_le_bytes_w,
};

verus! {

// ---------------------------------------------------------------------
// LZF compression, through trusted wrappers
// ---------------------------------------------------------------------

#[verifier::external_type_specification]
#[verifier::external_body]
pub struct ExLzfError(lzf::LzfError);

/// What lzf::compress returns for a given input, when it succeeds; LZF
/// compression is deterministic, a function of the input bytes alone.
pub uninterp spec fn lzf_compressed(s: Seq<u8>) -> Option<Seq<u8>>;

/// What lzf::decompress returns for given input bytes and output bound;
/// deterministic, a function of the two arguments alone.
pub uninterp spec fn lzf_decompressed(s: Seq<u8>, n: nat) -> Option<Seq<u8>>;

/// Relies on lzf::compress: a deterministic function of the input bytes
/// that fails exactly when the input cannot be shrunk, and whose output
/// decompresses back to the input under the input's length, as the
/// crate's round-trip examples and tests show.
#[verifier::external_body]
fn lzf_compress(data: &[u8]) -> (r: Result<Vec<u8>, lzf::LzfError>)
    ensures
        r is Ok <==> lzf_compressed(data@) is Some,
        r matches Ok(c) ==> Some(c@) == lzf_compressed(data@) && lzf_decompressed(
            c@,
            data@.len(),
        ) == Some(data@),
{
    lzf::compress(data)
}

/// Relies on lzf::decompress: a deterministic function of the compressed
/// bytes and the output bound, whose result never exceeds the bound.
#[verifier::external_body]
fn lzf_decompress(data: &[u8], expected: usize) -> (r: Result<Vec<u8>, lzf::LzfError>)
    ensures
        r is Ok <==> lzf_decompressed(data@, expected as nat) is Some,
        r matches Ok(v) ==> Some(v@) == lzf_decompressed(data@, expected as nat) && v@.len()
            <= expected,
{
    lzf::decompress(data, expected)
}

// ---------------------------------------------------------------------
// One element as decimal text
// ---------------------------------------------------------------------

/// The little-endian bytes of value `v`, `w` bytes wide.
pub open spec fn le_bytes(v: nat, w: nat) -> Seq<u8>
    decreases w,
{
    if w == 0 {
        Seq::empty()
    } else {
        seq![(v % 256) as u8] + le_bytes(v / 256, (w - 1) as nat)
    }
}

/// The ASCII token of one element of dtype `dt` held as little-endian
/// bytes `elem`: unsigned integers in plain decimal, signed integers in
/// two's complement read back to a signed decimal, floats through the
/// fixed six-fraction-digit rendering of their bit patterns.
pub open spec fn element_token(dt: Dtype, elem: Seq<u8>) -> Seq<u8> {
    let v = le_val(elem);
    let w = dtype_size(dt);
    match dt {
        Dtype::U8 | Dtype::U16 | Dtype::U32 | Dtype::U64 => dec_digits(v),
        Dtype::I8 | Dtype::I16 | Dtype::I32 | Dtype::I64 => {
            if v >= pow2((8 * w - 1) as nat) {
                seq![45u8] + dec_digits((pow2((8 * w) as nat) - v) as nat)
            } else {
                dec_digits(v)
            }
        },
        Dtype::F32 => float32_fixed6(v as u32),
        Dtype::F64 => float64_fixed6(v as u64),
    }
}

/// Whether a token is an optionally minus-signed run of decimal digits,
/// split into its sign and magnitude.
pub open spec fn int_token(tok: Seq<u8>) -> Option<(bool, nat)> {
    if tok.len() >= 1 && tok[0] == 45 {
        if tok.len() >= 2 && all_digits(tok, 1, tok.len() as int) {
            Some((true, digits_val(tok, 1, tok.len() as int)))
        } else {
            None
        }
    } else if tok.len() >= 1 && all_digits(tok, 0, tok.len() as int) {
        Some((false, digits_val(tok, 0, tok.len() as int)))
    } else {
        None
    }
}

/// The little-endian element bytes an ASCII token denotes under dtype
/// `dt`, if the token parses and its value is in range: unsigned tokens
/// must fit the width, signed tokens must fit the two's complement range,
/// floats go through the decimal-to-bits conversion.
pub open spec fn element_from_token(dt: Dtype, tok: Seq<u8>) -> Option<Seq<u8>> {
    let w = dtype_size(dt);
    match dt {
        Dtype::U8 | Dtype::U16 | Dtype::U32 | Dtype::U64 => {
            match int_token(tok) {
                Some((false, v)) => {
                    if v < pow2((8 * w) as nat) {
                        Some(le_bytes(v, w))
                    } else {
                        None
                    }
                },
                _ => None,
            }
        },
        Dtype::I8 | Dtype::I16 | Dtype::I32 | Dtype::I64 => {
            match int_token(tok) {
                Some((false, v)) => {
                    if v < pow2((8 * w - 1) as nat) {
                        Some(le_bytes(v, w))
                    } else {
                        None
                    }
                },
                Some((true, v)) => {
                    if 1 <= v <= pow2((8 * w - 1) as nat) {
                        Some(le_bytes((pow2((8 * w) as nat) - v) as nat, w))
                    } else if v == 0 {
                        Some(le_bytes(0, w))
                    } else {
                        None
                    }
                },
                _ => None,
            }
        },
        Dtype::F32 => {
            match float32_of_decimal(tok) {
                Some(bits) => Some(le_bytes(bits as nat, 4)),
                None => None,
            }
        },
        Dtype::F64 => {
            match float64_of_decimal(tok) {
                Some(bits) => Some(le_bytes(bits as nat, 8)),
                None => None,
            }
        },
    }
}

/// The value of `w` little-endian bytes stays below two to the `8 w`.
pub proof fn lemma_le_val_bound(s: Seq<u8>)
    ensures
        le_val(s) < pow2(8 * s.len()),
    decreases s.len(),
{
    vstd::arithmetic::power2::lemma2_to64();
    if s.len() == 0 {
    } else {
        lemma_le_val_bound(s.drop_last());
        vstd::arithmetic::power2::lemma_pow2_adds(8 * (s.len() - 1) as nat, 8);
        assert(le_val(s.drop_last()) + (s.last() as nat) * pow2(8 * (s.len() - 1) as nat) < pow2(
            8 * s.len(),
        )) by (nonlinear_arith)
            requires
                le_val(s.drop_last()) < pow2(8 * (s.len() - 1) as nat),
                s.last() < 256,
                pow2(8 * s.len() as nat) == pow2(8 * (s.len() - 1) as nat) * 256,
        ;
    }
}

/// Two little-endian byte strings of one length and one value are equal.
pub proof fn lemma_le_bytes_of_le_val(s: Seq<u8>)
    ensures
        le_bytes(le_val(s), s.len()) == s,
    decreases s.len(),
{
    if s.len() == 0 {
        assert(le_bytes(le_val(s), 0) =~= s);
    } else {
        let v = le_val(s);
        let p = pow2(8 * (s.len() - 1) as nat);
        lemma_le_val_bound(s.drop_last());
        vstd::arithmetic::power2::lemma2_to64();
        vstd::arithmetic::power2::lemma_pow2_adds(8 * (s.len() - 1) as nat, 8);
        // peel the lowest byte: v % 256 == s[0], v / 256 == le_val(s.skip(1))
        lemma_le_val_front(s);
        vstd::arithmetic::div_mod::lemma_fundamental_div_mod_converse(
            v as int,
            256,
            le_val(s.skip(1)) as int,
            s[0] as int,
        );
        lemma_le_bytes_of_le_val(s.skip(1));
        assert(le_bytes(v, s.len()) =~= s);
    }
}

/// The value of little-endian bytes decomposes at the front: the first
/// byte plus 256 times the value of the rest.
pub proof fn lemma_le_val_front(s: Seq<u8>)
    requires
        s.len() >= 1,
    ensures
        le_val(s) == s[0] + 256 * le_val(s.skip(1)),
        le_val(s.skip(1)) < pow2(8 * (s.len() - 1) as nat),
    decreases s.len(),
{
    vstd::arithmetic::power2::lemma2_to64();
    lemma_le_val_bound(s.skip(1));
    if s.len() == 1 {
        assert(s.skip(1) =~= Seq::<u8>::empty());
        assert(le_val(s) == le_val(s.drop_last()) + (s.last() as nat) * pow2(0));
        assert(s.drop_last() =~= Seq::<u8>::empty());
    } else {
        lemma_le_val_front(s.drop_last());
        assert(s.drop_last()[0] == s[0]);
        assert(s.drop_last().skip(1) =~= s.skip(1).drop_last());
        assert(s.skip(1).last() == s.last());
        assert(s.skip(1).len() == s.len() - 1);
        vstd::arithmetic::power2::lemma_pow2_adds(8 * (s.len() - 2) as nat, 8);
        assert(le_val(s.skip(1)) == le_val(s.skip(1).drop_last()) + (s.last() as nat) * pow2(
            8 * (s.len() - 2) as nat,
        ));
        assert((s.last() as nat) * pow2(8 * (s.len() - 1) as nat) == 256 * ((s.last() as nat)
            * pow2(8 * (s.len() - 2) as nat))) by (nonlinear_arith)
            requires
                pow2(8 * (s.len() - 1) as nat) == pow2(8 * (s.len() - 2) as nat) * 256,
        ;
    }
}

/// The ASCII token of element `elem` of dtype `dt`, as `element_token`
/// describes it.
pub fn format_element(dt: Dtype, elem: &[u8]) -> (r: Vec<u8>)
    requires
        elem@.len() == dtype_size(dt),
    ensures
        r@ == element_token(dt, elem@),
{
    proof {
        vstd::arithmetic::power2::lemma2_to64();
        vstd::arithmetic::power2::lemma2_to64_rest();
        lemma_le_val_bound(elem@);
        assert(elem@.subrange(0, elem@.len() as int) =~= elem@);
    }
    let w = dt.get_size();
    let v: u64 = le_bytes_to_u64(elem, 0, w);
    match dt {
        Dtype::U8 | Dtype::U16 | Dtype::U32 | Dtype::U64 => {
            let mut out: Vec<u8> = Vec::new();
            push_dec_u64(&mut out, v);
            proof {
                assert(out@ =~= element_token(dt, elem@));
            }
            out
        },
        Dtype::I8 | Dtype::I16 | Dtype::I32 | Dtype::I64 => {
            let mut out: Vec<u8> = Vec::new();
            let half: u64 = if w == 8 {
                0x8000_0000_0000_0000
            } else {
                pow2_u64(8 * w - 1)
            };
            if v >= half {
                out.push(45);
                let mag: u64 = if w == 8 {
                    (0xFFFF_FFFF_FFFF_FFFF - v) + 1
                } else {
                    pow2_u64(8 * w) - v
                };
                proof {
                    vstd::arithmetic::power2::lemma_pow2_adds(63, 1);
                    if w < 8 {
                        vstd::arithmetic::power2::lemma_pow2_adds((8 * w - 1) as nat, 1);
                    }
                }
                push_dec_u64(&mut out, mag);
            } else {
                push_dec_u64(&mut out, v);
            }
            proof {
                vstd::arithmetic::power2::lemma_pow2_adds(63, 1);
                if w < 8 {
                    vstd::arithmetic::power2::lemma_pow2_adds((8 * w - 1) as nat, 1);
                }
                assert(out@ =~= element_token(dt, elem@));
            }
            out
        },
        Dtype::F32 => {
            let bits: u32 = v as u32;
            let out = format_float32(bits);
            proof {
                assert(out@ =~= element_token(dt, elem@));
            }
            out
        },
        Dtype::F64 => {
            let out = format_float64(v);
            proof {
                assert(out@ =~= element_token(dt, elem@));
            }
            out
        },
    }
}

/// The little-endian element bytes token `tok` denotes under dtype `dt`,
/// as `element_from_token` describes it; a token that does not parse or
/// does not fit the dtype yields a malformed-value error.
pub fn parse_element(dt: Dtype, tok: &[u8]) -> (r: Result<Vec<u8>, PcdError>)
    ensures
        r matches Ok(v) ==> element_from_token(dt, tok@) == Some(v@) && v@.len() == dtype_size(dt),
        r is Err <==> element_from_token(dt, tok@) is None,
        r matches Err(e) ==> e == PcdError::MalformedValue,
{
    proof {
        vstd::arithmetic::power2::lemma2_to64();
        vstd::arithmetic::power2::lemma2_to64_rest();
    }
    let w = dt.get_size();
    match dt {
        Dtype::U8 | Dtype::U16 | Dtype::U32 | Dtype::U64 => {
            let tlen = tok.len();
            if tlen >= 1 && tok[0] == 45 {
                return Err(PcdError::MalformedValue);
            }
            match parse_u64_digits(tok, 0, tlen) {
                Some(v) => {
                    proof {
                        if tlen < 20 {
                            lemma_digits_val_bound(tok@, 0, tlen as int);
                            crate::numtext::lemma_pow10_bound19(tlen as nat);
                        }
                    }
                    if w < 8 {
                        let bound = pow2_u64(8 * w);
                        if v >= bound {
                            return Err(PcdError::MalformedValue);
                        }
                    }
                    let bytes = u64_to_le_bytes_w(v, w);
                    proof {
                        lemma_le_val_bound(bytes@);
                        lemma_le_bytes_of_le_val(bytes@);
                    }
                    Ok(bytes)
                },
                None => Err(PcdError::MalformedValue),
            }
        },
        Dtype::I8 | Dtype::I16 | Dtype::I32 | Dtype::I64 => {
            let tlen = tok.len();
            let neg = tlen >= 1 && tok[0] == 45;
            let from: usize = if neg {
                1
            } else {
                0
            };
            match parse_u64_digits(tok, from, tlen) {
                Some(v) => {
                    let half: u64 = if w == 8 {
                        0x8000_0000_0000_0000
                    } else {
                        pow2_u64(8 * w - 1)
                    };
                    proof {
                        vstd::arithmetic::power2::lemma_pow2_adds(63, 1);
                        if w < 8 {
                            vstd::arithmetic::power2::lemma_pow2_adds((8 * w - 1) as nat, 1);
                        }
                    }
                    if neg {
                        if v > half {
                            return Err(PcdError::MalformedValue);
                        }
                        let bits: u64 = if v == 0 {
                            0
                        } else if w == 8 {
                            (0xFFFF_FFFF_FFFF_FFFF - v) + 1
                        } else {
                            pow2_u64(8 * w) - v
                        };
                        let bytes = u64_to_le_bytes_w(bits, w);
                        proof {
                            lemma_le_val_bound(bytes@);
                            lemma_le_bytes_of_le_val(bytes@);
                        }
                        Ok(bytes)
                    } else {
                        if v >= half {
                            return Err(PcdError::MalformedValue);
                        }
                        let bytes = u64_to_le_bytes_w(v, w);
                        proof {
                            lemma_le_val_bound(bytes@);
                            lemma_le_bytes_of_le_val(bytes@);
                        }
                        Ok(bytes)
                    }
                },
                None => Err(PcdError::MalformedValue),
            }
        },
        Dtype::F32 => {
            match parse_float32(tok) {
                Some(bits) => {
                    let bytes = u64_to_le_bytes_w(bits as u64, 4);
                    proof {
                        lemma_le_val_bound(bytes@);
                        lemma_le_bytes_of_le_val(bytes@);
                    }
                    Ok(bytes)
                },
                None => Err(PcdError::MalformedValue),
            }
        },
        Dtype::F64 => {
            match parse_float64(tok) {
                Some(bits) => {
                    let bytes = u64_to_le_bytes_w(bits, 8);
                    proof {
                        lemma_le_val_bound(bytes@);
                        lemma_le_bytes_of_le_val(bytes@);
                    }
                    Ok(bytes)
                },
                None => Err(PcdError::MalformedValue),
            }
        },
    }
}


// ---------------------------------------------------------------------
// Payload layouts
// ---------------------------------------------------------------------

/// Bytes one point occupies across the stored fields: the sum of the row
/// sizes.
pub open spec fn fields_point_size(fields: Seq<Field>) -> nat
    decreases fields.len(),
{
    if fields.len() == 0 {
        0
    } else {
        fields_point_size(fields.drop_last()) + fields.last().data.row_size_spec()
    }
}

/// A prefix of the fields occupies at most the whole point's bytes.
pub proof fn lemma_fields_point_size_prefix(fields: Seq<Field>, k: int)
    requires
        0 <= k <= fields.len(),
    ensures
        fields_point_size(fields.take(k)) <= fields_point_size(fields),
    decreases fields.len(),
{
    if k < fields.len() {
        assert(fields.drop_last().take(k) =~= fields.take(k));
        lemma_fields_point_size_prefix(fields.drop_last(), k);
    } else {
        assert(fields.take(k) =~= fields);
    }
}

/// Total bytes the stored columns occupy: the sum of the column lengths.
pub open spec fn fields_total_size(fields: Seq<Field>) -> nat
    decreases fields.len(),
{
    if fields.len() == 0 {
        0
    } else {
        fields_total_size(fields.drop_last()) + fields.last().data.data_spec().len()
    }
}

/// The column-major buffer holds exactly the columns' total size.
pub proof fn lemma_column_buffer_len(fields: Seq<Field>)
    ensures
        column_buffer(fields).len() == fields_total_size(fields),
    decreases fields.len(),
{
    if fields.len() > 0 {
        lemma_column_buffer_len(fields.drop_last());
    }
}

/// A prefix of the fields occupies at most the columns' total size.
pub proof fn lemma_fields_total_size_prefix(fields: Seq<Field>, k: int)
    requires
        0 <= k <= fields.len(),
    ensures
        fields_total_size(fields.take(k)) <= fields_total_size(fields),
    decreases fields.len(),
{
    if k < fields.len() {
        assert(fields.drop_last().take(k) =~= fields.take(k));
        lemma_fields_total_size_prefix(fields.drop_last(), k);
    } else {
        assert(fields.take(k) =~= fields);
    }
}

/// One point's raw binary record: each field's row bytes, in field order.
pub open spec fn point_record(fields: Seq<Field>, p: int) -> Seq<u8>
    decreases fields.len(),
{
    if fields.len() == 0 {
        Seq::empty()
    } else {
        point_record(fields.drop_last(), p) + fields.last().data.row_spec(p)
    }
}

/// The raw binary payload: one record per point, in point order.
pub open spec fn binary_payload(fields: Seq<Field>, np: nat) -> Seq<u8>
    decreases np,
{
    if np == 0 {
        Seq::empty()
    } else {
        binary_payload(fields, (np - 1) as nat) + point_record(fields, np - 1)
    }
}

/// The column-major buffer behind the compressed encoding: each field's
/// whole column, in field order.
pub open spec fn column_buffer(fields: Seq<Field>) -> Seq<u8>
    decreases fields.len(),
{
    if fields.len() == 0 {
        Seq::empty()
    } else {
        column_buffer(fields.drop_last()) + fields.last().data.data_spec()
    }
}

/// A record holds one row of every field.
pub proof fn lemma_point_record_len(fields: Seq<Field>, p: int)
    requires
        forall|i: int|
            0 <= i < fields.len() ==> (#[trigger] fields[i]).data.wf() && 0 <= p < fields[i].data.npoints_spec(),
    ensures
        point_record(fields, p).len() == fields_point_size(fields),
    decreases fields.len(),
{
    if fields.len() > 0 {
        assert forall|i: int|
            0 <= i < fields.drop_last().len() implies (#[trigger] fields.drop_last()[i]).data.wf()
            && 0 <= p < fields.drop_last()[i].data.npoints_spec() by {
            assert(fields.drop_last()[i] == fields[i]);
        }
        lemma_point_record_len(fields.drop_last(), p);
        let f = fields.last().data;
        crate::fielddata::lemma_row_in_buffer(f.npoints_spec(), f.row_size_spec(), p as nat);
        assert(f.row_spec(p).len() == f.row_size_spec());
    }
}

/// The raw binary payload holds one record per point.
pub proof fn lemma_binary_payload_len(fields: Seq<Field>, np: nat)
    requires
        forall|i: int|
            0 <= i < fields.len() ==> (#[trigger] fields[i]).data.wf() && np <= fields[i].data.npoints_spec(),
    ensures
        binary_payload(fields, np).len() == np * fields_point_size(fields),
    decreases np,
{
    if np == 0 {
    } else {
        lemma_binary_payload_len(fields, (np - 1) as nat);
        lemma_point_record_len(fields, np - 1);
        let ghost fps = fields_point_size(fields);
        assert(np * fps == (np - 1) as nat * fps + fps) by (nonlinear_arith)
            requires
                np >= 1,
        ;
    }
}

/// Writes the raw binary payload of the stored fields: for each point, in
/// point order, each field's row bytes in field order, little endian.
pub fn write_binary_data(pc: &PointCloud) -> (r: Vec<u8>)
    requires
        pc.wf(),
        pc.points_consistent(),
        pc.metadata.npoints as nat * fields_point_size(pc.fields@) <= usize::MAX,
    ensures
        r@ == binary_payload(pc.fields@, pc.metadata.npoints as nat),
{
    let np = pc.metadata.npoints;
    let nf = pc.fields.len();
    let mut out: Vec<u8> = Vec::new();
    let mut p: usize = 0;
    while p < np
        invariant
            pc.wf(),
            pc.points_consistent(),
            np == pc.metadata.npoints,
            nf == pc.fields@.len(),
            p <= np,
            out@ == binary_payload(pc.fields@, p as nat),
        decreases np - p,
    {
        let mut i: usize = 0;
        while i < nf
            invariant
                pc.wf(),
                pc.points_consistent(),
                np == pc.metadata.npoints,
                nf == pc.fields@.len(),
                p < np,
                i <= nf,
                out@ == binary_payload(pc.fields@, p as nat) + point_record(
                    pc.fields@.take(i as int),
                    p as int,
                ),
            decreases nf - i,
        {
            let row = pc.fields[i].data.get_row(p);
            let mut rowv = row;
            out.append(&mut rowv);
            proof {
                assert(pc.fields@.take(i + 1).drop_last() =~= pc.fields@.take(i as int));
                assert(pc.fields@.take(i + 1).last() == pc.fields@[i as int]);
            }
            i += 1;
        }
        proof {
            assert(pc.fields@.take(nf as int) =~= pc.fields@);
        }
        p += 1;
    }
    out
}

/// Writes the column-major buffer of the stored fields: each field's
/// whole column in field order, little endian.
pub fn write_column_buffer(pc: &PointCloud) -> (r: Vec<u8>)
    requires
        pc.wf(),
    ensures
        r@ == column_buffer(pc.fields@),
{
    let nf = pc.fields.len();
    let mut out: Vec<u8> = Vec::new();
    let mut i: usize = 0;
    while i < nf
        invariant
            pc.wf(),
            nf == pc.fields@.len(),
            i <= nf,
            out@ == column_buffer(pc.fields@.take(i as int)),
        decreases nf - i,
    {
        let mut col = pc.fields[i].data.get_data();
        out.append(&mut col);
        proof {
            assert(pc.fields@.take(i + 1).drop_last() =~= pc.fields@.take(i as int));
            assert(pc.fields@.take(i + 1).last() == pc.fields@[i as int]);
        }
        i += 1;
    }
    proof {
        assert(pc.fields@.take(nf as int) =~= pc.fields@);
    }
    out
}

/// Writes the compressed payload: the column-major buffer is LZF
/// compressed, and the compressed and uncompressed byte counts lead it as
/// 32-bit little-endian words.  Fails with `CompressionFailure` when the
/// buffer cannot be compressed and with `PayloadLengthMismatch` when a
/// count does not fit 32 bits.
pub fn write_compressed_data(pc: &PointCloud) -> (r: Result<Vec<u8>, PcdError>)
    requires
        pc.wf(),
    ensures
        r is Ok <==> column_buffer(pc.fields@).len() < pow2(32) && (lzf_compressed(
            column_buffer(pc.fields@),
        ) matches Some(c) && c.len() < pow2(32)),
        r matches Ok(v) ==> {
            &&& lzf_compressed(column_buffer(pc.fields@)) matches Some(c)
            &&& column_buffer(pc.fields@).len() < pow2(32)
            &&& c.len() < pow2(32)
            &&& v@ == le_bytes(c.len(), 4) + le_bytes(column_buffer(pc.fields@).len(), 4) + c
        },
        r matches Err(e) ==> (e == PcdError::CompressionFailure <==> column_buffer(
            pc.fields@,
        ).len() < pow2(32) && lzf_compressed(column_buffer(pc.fields@)) is None),
        r matches Err(e) ==> e == PcdError::CompressionFailure
            || e == PcdError::PayloadLengthMismatch,
{
    proof {
        vstd::arithmetic::power2::lemma2_to64();
        vstd::arithmetic::power2::lemma2_to64_rest();
    }
    let buf = write_column_buffer(pc);
    if buf.len() as u64 >= 0x1_0000_0000u64 {
        return Err(PcdError::PayloadLengthMismatch);
    }
    let compressed = match lzf_compress(buf.as_slice()) {
        Ok(c) => c,
        Err(_) => {
            return Err(PcdError::CompressionFailure);
        },
    };
    if compressed.len() as u64 >= 0x1_0000_0000u64 {
        return Err(PcdError::PayloadLengthMismatch);
    }
    let mut out = u64_to_le_bytes_w(compressed.len() as u64, 4);
    proof {
        lemma_le_bytes_of_le_val(out@);
    }
    let mut size2 = u64_to_le_bytes_w(buf.len() as u64, 4);
    proof {
        lemma_le_bytes_of_le_val(size2@);
    }
    out.append(&mut size2);
    let mut cv = compressed;
    out.append(&mut cv);
    Ok(out)
}

/// Reads the raw binary payload at `start` in `data` into the cloud's
/// stored fields, row by row; the cloud keeps its shape and dtypes.
/// Fails with `UnexpectedEof` when the input is shorter than one record
/// per point, leaving some rows unread.
pub fn read_binary_data(pc: &mut PointCloud, data: &[u8], start: usize) -> (r: Result<
    usize,
    PcdError,
>)
    requires
        old(pc).wf(),
        old(pc).points_consistent(),
        start <= data@.len(),
    ensures
        final(pc).wf(),
        final(pc).points_consistent(),
        final(pc).metadata == old(pc).metadata,
        final(pc).fields@.len() == old(pc).fields@.len(),
        forall|i: int|
            0 <= i < final(pc).fields@.len() ==> {
                let f = #[trigger] final(pc).fields@[i];
                let g = old(pc).fields@[i];
                f.name@ == g.name@ && f.data.dtype_spec() == g.data.dtype_spec()
                    && f.data.count_spec() == g.data.count_spec() && f.data.npoints_spec()
                    == g.data.npoints_spec()
            },
        r is Ok <==> start + old(pc).metadata.npoints as nat * fields_point_size(
            old(pc).fields@,
        ) <= data@.len(),
        r matches Ok(end) ==> {
            &&& end == start + old(pc).metadata.npoints as nat * fields_point_size(
                old(pc).fields@,
            )
            &&& binary_payload(final(pc).fields@, old(pc).metadata.npoints as nat)
                == data@.subrange(start as int, end as int)
        },
        r matches Err(e) ==> e == PcdError::UnexpectedEof,
{
    let np = pc.metadata.npoints;
    let nf = pc.fields.len();
    let dlen = data.len();
    let mut pos: usize = start;
    let mut p: usize = 0;
    proof {
        assert(binary_payload(pc.fields@, 0) =~= data@.subrange(start as int, start as int));
    }
    while p < np
        invariant
            pc.wf(),
            pc.points_consistent(),
            old(pc).points_consistent(),
            pc.metadata == old(pc).metadata,
            np == pc.metadata.npoints,
            nf == pc.fields@.len(),
            nf == old(pc).fields@.len(),
            dlen == data@.len(),
            p <= np,
            start <= pos,
            pos <= dlen,
            forall|i: int|
                0 <= i < nf ==> {
                    let f = #[trigger] pc.fields@[i];
                    let g = old(pc).fields@[i];
                    f.name@ == g.name@ && f.data.dtype_spec() == g.data.dtype_spec()
                        && f.data.count_spec() == g.data.count_spec() && f.data.npoints_spec()
                        == g.data.npoints_spec()
                },
            fields_point_size(pc.fields@) == fields_point_size(old(pc).fields@),
            pos == start + p as nat * fields_point_size(old(pc).fields@),
            binary_payload(pc.fields@, p as nat) == data@.subrange(start as int, pos as int),
        decreases np - p,
    {
        let mut i: usize = 0;
        proof {
            assert(pc.fields@.take(0) =~= Seq::<Field>::empty());
            assert(binary_payload(pc.fields@, p as nat) + point_record(pc.fields@.take(0), p as int)
                =~= data@.subrange(start as int, pos as int));
        }
        while i < nf
            invariant
                pc.wf(),
                pc.points_consistent(),
                old(pc).points_consistent(),
                pc.metadata == old(pc).metadata,
                np == pc.metadata.npoints,
                nf == pc.fields@.len(),
                nf == old(pc).fields@.len(),
                dlen == data@.len(),
                p < np,
                i <= nf,
                start <= pos,
                pos <= dlen,
                forall|i2: int|
                    0 <= i2 < nf ==> {
                        let f = #[trigger] pc.fields@[i2];
                        let g = old(pc).fields@[i2];
                        f.name@ == g.name@ && f.data.dtype_spec() == g.data.dtype_spec()
                            && f.data.count_spec() == g.data.count_spec() && f.data.npoints_spec()
                            == g.data.npoints_spec()
                    },
                fields_point_size(pc.fields@) == fields_point_size(old(pc).fields@),
                pos == start + p as nat * fields_point_size(old(pc).fields@) + fields_point_size(
                    pc.fields@.take(i as int),
                ),
                binary_payload(pc.fields@, p as nat) + point_record(
                    pc.fields@.take(i as int),
                    p as int,
                ) == data@.subrange(start as int, pos as int),
            decreases nf - i,
        {
            let rs = pc.fields[i].data.count() * pc.fields[i].data.dtype().get_size();
            if dlen - pos < rs {
                proof {
                    let ghost ofs = old(pc).fields@;
                    let ghost fps = fields_point_size(ofs);
                    assert(fields_point_size(pc.fields@.take(i + 1)) == fields_point_size(
                        pc.fields@.take(i as int),
                    ) + rs) by {
                        assert(pc.fields@.take(i + 1).drop_last() =~= pc.fields@.take(i as int));
                        assert(pc.fields@.take(i + 1).last() == pc.fields@[i as int]);
                    }
                    assert(fields_point_size(pc.fields@.take(i + 1)) <= fields_point_size(
                        pc.fields@,
                    )) by {
                        lemma_fields_point_size_prefix(pc.fields@, i + 1);
                    }
                    assert((p + 1) * fps == p * fps + fps) by (nonlinear_arith);
                    assert((p + 1) * fps <= np * fps) by (nonlinear_arith)
                        requires
                            p + 1 <= np,
                    ;
                    assert(start + np * fps > dlen);
                }
                return Err(PcdError::UnexpectedEof);
            }
            let ghost pre = *pc;
            let mut row = crate::fielddata::zero_vec(rs);
            crate::fielddata::copy_bytes(&mut row, 0, data, pos, rs);
            proof {
                assert(row@ =~= data@.subrange(pos as int, pos + rs));
            }
            set_field_row(pc, i, p, row.as_slice());
            proof {
                assert(pc.fields@.take(i + 1).drop_last() =~= pc.fields@.take(i as int));
                assert(pc.fields@.take(i + 1).last() == pc.fields@[i as int]);
                assert forall|i3: int|
                    0 <= i3 < pc.fields@.len() implies (#[trigger] pc.fields@[i3]).data.row_size_spec()
                    == (#[trigger] pre.fields@[i3]).data.row_size_spec() by {
                    if i3 != i as int {
                        assert(pc.fields@[i3] == pre.fields@[i3]);
                    }
                }
                lemma_fields_point_size_congruent(pre.fields@, pc.fields@);
                assert forall|i3: int|
                    0 <= i3 < pc.fields@.take(i as int).len() implies (#[trigger] pc.fields@.take(
                    i as int,
                )[i3]).data.row_size_spec() == (#[trigger] pre.fields@.take(
                    i as int,
                )[i3]).data.row_size_spec() by {
                    assert(pc.fields@.take(i as int)[i3] == pc.fields@[i3]);
                    assert(pre.fields@.take(i as int)[i3] == pre.fields@[i3]);
                    assert(pc.fields@[i3] == pre.fields@[i3]);
                }
                lemma_fields_point_size_congruent(
                    pre.fields@.take(i as int),
                    pc.fields@.take(i as int),
                );
                assert forall|i3: int|
                    0 <= i3 < pc.fields@.take(i as int).len() implies (#[trigger] pre.fields@.take(
                    i as int,
                )[i3]).data.row_spec(p as int) == (#[trigger] pc.fields@.take(
                    i as int,
                )[i3]).data.row_spec(p as int) by {
                    assert(pc.fields@.take(i as int)[i3] == pc.fields@[i3]);
                    assert(pre.fields@.take(i as int)[i3] == pre.fields@[i3]);
                    assert(pc.fields@[i3] == pre.fields@[i3]);
                }
                lemma_point_record_congruent(
                    pre.fields@.take(i as int),
                    pc.fields@.take(i as int),
                    p as int,
                );
                assert forall|i3: int, p2: int|
                    0 <= i3 < pc.fields@.len() && 0 <= p2 < p implies #[trigger] pre.fields@[i3].data.row_spec(
                    p2,
                ) == #[trigger] pc.fields@[i3].data.row_spec(p2) by {
                    if i3 == i as int {
                        assert(pc.fields@[i3].data.row_spec(p2) == pre.fields@[i3].data.row_spec(
                            p2,
                        ));
                    } else {
                        assert(pc.fields@[i3] == pre.fields@[i3]);
                    }
                }
                lemma_binary_payload_congruent(pre.fields@, pc.fields@, p as nat);
                assert(point_record(pc.fields@.take(i + 1), p as int) == point_record(
                    pc.fields@.take(i as int),
                    p as int,
                ) + pc.fields@[i as int].data.row_spec(p as int));
                assert(binary_payload(pc.fields@, p as nat) + point_record(
                    pc.fields@.take(i as int),
                    p as int,
                ) == data@.subrange(start as int, pos as int));
                assert(pc.fields@[i as int].data.row_spec(p as int) == data@.subrange(
                    pos as int,
                    pos + rs,
                ));
                assert(binary_payload(pc.fields@, p as nat) + point_record(
                    pc.fields@.take(i + 1),
                    p as int,
                ) =~= (binary_payload(pc.fields@, p as nat) + point_record(
                    pc.fields@.take(i as int),
                    p as int,
                )) + pc.fields@[i as int].data.row_spec(p as int));
                assert(data@.subrange(start as int, pos as int) + data@.subrange(
                    pos as int,
                    pos + rs,
                ) =~= data@.subrange(start as int, pos + rs));
                assert(binary_payload(pc.fields@, p as nat) + point_record(
                    pc.fields@.take(i + 1),
                    p as int,
                ) == data@.subrange(start as int, pos + rs));
            }
            pos = pos + rs;
            i += 1;
        }
        proof {
            assert(pc.fields@.take(nf as int) =~= pc.fields@);
            let ghost fps = fields_point_size(old(pc).fields@);
            assert((p + 1) as nat * fps == p as nat * fps + fps) by (nonlinear_arith);
        }
        p += 1;
    }
    Ok(pos)
}

/// Overwrites one row of the field at position `fi`.
fn set_field_row(pc: &mut PointCloud, fi: usize, p: usize, row: &[u8])
    requires
        old(pc).wf(),
        fi < old(pc).fields@.len(),
        p < old(pc).fields@[fi as int].data.npoints_spec(),
        row@.len() == old(pc).fields@[fi as int].data.row_size_spec(),
    ensures
        final(pc).wf(),
        final(pc).metadata == old(pc).metadata,
        final(pc).fields@.len() == old(pc).fields@.len(),
        forall|j: int|
            0 <= j < old(pc).fields@.len() && j != fi ==> #[trigger] final(pc).fields@[j] == old(
                pc,
            ).fields@[j],
        final(pc).fields@[fi as int].name == old(pc).fields@[fi as int].name,
        final(pc).fields@[fi as int].data.dtype_spec() == old(pc).fields@[fi as int].data.dtype_spec(),
        final(pc).fields@[fi as int].data.npoints_spec() == old(pc).fields@[fi as int].data.npoints_spec(),
        final(pc).fields@[fi as int].data.count_spec() == old(pc).fields@[fi as int].data.count_spec(),
        final(pc).fields@[fi as int].data.row_spec(p as int) == row@,
        forall|j: int|
            0 <= j < old(pc).fields@[fi as int].data.npoints_spec() && j != p
                ==> #[trigger] final(pc).fields@[fi as int].data.row_spec(j) == old(
                pc,
            ).fields@[fi as int].data.row_spec(j),
{
    let f = &mut pc.fields[fi];
    f.data.assign_row_from_buffer(p, row);
    proof {
        assert forall|i3: int| 0 <= i3 < pc.fields@.len() implies (#[trigger] pc.fields@[i3]).data.wf() by {
            if i3 != fi as int {
                assert(pc.fields@[i3] == old(pc).fields@[i3]);
            }
        }
    }
}

/// Point sizes agree for field lists whose shapes agree.
pub proof fn lemma_fields_point_size_congruent(a: Seq<Field>, b: Seq<Field>)
    requires
        a.len() == b.len(),
        forall|i: int|
            0 <= i < a.len() ==> (#[trigger] a[i]).data.row_size_spec()
                == (#[trigger] b[i]).data.row_size_spec(),
    ensures
        fields_point_size(a) == fields_point_size(b),
    decreases a.len(),
{
    if a.len() > 0 {
        assert forall|i: int|
            0 <= i < a.drop_last().len() implies (#[trigger] a.drop_last()[i]).data.row_size_spec()
            == (#[trigger] b.drop_last()[i]).data.row_size_spec() by {
            assert(a.drop_last()[i] == a[i]);
            assert(b.drop_last()[i] == b[i]);
        }
        lemma_fields_point_size_congruent(a.drop_last(), b.drop_last());
    }
}

/// Records agree for field lists whose rows agree at `p`.
pub proof fn lemma_point_record_congruent(a: Seq<Field>, b: Seq<Field>, p: int)
    requires
        a.len() == b.len(),
        forall|i: int| 0 <= i < a.len() ==> (#[trigger] a[i]).data.row_spec(p) == (#[trigger] b[i]).data.row_spec(p),
    ensures
        point_record(a, p) == point_record(b, p),
    decreases a.len(),
{
    if a.len() > 0 {
        assert forall|i: int|
            0 <= i < a.drop_last().len() implies (#[trigger] a.drop_last()[i]).data.row_spec(p)
            == (#[trigger] b.drop_last()[i]).data.row_spec(p) by {
            assert(a.drop_last()[i] == a[i]);
            assert(b.drop_last()[i] == b[i]);
        }
        lemma_point_record_congruent(a.drop_last(), b.drop_last(), p);
    }
}

/// Binary payloads agree for field lists whose rows agree below `np`.
pub proof fn lemma_binary_payload_congruent(a: Seq<Field>, b: Seq<Field>, np: nat)
    requires
        a.len() == b.len(),
        forall|i: int, p: int|
            0 <= i < a.len() && 0 <= p < np ==> #[trigger] a[i].data.row_spec(p)
                == #[trigger] b[i].data.row_spec(p),
    ensures
        binary_payload(a, np) == binary_payload(b, np),
    decreases np,
{
    if np > 0 {
        lemma_binary_payload_congruent(a, b, (np - 1) as nat);
        assert forall|i: int|
            0 <= i < a.len() implies (#[trigger] a[i]).data.row_spec(np - 1) == (
        #[trigger] b[i]).data.row_spec(np - 1) by {}
        lemma_point_record_congruent(a, b, np - 1);
    }
}


/// Reads the two 32-bit little-endian lengths at `start` and the
/// compressed bytes they announce, and LZF decompresses them; yields the
/// decompressed buffer and the position after the compressed bytes.
/// Fails with `UnexpectedEof` when the input is short and with
/// `CompressionFailure` when decompression fails.
pub fn read_compressed_buffer(data: &[u8], start: usize) -> (r: Result<(Vec<u8>, usize), PcdError>)
    requires
        start <= data@.len(),
    ensures
        r is Ok <==> ({
            let clen = le_val(data@.subrange(start as int, start + 4));
            let ulen = le_val(data@.subrange(start + 4, start + 8));
            &&& start + 8 <= data@.len()
            &&& start + 8 + clen <= data@.len()
            &&& lzf_decompressed(data@.subrange(start + 8, start + 8 + clen), ulen) is Some
        }),
        r matches Ok(v) ==> {
            &&& {
                let clen = le_val(data@.subrange(start as int, start + 4));
                let ulen = le_val(data@.subrange(start + 4, start + 8));
                &&& v.1 == start + 8 + clen
                &&& v.1 <= data@.len()
                &&& lzf_decompressed(data@.subrange(start + 8, start + 8 + clen), ulen)
                    == Some(v.0@)
            }
        },
        r matches Err(e) ==> (e == PcdError::UnexpectedEof <==> !({
            let clen = le_val(data@.subrange(start as int, start + 4));
            start + 8 <= data@.len() && start + 8 + clen <= data@.len()
        })),
        r matches Err(e) ==> e == PcdError::UnexpectedEof || e == PcdError::CompressionFailure,
{
    let dlen = data.len();
    if dlen - start < 8 {
        return Err(PcdError::UnexpectedEof);
    }
    let clen64 = le_bytes_to_u64(data, start, 4);
    let ulen64 = le_bytes_to_u64(data, start + 4, 4);
    proof {
        vstd::arithmetic::power2::lemma2_to64();
        vstd::arithmetic::power2::lemma2_to64_rest();
        lemma_le_val_bound(data@.subrange(start as int, start + 4));
        lemma_le_val_bound(data@.subrange(start + 4, start + 8));
    }
    let clen: usize = clen64 as usize;
    let ulen: usize = ulen64 as usize;
    if dlen - (start + 8) < clen {
        return Err(PcdError::UnexpectedEof);
    }
    let mut comp = crate::fielddata::zero_vec(clen);
    crate::fielddata::copy_bytes(&mut comp, 0, data, start + 8, clen);
    proof {
        assert(comp@ =~= data@.subrange(start + 8, start + 8 + clen as int));
    }
    match lzf_decompress(comp.as_slice(), ulen) {
        Ok(v) => Ok((v, start + 8 + clen)),
        Err(_) => Err(PcdError::CompressionFailure),
    }
}

/// Reads the compressed payload at `start` in `data` into the cloud's
/// stored fields: two 32-bit little-endian lengths, then that many
/// compressed bytes, LZF decompressed into the column-major buffer.
/// Fails with `UnexpectedEof` when the input is short, with
/// `CompressionFailure` when decompression fails, and with
/// `PayloadLengthMismatch` when the decompressed buffer is not exactly
/// the fields' total size.
pub fn read_compressed_data(pc: &mut PointCloud, data: &[u8], start: usize) -> (r: Result<
    usize,
    PcdError,
>)
    requires
        old(pc).wf(),
        old(pc).points_consistent(),
        start <= data@.len(),
    ensures
        final(pc).wf(),
        final(pc).points_consistent(),
        final(pc).metadata == old(pc).metadata,
        final(pc).fields@.len() == old(pc).fields@.len(),
        forall|i: int|
            0 <= i < final(pc).fields@.len() ==> {
                let f = #[trigger] final(pc).fields@[i];
                let g = old(pc).fields@[i];
                f.name@ == g.name@ && f.data.dtype_spec() == g.data.dtype_spec()
                    && f.data.count_spec() == g.data.count_spec() && f.data.npoints_spec()
                    == g.data.npoints_spec()
            },
        r is Ok <==> ({
            let clen = le_val(data@.subrange(start as int, start + 4));
            let ulen = le_val(data@.subrange(start + 4, start + 8));
            &&& start + 8 <= data@.len()
            &&& start + 8 + clen <= data@.len()
            &&& (lzf_decompressed(data@.subrange(start + 8, start + 8 + clen), ulen)
                matches Some(b) && b.len() == fields_total_size(old(pc).fields@))
        }),
        r matches Ok(end) ==> {
            &&& start + 8 <= data@.len()
            &&& {
                let clen = le_val(data@.subrange(start as int, start + 4));
                let ulen = le_val(data@.subrange(start + 4, start + 8));
                &&& end == start + 8 + clen
                &&& end <= data@.len()
                &&& lzf_decompressed(data@.subrange(start + 8, start + 8 + clen), ulen)
                    matches Some(buf) && column_buffer(final(pc).fields@) == buf
            }
        },
        r matches Err(e) ==> (e == PcdError::UnexpectedEof <==> !({
            let clen = le_val(data@.subrange(start as int, start + 4));
            start + 8 <= data@.len() && start + 8 + clen <= data@.len()
        })),
        r matches Err(e) ==> e == PcdError::UnexpectedEof || e == PcdError::CompressionFailure
            || e == PcdError::PayloadLengthMismatch,
{
    let (buf, end) = match read_compressed_buffer(data, start) {
        Ok(v) => v,
        Err(e) => {
            return Err(e);
        },
    };
    match assign_columns(pc, buf.as_slice()) {
        Ok(()) => Ok(end),
        Err(e) => Err(e),
    }
}

/// Splits a column-major buffer across the stored fields, in field order,
/// handing each its whole column.  Fails with `PayloadLengthMismatch`
/// when the buffer is not exactly the fields' total size, in which case
/// some columns may already be assigned.
pub fn assign_columns(pc: &mut PointCloud, buf: &[u8]) -> (r: Result<(), PcdError>)
    requires
        old(pc).wf(),
        old(pc).points_consistent(),
    ensures
        final(pc).wf(),
        final(pc).points_consistent(),
        final(pc).metadata == old(pc).metadata,
        final(pc).fields@.len() == old(pc).fields@.len(),
        forall|i: int|
            0 <= i < final(pc).fields@.len() ==> {
                let f = #[trigger] final(pc).fields@[i];
                let g = old(pc).fields@[i];
                f.name@ == g.name@ && f.data.dtype_spec() == g.data.dtype_spec()
                    && f.data.count_spec() == g.data.count_spec() && f.data.npoints_spec()
                    == g.data.npoints_spec()
            },
        r is Ok <==> buf@.len() == fields_total_size(old(pc).fields@),
        r matches Ok(()) ==> column_buffer(final(pc).fields@) == buf@,
        r matches Err(e) ==> e == PcdError::PayloadLengthMismatch,
{
    let nf = pc.fields.len();
    let blen = buf.len();
    let mut pos: usize = 0;
    let mut i: usize = 0;
    proof {
        assert(pc.fields@.take(0) =~= Seq::<Field>::empty());
        assert(column_buffer(pc.fields@.take(0)) =~= buf@.subrange(0, 0));
    }
    while i < nf
        invariant
            pc.wf(),
            pc.points_consistent(),
            old(pc).points_consistent(),
            pc.metadata == old(pc).metadata,
            nf == pc.fields@.len(),
            nf == old(pc).fields@.len(),
            blen == buf@.len(),
            i <= nf,
            pos <= blen,
            pos == fields_total_size(old(pc).fields@.take(i as int)),
            forall|a: int| i <= a < nf ==> #[trigger] pc.fields@[a] == old(pc).fields@[a],
            forall|a: int|
                0 <= a < nf ==> (#[trigger] pc.fields@[a]).data.data_spec().len() == old(
                    pc,
                ).fields@[a].data.data_spec().len(),
            forall|i2: int|
                0 <= i2 < nf ==> {
                    let f = #[trigger] pc.fields@[i2];
                    let g = old(pc).fields@[i2];
                    f.name@ == g.name@ && f.data.dtype_spec() == g.data.dtype_spec()
                        && f.data.count_spec() == g.data.count_spec() && f.data.npoints_spec()
                        == g.data.npoints_spec()
                },
            column_buffer(pc.fields@.take(i as int)) == buf@.subrange(0, pos as int),
        decreases nf - i,
    {
        let flen = pc.fields[i].data.len();
        let es = pc.fields[i].data.dtype().get_size();
        proof {
            let fd = pc.fields@[i as int].data;
            assert(fd.npoints_spec() * fd.count_spec() * dtype_size(fd.dtype_spec())
                == fd.npoints_spec() * (fd.count_spec() * dtype_size(fd.dtype_spec())))
                by (nonlinear_arith);
        }
        let csize = flen * es;
        proof {
            assert(csize == pc.fields@[i as int].data.data_spec().len());
            assert(pc.fields@[i as int] == old(pc).fields@[i as int]);
            assert(fields_total_size(old(pc).fields@.take(i + 1)) == pos + csize) by {
                assert(old(pc).fields@.take(i + 1).drop_last() =~= old(pc).fields@.take(i as int));
                assert(old(pc).fields@.take(i + 1).last() == old(pc).fields@[i as int]);
            }
            lemma_fields_total_size_prefix(old(pc).fields@, i + 1);
        }
        if blen - pos < csize {
            return Err(PcdError::PayloadLengthMismatch);
        }
        let mut col = crate::fielddata::zero_vec(csize);
        crate::fielddata::copy_bytes(&mut col, 0, buf, pos, csize);
        proof {
            assert(col@ =~= buf@.subrange(pos as int, pos + csize));
        }
        let ghost pre = *pc;
        let f = &mut pc.fields[i];
        f.data.assign_from_buffer(col.as_slice());
        proof {
            assert forall|i3: int| 0 <= i3 < pc.fields@.len() implies (#[trigger] pc.fields@[i3]).data.wf() by {
                if i3 != i as int {
                    assert(pc.fields@[i3] == pre.fields@[i3]);
                }
            }
            assert(pc.fields@.take(i + 1).drop_last() =~= pc.fields@.take(i as int));
            assert(pc.fields@.take(i + 1).last() == pc.fields@[i as int]);
            assert forall|i3: int|
                0 <= i3 < pc.fields@.take(i as int).len() implies (#[trigger] pc.fields@.take(
                i as int,
            )[i3]).data.data_spec() == (#[trigger] pre.fields@.take(i as int)[i3]).data.data_spec() by {
                assert(pc.fields@.take(i as int)[i3] == pc.fields@[i3]);
                assert(pre.fields@.take(i as int)[i3] == pre.fields@[i3]);
                assert(pc.fields@[i3] == pre.fields@[i3]);
            }
            lemma_column_buffer_congruent(pre.fields@.take(i as int), pc.fields@.take(i as int));
            assert(column_buffer(pc.fields@.take(i + 1)) == column_buffer(pc.fields@.take(i as int))
                + pc.fields@[i as int].data.data_spec());
            assert(buf@.subrange(0, pos as int) + buf@.subrange(pos as int, pos + csize)
                =~= buf@.subrange(0, pos + csize));
            assert(column_buffer(pc.fields@.take(i + 1)) == buf@.subrange(0, pos + csize));
        }
        proof {
            assert forall|a: int| i + 1 <= a < nf implies #[trigger] pc.fields@[a] == old(
            pc,
            ).fields@[a] by {
                assert(pc.fields@[a] == pre.fields@[a]);
            }
            assert forall|a: int|
                0 <= a < nf implies (#[trigger] pc.fields@[a]).data.data_spec().len() == old(
                pc,
            ).fields@[a].data.data_spec().len() by {
                if a != i as int {
                    assert(pc.fields@[a] == pre.fields@[a]);
                }
            }
        }
        pos = pos + csize;
        i += 1;
    }
    proof {
        assert(old(pc).fields@.take(nf as int) =~= old(pc).fields@);
    }
    if pos != blen {
        return Err(PcdError::PayloadLengthMismatch);
    }
    proof {
        assert(pc.fields@.take(nf as int) =~= pc.fields@);
        assert(buf@.subrange(0, blen as int) =~= buf@);
    }
    Ok(())
}

/// Column buffers agree for field lists whose columns agree.
pub proof fn lemma_column_buffer_congruent(a: Seq<Field>, b: Seq<Field>)
    requires
        a.len() == b.len(),
        forall|i: int|
            0 <= i < a.len() ==> (#[trigger] a[i]).data.data_spec() == (
            #[trigger] b[i]).data.data_spec(),
    ensures
        column_buffer(a) == column_buffer(b),
    decreases a.len(),
{
    if a.len() > 0 {
        assert forall|i: int|
            0 <= i < a.drop_last().len() implies (#[trigger] a.drop_last()[i]).data.data_spec() == (
        #[trigger] b.drop_last()[i]).data.data_spec() by {
            assert(a.drop_last()[i] == a[i]);
            assert(b.drop_last()[i] == b[i]);
        }
        lemma_column_buffer_congruent(a.drop_last(), b.drop_last());
    }
}


// ---------------------------------------------------------------------
// ASCII payload
// ---------------------------------------------------------------------

/// The little-endian bytes of element `e` in row `p` of a column.
pub open spec fn elem_at(fd: FieldData, p: int, e: int) -> Seq<u8> {
    fd.row_spec(p).subrange(
        e * dtype_size(fd.dtype_spec()),
        e * dtype_size(fd.dtype_spec()) + dtype_size(fd.dtype_spec()),
    )
}

/// The text of the first `c` elements of row `p` of a column, each token
/// followed by one space.
pub open spec fn field_row_text(fd: FieldData, p: int, c: nat) -> Seq<u8>
    decreases c,
{
    if c == 0 {
        Seq::empty()
    } else {
        field_row_text(fd, p, (c - 1) as nat) + element_token(
            fd.dtype_spec(),
            elem_at(fd, p, c - 1),
        ) + seq![32u8]
    }
}

/// The text of point `p` across the fields, each token followed by one
/// space.
pub open spec fn line_raw(fields: Seq<Field>, p: int) -> Seq<u8>
    decreases fields.len(),
{
    if fields.len() == 0 {
        Seq::empty()
    } else {
        line_raw(fields.drop_last(), p) + field_row_text(
            fields.last().data,
            p,
            fields.last().data.count_spec(),
        )
    }
}

/// One point's ASCII line: the tokens separated by single spaces, then a
/// newline.
pub open spec fn ascii_line(fields: Seq<Field>, p: int) -> Seq<u8> {
    let raw = line_raw(fields, p);
    (if raw.len() > 0 {
        raw.drop_last()
    } else {
        raw
    }) + seq![10u8]
}

/// The ASCII payload: one line per point, in point order.
pub open spec fn ascii_payload(fields: Seq<Field>, np: nat) -> Seq<u8>
    decreases np,
{
    if np == 0 {
        Seq::empty()
    } else {
        ascii_payload(fields, (np - 1) as nat) + ascii_line(fields, np - 1)
    }
}

/// Writes the ASCII payload of the stored fields: one line per point,
/// the decimal tokens of each field's row in field order, separated by
/// single spaces.
pub fn write_ascii_data(pc: &PointCloud) -> (r: Vec<u8>)
    requires
        pc.wf(),
        pc.points_consistent(),
    ensures
        r@ == ascii_payload(pc.fields@, pc.metadata.npoints as nat),
{
    let np = pc.metadata.npoints;
    let nf = pc.fields.len();
    let mut out: Vec<u8> = Vec::new();
    let mut p: usize = 0;
    while p < np
        invariant
            pc.wf(),
            pc.points_consistent(),
            np == pc.metadata.npoints,
            nf == pc.fields@.len(),
            p <= np,
            out@ == ascii_payload(pc.fields@, p as nat),
        decreases np - p,
    {
        let mut line: Vec<u8> = Vec::new();
        let mut i: usize = 0;
        proof {
            assert(pc.fields@.take(0) =~= Seq::<Field>::empty());
        }
        while i < nf
            invariant
                pc.wf(),
                pc.points_consistent(),
                np == pc.metadata.npoints,
                nf == pc.fields@.len(),
                p < np,
                i <= nf,
                line@ == line_raw(pc.fields@.take(i as int), p as int),
            decreases nf - i,
        {
            let fd = &pc.fields[i].data;
            let row = fd.get_row(p);
            let es = fd.dtype().get_size();
            let cnt = fd.count();
            let mut e: usize = 0;
            while e < cnt
                invariant
                    pc.wf(),
                    pc.points_consistent(),
                    p < np == pc.metadata.npoints,
                    i < nf == pc.fields@.len(),
                    fd == &pc.fields@[i as int].data,
                    es == dtype_size(fd.dtype_spec()),
                    cnt == fd.count_spec(),
                    fd.wf(),
                    fd.npoints_spec() == np,
                    row@ == fd.row_spec(p as int),
                    e <= cnt,
                    line@ == line_raw(pc.fields@.take(i as int), p as int) + field_row_text(
                        pc.fields@[i as int].data,
                        p as int,
                        e as nat,
                    ),
                decreases cnt - e,
            {
                proof {
                    crate::fielddata::lemma_row_in_buffer(fd.npoints_spec(), fd.row_size_spec(), p as nat);
                    crate::fielddata::lemma_row_in_buffer(cnt as nat, es as nat, e as nat);
                }
                let mut elem = crate::fielddata::zero_vec(es);
                crate::fielddata::copy_bytes(&mut elem, 0, row.as_slice(), e * es, es);
                proof {
                    assert(elem@ =~= elem_at(pc.fields@[i as int].data, p as int, e as int));
                }
                let mut tok = format_element(fd.dtype(), elem.as_slice());
                line.append(&mut tok);
                line.push(32);
                proof {
                    assert(line@ =~= line_raw(pc.fields@.take(i as int), p as int)
                        + field_row_text(pc.fields@[i as int].data, p as int, (e + 1) as nat));
                }
                e += 1;
            }
            proof {
                assert(pc.fields@.take(i + 1).drop_last() =~= pc.fields@.take(i as int));
                assert(pc.fields@.take(i + 1).last() == pc.fields@[i as int]);
            }
            i += 1;
        }
        proof {
            assert(pc.fields@.take(nf as int) =~= pc.fields@);
        }
        if line.len() > 0 {
            let _ = line.pop();
            proof {
                assert(line@ =~= line_raw(pc.fields@, p as int).drop_last());
            }
        }
        line.push(10);
        out.append(&mut line);
        proof {
            assert(out@ =~= ascii_payload(pc.fields@, (p + 1) as nat));
        }
        p += 1;
    }
    out
}

/// Whether a byte is ASCII whitespace as the payload tokenizer treats it.
pub open spec fn is_ws(b: u8) -> bool {
    b == 32 || b == 9 || b == 13 || b == 10 || b == 11 || b == 12
}

/// Position of the first non-whitespace byte at or after `from`, or the
/// length.
pub open spec fn skip_ws(s: Seq<u8>, from: int) -> int
    decreases s.len() - from,
{
    if from < 0 || from >= s.len() {
        s.len() as int
    } else if is_ws(s[from]) {
        skip_ws(s, from + 1)
    } else {
        from
    }
}

/// Position just past the token that starts at `from`: the first
/// whitespace byte at or after it, or the length.
pub open spec fn token_end(s: Seq<u8>, from: int) -> int
    decreases s.len() - from,
{
    if from < 0 || from >= s.len() {
        s.len() as int
    } else if !is_ws(s[from]) {
        token_end(s, from + 1)
    } else {
        from
    }
}

/// Start position of the `k`-th whitespace-separated token of `s`.
pub open spec fn token_start(s: Seq<u8>, k: nat) -> int
    decreases k,
{
    if k == 0 {
        skip_ws(s, 0)
    } else {
        skip_ws(s, token_end(s, token_start(s, (k - 1) as nat)))
    }
}

/// The `k`-th whitespace-separated token of `s`.
pub open spec fn kth_token(s: Seq<u8>, k: nat) -> Seq<u8> {
    s.subrange(token_start(s, k), token_end(s, token_start(s, k)))
}

/// Finds the next token at or after `c`: its start and end positions.
fn next_token(line: &[u8], c: usize) -> (r: (usize, usize))
    requires
        c <= line@.len(),
    ensures
        r.0 == skip_ws(line@, c as int),
        r.1 == token_end(line@, r.0 as int),
        c <= r.0 <= r.1 <= line@.len(),
{
    let len = line.len();
    let mut t0: usize = c;
    while t0 < len && (line[t0] == 32 || line[t0] == 9 || line[t0] == 13 || line[t0] == 10
        || line[t0] == 11 || line[t0] == 12)
        invariant
            c <= t0 <= len,
            len == line@.len(),
            skip_ws(line@, c as int) == skip_ws(line@, t0 as int),
        decreases len - t0,
    {
        t0 += 1;
    }
    let mut te: usize = t0;
    while te < len && !(line[te] == 32 || line[te] == 9 || line[te] == 13 || line[te] == 10
        || line[te] == 11 || line[te] == 12)
        invariant
            t0 <= te <= len,
            len == line@.len(),
            token_end(line@, t0 as int) == token_end(line@, te as int),
        decreases len - te,
    {
        te += 1;
    }
    (t0, te)
}


/// How many values the first `i` fields hold per point.
pub open spec fn fields_count_prefix(fields: Seq<Field>, i: int) -> nat
    decreases i,
{
    if i <= 0 {
        0
    } else {
        fields_count_prefix(fields, i - 1) + fields[i - 1].data.count_spec()
    }
}

/// The token of `line` that supplies value `e` of field `i`.
pub open spec fn row_token_at(fields: Seq<Field>, line: Seq<u8>, i: int, e: int) -> Seq<u8> {
    kth_token(line, (fields_count_prefix(fields, i) + e) as nat)
}

/// Whether `line` still has a token for value `e` of field `i`.
pub open spec fn row_token_present(fields: Seq<Field>, line: Seq<u8>, i: int, e: int) -> bool {
    token_start(line, (fields_count_prefix(fields, i) + e) as nat) < line.len()
}

/// Whether `line` holds exactly one token per value of the fields: every
/// value's token exists and nothing follows the last one.
pub open spec fn ascii_row_counts_ok(fields: Seq<Field>, line: Seq<u8>) -> bool {
    &&& forall|i: int, e: int|
        0 <= i < fields.len() && 0 <= e < fields[i].data.count_spec()
            ==> #[trigger] row_token_present(fields, line, i, e)
    &&& token_start(line, fields_count_prefix(fields, fields.len() as int)) == line.len()
}

/// Whether every value's token of `line` parses under its field's dtype.
pub open spec fn ascii_row_values_ok(fields: Seq<Field>, line: Seq<u8>) -> bool {
    forall|i: int, e: int|
        0 <= i < fields.len() && 0 <= e < fields[i].data.count_spec() ==> element_from_token(
            fields[i].data.dtype_spec(),
            #[trigger] row_token_at(fields, line, i, e),
        ) is Some
}

/// Whether `line` is a well-formed ASCII row for the fields.
pub open spec fn ascii_row_ok(fields: Seq<Field>, line: Seq<u8>) -> bool {
    ascii_row_counts_ok(fields, line) && ascii_row_values_ok(fields, line)
}

/// Parses one ASCII line into row `p` of every stored field: the line's
/// whitespace-separated tokens in field order, each field taking as many
/// tokens as its vector width.  Fails with `MalformedValue` when a token
/// does not parse under its field's dtype and with
/// `PayloadLengthMismatch` when the line does not hold exactly the
/// expected number of tokens; other rows are never touched.
pub fn parse_ascii_row(pc: &mut PointCloud, p: usize, line: &[u8]) -> (r: Result<(), PcdError>)
    requires
        old(pc).wf(),
        old(pc).points_consistent(),
        p < old(pc).metadata.npoints,
    ensures
        final(pc).wf(),
        final(pc).points_consistent(),
        final(pc).metadata == old(pc).metadata,
        final(pc).fields@.len() == old(pc).fields@.len(),
        forall|i: int|
            0 <= i < final(pc).fields@.len() ==> {
                let f = #[trigger] final(pc).fields@[i];
                let g = old(pc).fields@[i];
                f.name@ == g.name@ && f.data.dtype_spec() == g.data.dtype_spec()
                    && f.data.count_spec() == g.data.count_spec() && f.data.npoints_spec()
                    == g.data.npoints_spec()
            },
        forall|i: int, j: int|
            0 <= i < final(pc).fields@.len() && 0 <= j < old(pc).metadata.npoints && j != p
                ==> #[trigger] final(pc).fields@[i].data.row_spec(j) == old(
                pc,
            ).fields@[i].data.row_spec(j),
        r is Ok <==> ascii_row_ok(old(pc).fields@, line@),
        r matches Ok(()) ==> {
            &&& forall|i: int, e: int|
                0 <= i < final(pc).fields@.len() && 0 <= e
                    < final(pc).fields@[i].data.count_spec() ==> element_from_token(
                    final(pc).fields@[i].data.dtype_spec(),
                    kth_token(line@, (fields_count_prefix(old(pc).fields@, i) + e) as nat),
                ) == Some(#[trigger] elem_at(final(pc).fields@[i].data, p as int, e))
            &&& token_start(
                line@,
                fields_count_prefix(old(pc).fields@, old(pc).fields@.len() as int),
            ) == line@.len()
        },
        r matches Err(e) ==> (e == PcdError::PayloadLengthMismatch ==> !ascii_row_counts_ok(
            old(pc).fields@,
            line@,
        )),
        r matches Err(e) ==> (e == PcdError::MalformedValue ==> !ascii_row_values_ok(
            old(pc).fields@,
            line@,
        )),
        r matches Err(e) ==> e == PcdError::MalformedValue || e == PcdError::PayloadLengthMismatch,
{
    let nf = pc.fields.len();
    let llen = line.len();
    let mut c: usize = 0;
    let ghost mut k: nat = 0nat;
    let mut i: usize = 0;
    while i < nf
        invariant
            pc.wf(),
            pc.points_consistent(),
            old(pc).points_consistent(),
            pc.metadata == old(pc).metadata,
            p < pc.metadata.npoints,
            nf == pc.fields@.len(),
            nf == old(pc).fields@.len(),
            llen == line@.len(),
            i <= nf,
            c <= llen,
            forall|i2: int|
                0 <= i2 < nf ==> {
                    let f = #[trigger] pc.fields@[i2];
                    let g = old(pc).fields@[i2];
                    f.name@ == g.name@ && f.data.dtype_spec() == g.data.dtype_spec()
                        && f.data.count_spec() == g.data.count_spec() && f.data.npoints_spec()
                        == g.data.npoints_spec()
                },
            forall|i2: int, j: int|
                0 <= i2 < nf && 0 <= j < old(pc).metadata.npoints && j != p
                    ==> #[trigger] pc.fields@[i2].data.row_spec(j) == old(
                    pc,
                ).fields@[i2].data.row_spec(j),
            k == fields_count_prefix(old(pc).fields@, i as int),
            c == (if k == 0 {
                0int
            } else {
                token_end(line@, token_start(line@, (k - 1) as nat))
            }),
            forall|i2: int, e: int|
                0 <= i2 < i && 0 <= e < pc.fields@[i2].data.count_spec() ==> element_from_token(
                    pc.fields@[i2].data.dtype_spec(),
                    kth_token(line@, (fields_count_prefix(old(pc).fields@, i2) + e) as nat),
                ) == Some(#[trigger] elem_at(pc.fields@[i2].data, p as int, e))
                    && row_token_present(old(pc).fields@, line@, i2, e),
        decreases nf - i,
    {
        let dt = pc.fields[i].data.dtype();
        let cnt = pc.fields[i].data.count();
        let es = dt.get_size();
        proof {
            assert forall|i2: int, e2: int|
                0 <= i2 < i && 0 <= e2 < pc.fields@[i2].data.count_spec()
                implies #[trigger] row_token_present(old(pc).fields@, line@, i2, e2) by {
                let w = elem_at(pc.fields@[i2].data, p as int, e2);
            }
        }
        let mut rowbuf: Vec<u8> = Vec::new();
        let mut e: usize = 0;
        while e < cnt
            invariant
                pc.wf(),
                pc.points_consistent(),
                old(pc).points_consistent(),
                pc.metadata == old(pc).metadata,
                p < pc.metadata.npoints,
                nf == old(pc).fields@.len(),
                forall|i2: int|
                    0 <= i2 < nf ==> {
                        let f = #[trigger] pc.fields@[i2];
                        let g = old(pc).fields@[i2];
                        f.name@ == g.name@ && f.data.dtype_spec() == g.data.dtype_spec()
                            && f.data.count_spec() == g.data.count_spec() && f.data.npoints_spec()
                            == g.data.npoints_spec()
                    },
                forall|i2: int, j: int|
                    0 <= i2 < nf && 0 <= j < old(pc).metadata.npoints && j != p
                        ==> #[trigger] pc.fields@[i2].data.row_spec(j) == old(
                        pc,
                    ).fields@[i2].data.row_spec(j),
                i < nf == pc.fields@.len(),
                llen == line@.len(),
                e <= cnt,
                c <= llen,
                dt == pc.fields@[i as int].data.dtype_spec(),
                cnt == pc.fields@[i as int].data.count_spec(),
                es == dtype_size(dt),
                rowbuf@.len() == e * es,
                k == fields_count_prefix(old(pc).fields@, i as int) + e,
                c == (if k == 0 {
                    0int
                } else {
                    token_end(line@, token_start(line@, (k - 1) as nat))
                }),
                forall|e2: int|
                    0 <= e2 < e ==> element_from_token(
                        dt,
                        kth_token(line@, (fields_count_prefix(old(pc).fields@, i as int)
                            + e2) as nat),
                    ) == Some(#[trigger] row_at(rowbuf@, es as nat, e2)),
                forall|e2: int|
                    0 <= e2 < e ==> #[trigger] row_token_present(
                        old(pc).fields@,
                        line@,
                        i as int,
                        e2,
                    ),
                forall|i2: int, e2: int|
                    0 <= i2 < i && 0 <= e2 < pc.fields@[i2].data.count_spec()
                        ==> #[trigger] row_token_present(old(pc).fields@, line@, i2, e2),
            decreases cnt - e,
        {
            let (t0, te) = next_token(line, c);
            proof {
                assert(token_start(line@, k) == t0);
            }
            if t0 == llen {
                proof {
                    assert(!row_token_present(old(pc).fields@, line@, i as int, e as int));
                    assert(!ascii_row_counts_ok(old(pc).fields@, line@));
                }
                return Err(PcdError::PayloadLengthMismatch);
            }
            proof {
                assert(row_token_present(old(pc).fields@, line@, i as int, e as int));
            }
            let mut tok = crate::fielddata::zero_vec(te - t0);
            crate::fielddata::copy_bytes(&mut tok, 0, line, t0, te - t0);
            proof {
                assert(tok@ =~= line@.subrange(t0 as int, te as int));
                assert(tok@ =~= kth_token(line@, k));
            }
            let mut elem = match parse_element(dt, tok.as_slice()) {
                Ok(v) => v,
                Err(er) => {
                    proof {
                        assert(row_token_at(old(pc).fields@, line@, i as int, e as int) == tok@);
                        assert(!ascii_row_values_ok(old(pc).fields@, line@));
                    }
                    return Err(er);
                },
            };
            let ghost pre_rowbuf = rowbuf@;
            rowbuf.append(&mut elem);
            proof {
                assert(rowbuf@.len() == (e + 1) * es) by (nonlinear_arith)
                    requires
                        rowbuf@.len() == e * es + es,
                ;
                assert forall|e2: int| 0 <= e2 < e + 1 implies element_from_token(
                    dt,
                    kth_token(line@, (fields_count_prefix(old(pc).fields@, i as int) + e2) as nat),
                ) == Some(#[trigger] row_at(rowbuf@, es as nat, e2)) by {
                    crate::fielddata::lemma_row_in_buffer((e + 1) as nat, es as nat, e2 as nat);
                    if e2 < e {
                        crate::fielddata::lemma_rows_disjoint(e2, e as int, es as nat);
                        assert(row_at(rowbuf@, es as nat, e2) =~= row_at(pre_rowbuf, es as nat, e2));
                    } else {
                        assert(row_at(rowbuf@, es as nat, e2) =~= suffix_from(rowbuf@, pre_rowbuf.len() as int));
                    }
                }
            }
            c = te;
            proof {
                k = k + 1;
            }
            e += 1;
        }
        let ghost pre = *pc;
        proof {
            assert(rowbuf@.len() == pc.fields@[i as int].data.row_size_spec()) by (nonlinear_arith)
                requires
                    rowbuf@.len() == cnt * es,
                    pc.fields@[i as int].data.row_size_spec() == cnt * es,
            ;
        }
        set_field_row(pc, i, p, rowbuf.as_slice());
        proof {
            assert forall|i2: int, e2: int|
                0 <= i2 < i + 1 && 0 <= e2 < pc.fields@[i2].data.count_spec() implies
                element_from_token(
                pc.fields@[i2].data.dtype_spec(),
                kth_token(line@, (fields_count_prefix(old(pc).fields@, i2) + e2) as nat),
            ) == Some(#[trigger] elem_at(pc.fields@[i2].data, p as int, e2)) by {
                if i2 < i as int {
                    assert(pc.fields@[i2] == pre.fields@[i2]);
                } else {
                    assert(pc.fields@[i2].data.row_spec(p as int) == rowbuf@);
                    assert(elem_at(pc.fields@[i2].data, p as int, e2) =~= row_at(
                        rowbuf@,
                        es as nat,
                        e2,
                    ));
                }
            }
        }
        i += 1;
    }
    let (t0, _te) = next_token(line, c);
    proof {
        assert(token_start(line@, k) == t0);
    }
    if t0 != llen {
        proof {
            assert(!ascii_row_counts_ok(old(pc).fields@, line@));
        }
        return Err(PcdError::PayloadLengthMismatch);
    }
    proof {
        assert forall|i2: int, e2: int|
            0 <= i2 < old(pc).fields@.len() && 0 <= e2 < old(pc).fields@[i2].data.count_spec()
            implies #[trigger] row_token_present(old(pc).fields@, line@, i2, e2) by {
            assert(pc.fields@[i2].data.count_spec() == old(pc).fields@[i2].data.count_spec());
            let w = elem_at(pc.fields@[i2].data, p as int, e2);
        }
        assert forall|i2: int, e2: int|
            0 <= i2 < old(pc).fields@.len() && 0 <= e2 < old(pc).fields@[i2].data.count_spec()
            implies element_from_token(
            old(pc).fields@[i2].data.dtype_spec(),
            #[trigger] row_token_at(old(pc).fields@, line@, i2, e2),
        ) is Some by {
            assert(pc.fields@[i2].data.count_spec() == old(pc).fields@[i2].data.count_spec());
            assert(pc.fields@[i2].data.dtype_spec() == old(pc).fields@[i2].data.dtype_spec());
            let w = elem_at(pc.fields@[i2].data, p as int, e2);
        }
        assert(ascii_row_ok(old(pc).fields@, line@));
    }
    Ok(())
}

/// The bytes of `s` from position `from` on.
pub open spec fn suffix_from(s: Seq<u8>, from: int) -> Seq<u8> {
    s.subrange(from, s.len() as int)
}


/// Reads exactly `size` bytes at `start`; fails with `UnexpectedEof` when
/// fewer remain.
pub fn read_exact_chunk(data: &[u8], start: usize, size: usize) -> (r: Result<Vec<u8>, PcdError>)
    requires
        start <= data@.len(),
    ensures
        r is Ok <==> start + size <= data@.len(),
        r matches Ok(v) ==> v@ == data@.subrange(start as int, start + size),
        r matches Err(e) ==> e == PcdError::UnexpectedEof,
{
    let dlen = data.len();
    if dlen - start < size {
        return Err(PcdError::UnexpectedEof);
    }
    let mut out = crate::fielddata::zero_vec(size);
    crate::fielddata::copy_bytes(&mut out, 0, data, start, size);
    proof {
        assert(out@ =~= data@.subrange(start as int, start + size));
    }
    Ok(out)
}


/// Position of the first newline at or after `from`, or the length.
pub open spec fn line_end(s: Seq<u8>, from: int) -> int
    decreases s.len() - from,
{
    if from < 0 || from >= s.len() {
        s.len() as int
    } else if s[from] == 10 {
        from
    } else {
        line_end(s, from + 1)
    }
}

/// First non-blank position in `[from, to)`, or `to`; a newline never
/// occurs inside the range this is used on.
pub open spec fn skip_blank(s: Seq<u8>, from: int, to: int) -> int
    decreases to - from,
{
    if from < 0 || from >= to {
        to
    } else if s[from] == 32 || s[from] == 9 || s[from] == 13 || s[from] == 11 || s[from] == 12 {
        skip_blank(s, from + 1, to)
    } else {
        from
    }
}

/// The first payload-relevant line at or after `from`: lines that are
/// blank or whose first non-blank byte opens a comment are skipped.
/// Yields the line's start, its end, and the position after its newline.
pub open spec fn next_content_line(s: Seq<u8>, from: int) -> Option<(int, int, int)>
    decreases s.len() - from,
{
    if from < 0 || from >= s.len() {
        None
    } else {
        let le = line_end(s, from);
        let next = if le < s.len() {
            le + 1
        } else {
            le
        };
        let t = skip_blank(s, from, le);
        if t < le && s[t] != 35 {
            Some((from, le, next))
        } else if next == le || le < from {
            // the second disjunct never holds; it bounds the recursion
            None
        } else {
            next_content_line(s, next)
        }
    }
}

/// Finds the next payload-relevant line at or after `start`: skips lines
/// that are blank or whose first non-blank byte starts a comment, and
/// returns the line's bounds and the position after its newline.  Fails
/// with `UnexpectedEof` when no such line remains.
pub fn read_nonempty_line(data: &[u8], start: usize) -> (r: Result<(usize, usize, usize), PcdError>)
    requires
        start <= data@.len(),
    ensures
        r is Ok <==> next_content_line(data@, start as int) is Some,
        r matches Ok(v) ==> Some((v.0 as int, v.1 as int, v.2 as int)) == next_content_line(
            data@,
            start as int,
        ),
        r matches Ok(v) ==> {
            let (ls, le, next) = v;
            &&& start <= ls <= le <= data@.len()
            &&& le <= next <= data@.len()
            &&& (forall|k: int| ls <= k < le ==> data@[k] != 10)
            &&& skip_ws(data@, ls as int) < le
            &&& data@[skip_ws(data@, ls as int)] != 35
        },
        r matches Err(e) ==> e == PcdError::UnexpectedEof,
{
    let dlen = data.len();
    let mut ls: usize = start;
    while ls < dlen
        invariant
            start <= ls <= dlen,
            dlen == data@.len(),
            next_content_line(data@, start as int) == next_content_line(data@, ls as int),
        decreases dlen - ls,
    {
        let mut le: usize = ls;
        while le < dlen && data[le] != 10
            invariant
                ls <= le <= dlen,
                dlen == data@.len(),
                forall|k: int| ls <= k < le ==> data@[k] != 10,
                line_end(data@, ls as int) == line_end(data@, le as int),
            decreases dlen - le,
        {
            le += 1;
        }
        proof {
            assert(line_end(data@, ls as int) == le);
        }
        let next: usize = if le < dlen {
            le + 1
        } else {
            le
        };
        let mut t: usize = ls;
        while t < le && (data[t] == 32 || data[t] == 9 || data[t] == 13 || data[t] == 11
            || data[t] == 12)
            invariant
                ls <= t <= le <= dlen,
                dlen == data@.len(),
                forall|k: int| ls <= k < le ==> data@[k] != 10,
                skip_ws(data@, ls as int) == skip_ws(data@, t as int),
                skip_blank(data@, ls as int, le as int) == skip_blank(data@, t as int, le as int),
            decreases le - t,
        {
            t += 1;
        }
        proof {
            assert(skip_blank(data@, ls as int, le as int) == t);
        }
        if t < le && data[t] != 35 {
            proof {
                assert(skip_ws(data@, ls as int) == t);
            }
            return Ok((ls, le, next));
        }
        if next == le {
            return Err(PcdError::UnexpectedEof);
        }
        ls = next;
    }
    Err(PcdError::UnexpectedEof)
}


/// The `p`-th payload-relevant line at or after `from`.
pub open spec fn content_line_at(s: Seq<u8>, from: int, p: int) -> Option<(int, int, int)>
    decreases p,
{
    if p <= 0 {
        next_content_line(s, from)
    } else {
        match next_content_line(s, from) {
            Some(v) => content_line_at(s, v.2, p - 1),
            None => None,
        }
    }
}

/// Stepping the line index once advances the cursor past one line.
pub proof fn lemma_content_line_step(s: Seq<u8>, from: int, p: int)
    requires
        p >= 1,
        content_line_at(s, from, p - 1) is Some,
    ensures
        content_line_at(s, from, p) == next_content_line(
            s,
            content_line_at(s, from, p - 1).unwrap().2,
        ),
    decreases p,
{
    if p == 1 {
    } else {
        let v = next_content_line(s, from).unwrap();
        lemma_content_line_step(s, v.2, p - 1);
    }
}

/// Count prefixes agree for field lists whose vector widths agree.
pub proof fn lemma_fields_count_prefix_congruent(a: Seq<Field>, b: Seq<Field>, i: int)
    requires
        a.len() == b.len(),
        forall|k: int|
            0 <= k < a.len() ==> (#[trigger] a[k]).data.count_spec() == (
            #[trigger] b[k]).data.count_spec(),
        i <= a.len(),
    ensures
        fields_count_prefix(a, i) == fields_count_prefix(b, i),
    decreases i,
{
    if i > 0 {
        lemma_fields_count_prefix_congruent(a, b, i - 1);
    }
}

/// The row predicates agree for field lists whose shapes agree.
pub proof fn lemma_ascii_row_ok_congruent(a: Seq<Field>, b: Seq<Field>, line: Seq<u8>)
    requires
        a.len() == b.len(),
        forall|k: int|
            0 <= k < a.len() ==> (#[trigger] a[k]).data.count_spec() == (
            #[trigger] b[k]).data.count_spec() && a[k].data.dtype_spec() == b[k].data.dtype_spec(),
    ensures
        ascii_row_ok(a, line) == ascii_row_ok(b, line),
{
    assert forall|i: int| 0 <= i <= a.len() implies #[trigger] fields_count_prefix(a, i)
        == fields_count_prefix(b, i) by {
        lemma_fields_count_prefix_congruent(a, b, i);
    }
    assert forall|i: int, e: int|
        0 <= i < a.len() && 0 <= e < a[i].data.count_spec() implies (#[trigger] row_token_present(
        a,
        line,
        i,
        e,
    ) == row_token_present(b, line, i, e)) && (#[trigger] row_token_at(a, line, i, e)
        == row_token_at(b, line, i, e)) by {
        let x = a[i];
        let y = b[i];
    }
    if ascii_row_ok(a, line) {
        assert(ascii_row_counts_ok(b, line)) by {
            assert forall|i: int, e: int|
                0 <= i < b.len() && 0 <= e < b[i].data.count_spec()
                implies #[trigger] row_token_present(b, line, i, e) by {
                assert(row_token_present(a, line, i, e));
            }
        }
        assert(ascii_row_values_ok(b, line)) by {
            assert forall|i: int, e: int|
                0 <= i < b.len() && 0 <= e < b[i].data.count_spec() implies element_from_token(
                b[i].data.dtype_spec(),
                #[trigger] row_token_at(b, line, i, e),
            ) is Some by {
                assert(element_from_token(a[i].data.dtype_spec(), row_token_at(a, line, i, e))
                    is Some);
            }
        }
    }
    if ascii_row_ok(b, line) {
        assert(ascii_row_counts_ok(a, line)) by {
            assert forall|i: int, e: int|
                0 <= i < a.len() && 0 <= e < a[i].data.count_spec()
                implies #[trigger] row_token_present(a, line, i, e) by {
                assert(row_token_present(b, line, i, e));
            }
        }
        assert(ascii_row_values_ok(a, line)) by {
            assert forall|i: int, e: int|
                0 <= i < a.len() && 0 <= e < a[i].data.count_spec() implies element_from_token(
                a[i].data.dtype_spec(),
                #[trigger] row_token_at(a, line, i, e),
            ) is Some by {
                assert(element_from_token(b[i].data.dtype_spec(), row_token_at(b, line, i, e))
                    is Some);
            }
        }
    }
}

/// Reads the ASCII payload at `start` in `data` into the cloud's stored
/// fields: one non-blank, non-comment line per point, parsed by
/// `parse_ascii_row`.  Succeeds exactly when every point has its line and
/// every line is a well-formed row; fails with `UnexpectedEof` when the
/// lines run out and with that function's errors when a line does not
/// fit the schema.
pub fn read_ascii_data(pc: &mut PointCloud, data: &[u8], start: usize) -> (r: Result<
    usize,
    PcdError,
>)
    requires
        old(pc).wf(),
        old(pc).points_consistent(),
        start <= data@.len(),
    ensures
        final(pc).wf(),
        final(pc).points_consistent(),
        final(pc).metadata == old(pc).metadata,
        final(pc).fields@.len() == old(pc).fields@.len(),
        forall|i: int|
            0 <= i < final(pc).fields@.len() ==> {
                let f = #[trigger] final(pc).fields@[i];
                let g = old(pc).fields@[i];
                f.name@ == g.name@ && f.data.dtype_spec() == g.data.dtype_spec()
                    && f.data.count_spec() == g.data.count_spec() && f.data.npoints_spec()
                    == g.data.npoints_spec()
            },
        r is Ok <==> (forall|p: int|
            0 <= p < old(pc).metadata.npoints ==> ((#[trigger] content_line_at(
                data@,
                start as int,
                p,
            )) matches Some(l) && ascii_row_ok(old(pc).fields@, data@.subrange(l.0, l.1)))),
        r matches Ok(end) ==> {
            &&& end <= data@.len()
            &&& (old(pc).metadata.npoints == 0 ==> end == start)
            &&& (old(pc).metadata.npoints >= 1 ==> (content_line_at(
                data@,
                start as int,
                old(pc).metadata.npoints - 1,
            ) matches Some(l) && end == l.2))
            &&& forall|i: int, p: int, e: int|
                0 <= i < final(pc).fields@.len() && 0 <= p < old(pc).metadata.npoints && 0 <= e
                    < final(pc).fields@[i].data.count_spec() ==> (content_line_at(
                    data@,
                    start as int,
                    p,
                ) matches Some(l) && element_from_token(
                    final(pc).fields@[i].data.dtype_spec(),
                    row_token_at(old(pc).fields@, data@.subrange(l.0, l.1), i, e),
                ) == Some(#[trigger] elem_at(final(pc).fields@[i].data, p, e)))
        },
        r matches Err(e) ==> e == PcdError::UnexpectedEof || e == PcdError::MalformedValue || e
            == PcdError::PayloadLengthMismatch,
{
    let np = pc.metadata.npoints;
    let mut pos: usize = start;
    let mut p: usize = 0;
    while p < np
        invariant
            pc.wf(),
            pc.points_consistent(),
            old(pc).points_consistent(),
            pc.metadata == old(pc).metadata,
            np == pc.metadata.npoints,
            pc.fields@.len() == old(pc).fields@.len(),
            p <= np,
            start <= data@.len(),
            pos <= data@.len(),
            forall|i: int|
                0 <= i < pc.fields@.len() ==> {
                    let f = #[trigger] pc.fields@[i];
                    let g = old(pc).fields@[i];
                    f.name@ == g.name@ && f.data.dtype_spec() == g.data.dtype_spec()
                        && f.data.count_spec() == g.data.count_spec() && f.data.npoints_spec()
                        == g.data.npoints_spec()
                },
            p == 0 ==> pos == start,
            p >= 1 ==> (content_line_at(data@, start as int, p - 1) matches Some(l) && l.2 == pos),
            forall|p2: int|
                0 <= p2 < p ==> ((#[trigger] content_line_at(data@, start as int, p2))
                    matches Some(l2) && ascii_row_ok(
                    old(pc).fields@,
                    data@.subrange(l2.0, l2.1),
                )),
            forall|i: int, p2: int, e: int|
                0 <= i < pc.fields@.len() && 0 <= p2 < p && 0 <= e
                    < pc.fields@[i].data.count_spec() ==> (content_line_at(
                    data@,
                    start as int,
                    p2,
                ) matches Some(l2) && element_from_token(
                    pc.fields@[i].data.dtype_spec(),
                    row_token_at(old(pc).fields@, data@.subrange(l2.0, l2.1), i, e),
                ) == Some(#[trigger] elem_at(pc.fields@[i].data, p2, e))),
        decreases np - p,
    {
        proof {
            if p >= 1 {
                lemma_content_line_step(data@, start as int, p as int);
            }
        }
        let (ls, le, next) = match read_nonempty_line(data, pos) {
            Ok(v) => v,
            Err(e) => {
                proof {
                    assert(content_line_at(data@, start as int, p as int) is None);
                }
                return Err(e);
            },
        };
        proof {
            assert(content_line_at(data@, start as int, p as int) == Some(
                (ls as int, le as int, next as int),
            ));
        }
        let mut line = crate::fielddata::zero_vec(le - ls);
        crate::fielddata::copy_bytes(&mut line, 0, data, ls, le - ls);
        proof {
            assert(line@ =~= data@.subrange(ls as int, le as int));
        }
        let ghost pre = *pc;
        match parse_ascii_row(pc, p, line.as_slice()) {
            Ok(()) => {},
            Err(e) => {
                proof {
                    lemma_ascii_row_ok_congruent(pre.fields@, old(pc).fields@, line@);
                    assert(!ascii_row_ok(old(pc).fields@, data@.subrange(ls as int, le as int)));
                }
                return Err(e);
            },
        }
        proof {
            lemma_ascii_row_ok_congruent(pre.fields@, old(pc).fields@, line@);
            assert forall|i: int, p2: int, e: int|
                0 <= i < pc.fields@.len() && 0 <= p2 < p + 1 && 0 <= e
                    < pc.fields@[i].data.count_spec() implies (content_line_at(
                data@,
                start as int,
                p2,
            ) matches Some(l2) && element_from_token(
                pc.fields@[i].data.dtype_spec(),
                row_token_at(old(pc).fields@, data@.subrange(l2.0, l2.1), i, e),
            ) == Some(#[trigger] elem_at(pc.fields@[i].data, p2, e))) by {
                if p2 < p as int {
                    assert(pc.fields@[i].data.row_spec(p2) == pre.fields@[i].data.row_spec(p2));
                    assert(elem_at(pc.fields@[i].data, p2, e) == elem_at(
                        pre.fields@[i].data,
                        p2,
                        e,
                    ));
                    let w = elem_at(pre.fields@[i].data, p2, e);
                } else {
                    assert(fields_count_prefix(pre.fields@, i) == fields_count_prefix(
                        old(pc).fields@,
                        i,
                    )) by {
                        lemma_fields_count_prefix_congruent(pre.fields@, old(pc).fields@, i);
                    }
                    assert(element_from_token(
                        pc.fields@[i].data.dtype_spec(),
                        kth_token(line@, (fields_count_prefix(pre.fields@, i) + e) as nat),
                    ) == Some(elem_at(pc.fields@[i].data, p as int, e)));
                }
            }
        }
        pos = next;
        p += 1;
    }
    proof {
        assert forall|p2: int|
            0 <= p2 < old(pc).metadata.npoints implies ((#[trigger] content_line_at(
            data@,
            start as int,
            p2,
        )) matches Some(l2) && ascii_row_ok(old(pc).fields@, data@.subrange(l2.0, l2.1))) by {}
    }
    Ok(pos)
}


/// The category byte of a dtype: 'U', 'I' or 'F'.
pub open spec fn cat_byte(d: Dtype) -> u8 {
    match d {
        Dtype::U8 | Dtype::U16 | Dtype::U32 | Dtype::U64 => 85,
        Dtype::I8 | Dtype::I16 | Dtype::I32 | Dtype::I64 => 73,
        Dtype::F32 | Dtype::F64 => 70,
    }
}

/// The names of the schema entries, each preceded by one space.
pub open spec fn spaced_names(metas: Seq<FieldMeta>) -> Seq<u8>
    decreases metas.len(),
{
    if metas.len() == 0 {
        Seq::empty()
    } else {
        spaced_names(metas.drop_last()) + seq![32u8] + encode_utf8(metas.last().name@)
    }
}

/// The element sizes of the schema entries, each preceded by one space.
pub open spec fn spaced_sizes(metas: Seq<FieldMeta>) -> Seq<u8>
    decreases metas.len(),
{
    if metas.len() == 0 {
        Seq::empty()
    } else {
        spaced_sizes(metas.drop_last()) + seq![32u8] + dec_digits(dtype_size(metas.last().dtype))
    }
}

/// The category letters of the schema entries, each preceded by one space.
pub open spec fn spaced_types(metas: Seq<FieldMeta>) -> Seq<u8>
    decreases metas.len(),
{
    if metas.len() == 0 {
        Seq::empty()
    } else {
        spaced_types(metas.drop_last()) + seq![32u8, cat_byte(metas.last().dtype)]
    }
}

/// The vector widths of the schema entries, each preceded by one space.
pub open spec fn spaced_counts(metas: Seq<FieldMeta>) -> Seq<u8>
    decreases metas.len(),
{
    if metas.len() == 0 {
        Seq::empty()
    } else {
        spaced_counts(metas.drop_last()) + seq![32u8] + dec_digits(metas.last().count as nat)
    }
}

/// The VERSION line of the header.
pub open spec fn version_line(md: Metadata) -> Seq<u8> {
    seq![86u8, 69u8, 82u8, 83u8, 73u8, 79u8, 78u8, 32u8] + encode_utf8(md.version@) + seq![10u8]
}

/// The FIELDS line of the header.
pub open spec fn fields_line(md: Metadata) -> Seq<u8> {
    seq![70u8, 73u8, 69u8, 76u8, 68u8, 83u8] + spaced_names(md.fields.0@) + seq![10u8]
}

/// The SIZE line of the header.
pub open spec fn size_line(md: Metadata) -> Seq<u8> {
    seq![83u8, 73u8, 90u8, 69u8] + spaced_sizes(md.fields.0@) + seq![10u8]
}

/// The TYPE line of the header.
pub open spec fn type_line(md: Metadata) -> Seq<u8> {
    seq![84u8, 89u8, 80u8, 69u8] + spaced_types(md.fields.0@) + seq![10u8]
}

/// The COUNT line of the header.
pub open spec fn count_line(md: Metadata) -> Seq<u8> {
    seq![67u8, 79u8, 85u8, 78u8, 84u8] + spaced_counts(md.fields.0@) + seq![10u8]
}

/// The WIDTH line of the header.
pub open spec fn width_line(md: Metadata) -> Seq<u8> {
    seq![87u8, 73u8, 68u8, 84u8, 72u8, 32u8] + dec_digits(md.width as nat) + seq![10u8]
}

/// The HEIGHT line of the header.
pub open spec fn height_line(md: Metadata) -> Seq<u8> {
    seq![72u8, 69u8, 73u8, 71u8, 72u8, 84u8, 32u8] + dec_digits(md.height as nat) + seq![10u8]
}

/// The VIEWPOINT line of the header: the seven pose components as
/// fixed-six-digit decimals.
pub open spec fn viewpoint_line(md: Metadata) -> Seq<u8> {
    seq![86u8, 73u8, 69u8, 87u8, 80u8, 79u8, 73u8, 78u8, 84u8, 32u8] + float32_fixed6(
        md.viewpoint.tx,
    ) + seq![32u8] + float32_fixed6(md.viewpoint.ty) + seq![32u8] + float32_fixed6(md.viewpoint.tz)
        + seq![32u8] + float32_fixed6(md.viewpoint.qw) + seq![32u8] + float32_fixed6(
        md.viewpoint.qx,
    ) + seq![32u8] + float32_fixed6(md.viewpoint.qy) + seq![32u8] + float32_fixed6(md.viewpoint.qz)
        + seq![10u8]
}

/// The POINTS line of the header.
pub open spec fn points_line(md: Metadata) -> Seq<u8> {
    seq![80u8, 79u8, 73u8, 78u8, 84u8, 83u8, 32u8] + dec_digits(md.npoints as nat) + seq![10u8]
}

/// The DATA line of the header.
pub open spec fn data_line(md: Metadata) -> Seq<u8> {
    seq![68u8, 65u8, 84u8, 65u8, 32u8] + encode_utf8(crate::metadata::encoding_name(md.encoding))
        + seq![10u8]
}

/// The full header text of a metadata record: the fixed key order
/// VERSION, FIELDS, SIZE, TYPE, COUNT, WIDTH, HEIGHT, VIEWPOINT, POINTS,
/// DATA, one line each.
pub open spec fn header_text(md: Metadata) -> Seq<u8> {
    version_line(md) + fields_line(md) + size_line(md) + type_line(md) + count_line(md)
        + width_line(md) + height_line(md) + viewpoint_line(md) + points_line(md) + data_line(md)
}

/// Appends the FIELDS line.
fn push_fields_line(out: &mut Vec<u8>, md: &Metadata)
    ensures
        final(out)@ == old(out)@ + fields_line(*md),
{
    out.push(70);
    out.push(73);
    out.push(69);
    out.push(76);
    out.push(68);
    out.push(83);
    let ghost pre = out@;
    let nf = md.fields.len();
    let mut i: usize = 0;
    proof {
        assert(md.fields.0@.take(0) =~= Seq::<FieldMeta>::empty());
    }
    while i < nf
        invariant
            nf == md.fields.0@.len(),
            i <= nf,
            out@ == pre + spaced_names(md.fields.0@.take(i as int)),
        decreases nf - i,
    {
        out.push(32);
        let mut nb = vstd::slice::slice_to_vec(md.fields.get(i).name.as_str().as_bytes());
        out.append(&mut nb);
        proof {
            assert(md.fields.0@.take(i + 1).drop_last() =~= md.fields.0@.take(i as int));
            assert(md.fields.0@.take(i + 1).last() == md.fields.0@[i as int]);
            assert(out@ =~= pre + spaced_names(md.fields.0@.take(i + 1)));
        }
        i += 1;
    }
    out.push(10);
    proof {
        assert(md.fields.0@.take(nf as int) =~= md.fields.0@);
        assert(out@ =~= old(out)@ + fields_line(*md));
    }
}

/// Appends the SIZE line.
fn push_size_line(out: &mut Vec<u8>, md: &Metadata)
    ensures
        final(out)@ == old(out)@ + size_line(*md),
{
    out.push(83);
    out.push(73);
    out.push(90);
    out.push(69);
    let ghost pre = out@;
    let nf = md.fields.len();
    let mut i: usize = 0;
    proof {
        assert(md.fields.0@.take(0) =~= Seq::<FieldMeta>::empty());
    }
    while i < nf
        invariant
            nf == md.fields.0@.len(),
            i <= nf,
            out@ == pre + spaced_sizes(md.fields.0@.take(i as int)),
        decreases nf - i,
    {
        out.push(32);
        push_dec_u64(out, md.fields.get(i).dtype.get_size() as u64);
        proof {
            assert(md.fields.0@.take(i + 1).drop_last() =~= md.fields.0@.take(i as int));
            assert(md.fields.0@.take(i + 1).last() == md.fields.0@[i as int]);
            assert(out@ =~= pre + spaced_sizes(md.fields.0@.take(i + 1)));
        }
        i += 1;
    }
    out.push(10);
    proof {
        assert(md.fields.0@.take(nf as int) =~= md.fields.0@);
        assert(out@ =~= old(out)@ + size_line(*md));
    }
}

/// Appends the TYPE line.
fn push_type_line(out: &mut Vec<u8>, md: &Metadata)
    ensures
        final(out)@ == old(out)@ + type_line(*md),
{
    out.push(84);
    out.push(89);
    out.push(80);
    out.push(69);
    let ghost pre = out@;
    let nf = md.fields.len();
    let mut i: usize = 0;
    proof {
        assert(md.fields.0@.take(0) =~= Seq::<FieldMeta>::empty());
    }
    while i < nf
        invariant
            nf == md.fields.0@.len(),
            i <= nf,
            out@ == pre + spaced_types(md.fields.0@.take(i as int)),
        decreases nf - i,
    {
        out.push(32);
        let cb: u8 = match md.fields.get(i).dtype {
            Dtype::U8 | Dtype::U16 | Dtype::U32 | Dtype::U64 => 85,
            Dtype::I8 | Dtype::I16 | Dtype::I32 | Dtype::I64 => 73,
            Dtype::F32 | Dtype::F64 => 70,
        };
        out.push(cb);
        proof {
            assert(md.fields.0@.take(i + 1).drop_last() =~= md.fields.0@.take(i as int));
            assert(md.fields.0@.take(i + 1).last() == md.fields.0@[i as int]);
            assert(out@ =~= pre + spaced_types(md.fields.0@.take(i + 1)));
        }
        i += 1;
    }
    out.push(10);
    proof {
        assert(md.fields.0@.take(nf as int) =~= md.fields.0@);
        assert(out@ =~= old(out)@ + type_line(*md));
    }
}

/// Appends the COUNT line.
fn push_count_line(out: &mut Vec<u8>, md: &Metadata)
    ensures
        final(out)@ == old(out)@ + count_line(*md),
{
    out.push(67);
    out.push(79);
    out.push(85);
    out.push(78);
    out.push(84);
    let ghost pre = out@;
    let nf = md.fields.len();
    let mut i: usize = 0;
    proof {
        assert(md.fields.0@.take(0) =~= Seq::<FieldMeta>::empty());
    }
    while i < nf
        invariant
            nf == md.fields.0@.len(),
            i <= nf,
            out@ == pre + spaced_counts(md.fields.0@.take(i as int)),
        decreases nf - i,
    {
        out.push(32);
        push_dec_u64(out, md.fields.get(i).count as u64);
        proof {
            assert(md.fields.0@.take(i + 1).drop_last() =~= md.fields.0@.take(i as int));
            assert(md.fields.0@.take(i + 1).last() == md.fields.0@[i as int]);
            assert(out@ =~= pre + spaced_counts(md.fields.0@.take(i + 1)));
        }
        i += 1;
    }
    out.push(10);
    proof {
        assert(md.fields.0@.take(nf as int) =~= md.fields.0@);
        assert(out@ =~= old(out)@ + count_line(*md));
    }
}

/// Appends the VIEWPOINT line.
#[verifier::rlimit(100)]
fn push_viewpoint_line(out: &mut Vec<u8>, md: &Metadata)
    ensures
        final(out)@ == old(out)@ + viewpoint_line(*md),
{
    out.push(86);
    out.push(73);
    out.push(69);
    out.push(87);
    out.push(80);
    out.push(79);
    out.push(73);
    out.push(78);
    out.push(84);
    out.push(32);
    let mut t = format_float32(md.viewpoint.tx);
    out.append(&mut t);
    out.push(32);
    let mut t2 = format_float32(md.viewpoint.ty);
    out.append(&mut t2);
    out.push(32);
    let mut t3 = format_float32(md.viewpoint.tz);
    out.append(&mut t3);
    out.push(32);
    let mut t4 = format_float32(md.viewpoint.qw);
    out.append(&mut t4);
    out.push(32);
    let mut t5 = format_float32(md.viewpoint.qx);
    out.append(&mut t5);
    out.push(32);
    let mut t6 = format_float32(md.viewpoint.qy);
    out.append(&mut t6);
    out.push(32);
    let mut t7 = format_float32(md.viewpoint.qz);
    out.append(&mut t7);
    out.push(10);
    proof {
        assert(out@ =~= old(out)@ + viewpoint_line(*md));
    }
}

/// Appends the VERSION line.
fn push_version_line(out: &mut Vec<u8>, md: &Metadata)
    ensures
        final(out)@ == old(out)@ + version_line(*md),
{
    out.push(86);
    out.push(69);
    out.push(82);
    out.push(83);
    out.push(73);
    out.push(79);
    out.push(78);
    out.push(32);
    let mut vb = vstd::slice::slice_to_vec(md.version.as_str().as_bytes());
    out.append(&mut vb);
    out.push(10);
    proof {
        assert(out@ =~= old(out)@ + version_line(*md));
    }
}

/// Appends the WIDTH, HEIGHT and POINTS lines.
fn push_shape_lines(out: &mut Vec<u8>, md: &Metadata)
    ensures
        final(out)@ == old(out)@ + width_line(*md) + height_line(*md),
{
    out.push(87);
    out.push(73);
    out.push(68);
    out.push(84);
    out.push(72);
    out.push(32);
    push_dec_u64(out, md.width as u64);
    out.push(10);
    let ghost mid = out@;
    proof {
        assert(mid =~= old(out)@ + width_line(*md));
    }
    out.push(72);
    out.push(69);
    out.push(73);
    out.push(71);
    out.push(72);
    out.push(84);
    out.push(32);
    push_dec_u64(out, md.height as u64);
    out.push(10);
    proof {
        assert(out@ =~= mid + height_line(*md));
    }
}

/// Appends the POINTS and DATA lines.
fn push_tail_lines(out: &mut Vec<u8>, md: &Metadata)
    ensures
        final(out)@ == old(out)@ + points_line(*md) + data_line(*md),
{
    out.push(80);
    out.push(79);
    out.push(73);
    out.push(78);
    out.push(84);
    out.push(83);
    out.push(32);
    push_dec_u64(out, md.npoints as u64);
    out.push(10);
    let ghost mid = out@;
    proof {
        assert(mid =~= old(out)@ + points_line(*md));
    }
    out.push(68);
    out.push(65);
    out.push(84);
    out.push(65);
    out.push(32);
    let mut eb = vstd::slice::slice_to_vec(md.encoding.as_str().as_bytes());
    out.append(&mut eb);
    out.push(10);
    proof {
        assert(out@ =~= mid + data_line(*md));
    }
}

/// Writes the PCD header of `md`, as `header_text` describes it.
pub fn write_header(md: &Metadata) -> (r: Vec<u8>)
    ensures
        r@ == header_text(*md),
{
    let mut out: Vec<u8> = Vec::new();
    push_version_line(&mut out, md);
    push_fields_line(&mut out, md);
    push_size_line(&mut out, md);
    push_type_line(&mut out, md);
    push_count_line(&mut out, md);
    push_shape_lines(&mut out, md);
    push_viewpoint_line(&mut out, md);
    push_tail_lines(&mut out, md);
    proof {
        assert(out@ =~= header_text(*md));
    }
    out
}


/// Relies on String::from_utf8: bytes below 128 are valid UTF-8 and
/// decode to one char per byte.
#[verifier::external_body]
pub(crate) fn string_from_ascii(bytes: Vec<u8>) -> (r: String)
    requires
        forall|i: int| 0 <= i < bytes@.len() ==> bytes@[i] < 128,
    ensures
        r@.len() == bytes@.len(),
        forall|i: int| 0 <= i < bytes@.len() ==> r@[i] == bytes@[i] as char,
{
    String::from_utf8(bytes).unwrap_or_default()
}

/// The position just past a token is beyond its start.
pub proof fn lemma_token_end_ge(s: Seq<u8>, from: int)
    requires
        0 <= from <= s.len(),
    ensures
        from <= token_end(s, from) <= s.len(),
    decreases s.len() - from,
{
    if from < s.len() && !is_ws(s[from]) {
        lemma_token_end_ge(s, from + 1);
    }
}

/// The first non-blank position is in range and lands on a non-blank
/// byte when it is inside the string.
pub proof fn lemma_skip_ws_at(s: Seq<u8>, from: int)
    requires
        0 <= from <= s.len(),
    ensures
        from <= skip_ws(s, from) <= s.len(),
        skip_ws(s, from) < s.len() ==> !is_ws(s[skip_ws(s, from)]),
    decreases s.len() - from,
{
    if from < s.len() && is_ws(s[from]) {
        lemma_skip_ws_at(s, from + 1);
    }
}

/// The number of whitespace-separated tokens of `line`: the unique count
/// at which the token starts run off the end.
pub open spec fn num_tokens(line: Seq<u8>) -> nat {
    choose|n: nat|
        token_start(line, n) == line.len() && (forall|k: nat|
            k < n ==> #[trigger] token_start(line, k) < line.len())
}

/// Any two counts at which the token starts run off the end are equal.
pub proof fn lemma_num_tokens_unique(line: Seq<u8>, a: nat, b: nat)
    requires
        token_start(line, a) == line.len(),
        forall|k: nat| k < a ==> #[trigger] token_start(line, k) < line.len(),
        token_start(line, b) == line.len(),
        forall|k: nat| k < b ==> #[trigger] token_start(line, k) < line.len(),
    ensures
        a == b,
{
    if a < b {
        assert(token_start(line, a) < line.len());
    }
    if b < a {
        assert(token_start(line, b) < line.len());
    }
}

/// Splits a line into the spans of its whitespace-separated tokens: span
/// `k` is exactly the `k`-th token, and the count is `num_tokens`.
pub fn tokenize_line(line: &[u8]) -> (r: Vec<(usize, usize)>)
    ensures
        forall|i: int|
            0 <= i < r@.len() ==> {
                let t = #[trigger] r@[i];
                t.0 < t.1 <= line@.len()
            },
        forall|i: int|
            0 <= i < r@.len() ==> (#[trigger] r@[i]).0 == token_start(line@, i as nat)
                && r@[i].1 == token_end(line@, token_start(line@, i as nat)),
        r@.len() == num_tokens(line@),
        token_start(line@, r@.len() as nat) == line@.len(),
{
    let len = line.len();
    let mut out: Vec<(usize, usize)> = Vec::new();
    let mut c: usize = 0;
    while c < len
        invariant
            c <= len,
            len == line@.len(),
            c as int == (if out@.len() == 0 {
                0int
            } else {
                token_end(line@, token_start(line@, (out@.len() - 1) as nat))
            }),
            forall|i: int|
                0 <= i < out@.len() ==> {
                    let t = #[trigger] out@[i];
                    t.0 < t.1 <= line@.len()
                },
            forall|i: int|
                0 <= i < out@.len() ==> (#[trigger] out@[i]).0 == token_start(line@, i as nat)
                    && out@[i].1 == token_end(line@, token_start(line@, i as nat)),
            forall|k: nat| k < out@.len() ==> #[trigger] token_start(line@, k) < line@.len(),
        decreases len - c,
    {
        let (t0, te) = next_token(line, c);
        proof {
            assert(token_start(line@, out@.len() as nat) == t0);
        }
        if t0 == len {
            proof {
                lemma_num_tokens_ok(line@, out@.len() as nat);
            }
            return out;
        }
        proof {
            lemma_skip_ws_at(line@, c as int);
            lemma_token_end_ge(line@, t0 + 1);
            assert(!is_ws(line@[t0 as int]));
            assert(te == token_end(line@, t0 + 1));
            assert(te >= t0 + 1);
        }
        out.push((t0, te));
        c = te;
    }
    proof {
        assert(token_start(line@, out@.len() as nat) == skip_ws(
            line@,
            (if out@.len() == 0 {
                0int
            } else {
                token_end(line@, token_start(line@, (out@.len() - 1) as nat))
            }),
        ));
        assert(token_start(line@, out@.len() as nat) == line@.len());
        lemma_num_tokens_ok(line@, out@.len() as nat);
    }
    out
}

/// A count with the run-off-the-end property is the token count.
pub proof fn lemma_num_tokens_ok(line: Seq<u8>, n: nat)
    requires
        token_start(line, n) == line.len(),
        forall|k: nat| k < n ==> #[trigger] token_start(line, k) < line.len(),
    ensures
        num_tokens(line) == n,
{
    let m = choose|m: nat|
        token_start(line, m) == line.len() && (forall|k: nat|
            k < m ==> #[trigger] token_start(line, k) < line.len());
    assert(token_start(line, n) == line.len() && (forall|k: nat|
        k < n ==> #[trigger] token_start(line, k) < line.len()));
    lemma_num_tokens_unique(line, m, n);
}

/// Whether the bytes of `line` in `[t0, te)` equal `pat`.
pub fn token_eq(line: &[u8], t0: usize, te: usize, pat: &[u8]) -> (r: bool)
    requires
        t0 <= te <= line@.len(),
    ensures
        r == (line@.subrange(t0 as int, te as int) == pat@),
{
    let plen = pat.len();
    if te - t0 != plen {
        proof {
            assert(line@.subrange(t0 as int, te as int).len() != pat@.len());
        }
        return false;
    }
    let mut i: usize = 0;
    while i < plen
        invariant
            i <= plen,
            plen == pat@.len(),
            t0 <= te <= line@.len(),
            te - t0 == plen,
            forall|k: int| 0 <= k < i ==> line@[t0 + k] == pat@[k],
        decreases plen - i,
    {
        if line[t0 + i] != pat[i] {
            proof {
                assert(line@.subrange(t0 as int, te as int)[i as int] != pat@[i as int]);
            }
            return false;
        }
        i += 1;
    }
    proof {
        assert(line@.subrange(t0 as int, te as int) =~= pat@);
    }
    true
}

} // verus!

