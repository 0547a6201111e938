use vstd::prelude::*;
use crate::dtype::{dtype_from_category_size, Dtype};
use crate::error::{HeaderKey, PcdError};
use crate::fielddata::{copy_bytes, zero_vec};
use crate::floattext::float32_of_decimal;
use crate::io::{
    kth_token, next_content_line, num_tokens, read_nonempty_line, string_from_ascii, token_eq,
    tokenize_line,
};
use crate::metadata::{
    encoding_from_name, identity_viewpoint, Encoding, FieldMeta, FieldSchema, Metadata, Viewpoint,
};
use crate::numtext::{all_digits, digits_val, parse_u64_digits};
use crate::dtype::dtype_size;
use crate::io::{
    ascii_row_ok, element_from_token, fields_count_prefix, fields_point_size, fields_total_size,
    row_token_at, row_token_present, token_end, token_start,
};
use crate::pointcloud::Field;

verus! {

// ---------------------------------------------------------------------
// The header grammar, in spec form
// ---------------------------------------------------------------------

/// Whether a token holds only plain ASCII bytes.
pub open spec fn ascii_token_ok(t: Seq<u8>) -> bool {
    forall|i: int| 0 <= i < t.len() ==> t[i] < 128
}

/// The characters of an ASCII token, one per byte.
pub open spec fn token_chars(t: Seq<u8>) -> Seq<char> {
    Seq::new(t.len(), |i: int| t[i] as char)
}

/// Whether a token is an unsigned decimal that fits the machine.
pub open spec fn usize_token_ok(t: Seq<u8>) -> bool {
    t.len() >= 1 && all_digits(t, 0, t.len() as int) && digits_val(t, 0, t.len() as int)
        <= usize::MAX as nat
}

/// The value of such a token.
pub open spec fn usize_token_val(t: Seq<u8>) -> int {
    digits_val(t, 0, t.len() as int) as int
}

/// Position of the first comment mark in `[from, to)`, or `to`.
pub open spec fn hash_cut(s: Seq<u8>, from: int, to: int) -> int
    decreases to - from,
{
    if from < 0 || from >= to {
        to
    } else if s[from] == 35 {
        from
    } else {
        hash_cut(s, from + 1, to)
    }
}

/// The header values seen so far, one slot per key.
#[verifier::ext_equal]
pub ghost struct HeaderAcc {
    pub version: Option<Seq<char>>,
    pub names: Option<Seq<Seq<char>>>,
    pub sizes: Option<Seq<int>>,
    pub cats: Option<Seq<u8>>,
    pub counts: Option<Seq<int>>,
    pub width: Option<int>,
    pub height: Option<int>,
    pub npoints: Option<int>,
    pub viewpoint: Option<Viewpoint>,
    pub encoding: Option<Encoding>,
}

/// The state before any header line.
pub open spec fn empty_acc() -> HeaderAcc {
    HeaderAcc {
        version: None,
        names: None,
        sizes: None,
        cats: None,
        counts: None,
        width: None,
        height: None,
        npoints: None,
        viewpoint: None,
        encoding: None,
    }
}

/// What one non-blank header line does to the state: dispatch on the
/// keyword, validate the value tokens, and fill the key's slot; the
/// `DATA` line also ends the header.
pub open spec fn apply_header_line(acc: HeaderAcc, line: Seq<u8>) -> Result<
    (HeaderAcc, bool),
    PcdError,
> {
    let n = num_tokens(line) as int;
    let kw = kth_token(line, 0);
    if kw == seq![86u8, 69u8, 82u8, 83u8, 73u8, 79u8, 78u8] {
        if n != 2 || !ascii_token_ok(kth_token(line, 1)) {
            Err(PcdError::MalformedHeaderLine)
        } else {
            Ok((HeaderAcc { version: Some(token_chars(kth_token(line, 1))), ..acc }, false))
        }
    } else if kw == seq![70u8, 73u8, 69u8, 76u8, 68u8, 83u8] {
        if n < 2 || !(forall|k: int| 1 <= k < n ==> ascii_token_ok(#[trigger] kth_token(line, k as nat))) {
            Err(PcdError::MalformedHeaderLine)
        } else {
            Ok(
                (
                    HeaderAcc {
                        names: Some(
                            Seq::new((n - 1) as nat, |j: int| token_chars(kth_token(line, (j + 1) as nat))),
                        ),
                        ..acc
                    },
                    false,
                ),
            )
        }
    } else if kw == seq![83u8, 73u8, 90u8, 69u8] {
        if n < 2 || !(forall|k: int| 1 <= k < n ==> usize_token_ok(#[trigger] kth_token(line, k as nat))) {
            Err(PcdError::MalformedHeaderLine)
        } else {
            Ok(
                (
                    HeaderAcc {
                        sizes: Some(
                            Seq::new((n - 1) as nat, |j: int| usize_token_val(kth_token(line, (j + 1) as nat))),
                        ),
                        ..acc
                    },
                    false,
                ),
            )
        }
    } else if kw == seq![84u8, 89u8, 80u8, 69u8] {
        if n < 2 || !(forall|k: int| 1 <= k < n ==> (#[trigger] kth_token(line, k as nat)).len() == 1) {
            Err(PcdError::MalformedHeaderLine)
        } else {
            Ok(
                (
                    HeaderAcc {
                        cats: Some(Seq::new((n - 1) as nat, |j: int| kth_token(line, (j + 1) as nat)[0])),
                        ..acc
                    },
                    false,
                ),
            )
        }
    } else if kw == seq![67u8, 79u8, 85u8, 78u8, 84u8] {
        if n < 2 || !(forall|k: int|
            1 <= k < n ==> usize_token_ok(#[trigger] kth_token(line, k as nat)) && usize_token_val(
                kth_token(line, k as nat),
            ) >= 1) {
            Err(PcdError::MalformedHeaderLine)
        } else {
            Ok(
                (
                    HeaderAcc {
                        counts: Some(
                            Seq::new((n - 1) as nat, |j: int| usize_token_val(kth_token(line, (j + 1) as nat))),
                        ),
                        ..acc
                    },
                    false,
                ),
            )
        }
    } else if kw == seq![87u8, 73u8, 68u8, 84u8, 72u8] {
        if n != 2 || !usize_token_ok(kth_token(line, 1)) {
            Err(PcdError::MalformedHeaderLine)
        } else {
            Ok((HeaderAcc { width: Some(usize_token_val(kth_token(line, 1))), ..acc }, false))
        }
    } else if kw == seq![72u8, 69u8, 73u8, 71u8, 72u8, 84u8] {
        if n != 2 || !usize_token_ok(kth_token(line, 1)) {
            Err(PcdError::MalformedHeaderLine)
        } else {
            Ok((HeaderAcc { height: Some(usize_token_val(kth_token(line, 1))), ..acc }, false))
        }
    } else if kw == seq![80u8, 79u8, 73u8, 78u8, 84u8, 83u8] {
        if n != 2 || !usize_token_ok(kth_token(line, 1)) {
            Err(PcdError::MalformedHeaderLine)
        } else {
            Ok((HeaderAcc { npoints: Some(usize_token_val(kth_token(line, 1))), ..acc }, false))
        }
    } else if kw == seq![86u8, 73u8, 69u8, 87u8, 80u8, 79u8, 73u8, 78u8, 84u8] {
        if n != 8 || !(forall|k: int|
            1 <= k < 8 ==> float32_of_decimal(#[trigger] kth_token(line, k as nat)) is Some) {
            Err(PcdError::MalformedHeaderLine)
        } else {
            Ok(
                (
                    HeaderAcc {
                        viewpoint: Some(
                            Viewpoint {
                                tx: float32_of_decimal(kth_token(line, 1)).unwrap(),
                                ty: float32_of_decimal(kth_token(line, 2)).unwrap(),
                                tz: float32_of_decimal(kth_token(line, 3)).unwrap(),
                                qw: float32_of_decimal(kth_token(line, 4)).unwrap(),
                                qx: float32_of_decimal(kth_token(line, 5)).unwrap(),
                                qy: float32_of_decimal(kth_token(line, 6)).unwrap(),
                                qz: float32_of_decimal(kth_token(line, 7)).unwrap(),
                            },
                        ),
                        ..acc
                    },
                    false,
                ),
            )
        }
    } else if kw == seq![68u8, 65u8, 84u8, 65u8] {
        if n != 2 {
            Err(PcdError::MalformedHeaderLine)
        } else if kth_token(line, 1) == seq![97u8, 115u8, 99u8, 105u8, 105u8] {
            Ok((HeaderAcc { encoding: Some(Encoding::Ascii), ..acc }, true))
        } else if kth_token(line, 1) == seq![98u8, 105u8, 110u8, 97u8, 114u8, 121u8] {
            Ok((HeaderAcc { encoding: Some(Encoding::Binary), ..acc }, true))
        } else if kth_token(line, 1) == seq![
            98u8, 105u8, 110u8, 97u8, 114u8, 121u8, 95u8, 99u8, 111u8, 109u8, 112u8, 114u8, 101u8,
            115u8, 115u8, 101u8, 100u8,
        ] {
            Ok((HeaderAcc { encoding: Some(Encoding::BinaryCompressed), ..acc }, true))
        } else {
            Err(PcdError::MalformedHeaderLine)
        }
    } else {
        Err(PcdError::MalformedHeaderLine)
    }
}

/// Scans header lines from `pos`: blank and comment lines are skipped,
/// each remaining line updates the state, and the `DATA` line yields the
/// state and the payload start.
pub open spec fn header_scan(s: Seq<u8>, pos: int, acc: HeaderAcc) -> Result<
    (HeaderAcc, int),
    PcdError,
>
    decreases s.len() - pos,
{
    match next_content_line(s, pos) {
        None => Err(PcdError::UnexpectedEof),
        Some(l) => {
            let le2 = hash_cut(s, l.0, l.1);
            let line = s.subrange(l.0, le2);
            if num_tokens(line) == 0 {
                if l.2 <= pos || l.2 > s.len() {
                    Err(PcdError::UnexpectedEof)
                } else {
                    header_scan(s, l.2, acc)
                }
            } else {
                match apply_header_line(acc, line) {
                    Err(e) => Err(e),
                    Ok((acc2, true)) => Ok((acc2, l.2)),
                    Ok((acc2, false)) => {
                        if l.2 <= pos || l.2 > s.len() {
                            Err(PcdError::UnexpectedEof)
                        } else {
                            header_scan(s, l.2, acc2)
                        }
                    },
                }
            }
        },
    }
}

/// The metadata a header denotes, in view form.
#[verifier::ext_equal]
pub ghost struct HeaderView {
    pub fields: Seq<(Seq<char>, Dtype, int)>,
    pub width: int,
    pub height: int,
    pub npoints: int,
    pub viewpoint: Viewpoint,
    pub encoding: Encoding,
    pub version: Seq<char>,
}

/// The dtype a category byte and a size token denote.
pub open spec fn entry_dtype(cat: u8, size: int) -> Result<Dtype, PcdError> {
    if cat == 85 {
        dtype_from_category_size('U', size as nat)
    } else if cat == 73 {
        dtype_from_category_size('I', size as nat)
    } else if cat == 70 {
        dtype_from_category_size('F', size as nat)
    } else {
        Err(PcdError::UnsupportedDtype)
    }
}

/// Builds the metadata view from a finished state: every key must be
/// present (`VIEWPOINT` defaults to the identity pose), the four field
/// lists must have one entry per field, and every category and size pair
/// must name a dtype.
pub open spec fn header_build(acc: HeaderAcc) -> Result<HeaderView, PcdError> {
    if acc.version is None {
        Err(PcdError::MissingHeaderField(HeaderKey::Version))
    } else if acc.names is None {
        Err(PcdError::MissingHeaderField(HeaderKey::Fields))
    } else if acc.sizes is None {
        Err(PcdError::MissingHeaderField(HeaderKey::Size))
    } else if acc.cats is None {
        Err(PcdError::MissingHeaderField(HeaderKey::Type))
    } else if acc.counts is None {
        Err(PcdError::MissingHeaderField(HeaderKey::Count))
    } else if acc.width is None {
        Err(PcdError::MissingHeaderField(HeaderKey::Width))
    } else if acc.height is None {
        Err(PcdError::MissingHeaderField(HeaderKey::Height))
    } else if acc.npoints is None {
        Err(PcdError::MissingHeaderField(HeaderKey::Points))
    } else if acc.encoding is None {
        Err(PcdError::MissingHeaderField(HeaderKey::Data))
    } else {
        let names = acc.names.unwrap();
        let sizes = acc.sizes.unwrap();
        let cats = acc.cats.unwrap();
        let counts = acc.counts.unwrap();
        if sizes.len() != names.len() || cats.len() != names.len() || counts.len() != names.len() {
            Err(PcdError::MalformedHeaderLine)
        } else if !(forall|i: int|
            0 <= i < names.len() ==> entry_dtype(#[trigger] cats[i], sizes[i]) is Ok) {
            Err(PcdError::UnsupportedDtype)
        } else {
            Ok(
                HeaderView {
                    fields: Seq::new(
                        names.len(),
                        |i: int| (names[i], entry_dtype(cats[i], sizes[i]).unwrap(), counts[i]),
                    ),
                    width: acc.width.unwrap(),
                    height: acc.height.unwrap(),
                    npoints: acc.npoints.unwrap(),
                    viewpoint: match acc.viewpoint {
                        Some(vp) => vp,
                        None => identity_viewpoint(),
                    },
                    encoding: acc.encoding.unwrap(),
                    version: acc.version.unwrap(),
                },
            )
        }
    }
}

/// The metadata view and payload start a header at `start` denotes, or
/// the first error of the scan or of the assembly.
pub open spec fn header_result(s: Seq<u8>, start: int) -> Result<(HeaderView, int), PcdError> {
    match header_scan(s, start, empty_acc()) {
        Err(e) => Err(e),
        Ok((acc, end)) => match header_build(acc) {
            Err(e) => Err(e),
            Ok(hv) => Ok((hv, end)),
        },
    }
}

// ---------------------------------------------------------------------
// The header parser
// ---------------------------------------------------------------------

/// The header values seen so far, in executable form.
struct HeaderState {
    version: Option<String>,
    names: Option<Vec<String>>,
    sizes: Option<Vec<usize>>,
    cats: Option<Vec<u8>>,
    counts: Option<Vec<usize>>,
    width: Option<usize>,
    height: Option<usize>,
    npoints: Option<usize>,
    viewpoint: Option<Viewpoint>,
    encoding: Option<Encoding>,
}

/// The views of a list of owned strings.
pub open spec fn strs_view(v: Seq<String>) -> Seq<Seq<char>> {
    Seq::new(v.len(), |i: int| v[i]@)
}

/// The values of a list of machine words, as integers.
pub open spec fn usizes_view(v: Seq<usize>) -> Seq<int> {
    Seq::new(v.len(), |i: int| v[i] as int)
}

/// The spec-level view of the executable header state.
spec fn st_view(st: HeaderState) -> HeaderAcc {
    HeaderAcc {
        version: match st.version {
            Some(v) => Some(v@),
            None => None,
        },
        names: match st.names {
            Some(v) => Some(strs_view(v@)),
            None => None,
        },
        sizes: match st.sizes {
            Some(v) => Some(usizes_view(v@)),
            None => None,
        },
        cats: match st.cats {
            Some(v) => Some(v@),
            None => None,
        },
        counts: match st.counts {
            Some(v) => Some(usizes_view(v@)),
            None => None,
        },
        width: match st.width {
            Some(v) => Some(v as int),
            None => None,
        },
        height: match st.height {
            Some(v) => Some(v as int),
            None => None,
        },
        npoints: match st.npoints {
            Some(v) => Some(v as int),
            None => None,
        },
        viewpoint: st.viewpoint,
        encoding: st.encoding,
    }
}

/// Copies the bytes of a token span into a fresh vector.
fn token_bytes(line: &[u8], t0: usize, te: usize) -> (r: Vec<u8>)
    requires
        t0 <= te <= line@.len(),
    ensures
        r@ == line@.subrange(t0 as int, te as int),
{
    let mut out = zero_vec(te - t0);
    copy_bytes(&mut out, 0, line, t0, te - t0);
    proof {
        assert(out@ =~= line@.subrange(t0 as int, te as int));
    }
    out
}

/// Reads a token span as a machine word: exactly when the span holds only
/// digits and the value fits.
fn token_usize(line: &[u8], t0: usize, te: usize) -> (r: Result<usize, PcdError>)
    requires
        t0 <= te <= line@.len(),
    ensures
        r is Ok <==> usize_token_ok(line@.subrange(t0 as int, te as int)),
        r matches Ok(v) ==> v as int == usize_token_val(line@.subrange(t0 as int, te as int)),
        r matches Err(e) ==> e == PcdError::MalformedHeaderLine,
{
    proof {
        crate::numtext::lemma_digits_val_shift(
            line@,
            line@.subrange(t0 as int, te as int),
            t0 as int,
            0,
            (te - t0) as int,
        );
    }
    match parse_u64_digits(line, t0, te) {
        Some(v) => {
            if v > usize::MAX as u64 {
                Err(PcdError::MalformedHeaderLine)
            } else {
                Ok(v as usize)
            }
        },
        None => {
            proof {
                let t = line@.subrange(t0 as int, te as int);
                if t0 < te && all_digits(t, 0, t.len() as int) {
                    assert forall|k: int|
                        t0 <= k < te implies crate::numtext::is_digit(#[trigger] line@[k]) by {
                        assert(line@[k] == t[k - t0]);
                    }
                    assert(all_digits(line@, t0 as int, te as int));
                }
            }
            Err(PcdError::MalformedHeaderLine)
        },
    }
}

/// Reads a token span whose bytes are plain ASCII into an owned string:
/// exactly when no byte is outside ASCII.
fn token_string(line: &[u8], t0: usize, te: usize) -> (r: Result<String, PcdError>)
    requires
        t0 <= te <= line@.len(),
    ensures
        r is Ok <==> ascii_token_ok(line@.subrange(t0 as int, te as int)),
        r matches Ok(v) ==> v@ == token_chars(line@.subrange(t0 as int, te as int)),
        r matches Err(e) ==> e == PcdError::MalformedHeaderLine,
{
    let bytes = token_bytes(line, t0, te);
    let blen = bytes.len();
    let mut i: usize = 0;
    while i < blen
        invariant
            i <= blen,
            blen == bytes@.len(),
            bytes@ == line@.subrange(t0 as int, te as int),
            forall|k: int| 0 <= k < i ==> bytes@[k] < 128,
        decreases blen - i,
    {
        if bytes[i] >= 128 {
            return Err(PcdError::MalformedHeaderLine);
        }
        i += 1;
    }
    let s = string_from_ascii(bytes);
    proof {
        assert(s@ =~= token_chars(line@.subrange(t0 as int, te as int)));
    }
    Ok(s)
}

/// Handles one `VERSION` line, as the matching branch of
/// `apply_header_line` describes it.
fn apply_version_line(st: &mut HeaderState, line: &[u8]) -> (r: Result<bool, PcdError>)
    requires
        num_tokens(line@) >= 1,
        kth_token(line@, 0) == seq![86u8, 69u8, 82u8, 83u8, 73u8, 79u8, 78u8],
    ensures
        final(st).counts == old(st).counts,
        final(st).names == old(st).names,
        match apply_header_line(st_view(*old(st)), line@) {
            Ok(p) => r == Ok::<bool, PcdError>(p.1) && st_view(*final(st)) == p.0,
            Err(e) => r == Err::<bool, PcdError>(e) && *final(st) == *old(st),
        },
{
    let toks = tokenize_line(line);
    let ntoks = toks.len();
    if ntoks != 2 {
        return Err(PcdError::MalformedHeaderLine);
    }
    let (t0, t1) = toks[1];
    let v = match token_string(line, t0, t1) {
        Ok(v) => v,
        Err(e) => {
            return Err(e);
        },
    };
    st.version = Some(v);
    proof {
        assert(st_view(*st) =~~= apply_header_line(st_view(*old(st)), line@).unwrap().0);
    }
    Ok(false)
}

/// Handles one `FIELDS` line, as the matching branch of
/// `apply_header_line` describes it.
fn apply_fields_line(st: &mut HeaderState, line: &[u8]) -> (r: Result<bool, PcdError>)
    requires
        num_tokens(line@) >= 1,
        kth_token(line@, 0) == seq![70u8, 73u8, 69u8, 76u8, 68u8, 83u8],
    ensures
        final(st).counts == old(st).counts,
        r is Ok ==> (final(st).names matches Some(ns2) && ns2@.len() >= 1),
        r is Err ==> final(st).names == old(st).names,
        match apply_header_line(st_view(*old(st)), line@) {
            Ok(p) => r == Ok::<bool, PcdError>(p.1) && st_view(*final(st)) == p.0,
            Err(e) => r == Err::<bool, PcdError>(e) && *final(st) == *old(st),
        },
{
    let toks = tokenize_line(line);
    let ntoks = toks.len();
    if ntoks < 2 {
        return Err(PcdError::MalformedHeaderLine);
    }
    let mut vs: Vec<String> = Vec::new();
    let mut i: usize = 1;
    while i < ntoks
        invariant
            1 <= i <= ntoks,
            ntoks == toks@.len(),
            ntoks == num_tokens(line@),
            ntoks >= 2,
            kth_token(line@, 0) == seq![70u8, 73u8, 69u8, 76u8, 68u8, 83u8],
            *st == *old(st),
            vs@.len() == i - 1,
            forall|k: int|
                    0 <= k < toks@.len() ==> (#[trigger] toks@[k]).0 == crate::io::token_start(
                        line@,
                        k as nat,
                    ) && toks@[k].1 == crate::io::token_end(
                        line@,
                        crate::io::token_start(line@, k as nat),
                    ) && toks@[k].0 < toks@[k].1 <= line@.len(),
            forall|j: int|
                0 <= j < i - 1 ==> (ascii_token_ok(#[trigger] kth_token(line@, (j + 1) as nat))) && (vs@[j]@ == token_chars(kth_token(line@, (j + 1) as nat))),
        decreases ntoks - i,
    {
        let (t0, t1) = toks[i];
        let nm = match token_string(line, t0, t1) {
            Ok(v) => v,
            Err(e) => {
                proof {
                    assert(!ascii_token_ok(kth_token(line@, i as nat)));
                }
                return Err(e);
            },
        };
        vs.push(nm);
        i += 1;
    }
    st.names = Some(vs);
    proof {
        assert forall|k2: int| 1 <= k2 < ntoks implies ascii_token_ok(#[trigger] kth_token(line@, k2 as nat)) by {
            let j = k2 - 1;
            assert(ascii_token_ok(kth_token(line@, (j + 1) as nat)));
        }
        assert(st_view(*st) =~~= apply_header_line(st_view(*old(st)), line@).unwrap().0);
    }
    Ok(false)
}

/// Handles one `SIZE` line, as the matching branch of
/// `apply_header_line` describes it.
fn apply_size_line(st: &mut HeaderState, line: &[u8]) -> (r: Result<bool, PcdError>)
    requires
        num_tokens(line@) >= 1,
        kth_token(line@, 0) == seq![83u8, 73u8, 90u8, 69u8],
    ensures
        final(st).counts == old(st).counts,
        final(st).names == old(st).names,
        match apply_header_line(st_view(*old(st)), line@) {
            Ok(p) => r == Ok::<bool, PcdError>(p.1) && st_view(*final(st)) == p.0,
            Err(e) => r == Err::<bool, PcdError>(e) && *final(st) == *old(st),
        },
{
    let toks = tokenize_line(line);
    let ntoks = toks.len();
    if ntoks < 2 {
        return Err(PcdError::MalformedHeaderLine);
    }
    let mut vs: Vec<usize> = Vec::new();
    let mut i: usize = 1;
    while i < ntoks
        invariant
            1 <= i <= ntoks,
            ntoks == toks@.len(),
            ntoks == num_tokens(line@),
            ntoks >= 2,
            kth_token(line@, 0) == seq![83u8, 73u8, 90u8, 69u8],
            *st == *old(st),
            vs@.len() == i - 1,
            forall|k: int|
                    0 <= k < toks@.len() ==> (#[trigger] toks@[k]).0 == crate::io::token_start(
                        line@,
                        k as nat,
                    ) && toks@[k].1 == crate::io::token_end(
                        line@,
                        crate::io::token_start(line@, k as nat),
                    ) && toks@[k].0 < toks@[k].1 <= line@.len(),
            forall|j: int|
                0 <= j < i - 1 ==> (usize_token_ok(#[trigger] kth_token(line@, (j + 1) as nat))) && (vs@[j] as int == usize_token_val(kth_token(line@, (j + 1) as nat))),
        decreases ntoks - i,
    {
        let (t0, t1) = toks[i];
        let v = match token_usize(line, t0, t1) {
            Ok(v) => v,
            Err(e) => {
                proof {
                    assert(!usize_token_ok(kth_token(line@, i as nat)));
                }
                return Err(e);
            },
        };
        vs.push(v);
        i += 1;
    }
    st.sizes = Some(vs);
    proof {
        assert forall|k2: int| 1 <= k2 < ntoks implies usize_token_ok(#[trigger] kth_token(line@, k2 as nat)) by {
            let j = k2 - 1;
            assert(usize_token_ok(kth_token(line@, (j + 1) as nat)));
        }
        assert(st_view(*st) =~~= apply_header_line(st_view(*old(st)), line@).unwrap().0);
    }
    Ok(false)
}

/// Handles one `TYPE` line, as the matching branch of
/// `apply_header_line` describes it.
fn apply_type_line(st: &mut HeaderState, line: &[u8]) -> (r: Result<bool, PcdError>)
    requires
        num_tokens(line@) >= 1,
        kth_token(line@, 0) == seq![84u8, 89u8, 80u8, 69u8],
    ensures
        final(st).counts == old(st).counts,
        final(st).names == old(st).names,
        match apply_header_line(st_view(*old(st)), line@) {
            Ok(p) => r == Ok::<bool, PcdError>(p.1) && st_view(*final(st)) == p.0,
            Err(e) => r == Err::<bool, PcdError>(e) && *final(st) == *old(st),
        },
{
    let toks = tokenize_line(line);
    let ntoks = toks.len();
    if ntoks < 2 {
        return Err(PcdError::MalformedHeaderLine);
    }
    let mut vs: Vec<u8> = Vec::new();
    let mut i: usize = 1;
    while i < ntoks
        invariant
            1 <= i <= ntoks,
            ntoks == toks@.len(),
            ntoks == num_tokens(line@),
            ntoks >= 2,
            kth_token(line@, 0) == seq![84u8, 89u8, 80u8, 69u8],
            *st == *old(st),
            vs@.len() == i - 1,
            forall|k: int|
                    0 <= k < toks@.len() ==> (#[trigger] toks@[k]).0 == crate::io::token_start(
                        line@,
                        k as nat,
                    ) && toks@[k].1 == crate::io::token_end(
                        line@,
                        crate::io::token_start(line@, k as nat),
                    ) && toks@[k].0 < toks@[k].1 <= line@.len(),
            forall|j: int|
                0 <= j < i - 1 ==> ((#[trigger] kth_token(line@, (j + 1) as nat)).len() == 1) && (vs@[j] == kth_token(line@, (j + 1) as nat)[0]),
        decreases ntoks - i,
    {
        let (t0, t1) = toks[i];
        if t1 - t0 != 1 {
            proof {
                assert(kth_token(line@, i as nat).len() != 1);
            }
            return Err(PcdError::MalformedHeaderLine);
        }
        vs.push(line[t0]);
        proof {
            assert(kth_token(line@, i as nat)[0] == line@[t0 as int]);
        }
        i += 1;
    }
    st.cats = Some(vs);
    proof {
        assert forall|k2: int| 1 <= k2 < ntoks implies (#[trigger] kth_token(line@, k2 as nat)).len() == 1 by {
            let j = k2 - 1;
            assert(kth_token(line@, (j + 1) as nat).len() == 1);
        }
        assert(st_view(*st) =~~= apply_header_line(st_view(*old(st)), line@).unwrap().0);
    }
    Ok(false)
}

/// Handles one `COUNT` line, as the matching branch of
/// `apply_header_line` describes it.
fn apply_count_line(st: &mut HeaderState, line: &[u8]) -> (r: Result<bool, PcdError>)
    requires
        num_tokens(line@) >= 1,
        kth_token(line@, 0) == seq![67u8, 79u8, 85u8, 78u8, 84u8],
    ensures
        r is Ok ==> (final(st).counts matches Some(cs2) && forall|ci: int|
            0 <= ci < cs2@.len() ==> #[trigger] cs2@[ci] >= 1),
        r is Err ==> final(st).counts == old(st).counts,
        final(st).names == old(st).names,
        match apply_header_line(st_view(*old(st)), line@) {
            Ok(p) => r == Ok::<bool, PcdError>(p.1) && st_view(*final(st)) == p.0,
            Err(e) => r == Err::<bool, PcdError>(e) && *final(st) == *old(st),
        },
{
    let toks = tokenize_line(line);
    let ntoks = toks.len();
    if ntoks < 2 {
        return Err(PcdError::MalformedHeaderLine);
    }
    let mut vs: Vec<usize> = Vec::new();
    let mut i: usize = 1;
    while i < ntoks
        invariant
            1 <= i <= ntoks,
            ntoks == toks@.len(),
            ntoks == num_tokens(line@),
            ntoks >= 2,
            kth_token(line@, 0) == seq![67u8, 79u8, 85u8, 78u8, 84u8],
            *st == *old(st),
            vs@.len() == i - 1,
            forall|k: int|
                    0 <= k < toks@.len() ==> (#[trigger] toks@[k]).0 == crate::io::token_start(
                        line@,
                        k as nat,
                    ) && toks@[k].1 == crate::io::token_end(
                        line@,
                        crate::io::token_start(line@, k as nat),
                    ) && toks@[k].0 < toks@[k].1 <= line@.len(),
            forall|j: int|
                0 <= j < i - 1 ==> (usize_token_ok(#[trigger] kth_token(line@, (j + 1) as nat)) && usize_token_val(kth_token(line@, (j + 1) as nat)) >= 1) && (vs@[j] as int == usize_token_val(kth_token(line@, (j + 1) as nat))),
        decreases ntoks - i,
    {
        let (t0, t1) = toks[i];
        let v = match token_usize(line, t0, t1) {
            Ok(v) => v,
            Err(e) => {
                proof {
                    assert(!usize_token_ok(kth_token(line@, i as nat)));
                }
                return Err(e);
            },
        };
        if v == 0 {
            proof {
                assert(usize_token_val(kth_token(line@, i as nat)) == 0);
            }
            return Err(PcdError::MalformedHeaderLine);
        }
        vs.push(v);
        i += 1;
    }
    proof {
        assert forall|ci: int| 0 <= ci < vs@.len() implies #[trigger] vs@[ci] >= 1 by {
            assert(usize_token_val(kth_token(line@, (ci + 1) as nat)) >= 1);
        }
    }
    st.counts = Some(vs);
    proof {
        assert forall|k2: int| 1 <= k2 < ntoks implies usize_token_ok(#[trigger] kth_token(line@, k2 as nat)) && usize_token_val(kth_token(line@, k2 as nat)) >= 1 by {
            let j = k2 - 1;
            assert(usize_token_ok(kth_token(line@, (j + 1) as nat)) && usize_token_val(kth_token(line@, (j + 1) as nat)) >= 1);
        }
        assert(st_view(*st) =~~= apply_header_line(st_view(*old(st)), line@).unwrap().0);
    }
    Ok(false)
}

/// Handles one `WIDTH` line, as the matching branch of
/// `apply_header_line` describes it.
fn apply_width_line(st: &mut HeaderState, line: &[u8]) -> (r: Result<bool, PcdError>)
    requires
        num_tokens(line@) >= 1,
        kth_token(line@, 0) == seq![87u8, 73u8, 68u8, 84u8, 72u8],
    ensures
        final(st).counts == old(st).counts,
        final(st).names == old(st).names,
        match apply_header_line(st_view(*old(st)), line@) {
            Ok(p) => r == Ok::<bool, PcdError>(p.1) && st_view(*final(st)) == p.0,
            Err(e) => r == Err::<bool, PcdError>(e) && *final(st) == *old(st),
        },
{
    let toks = tokenize_line(line);
    let ntoks = toks.len();
    if ntoks != 2 {
        return Err(PcdError::MalformedHeaderLine);
    }
    let (t0, t1) = toks[1];
    let v = match token_usize(line, t0, t1) {
        Ok(v) => v,
        Err(e) => {
            return Err(e);
        },
    };
    st.width = Some(v);
    proof {
        assert(st_view(*st) =~~= apply_header_line(st_view(*old(st)), line@).unwrap().0);
    }
    Ok(false)
}

/// Handles one `HEIGHT` line, as the matching branch of
/// `apply_header_line` describes it.
fn apply_height_line(st: &mut HeaderState, line: &[u8]) -> (r: Result<bool, PcdError>)
    requires
        num_tokens(line@) >= 1,
        kth_token(line@, 0) == seq![72u8, 69u8, 73u8, 71u8, 72u8, 84u8],
    ensures
        final(st).counts == old(st).counts,
        final(st).names == old(st).names,
        match apply_header_line(st_view(*old(st)), line@) {
            Ok(p) => r == Ok::<bool, PcdError>(p.1) && st_view(*final(st)) == p.0,
            Err(e) => r == Err::<bool, PcdError>(e) && *final(st) == *old(st),
        },
{
    let toks = tokenize_line(line);
    let ntoks = toks.len();
    if ntoks != 2 {
        return Err(PcdError::MalformedHeaderLine);
    }
    let (t0, t1) = toks[1];
    let v = match token_usize(line, t0, t1) {
        Ok(v) => v,
        Err(e) => {
            return Err(e);
        },
    };
    st.height = Some(v);
    proof {
        assert(st_view(*st) =~~= apply_header_line(st_view(*old(st)), line@).unwrap().0);
    }
    Ok(false)
}

/// Handles one `POINTS` line, as the matching branch of
/// `apply_header_line` describes it.
fn apply_points_line(st: &mut HeaderState, line: &[u8]) -> (r: Result<bool, PcdError>)
    requires
        num_tokens(line@) >= 1,
        kth_token(line@, 0) == seq![80u8, 79u8, 73u8, 78u8, 84u8, 83u8],
    ensures
        final(st).counts == old(st).counts,
        final(st).names == old(st).names,
        match apply_header_line(st_view(*old(st)), line@) {
            Ok(p) => r == Ok::<bool, PcdError>(p.1) && st_view(*final(st)) == p.0,
            Err(e) => r == Err::<bool, PcdError>(e) && *final(st) == *old(st),
        },
{
    let toks = tokenize_line(line);
    let ntoks = toks.len();
    if ntoks != 2 {
        return Err(PcdError::MalformedHeaderLine);
    }
    let (t0, t1) = toks[1];
    let v = match token_usize(line, t0, t1) {
        Ok(v) => v,
        Err(e) => {
            return Err(e);
        },
    };
    st.npoints = Some(v);
    proof {
        assert(st_view(*st) =~~= apply_header_line(st_view(*old(st)), line@).unwrap().0);
    }
    Ok(false)
}

/// Handles one `VIEWPOINT` line, as the matching branch of
/// `apply_header_line` describes it.
#[verifier::rlimit(100)]
#[verifier::spinoff_prover]
fn apply_viewpoint_line(st: &mut HeaderState, line: &[u8]) -> (r: Result<bool, PcdError>)
    requires
        num_tokens(line@) >= 1,
        kth_token(line@, 0) == seq![86u8, 73u8, 69u8, 87u8, 80u8, 79u8, 73u8, 78u8, 84u8],
    ensures
        final(st).counts == old(st).counts,
        final(st).names == old(st).names,
        match apply_header_line(st_view(*old(st)), line@) {
            Ok(p) => r == Ok::<bool, PcdError>(p.1) && st_view(*final(st)) == p.0,
            Err(e) => r == Err::<bool, PcdError>(e) && *final(st) == *old(st),
        },
{
    let toks = tokenize_line(line);
    let ntoks = toks.len();
    if ntoks != 8 {
        return Err(PcdError::MalformedHeaderLine);
    }
    let mut bits: Vec<u32> = Vec::new();
    let mut i: usize = 1;
    while i < ntoks
        invariant
            1 <= i <= ntoks,
            ntoks == 8,
            ntoks == toks@.len(),
            ntoks == num_tokens(line@),
            kth_token(line@, 0) == seq![86u8, 73u8, 69u8, 87u8, 80u8, 79u8, 73u8, 78u8, 84u8],
            *st == *old(st),
            bits@.len() == i - 1,
            forall|k: int|
                    0 <= k < toks@.len() ==> (#[trigger] toks@[k]).0 == crate::io::token_start(
                        line@,
                        k as nat,
                    ) && toks@[k].1 == crate::io::token_end(
                        line@,
                        crate::io::token_start(line@, k as nat),
                    ) && toks@[k].0 < toks@[k].1 <= line@.len(),
            forall|j: int|
                0 <= j < i - 1 ==> float32_of_decimal(#[trigger] kth_token(line@, (j + 1) as nat))
                    == Some(bits@[j]),
        decreases ntoks - i,
    {
        let (t0, t1) = toks[i];
        let tok = token_bytes(line, t0, t1);
        let b = match crate::floattext::parse_float32(tok.as_slice()) {
            Some(v) => v,
            None => {
                proof {
                    assert(float32_of_decimal(kth_token(line@, i as nat)) is None);
                }
                return Err(PcdError::MalformedHeaderLine);
            },
        };
        bits.push(b);
        i += 1;
    }
    let vp = Viewpoint::from(bits);
    st.viewpoint = Some(vp);
    proof {
        assert forall|k2: int|
            1 <= k2 < 8 implies float32_of_decimal(#[trigger] kth_token(line@, k2 as nat))
            is Some by {
            let j = k2 - 1;
            assert(float32_of_decimal(kth_token(line@, (j + 1) as nat)) == Some(bits@[j]));
        }
        assert(float32_of_decimal(kth_token(line@, (0 + 1) as nat)) == Some(bits@[0]));
        assert(float32_of_decimal(kth_token(line@, (1 + 1) as nat)) == Some(bits@[1]));
        assert(float32_of_decimal(kth_token(line@, (2 + 1) as nat)) == Some(bits@[2]));
        assert(float32_of_decimal(kth_token(line@, (3 + 1) as nat)) == Some(bits@[3]));
        assert(float32_of_decimal(kth_token(line@, (4 + 1) as nat)) == Some(bits@[4]));
        assert(float32_of_decimal(kth_token(line@, (5 + 1) as nat)) == Some(bits@[5]));
        assert(float32_of_decimal(kth_token(line@, (6 + 1) as nat)) == Some(bits@[6]));
        assert(st_view(*st) == apply_header_line(st_view(*old(st)), line@).unwrap().0);
    }
    Ok(false)
}

/// Handles one `DATA` line, as the matching branch of
/// `apply_header_line` describes it.
fn apply_data_line(st: &mut HeaderState, line: &[u8]) -> (r: Result<bool, PcdError>)
    requires
        num_tokens(line@) >= 1,
        kth_token(line@, 0) == seq![68u8, 65u8, 84u8, 65u8],
    ensures
        final(st).counts == old(st).counts,
        final(st).names == old(st).names,
        match apply_header_line(st_view(*old(st)), line@) {
            Ok(p) => r == Ok::<bool, PcdError>(p.1) && st_view(*final(st)) == p.0,
            Err(e) => r == Err::<bool, PcdError>(e) && *final(st) == *old(st),
        },
{
    let toks = tokenize_line(line);
    let ntoks = toks.len();
    if ntoks != 2 {
        return Err(PcdError::MalformedHeaderLine);
    }
    let (t0, t1) = toks[1];
    if token_eq(line, t0, t1, &[97, 115, 99, 105, 105]) {
        st.encoding = Some(Encoding::Ascii);
        proof {
            assert(st_view(*st) =~~= apply_header_line(st_view(*old(st)), line@).unwrap().0);
        }
        Ok(true)
    } else if token_eq(line, t0, t1, &[98, 105, 110, 97, 114, 121]) {
        st.encoding = Some(Encoding::Binary);
        proof {
            assert(st_view(*st) =~~= apply_header_line(st_view(*old(st)), line@).unwrap().0);
        }
        Ok(true)
    } else if token_eq(
        line,
        t0,
        t1,
        &[98, 105, 110, 97, 114, 121, 95, 99, 111, 109, 112, 114, 101, 115, 115, 101, 100],
    ) {
        st.encoding = Some(Encoding::BinaryCompressed);
        proof {
            assert(st_view(*st) =~~= apply_header_line(st_view(*old(st)), line@).unwrap().0);
        }
        Ok(true)
    } else {
        Err(PcdError::MalformedHeaderLine)
    }
}

/// Applies one non-blank header line to the state, as `apply_header_line`
/// describes it; yields whether the line was the closing `DATA` line.
fn apply_line(st: &mut HeaderState, line: &[u8]) -> (r: Result<bool, PcdError>)
    requires
        num_tokens(line@) >= 1,
    ensures
        final(st).counts == old(st).counts || (final(st).counts matches Some(cs2)
            && forall|ci: int| 0 <= ci < cs2@.len() ==> #[trigger] cs2@[ci] >= 1),
        final(st).names == old(st).names || (final(st).names matches Some(ns2) && ns2@.len() >= 1),
        match apply_header_line(st_view(*old(st)), line@) {
            Ok(p) => r == Ok::<bool, PcdError>(p.1) && st_view(*final(st)) == p.0,
            Err(e) => r == Err::<bool, PcdError>(e),
        },
{
    let toks = tokenize_line(line);
    let (k0, k1) = toks[0];
    proof {
        assert(kth_token(line@, 0) == line@.subrange(k0 as int, k1 as int));
    }
    if token_eq(line, k0, k1, &[86, 69, 82, 83, 73, 79, 78]) {
        apply_version_line(st, line)
    } else if token_eq(line, k0, k1, &[70, 73, 69, 76, 68, 83]) {
        apply_fields_line(st, line)
    } else if token_eq(line, k0, k1, &[83, 73, 90, 69]) {
        apply_size_line(st, line)
    } else if token_eq(line, k0, k1, &[84, 89, 80, 69]) {
        apply_type_line(st, line)
    } else if token_eq(line, k0, k1, &[67, 79, 85, 78, 84]) {
        apply_count_line(st, line)
    } else if token_eq(line, k0, k1, &[87, 73, 68, 84, 72]) {
        apply_width_line(st, line)
    } else if token_eq(line, k0, k1, &[72, 69, 73, 71, 72, 84]) {
        apply_height_line(st, line)
    } else if token_eq(line, k0, k1, &[80, 79, 73, 78, 84, 83]) {
        apply_points_line(st, line)
    } else if token_eq(line, k0, k1, &[86, 73, 69, 87, 80, 79, 73, 78, 84]) {
        apply_viewpoint_line(st, line)
    } else if token_eq(line, k0, k1, &[68, 65, 84, 65]) {
        apply_data_line(st, line)
    } else {
        Err(PcdError::MalformedHeaderLine)
    }
}

/// Assembles the metadata from a finished state, as `header_build`
/// describes it.
fn build_metadata(st: HeaderState) -> (r: Result<Metadata, PcdError>)
    requires
        st.counts matches Some(cs) ==> forall|i: int| 0 <= i < cs@.len() ==> #[trigger] cs@[i] >= 1,
        st.names matches Some(ns) ==> ns@.len() >= 1,
    ensures
        match header_build(st_view(st)) {
            Err(e) => r == Err::<Metadata, PcdError>(e),
            Ok(hv) => r matches Ok(md) && {
                &&& md.version@ == hv.version
                &&& md.width as int == hv.width
                &&& md.height as int == hv.height
                &&& md.npoints as int == hv.npoints
                &&& md.viewpoint == hv.viewpoint
                &&& md.encoding == hv.encoding
                &&& md.fields.0@.len() == hv.fields.len()
                &&& md.fields.0@.len() >= 1
                &&& forall|i: int|
                    0 <= i < md.fields.0@.len() ==> {
                        let fm = #[trigger] md.fields.0@[i];
                        fm.name@ == hv.fields[i].0 && fm.dtype == hv.fields[i].1 && fm.count >= 1
                            && fm.count as int == hv.fields[i].2
                    }
            },
        },
{
    let version = match st.version {
        Some(v) => v,
        None => {
            return Err(PcdError::MissingHeaderField(HeaderKey::Version));
        },
    };
    let names = match st.names {
        Some(v) => v,
        None => {
            return Err(PcdError::MissingHeaderField(HeaderKey::Fields));
        },
    };
    let sizes = match st.sizes {
        Some(v) => v,
        None => {
            return Err(PcdError::MissingHeaderField(HeaderKey::Size));
        },
    };
    let cats = match st.cats {
        Some(v) => v,
        None => {
            return Err(PcdError::MissingHeaderField(HeaderKey::Type));
        },
    };
    let counts = match st.counts {
        Some(v) => v,
        None => {
            return Err(PcdError::MissingHeaderField(HeaderKey::Count));
        },
    };
    let width = match st.width {
        Some(v) => v,
        None => {
            return Err(PcdError::MissingHeaderField(HeaderKey::Width));
        },
    };
    let height = match st.height {
        Some(v) => v,
        None => {
            return Err(PcdError::MissingHeaderField(HeaderKey::Height));
        },
    };
    let npoints = match st.npoints {
        Some(v) => v,
        None => {
            return Err(PcdError::MissingHeaderField(HeaderKey::Points));
        },
    };
    let encoding = match st.encoding {
        Some(v) => v,
        None => {
            return Err(PcdError::MissingHeaderField(HeaderKey::Data));
        },
    };
    let vp = match st.viewpoint {
        Some(v) => v,
        None => Viewpoint::default(),
    };
    let n = names.len();
    if sizes.len() != n || cats.len() != n || counts.len() != n {
        return Err(PcdError::MalformedHeaderLine);
    }
    let mut entries: Vec<FieldMeta> = Vec::new();
    let mut i: usize = 0;
    let names_mut = names;
    proof {
        assert(st_view(st).cats == Some(cats@));
        assert(st_view(st).sizes == Some(usizes_view(sizes@)));
    }
    while i < n
        invariant
            i <= n,
            n == names_mut@.len(),
            sizes@.len() == n,
            cats@.len() == n,
            counts@.len() == n,
            n >= 1,
            st_view(st).cats == Some(cats@),
            st_view(st).sizes == Some(usizes_view(sizes@)),
            st_view(st).names is Some,
            st_view(st).counts is Some,
            st_view(st).version is Some,
            st_view(st).width is Some,
            st_view(st).height is Some,
            st_view(st).npoints is Some,
            st_view(st).encoding is Some,
            st_view(st).names.unwrap().len() == n,
            st_view(st).sizes.unwrap().len() == n,
            st_view(st).counts.unwrap().len() == n,
            forall|k: int| 0 <= k < counts@.len() ==> #[trigger] counts@[k] >= 1,
            entries@.len() == i,
            forall|k: int|
                0 <= k < i ==> {
                    let fm = #[trigger] entries@[k];
                    &&& fm.count >= 1
                    &&& fm.name@ == names_mut@[k]@
                    &&& entry_dtype(cats@[k], sizes@[k] as int) == Ok::<Dtype, PcdError>(fm.dtype)
                    &&& fm.count == counts@[k]
                },
        decreases n - i,
    {
        let cat = cats[i];
        let c: char = if cat == 85 {
            'U'
        } else if cat == 73 {
            'I'
        } else if cat == 70 {
            'F'
        } else {
            proof {
                assert(entry_dtype(st_view(st).cats.unwrap()[i as int], st_view(st).sizes.unwrap()[i as int]) is Err);
            }
            return Err(PcdError::UnsupportedDtype);
        };
        let dtype = match Dtype::from_category_size(c, sizes[i]) {
            Ok(d) => d,
            Err(e) => {
                proof {
                    assert(entry_dtype(st_view(st).cats.unwrap()[i as int], st_view(st).sizes.unwrap()[i as int]) is Err);
                }
                return Err(e);
            },
        };
        let nm = names_mut[i].clone();
        entries.push(FieldMeta { name: nm, dtype, count: counts[i] });
        i += 1;
    }
    proof {
        let hv = header_build(st_view(st));
        assert forall|k: int|
            0 <= k < n implies entry_dtype(
            #[trigger] st_view(st).cats.unwrap()[k],
            st_view(st).sizes.unwrap()[k],
        ) is Ok by {
            let fm = entries@[k];
        }
    }
    Ok(
        Metadata {
            fields: FieldSchema(entries),
            width,
            height,
            npoints,
            viewpoint: vp,
            encoding,
            version,
        },
    )
}

/// Parses a PCD header from `data` at `start`, as `header_result`
/// describes it: key/value lines in any order, blank lines and comments
/// skipped, a trailing comment cut off each line, until and including the
/// `DATA` line.  Yields the metadata and the position right after the
/// `DATA` line, where the payload starts, and fails with exactly the
/// errors of that description.
#[verifier::rlimit(100)]
pub fn load_metadata(data: &[u8], start: usize) -> (r: Result<(Metadata, usize), PcdError>)
    requires
        start <= data@.len(),
    ensures
        r is Ok <==> header_result(data@, start as int) is Ok,
        r matches Err(e) ==> header_result(data@, start as int) == Err::<
            (HeaderView, int),
            PcdError,
        >(e),
        r matches Ok(v) ==> (header_result(data@, start as int) matches Ok(h) && {
            &&& start <= v.1 <= data@.len()
            &&& v.1 == h.1
            &&& v.0.version@ == h.0.version
            &&& v.0.width as int == h.0.width
            &&& v.0.height as int == h.0.height
            &&& v.0.npoints as int == h.0.npoints
            &&& v.0.viewpoint == h.0.viewpoint
            &&& v.0.encoding == h.0.encoding
            &&& v.0.fields.0@.len() == h.0.fields.len()
            &&& forall|i: int|
                0 <= i < v.0.fields.0@.len() ==> {
                    let fm = #[trigger] v.0.fields.0@[i];
                    fm.name@ == h.0.fields[i].0 && fm.dtype == h.0.fields[i].1 && fm.count as int
                        == h.0.fields[i].2
                }
        }),
        r matches Ok(v) ==> {
            &&& v.0.fields.0@.len() >= 1
            &&& forall|i: int| 0 <= i < v.0.fields.0@.len() ==> (#[trigger] v.0.fields.0@[i]).count
                >= 1
        },
{
    let dlen = data.len();
    let mut st = HeaderState {
        version: None,
        names: None,
        sizes: None,
        cats: None,
        counts: None,
        width: None,
        height: None,
        npoints: None,
        viewpoint: None,
        encoding: None,
    };
    let mut pos: usize = start;
    let mut done: bool = false;
    proof {
        assert(st_view(st) =~~= empty_acc());
    }
    while !done
        invariant
            start <= pos <= dlen,
            dlen == data@.len(),
            st.counts matches Some(cs) ==> forall|i: int|
                0 <= i < cs@.len() ==> #[trigger] cs@[i] >= 1,
            st.names matches Some(ns) ==> ns@.len() >= 1,
            !done ==> header_scan(data@, start as int, empty_acc()) == header_scan(
                data@,
                pos as int,
                st_view(st),
            ),
            done ==> header_scan(data@, start as int, empty_acc()) == Ok::<
                (HeaderAcc, int),
                PcdError,
            >((st_view(st), pos as int)),
        decreases dlen - pos + (if done { 0int } else { 1int }),
    {
        let (ls, le0, next) = match read_nonempty_line(data, pos) {
            Ok(v) => v,
            Err(e) => {
                proof {
                    assert(header_scan(data@, pos as int, st_view(st)) == Err::<
                        (HeaderAcc, int),
                        PcdError,
                    >(PcdError::UnexpectedEof));
                }
                return Err(e);
            },
        };
        // cut a trailing comment off the line
        let mut le: usize = ls;
        while le < le0 && data[le] != 35
            invariant
                ls <= le <= le0 <= dlen,
                dlen == data@.len(),
                hash_cut(data@, ls as int, le0 as int) == hash_cut(data@, le as int, le0 as int),
            decreases le0 - le,
        {
            le += 1;
        }
        proof {
            assert(hash_cut(data@, ls as int, le0 as int) == le);
        }
        let line = token_bytes(data, ls, le);
        let toks = tokenize_line(line.as_slice());
        if toks.len() == 0 {
            if next <= pos {
                proof {
                    assert(header_scan(data@, pos as int, st_view(st)) == Err::<
                        (HeaderAcc, int),
                        PcdError,
                    >(PcdError::UnexpectedEof));
                }
                return Err(PcdError::UnexpectedEof);
            }
            proof {
                assert(header_scan(data@, pos as int, st_view(st)) == header_scan(
                    data@,
                    next as int,
                    st_view(st),
                ));
            }
            pos = next;
            continue;
        }
        let ghost pre_acc = st_view(st);
        let r2 = apply_line(&mut st, line.as_slice());
        match r2 {
            Ok(d2) => {
                if d2 {
                    proof {
                        assert(apply_header_line(pre_acc, line@) == Ok::<
                            (HeaderAcc, bool),
                            PcdError,
                        >((st_view(st), true)));
                        assert(header_scan(data@, pos as int, pre_acc) == Ok::<
                            (HeaderAcc, int),
                            PcdError,
                        >((st_view(st), next as int)));
                    }
                    done = true;
                    pos = next;
                } else {
                    if next <= pos {
                        proof {
                            assert(header_scan(data@, pos as int, pre_acc) == Err::<
                                (HeaderAcc, int),
                                PcdError,
                            >(PcdError::UnexpectedEof));
                        }
                        return Err(PcdError::UnexpectedEof);
                    }
                    proof {
                        assert(apply_header_line(pre_acc, line@) == Ok::<
                            (HeaderAcc, bool),
                            PcdError,
                        >((st_view(st), false)));
                        assert(header_scan(data@, pos as int, pre_acc) == header_scan(
                            data@,
                            next as int,
                            st_view(st),
                        ));
                    }
                    pos = next;
                }
            },
            Err(e) => {
                proof {
                    assert(header_scan(data@, pos as int, pre_acc) == Err::<
                        (HeaderAcc, int),
                        PcdError,
                    >(e));
                }
                return Err(e);
            },
        }
    }
    let ghost acc_final = st_view(st);
    let end = pos;
    match build_metadata(st) {
        Ok(md) => Ok((md, end)),
        Err(e) => Err(e),
    }
}


// ---------------------------------------------------------------------
// Payload conditions over a header view
// ---------------------------------------------------------------------

/// Bytes one point occupies under a header view's schema.
pub open spec fn view_point_size(fs: Seq<(Seq<char>, Dtype, int)>) -> int
    decreases fs.len(),
{
    if fs.len() == 0 {
        0
    } else {
        view_point_size(fs.drop_last()) + fs.last().2 * dtype_size(fs.last().1)
    }
}

/// Bytes all columns occupy under a header view's schema.
pub open spec fn view_total_size(fs: Seq<(Seq<char>, Dtype, int)>, np: int) -> int
    decreases fs.len(),
{
    if fs.len() == 0 {
        0
    } else {
        view_total_size(fs.drop_last(), np) + np * (fs.last().2 * dtype_size(fs.last().1))
    }
}

/// Whether every entry's column of a header view fits the machine.
pub open spec fn view_allocatable(fs: Seq<(Seq<char>, Dtype, int)>, np: int) -> bool {
    forall|i: int|
        0 <= i < fs.len() ==> (#[trigger] fs[i]).2 * dtype_size(fs[i].1) <= usize::MAX && np * (
        fs[i].2 * dtype_size(fs[i].1)) <= usize::MAX
}

/// Values per point that the first `i` entries of a view hold.
pub open spec fn view_count_prefix(fs: Seq<(Seq<char>, Dtype, int)>, i: int) -> int
    decreases i,
{
    if i <= 0 {
        0
    } else {
        view_count_prefix(fs, i - 1) + fs[i - 1].2
    }
}

/// Whether `line` still has a token for value `e` of view entry `i`.
pub open spec fn view_token_present(
    fs: Seq<(Seq<char>, Dtype, int)>,
    line: Seq<u8>,
    i: int,
    e: int,
) -> bool {
    token_start(line, (view_count_prefix(fs, i) + e) as nat) < line.len()
}

/// The token of `line` that supplies value `e` of view entry `i`.
pub open spec fn view_token_at(
    fs: Seq<(Seq<char>, Dtype, int)>,
    line: Seq<u8>,
    i: int,
    e: int,
) -> Seq<u8> {
    crate::io::kth_token(line, (view_count_prefix(fs, i) + e) as nat)
}

/// Whether `line` is a well-formed ASCII row under a header view's
/// schema: one token per value, each parsing under its entry's dtype,
/// nothing left over.
pub open spec fn view_row_ok(fs: Seq<(Seq<char>, Dtype, int)>, line: Seq<u8>) -> bool {
    &&& forall|i: int, e: int|
        0 <= i < fs.len() && 0 <= e < fs[i].2 ==> #[trigger] view_token_present(fs, line, i, e)
    &&& token_start(line, view_count_prefix(fs, fs.len() as int) as nat) == line.len()
    &&& forall|i: int, e: int|
        0 <= i < fs.len() && 0 <= e < fs[i].2 ==> element_from_token(
            fs[i].1,
            #[trigger] view_token_at(fs, line, i, e),
        ) is Some
}


/// Whether schema entries follow a header view's schema in dtype and
/// vector width.
pub open spec fn fields_follow_view_meta(
    fs: Seq<(Seq<char>, Dtype, int)>,
    metas: Seq<FieldMeta>,
) -> bool {
    &&& metas.len() == fs.len()
    &&& forall|i: int|
        0 <= i < metas.len() ==> (#[trigger] metas[i]).dtype == fs[i].1 && metas[i].count as int
            == fs[i].2
}

/// Whether stored fields follow a header view's schema in shape.
pub open spec fn fields_follow_view(fs: Seq<(Seq<char>, Dtype, int)>, fields: Seq<Field>) -> bool {
    &&& fields.len() == fs.len()
    &&& forall|i: int|
        0 <= i < fields.len() ==> (#[trigger] fields[i]).data.dtype_spec() == fs[i].1
            && fields[i].data.count_spec() as int == fs[i].2
}

/// A view's point size is its followers' point size.
pub proof fn lemma_view_point_size(fs: Seq<(Seq<char>, Dtype, int)>, fields: Seq<Field>)
    requires
        fields_follow_view(fs, fields),
    ensures
        view_point_size(fs) == fields_point_size(fields),
    decreases fs.len(),
{
    if fs.len() > 0 {
        assert forall|i: int|
            0 <= i < fields.drop_last().len() implies (#[trigger] fields.drop_last()[i]).data.dtype_spec()
            == fs.drop_last()[i].1 && fields.drop_last()[i].data.count_spec() as int
            == fs.drop_last()[i].2 by {
            assert(fields.drop_last()[i] == fields[i]);
            assert(fs.drop_last()[i] == fs[i]);
        }
        lemma_view_point_size(fs.drop_last(), fields.drop_last());
    }
}

/// A view's total size is its followers' total size, given that every
/// column holds `np` points.
pub proof fn lemma_view_total_size(
    fs: Seq<(Seq<char>, Dtype, int)>,
    fields: Seq<Field>,
    np: int,
)
    requires
        fields_follow_view(fs, fields),
        forall|i: int|
            0 <= i < fields.len() ==> (#[trigger] fields[i]).data.wf()
                && fields[i].data.npoints_spec() as int == np,
    ensures
        view_total_size(fs, np) == fields_total_size(fields),
    decreases fs.len(),
{
    if fs.len() > 0 {
        assert forall|i: int|
            0 <= i < fields.drop_last().len() implies (#[trigger] fields.drop_last()[i]).data.dtype_spec()
            == fs.drop_last()[i].1 && fields.drop_last()[i].data.count_spec() as int
            == fs.drop_last()[i].2 && fields.drop_last()[i].data.wf()
            && fields.drop_last()[i].data.npoints_spec() as int == np by {
            assert(fields.drop_last()[i] == fields[i]);
            assert(fs.drop_last()[i] == fs[i]);
        }
        lemma_view_total_size(fs.drop_last(), fields.drop_last(), np);
        let fd = fields.last().data;
        assert(fd.data_spec().len() == fd.npoints_spec() * fd.row_size_spec());
        assert(np * (fs.last().2 * dtype_size(fs.last().1)) == fd.npoints_spec() * (
        fd.count_spec() * dtype_size(fd.dtype_spec()))) by (nonlinear_arith)
            requires
                fs.last().2 == fd.count_spec() as int,
                fs.last().1 == fd.dtype_spec(),
                np == fd.npoints_spec() as int,
        ;
    }
}

/// A view's count prefixes are its followers' count prefixes.
pub proof fn lemma_view_count_prefix(
    fs: Seq<(Seq<char>, Dtype, int)>,
    fields: Seq<Field>,
    i: int,
)
    requires
        fields_follow_view(fs, fields),
        i <= fs.len(),
    ensures
        view_count_prefix(fs, i) == fields_count_prefix(fields, i) as int,
    decreases i,
{
    if i > 0 {
        lemma_view_count_prefix(fs, fields, i - 1);
    }
}

/// A view's row predicate is its followers' row predicate.
pub proof fn lemma_view_row_ok(
    fs: Seq<(Seq<char>, Dtype, int)>,
    fields: Seq<Field>,
    line: Seq<u8>,
)
    requires
        fields_follow_view(fs, fields),
    ensures
        view_row_ok(fs, line) == ascii_row_ok(fields, line),
{
    assert forall|i: int| 0 <= i <= fs.len() implies #[trigger] view_count_prefix(fs, i)
        == fields_count_prefix(fields, i) as int by {
        lemma_view_count_prefix(fs, fields, i);
    }
    assert forall|i: int, e: int|
        0 <= i < fs.len() && 0 <= e < fs[i].2 implies (#[trigger] view_token_present(fs, line, i, e)
        == row_token_present(fields, line, i, e)) && (#[trigger] view_token_at(fs, line, i, e)
        == row_token_at(fields, line, i, e)) by {
        let x = fs[i];
        let y = fields[i];
    }
    if view_row_ok(fs, line) {
        assert(crate::io::ascii_row_counts_ok(fields, line)) by {
            assert forall|i: int, e: int|
                0 <= i < fields.len() && 0 <= e < fields[i].data.count_spec()
                implies #[trigger] row_token_present(fields, line, i, e) by {
                assert(view_token_present(fs, line, i, e));
            }
        }
        assert(crate::io::ascii_row_values_ok(fields, line)) by {
            assert forall|i: int, e: int|
                0 <= i < fields.len() && 0 <= e < fields[i].data.count_spec()
                implies element_from_token(
                fields[i].data.dtype_spec(),
                #[trigger] row_token_at(fields, line, i, e),
            ) is Some by {
                assert(element_from_token(fs[i].1, view_token_at(fs, line, i, e)) is Some);
            }
        }
    }
    if ascii_row_ok(fields, line) {
        assert forall|i: int, e: int|
            0 <= i < fs.len() && 0 <= e < fs[i].2 implies #[trigger] view_token_present(
            fs,
            line,
            i,
            e,
        ) by {
            assert(row_token_present(fields, line, i, e));
        }
        assert forall|i: int, e: int|
            0 <= i < fs.len() && 0 <= e < fs[i].2 implies element_from_token(
            fs[i].1,
            #[trigger] view_token_at(fs, line, i, e),
        ) is Some by {
            assert(element_from_token(fields[i].data.dtype_spec(), row_token_at(fields, line, i, e))
                is Some);
        }
    }
}

} // verus!
