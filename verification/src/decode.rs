use vstd::prelude::*;
use vstd::slice::slice_subrange;
use vstd::string::StringExecFns;

use crate::data::{dview_row, dview_rows, dview_seq, WeechatData};
use crate::errors::{ErrorKind, WeechatParseError};
use crate::ext::lossy_utf8;
use crate::wire::{
    all_dec_digits, be_i32, be_u32, count_byte, dec_value, find_sep, is_dec_digit,
    lemma_find_sep, spec_data, spec_element, spec_key_pair, spec_keys, spec_long,
    spec_parse_i64, spec_ptr, spec_str32, spec_str8, utf8_lossy, ValueModel,
};

verus! {

/// A big-endian unsigned 32-bit integer read at the given offset.
pub(crate) fn be_u32_at(b: &[u8], off: usize) -> (r: u32)
    requires
        off + 4 <= b@.len(),
    ensures
        r == be_u32(b@.skip(off as int)),
        off == 0 ==> r == be_u32(b@),
{
    let r = (b[off] as u32) * 0x100_0000 + (b[off + 1] as u32) * 0x1_0000 + (b[off + 2] as u32)
        * 0x100 + (b[off + 3] as u32);
    proof {
        let s = b@.skip(off as int);
        assert(s[0] == b@[off as int] && s[1] == b@[off + 1] && s[2] == b@[off + 2] && s[3] == b@[
            off + 3
        ]);
        if off == 0 {
            assert(b@[0int] == s[0] && b@[1int] == s[1] && b@[2int] == s[2] && b@[3int] == s[3]);
        }
    }
    r
}

/// A big-endian signed 32-bit integer read at the given offset.
pub(crate) fn be_i32_at(b: &[u8], off: usize) -> (r: i32)
    requires
        off + 4 <= b@.len(),
    ensures
        r == be_i32(b@.skip(off as int)),
        off == 0 ==> r == be_i32(b@),
{
    #[verifier::truncate] (be_u32_at(b, off) as i32)
}

/// How the result of `read_string_32bit_length` relates to the wire model.
pub open spec fn str32_matches(
    r: Result<(usize, Option<String>), WeechatParseError>,
    b: Seq<u8>,
) -> bool {
    match r {
        Ok((n, v)) => match spec_str32(b) {
            Some((sn, sv)) => n == sn && n <= b.len() && (match (v, sv) {
                (Some(s), Some(ss)) => s@ == ss,
                (None, None) => true,
                _ => false,
            }),
            None => false,
        },
        Err(e) => spec_str32(b) is None && e.kind == ErrorKind::MalformedBinaryParse,
    }
}

/// A 32-bit-length-prefixed string: length `0` is the present empty value,
/// length `-1` the explicit null, any other negative length is rejected.
pub fn read_string_32bit_length(buffer: &[u8]) -> (r: Result<
    (usize, Option<String>),
    WeechatParseError,
>)
    ensures
        str32_matches(r, buffer@),
{
    if buffer.len() < 4 {
        return Err(
            WeechatParseError::new(
                ErrorKind::MalformedBinaryParse,
                "string length field is truncated",
            ),
        );
    }
    let size = be_i32_at(buffer, 0);
    if size == 0 {
        Ok((4, Some(String::new())))
    } else if size == -1 {
        Ok((4, None))
    } else if size < 0 {
        Err(WeechatParseError::new(ErrorKind::MalformedBinaryParse, "negative string length"))
    } else {
        let sz = size as usize;
        if buffer.len() - 4 < sz {
            return Err(
                WeechatParseError::new(
                    ErrorKind::MalformedBinaryParse,
                    "string body is truncated",
                ),
            );
        }
        let body = slice_subrange(buffer, 4, 4 + sz);
        let s = lossy_utf8(body);
        Ok((4 + sz, Some(s)))
    }
}

/// How the result of `read_string_8bit_length` relates to the wire model.
pub open spec fn str8_matches(
    r: Result<(usize, String), WeechatParseError>,
    b: Seq<u8>,
) -> bool {
    match r {
        Ok((n, s)) => spec_str8(b) == Some((n as nat, s@)) && n <= b.len(),
        Err(e) => spec_str8(b) is None && e.kind == ErrorKind::MalformedBinaryParse,
    }
}

/// An 8-bit-length-prefixed string.
pub fn read_string_8bit_length(buffer: &[u8]) -> (r: Result<(usize, String), WeechatParseError>)
    ensures
        str8_matches(r, buffer@),
{
    if buffer.len() < 1 {
        return Err(
            WeechatParseError::new(
                ErrorKind::MalformedBinaryParse,
                "string length byte is missing",
            ),
        );
    }
    let n = buffer[0] as usize;
    if buffer.len() - 1 < n {
        return Err(
            WeechatParseError::new(ErrorKind::MalformedBinaryParse, "string body is truncated"),
        );
    }
    let body = slice_subrange(buffer, 1, 1 + n);
    let s = lossy_utf8(body);
    Ok((1 + n, s))
}

/// The digits of the whole string are worth at least those of any prefix,
/// provided the bytes past the prefix are digits and the prefix is
/// non-negative.
proof fn lemma_dec_value_grows(s: Seq<u8>, i: int)
    requires
        0 <= i <= s.len(),
        dec_value(s.take(i)) >= 0,
        forall|k: int| i <= k < s.len() ==> is_dec_digit(#[trigger] s[k]),
    ensures
        dec_value(s) >= dec_value(s.take(i)),
    decreases s.len() - i,
{
    if i == s.len() {
        assert(s.take(i) =~= s);
    } else {
        let t = s.take(i + 1);
        assert(t.drop_last() =~= s.take(i));
        assert(t.last() == s[i]);
        lemma_dec_value_grows(s, i + 1);
    }
}

/// A signed decimal byte string as a 64-bit integer: an optional sign, then
/// one or more digits, rejected where a byte is no digit or the value does
/// not fit.
pub fn parse_decimal_i64(digits: &[u8]) -> (r: Result<i64, WeechatParseError>)
    ensures
        match r {
            Ok(v) => spec_parse_i64(digits@) == Some(v),
            Err(e) => spec_parse_i64(digits@) is None && e.kind
                == ErrorKind::MalformedBinaryParse,
        },
{
    let len = digits.len();
    let neg = len > 0 && digits[0] == 45;
    let start: usize = if len > 0 && (digits[0] == 45 || digits[0] == 43) {
        1
    } else {
        0
    };
    let ghost dg = if start == 1 {
        digits@.skip(1)
    } else {
        digits@
    };
    if start >= len {
        return Err(
            WeechatParseError::new(ErrorKind::MalformedBinaryParse, "empty number string"),
        );
    }
    let bound: u64 = if neg {
        0x8000_0000_0000_0000
    } else {
        0x7fff_ffff_ffff_ffff
    };
    let mut acc: u64 = 0;
    let mut i = start;
    while i < len
        invariant
            start <= i <= len,
            len == digits@.len(),
            start == 0 || start == 1,
            (start == 1) == (digits@.len() > 0 && (digits@[0] == 45 || digits@[0] == 43)),
            neg == (digits@.len() > 0 && digits@[0] == 45),
            bound == if neg {
                0x8000_0000_0000_0000u64
            } else {
                0x7fff_ffff_ffff_ffffu64
            },
            start == 1 ==> dg == digits@.skip(1),
            start == 0 ==> dg == digits@,
            dg.len() == len - start,
            forall|k: int| 0 <= k < dg.len() ==> dg[k] == digits@[k + start],
            acc == dec_value(dg.take(i - start)),
            acc <= bound,
            all_dec_digits(dg.take(i - start)),
        decreases len - i,
    {
        let d = digits[i];
        if d < 48 || d > 57 {
            proof {
                assert(dg[i - start] == digits@[i as int]);
                assert(!all_dec_digits(dg));
            }
            return Err(
                WeechatParseError::new(ErrorKind::MalformedBinaryParse, "invalid decimal digit"),
            );
        }
        let dv = (d - 48) as u64;
        let step = match acc.checked_mul(10) {
            Some(m) => m.checked_add(dv),
            None => None,
        };
        let next = match step {
            Some(v) => {
                if v > bound {
                    None
                } else {
                    Some(v)
                }
            },
            None => None,
        };
        match next {
            Some(v) => {
                proof {
                    let t = dg.take(i - start + 1);
                    assert(t.drop_last() =~= dg.take(i - start));
                    assert(t.last() == dg[i - start] && dg[i - start] == digits@[i as int]);
                    assert forall|k: int| 0 <= k < t.len() implies is_dec_digit(#[trigger] t[k]) by {
                        if k < i - start {
                            assert(is_dec_digit(dg.take(i - start)[k]));
                        }
                    }
                }
                acc = v;
                i = i + 1;
            },
            None => {
                // The value through this digit already exceeds the bound, so
                // the whole digit string is out of range (or holds a later
                // non-digit byte, which rejects it too).
                proof {
                    let t = dg.take(i - start + 1);
                    assert(t.drop_last() =~= dg.take(i - start));
                    assert(t.last() == dg[i - start] && dg[i - start] == digits@[i as int]);
                    assert(dec_value(t) == acc * 10 + dv);
                    assert(dec_value(t) > bound);
                    if all_dec_digits(dg) {
                        lemma_dec_value_grows(dg, i - start + 1);
                        assert(dec_value(dg) > bound);
                    }
                }
                return Err(
                    WeechatParseError::new(
                        ErrorKind::MalformedBinaryParse,
                        "decimal number out of range",
                    ),
                );
            },
        }
    }
    proof {
        assert(dg.take(i - start) =~= dg);
    }
    let v: i64 = if neg {
        if acc == 0x8000_0000_0000_0000 {
            i64::MIN
        } else {
            -(acc as i64)
        }
    } else {
        acc as i64
    };
    Ok(v)
}

/// A `lon` element: an 8-bit length, then that many signed decimal digits.
pub fn read_long(buffer: &[u8]) -> (r: Result<(usize, i64), WeechatParseError>)
    ensures
        match r {
            Ok((n, v)) => spec_long(buffer@) == Some((n as nat, v)) && n <= buffer@.len(),
            Err(e) => spec_long(buffer@) is None && e.kind == ErrorKind::MalformedBinaryParse,
        },
{
    if buffer.len() < 1 {
        return Err(
            WeechatParseError::new(ErrorKind::MalformedBinaryParse, "number length byte is missing"),
        );
    }
    let n = buffer[0] as usize;
    if buffer.len() - 1 < n {
        return Err(
            WeechatParseError::new(ErrorKind::MalformedBinaryParse, "number body is truncated"),
        );
    }
    let body = slice_subrange(buffer, 1, 1 + n);
    let v = parse_decimal_i64(body)?;
    Ok((1 + n, v))
}

/// A `ptr` element, rendered with its `0x` prefix; an empty digit payload is
/// the null pointer `0x0`.
pub fn read_pointer(buffer: &[u8]) -> (r: Result<(usize, String), WeechatParseError>)
    ensures
        match r {
            Ok((n, s)) => spec_ptr(buffer@) == Some((n as nat, s@)) && n <= buffer@.len(),
            Err(e) => spec_ptr(buffer@) is None && e.kind == ErrorKind::MalformedBinaryParse,
        },
{
    if buffer.len() < 1 {
        return Err(
            WeechatParseError::new(
                ErrorKind::MalformedBinaryParse,
                "pointer length byte is missing",
            ),
        );
    }
    let n = buffer[0] as usize;
    if buffer.len() - 1 < n {
        return Err(
            WeechatParseError::new(ErrorKind::MalformedBinaryParse, "pointer body is truncated"),
        );
    }
    if n == 0 {
        let s = "0x0".to_owned();
        proof {
            reveal_strlit("0x0");
            assert(s@ =~= seq!['0', 'x', '0']);
        }
        Ok((1, s))
    } else {
        let body = slice_subrange(buffer, 1, 1 + n);
        let digits = lossy_utf8(body);
        let mut s = "0x".to_owned();
        s.append(digits.as_str());
        proof {
            reveal_strlit("0x");
            assert(s@ =~= seq!['0', 'x'] + utf8_lossy(buffer@.subrange(1, 1 + n as int)));
        }
        Ok((1 + n, s))
    }
}

/// A `tim` element: the same wire encoding as `lon`, kept as its decimal
/// string.
pub fn read_time(buffer: &[u8]) -> (r: Result<(usize, String), WeechatParseError>)
    ensures
        str8_matches(r, buffer@),
{
    read_string_8bit_length(buffer)
}

} // verus!

verus! {

/// The view of a declared key list: each field name and type as characters.
pub open spec fn keys_view(ks: Seq<(String, String)>) -> Seq<(Seq<char>, Seq<char>)> {
    Seq::new(ks.len(), |i: int| (ks[i].0@, ks[i].1@))
}

/// The index of the first occurrence of `sep` in the slice, if any.
fn find_byte(b: &[u8], sep: u8) -> (r: Option<usize>)
    ensures
        match r {
            Some(i) => find_sep(b@, sep) == Some(i as int) && i < b@.len(),
            None => find_sep(b@, sep) is None,
        },
{
    let mut i: usize = 0;
    while i < b.len()
        invariant
            i <= b@.len(),
            forall|k: int| 0 <= k < i ==> b@[k] != sep,
        decreases b@.len() - i,
    {
        if b[i] == sep {
            proof {
                lemma_find_sep(b@, sep);
            }
            return Some(i);
        }
        i = i + 1;
    }
    proof {
        lemma_find_sep(b@, sep);
    }
    None
}

/// One `name:type` chunk of the declared key string.
fn parse_key_chunk(chunk: &[u8]) -> (r: Result<(String, String), WeechatParseError>)
    ensures
        match r {
            Ok(p) => spec_key_pair(chunk@) == Some((p.0@, p.1@)),
            Err(e) => spec_key_pair(chunk@) is None && e.kind
                == ErrorKind::MalformedBinaryParse,
        },
{
    match find_byte(chunk, 58) {
        None => Err(
            WeechatParseError::new(
                ErrorKind::MalformedBinaryParse,
                "hdata key declaration lacks a type",
            ),
        ),
        Some(i) => {
            let clen = chunk.len();
            let name = lossy_utf8(slice_subrange(chunk, 0, i));
            let rest = slice_subrange(chunk, i + 1, clen);
            let t_end = match find_byte(rest, 58) {
                None => rest.len(),
                Some(j) => j,
            };
            let tname = lossy_utf8(slice_subrange(rest, 0, t_end));
            proof {
                assert(chunk@.subrange(0, i as int) =~= chunk@.take(i as int));
                let sr = chunk@.skip(i + 1);
                assert(rest@ =~= sr);
                if find_sep(sr, 58) is None {
                    assert(rest@.subrange(0, t_end as int) =~= sr);
                } else {
                    assert(rest@.subrange(0, t_end as int) =~= sr.take(
                        find_sep(sr, 58)->0,
                    ));
                }
            }
            Ok((name, tname))
        },
    }
}

/// The comma-separated `name:type` declarations of an hdata's keys.
fn parse_keys(b: &[u8]) -> (r: Result<Vec<(String, String)>, WeechatParseError>)
    ensures
        match r {
            Ok(ks) => spec_keys(b@) == Some(keys_view(ks@)),
            Err(e) => spec_keys(b@) is None && e.kind == ErrorKind::MalformedBinaryParse,
        },
    decreases b@.len(),
{
    match find_byte(b, 44) {
        None => {
            let p = parse_key_chunk(b)?;
            let mut v: Vec<(String, String)> = Vec::new();
            let ghost pm = (p.0@, p.1@);
            v.push(p);
            proof {
                assert(keys_view(v@) =~= seq![pm]);
            }
            Ok(v)
        },
        Some(i) => {
            let blen = b.len();
            let p = parse_key_chunk(slice_subrange(b, 0, i))?;
            let mut rest = parse_keys(slice_subrange(b, i + 1, blen))?;
            let ghost pm = (p.0@, p.1@);
            let ghost old_rest = rest@;
            rest.insert(0, p);
            proof {
                assert(b@.subrange(0, i as int) =~= b@.take(i as int));
                assert(b@.subrange(i + 1, b@.len() as int) =~= b@.skip(i + 1));
                assert(keys_view(rest@) =~= seq![pm] + keys_view(old_rest));
            }
            Ok(rest)
        },
    }
}

/// How many times the byte `0x2f` (a `/` separator) occurs in the slice.
fn count_slashes(b: &[u8]) -> (r: usize)
    ensures
        r == count_byte(b@, 47),
        r <= b@.len(),
{
    let mut cnt: usize = 0;
    let mut i: usize = 0;
    while i < b.len()
        invariant
            i <= b@.len(),
            cnt <= i,
            cnt == count_byte(b@.take(i as int), 47),
        decreases b@.len() - i,
    {
        proof {
            let t = b@.take(i + 1);
            assert(t.drop_last() =~= b@.take(i as int));
            assert(t.last() == b@[i as int]);
        }
        if b[i] == 47 {
            cnt = cnt + 1;
        }
        i = i + 1;
    }
    proof {
        assert(b@.take(b@.len() as int) =~= b@);
    }
    cnt
}

/// The 3-byte type tag at the start of the buffer, as text.
pub fn get_element_type(buffer: &[u8]) -> (r: String)
    requires
        buffer@.len() >= 3,
    ensures
        r@ == utf8_lossy(buffer@.take(3)),
{
    let s = lossy_utf8(slice_subrange(buffer, 0, 3));
    proof {
        assert(buffer@.subrange(0, 3) =~= buffer@.take(3));
    }
    s
}

/// `n` consecutive `str` elements of an array.
fn read_items_str(n: usize, buffer: &[u8]) -> (r: Result<
    (usize, Vec<WeechatData>),
    WeechatParseError,
>)
    ensures
        match r {
            Ok((c, v)) => crate::wire::spec_items_str(n as nat, buffer@) == Some(
                (c as nat, dview_seq(v@)),
            ) && c <= buffer@.len(),
            Err(e) => crate::wire::spec_items_str(n as nat, buffer@) is None,
        },
    decreases n,
{
    if n == 0 {
        let v: Vec<WeechatData> = Vec::new();
        proof {
            assert(dview_seq(v@) =~= Seq::<ValueModel>::empty());
        }
        Ok((0, v))
    } else {
        let (c, sv) = read_string_32bit_length(buffer)?;
        let item = match sv {
            Some(s) => WeechatData::String(s),
            None => WeechatData::StringNull,
        };
        let (c2, mut rest) = read_items_str(n - 1, slice_subrange(buffer, c, buffer.len()))?;
        let ghost old_rest = rest@;
        let ghost im = item.dview();
        rest.insert(0, item);
        proof {
            assert(dview_seq(rest@) =~= seq![im] + dview_seq(old_rest));
        }
        Ok((c + c2, rest))
    }
}

/// `n` consecutive `int` elements of an array.
fn read_items_int(n: usize, buffer: &[u8]) -> (r: Result<
    (usize, Vec<WeechatData>),
    WeechatParseError,
>)
    ensures
        match r {
            Ok((c, v)) => crate::wire::spec_items_int(n as nat, buffer@) == Some(
                (c as nat, dview_seq(v@)),
            ) && c <= buffer@.len(),
            Err(e) => crate::wire::spec_items_int(n as nat, buffer@) is None,
        },
    decreases n,
{
    if n == 0 {
        let v: Vec<WeechatData> = Vec::new();
        proof {
            assert(dview_seq(v@) =~= Seq::<ValueModel>::empty());
        }
        Ok((0, v))
    } else {
        if buffer.len() < 4 {
            return Err(
                WeechatParseError::new(ErrorKind::MalformedBinaryParse, "int data is truncated"),
            );
        }
        let item = WeechatData::Int(be_i32_at(buffer, 0));
        let (c2, mut rest) = read_items_int(n - 1, slice_subrange(buffer, 4, buffer.len()))?;
        let ghost old_rest = rest@;
        let ghost im = item.dview();
        rest.insert(0, item);
        proof {
            assert(dview_seq(rest@) =~= seq![im] + dview_seq(old_rest));
        }
        Ok((4 + c2, rest))
    }
}

/// An `arr` element past its tag: a 3-byte element type, a 4-byte count, then
/// that many elements of that single type; only `str` and `int` element types
/// are supported.
pub fn read_array(buffer: &[u8]) -> (r: Result<(usize, Vec<WeechatData>), WeechatParseError>)
    ensures
        match r {
            Ok((n, v)) => spec_element(seq!['a', 'r', 'r'], buffer@) == Some(
                (n as nat, ValueModel::Array(dview_seq(v@))),
            ) && n <= buffer@.len(),
            Err(e) => spec_element(seq!['a', 'r', 'r'], buffer@) is None,
        },
{
    if buffer.len() < 7 {
        return Err(
            WeechatParseError::new(ErrorKind::MalformedBinaryParse, "array header is truncated"),
        );
    }
    let etag = get_element_type(buffer);
    let count_i = be_i32_at(buffer, 3);
    if count_i < 0 {
        return Err(
            WeechatParseError::new(ErrorKind::MalformedBinaryParse, "negative array count"),
        );
    }
    let count = count_i as usize;
    if etag.as_str().unicode_len() == 3 {
        let e0 = etag.as_str().get_char(0);
        let e1 = etag.as_str().get_char(1);
        let e2 = etag.as_str().get_char(2);
        if e0 == 's' && e1 == 't' && e2 == 'r' {
            proof {
                assert(etag@ =~= seq!['s', 't', 'r']);
            }
            let (c, v) = read_items_str(count, slice_subrange(buffer, 7, buffer.len()))?;
            return Ok((7 + c, v));
        }
        if e0 == 'i' && e1 == 'n' && e2 == 't' {
            proof {
                assert(etag@ =~= seq!['i', 'n', 't']);
            }
            let (c, v) = read_items_int(count, slice_subrange(buffer, 7, buffer.len()))?;
            return Ok((7 + c, v));
        }
    }
    proof {
        assert(etag@ != seq!['s', 't', 'r'] && etag@ != seq!['i', 'n', 't']);
    }
    Err(
        WeechatParseError::with_tag(
            ErrorKind::UnknownType,
            "array is not implemented for this element type",
            etag,
        ),
    )
}

} // verus!

verus! {

/// `n` consecutive `ptr` elements: one row's leading pointers.
fn read_ptrs(n: usize, buffer: &[u8]) -> (r: Result<(usize, Vec<WeechatData>), WeechatParseError>)
    ensures
        match r {
            Ok((c, v)) => crate::wire::spec_ptrs(n as nat, buffer@) == Some(
                (c as nat, dview_seq(v@)),
            ) && c <= buffer@.len(),
            Err(e) => crate::wire::spec_ptrs(n as nat, buffer@) is None,
        },
    decreases n,
{
    if n == 0 {
        let v: Vec<WeechatData> = Vec::new();
        proof {
            assert(dview_seq(v@) =~= Seq::<ValueModel>::empty());
        }
        Ok((0, v))
    } else {
        let blen = buffer.len();
        let (c, s) = read_pointer(buffer)?;
        let (c2, mut rest) = read_ptrs(n - 1, slice_subrange(buffer, c, blen))?;
        let ghost old_rest = rest@;
        let item = WeechatData::Pointer(s);
        let ghost im = item.dview();
        rest.insert(0, item);
        proof {
            assert(dview_seq(rest@) =~= seq![im] + dview_seq(old_rest));
        }
        Ok((c + c2, rest))
    }
}

/// One row's declared fields from index `idx` on, each decoded with the type
/// its declaration names, strictly in declared order.
fn read_fields(keys: &Vec<(String, String)>, idx: usize, buffer: &[u8]) -> (r: Result<
    (usize, Vec<(String, WeechatData)>),
    WeechatParseError,
>)
    requires
        idx <= keys@.len(),
    ensures
        match r {
            Ok((c, f)) => crate::wire::spec_fields(keys_view(keys@).skip(idx as int), buffer@)
                == Some((c as nat, dview_row(f@))) && c <= buffer@.len(),
            Err(e) => crate::wire::spec_fields(
                keys_view(keys@).skip(idx as int),
                buffer@,
            ) is None,
        },
    decreases buffer@.len(), 2nat, keys@.len() - idx,
{
    let ghost kv = keys_view(keys@).skip(idx as int);
    if idx >= keys.len() {
        let v: Vec<(String, WeechatData)> = Vec::new();
        proof {
            assert(kv =~= Seq::<(Seq<char>, Seq<char>)>::empty());
            assert(dview_row(v@) =~= Seq::<(Seq<char>, ValueModel)>::empty());
        }
        Ok((0, v))
    } else {
        let blen = buffer.len();
        proof {
            assert(kv[0] == (keys@[idx as int].0@, keys@[idx as int].1@));
        }
        let (c, v) = parse_element(keys[idx].1.as_str(), buffer)?;
        let name = keys[idx].0.clone();
        proof {
            assert(kv.skip(1) =~= keys_view(keys@).skip(idx + 1));
        }
        let (c2, mut rest) = read_fields(keys, idx + 1, slice_subrange(buffer, c, blen))?;
        let ghost old_rest = rest@;
        let ghost nm = name@;
        let ghost vm = v.dview();
        rest.insert(0, (name, v));
        proof {
            assert(dview_row(rest@) =~= seq![(nm, vm)] + dview_row(old_rest));
        }
        Ok((c + c2, rest))
    }
}

/// `n` hdata rows: each row's pointers, appended to one flattened list that
/// spans all rows, then its declared fields.
fn read_rows(pc: usize, keys: &Vec<(String, String)>, n: usize, buffer: &[u8]) -> (r: Result<
    (usize, Vec<WeechatData>, Vec<Vec<(String, WeechatData)>>),
    WeechatParseError,
>)
    ensures
        match r {
            Ok((c, ptrs, rows)) => crate::wire::spec_rows(
                pc as nat,
                keys_view(keys@),
                n as nat,
                buffer@,
            ) == Some((c as nat, dview_seq(ptrs@), dview_rows(rows@))) && c <= buffer@.len(),
            Err(e) => crate::wire::spec_rows(
                pc as nat,
                keys_view(keys@),
                n as nat,
                buffer@,
            ) is None,
        },
    decreases buffer@.len(), 3nat, n,
{
    if n == 0 {
        let ptrs: Vec<WeechatData> = Vec::new();
        let rows: Vec<Vec<(String, WeechatData)>> = Vec::new();
        proof {
            assert(dview_seq(ptrs@) =~= Seq::<ValueModel>::empty());
            assert(dview_rows(rows@) =~= Seq::<Seq<(Seq<char>, ValueModel)>>::empty());
        }
        Ok((0, ptrs, rows))
    } else {
        let blen = buffer.len();
        let (cp, mut ptrs) = read_ptrs(pc, buffer)?;
        proof {
            assert(keys_view(keys@).skip(0) =~= keys_view(keys@));
        }
        let (cf, row) = read_fields(keys, 0, slice_subrange(buffer, cp, blen))?;
        let (c2, mut ptrs2, mut rows) = read_rows(
            pc,
            keys,
            n - 1,
            slice_subrange(buffer, cp + cf, blen),
        )?;
        let ghost op = ptrs@;
        let ghost op2 = ptrs2@;
        let ghost or = rows@;
        let ghost rm = dview_row(row@);
        ptrs.append(&mut ptrs2);
        rows.insert(0, row);
        proof {
            assert(dview_seq(ptrs@) =~= dview_seq(op) + dview_seq(op2));
            assert(dview_rows(rows@) =~= seq![rm] + dview_rows(or));
        }
        Ok((cp + cf + c2, ptrs, rows))
    }
}

/// An `hda` element past its tag: a path name whose `/` separators set the
/// pointers per row, a declared key list, a row count, then the rows.
pub fn read_hdata(buffer: &[u8]) -> (r: Result<
    (usize, String, Vec<WeechatData>, Vec<Vec<(String, WeechatData)>>),
    WeechatParseError,
>)
    ensures
        match r {
            Ok((n, name, ptrs, rows)) => spec_element(seq!['h', 'd', 'a'], buffer@) == Some(
                (n as nat, ValueModel::Hdata(name@, dview_seq(ptrs@), dview_rows(rows@))),
            ) && n <= buffer@.len(),
            Err(e) => spec_element(seq!['h', 'd', 'a'], buffer@) is None,
        },
    decreases buffer@.len(), 0nat, 0nat,
{
    let blen = buffer.len();
    if blen < 4 {
        return Err(
            WeechatParseError::new(ErrorKind::MalformedBinaryParse, "hdata header is truncated"),
        );
    }
    let nsz = be_i32_at(buffer, 0);
    if nsz < 0 {
        return Err(
            WeechatParseError::new(ErrorKind::MalformedBinaryParse, "hdata path name is missing"),
        );
    }
    let name_len = nsz as usize;
    if blen - 4 < name_len {
        return Err(
            WeechatParseError::new(ErrorKind::MalformedBinaryParse, "hdata path is truncated"),
        );
    }
    let name_bytes = slice_subrange(buffer, 4, 4 + name_len);
    let name = lossy_utf8(name_bytes);
    let pc = count_slashes(name_bytes) + 1;
    let p1 = 4 + name_len;
    let ghost b2 = buffer@.skip(p1 as int);
    if blen - p1 < 4 {
        return Err(
            WeechatParseError::new(ErrorKind::MalformedBinaryParse, "hdata keys are truncated"),
        );
    }
    let ksz = be_i32_at(buffer, p1);
    if ksz < 0 {
        return Err(
            WeechatParseError::new(ErrorKind::MalformedBinaryParse, "hdata keys are missing"),
        );
    }
    let keys_len = ksz as usize;
    let p2 = p1 + 4;
    if blen - p2 < keys_len {
        return Err(
            WeechatParseError::new(ErrorKind::MalformedBinaryParse, "hdata keys are truncated"),
        );
    }
    let key_bytes = slice_subrange(buffer, p2, p2 + keys_len);
    proof {
        assert(key_bytes@ =~= b2.subrange(4, 4 + ksz as int));
    }
    let keys = parse_keys(key_bytes)?;
    let p3 = p2 + keys_len;
    let ghost b3 = b2.skip(4 + ksz as int);
    proof {
        assert(b3 =~= buffer@.skip(p3 as int));
    }
    if blen - p3 < 4 {
        return Err(
            WeechatParseError::new(
                ErrorKind::MalformedBinaryParse,
                "hdata row count is truncated",
            ),
        );
    }
    let rc = be_i32_at(buffer, p3);
    if rc < 0 {
        return Err(
            WeechatParseError::new(ErrorKind::MalformedBinaryParse, "negative hdata row count"),
        );
    }
    let p4 = p3 + 4;
    proof {
        assert(b3.skip(4) =~= buffer@.skip(p4 as int));
    }
    let (c, ptrs, rows) = read_rows(pc, &keys, rc as usize, slice_subrange(buffer, p4, blen))?;
    Ok((p4 + c, name, ptrs, rows))
}

/// Whether the 3-character tag names one of the wire types.
pub open spec fn known_tag(tag: Seq<char>) -> bool {
    ||| tag == seq!['c', 'h', 'r']
    ||| tag == seq!['i', 'n', 't']
    ||| tag == seq!['l', 'o', 'n']
    ||| tag == seq!['s', 't', 'r']
    ||| tag == seq!['b', 'u', 'f']
    ||| tag == seq!['p', 't', 'r']
    ||| tag == seq!['t', 'i', 'm']
    ||| tag == seq!['a', 'r', 'r']
    ||| tag == seq!['h', 'd', 'a']
}

/// How the result of `parse_element` relates to the wire model.
pub open spec fn element_matches(
    r: Result<(usize, WeechatData), WeechatParseError>,
    tag: Seq<char>,
    b: Seq<u8>,
) -> bool {
    match r {
        Ok((n, v)) => spec_element(tag, b) == Some((n as nat, v.dview())) && n <= b.len(),
        Err(e) => spec_element(tag, b) is None,
    }
}

/// One tagged element whose 3-character type tag was already read: the bytes
/// it consumes past the tag, and its decoded value.
pub fn parse_element(element_type: &str, buffer: &[u8]) -> (r: Result<
    (usize, WeechatData),
    WeechatParseError,
>)
    ensures
        element_matches(r, element_type@, buffer@),
        r is Err && !known_tag(element_type@) ==> r->Err_0.kind == ErrorKind::UnknownType,
    decreases buffer@.len(), 1nat, 0nat,
{
    if element_type.unicode_len() != 3 {
        return Err(
            WeechatParseError::with_tag(
                ErrorKind::UnknownType,
                "got unfamiliar type",
                element_type.to_owned(),
            ),
        );
    }
    let c0 = element_type.get_char(0);
    let c1 = element_type.get_char(1);
    let c2 = element_type.get_char(2);
    proof {
        assert(element_type@[0] == c0 && element_type@[1] == c1 && element_type@[2] == c2);
    }
    if c0 == 'c' && c1 == 'h' && c2 == 'r' {
        proof {
            assert(element_type@ =~= seq!['c', 'h', 'r']);
        }
        if buffer.len() < 1 {
            Err(WeechatParseError::new(ErrorKind::MalformedBinaryParse, "couldn't read char data"))
        } else {
            Ok((1, WeechatData::Char(buffer[0] as char)))
        }
    } else if c0 == 'i' && c1 == 'n' && c2 == 't' {
        proof {
            assert(element_type@ =~= seq!['i', 'n', 't']);
        }
        if buffer.len() < 4 {
            Err(WeechatParseError::new(ErrorKind::MalformedBinaryParse, "couldn't read int data"))
        } else {
            Ok((4, WeechatData::Int(be_i32_at(buffer, 0))))
        }
    } else if c0 == 'l' && c1 == 'o' && c2 == 'n' {
        proof {
            assert(element_type@ =~= seq!['l', 'o', 'n']);
        }
        let (n, v) = read_long(buffer)?;
        Ok((n, WeechatData::Long(v)))
    } else if c0 == 's' && c1 == 't' && c2 == 'r' {
        proof {
            assert(element_type@ =~= seq!['s', 't', 'r']);
        }
        let (n, v) = read_string_32bit_length(buffer)?;
        match v {
            Some(s) => Ok((n, WeechatData::String(s))),
            None => Ok((n, WeechatData::StringNull)),
        }
    } else if c0 == 'b' && c1 == 'u' && c2 == 'f' {
        proof {
            assert(element_type@ =~= seq!['b', 'u', 'f']);
        }
        let (n, v) = read_string_32bit_length(buffer)?;
        match v {
            Some(s) => Ok((n, WeechatData::Buffer(s))),
            None => Ok((n, WeechatData::BufferNull)),
        }
    } else if c0 == 'p' && c1 == 't' && c2 == 'r' {
        proof {
            assert(element_type@ =~= seq!['p', 't', 'r']);
        }
        let (n, v) = read_pointer(buffer)?;
        Ok((n, WeechatData::Pointer(v)))
    } else if c0 == 't' && c1 == 'i' && c2 == 'm' {
        proof {
            assert(element_type@ =~= seq!['t', 'i', 'm']);
        }
        let (n, v) = read_time(buffer)?;
        Ok((n, WeechatData::Time(v)))
    } else if c0 == 'a' && c1 == 'r' && c2 == 'r' {
        proof {
            assert(element_type@ =~= seq!['a', 'r', 'r']);
        }
        let (n, v) = read_array(buffer)?;
        Ok((n, WeechatData::Array(v)))
    } else if c0 == 'h' && c1 == 'd' && c2 == 'a' {
        proof {
            assert(element_type@ =~= seq!['h', 'd', 'a']);
        }
        let (n, name, ptrs, rows) = read_hdata(buffer)?;
        Ok((n, WeechatData::Hdata(name, ptrs, rows)))
    } else {
        Err(
            WeechatParseError::with_tag(
                ErrorKind::UnknownType,
                "got unfamiliar type",
                element_type.to_owned(),
            ),
        )
    }
}

/// How the result of `parse_data` relates to the wire model.
pub open spec fn data_matches(r: Result<Vec<WeechatData>, WeechatParseError>, b: Seq<u8>) -> bool {
    match r {
        Ok(v) => spec_data(b) == Some(dview_seq(v@)),
        Err(e) => spec_data(b) is None,
    }
}

/// The sequence of tagged elements that exactly tiles the first `length`
/// bytes: repeatedly a 3-byte tag, then the element it names, until no byte
/// is left; trailing or missing bytes are malformed.
pub fn parse_data(buffer: &[u8], length: usize) -> (r: Result<Vec<WeechatData>, WeechatParseError>)
    requires
        length == buffer@.len(),
    ensures
        data_matches(r, buffer@),
    decreases buffer@.len(),
{
    let blen = buffer.len();
    if blen == 0 {
        let v: Vec<WeechatData> = Vec::new();
        proof {
            assert(dview_seq(v@) =~= Seq::<ValueModel>::empty());
        }
        Ok(v)
    } else if blen < 3 {
        Err(WeechatParseError::new(ErrorKind::MalformedBinaryParse, "element tag is truncated"))
    } else {
        let tag = get_element_type(buffer);
        let (c, v) = parse_element(tag.as_str(), slice_subrange(buffer, 3, blen))?;
        let mut rest = parse_data(slice_subrange(buffer, 3 + c, blen), length - 3 - c)?;
        let ghost old_rest = rest@;
        let ghost vm = v.dview();
        rest.insert(0, v);
        proof {
            assert(dview_seq(rest@) =~= seq![vm] + dview_seq(old_rest));
        }
        Ok(rest)
    }
}

} // verus!

