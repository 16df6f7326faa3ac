use vstd::prelude::*;

verus! {

/// The character sequence that `String::from_utf8_lossy` decodes from the
/// given bytes. It depends on the bytes alone; the wrapper `ext::lossy_utf8`
/// produces it.
pub uninterp spec fn utf8_lossy(bytes: Seq<u8>) -> Seq<char>;

/// The bytes a zlib stream inflates to, or `None` where the stream is
/// malformed. It depends on the compressed bytes alone; the wrapper
/// `ext::inflate` produces it.
pub uninterp spec fn zlib_inflate(bytes: Seq<u8>) -> Option<Seq<u8>>;

/// The mathematical model of one decoded value.
pub enum ValueModel {
    Char(char),
    Int(i32),
    Long(i64),
    Str(Seq<char>),
    StrNull,
    Buf(Seq<char>),
    BufNull,
    Ptr(Seq<char>),
    Time(Seq<char>),
    Array(Seq<ValueModel>),
    /// Path name, flattened pointers of all rows, and rows of named fields
    /// in declared key order.
    Hdata(Seq<char>, Seq<ValueModel>, Seq<Seq<(Seq<char>, ValueModel)>>),
}

/// The mathematical model of one decoded message.
pub struct MessageModel {
    pub id: Seq<char>,
    pub data: Seq<ValueModel>,
}

/// The default identifier used where a frame carries a null identifier.
pub open spec fn default_id() -> Seq<char> {
    seq!['t', 'e', 's', 't']
}

/// A big-endian unsigned 32-bit integer read from the first four bytes.
pub open spec fn be_u32(b: Seq<u8>) -> u32
    recommends
        b.len() >= 4,
{
    (b[0] * 0x100_0000 + b[1] * 0x1_0000 + b[2] * 0x100 + b[3]) as u32
}

/// A big-endian signed 32-bit integer read from the first four bytes.
pub open spec fn be_i32(b: Seq<u8>) -> i32
    recommends
        b.len() >= 4,
{
    be_u32(b) as i32
}

/// A 32-bit-length-prefixed string: `Some((consumed, None))` is the explicit
/// null value (length -1), `Some((consumed, Some(chars)))` a present value.
pub open spec fn spec_str32(b: Seq<u8>) -> Option<(nat, Option<Seq<char>>)> {
    if b.len() < 4 {
        None
    } else {
        let size = be_i32(b.take(4));
        if size == 0 {
            Some((4nat, Some(Seq::<char>::empty())))
        } else if size == -1 {
            Some((4nat, None))
        } else if size < 0 {
            None
        } else if b.len() < 4 + size {
            None
        } else {
            Some(((4 + size) as nat, Some(utf8_lossy(b.subrange(4, 4 + size)))))
        }
    }
}

/// An 8-bit-length-prefixed string.
pub open spec fn spec_str8(b: Seq<u8>) -> Option<(nat, Seq<char>)> {
    if b.len() < 1 {
        None
    } else {
        let n = b[0] as int;
        if b.len() < 1 + n {
            None
        } else {
            Some(((1 + n) as nat, utf8_lossy(b.subrange(1, 1 + n))))
        }
    }
}

/// Whether the byte is an ASCII decimal digit.
pub open spec fn is_dec_digit(c: u8) -> bool {
    48 <= c <= 57
}

/// Whether every byte of the sequence is an ASCII decimal digit.
pub open spec fn all_dec_digits(s: Seq<u8>) -> bool {
    forall|i: int| 0 <= i < s.len() ==> is_dec_digit(#[trigger] s[i])
}

/// The integer a sequence of ASCII decimal digits denotes.
pub open spec fn dec_value(s: Seq<u8>) -> int
    decreases s.len(),
{
    if s.len() == 0 {
        0
    } else {
        dec_value(s.drop_last()) * 10 + (s.last() - 48)
    }
}

/// The signed 64-bit integer a decimal byte string denotes: an optional `-`
/// or `+` sign, then one or more digits, with the value in range.
pub open spec fn spec_parse_i64(s: Seq<u8>) -> Option<i64> {
    let neg = s.len() > 0 && s[0] == 45;
    let digits = if s.len() > 0 && (s[0] == 45 || s[0] == 43) {
        s.skip(1)
    } else {
        s
    };
    if digits.len() == 0 || !all_dec_digits(digits) {
        None
    } else {
        let v = if neg {
            -dec_value(digits)
        } else {
            dec_value(digits)
        };
        if i64::MIN <= v <= i64::MAX {
            Some(v as i64)
        } else {
            None
        }
    }
}

/// A `lon` element: an 8-bit length, then that many decimal digit bytes.
pub open spec fn spec_long(b: Seq<u8>) -> Option<(nat, i64)> {
    if b.len() < 1 {
        None
    } else {
        let n = b[0] as int;
        if b.len() < 1 + n {
            None
        } else {
            match spec_parse_i64(b.subrange(1, 1 + n)) {
                None => None,
                Some(v) => Some(((1 + n) as nat, v)),
            }
        }
    }
}

/// A `ptr` element: an 8-bit length, then that many hex digit bytes, rendered
/// with a `0x` prefix; a zero-length payload renders as the null pointer
/// `0x0`.
pub open spec fn spec_ptr(b: Seq<u8>) -> Option<(nat, Seq<char>)> {
    if b.len() < 1 {
        None
    } else {
        let n = b[0] as int;
        if b.len() < 1 + n {
            None
        } else if n == 0 {
            Some((1nat, seq!['0', 'x', '0']))
        } else {
            Some(((1 + n) as nat, seq!['0', 'x'] + utf8_lossy(b.subrange(1, 1 + n))))
        }
    }
}

/// The index of the first occurrence of `sep`, if any.
pub open spec fn find_sep(b: Seq<u8>, sep: u8) -> Option<int>
    decreases b.len(),
{
    if b.len() == 0 {
        None
    } else if b[0] == sep {
        Some(0)
    } else {
        match find_sep(b.skip(1), sep) {
            None => None,
            Some(i) => Some(i + 1),
        }
    }
}

/// Where the first separator stands, and that none stands before it.
pub proof fn lemma_find_sep(b: Seq<u8>, sep: u8)
    ensures
        match find_sep(b, sep) {
            None => forall|k: int| 0 <= k < b.len() ==> b[k] != sep,
            Some(i) => 0 <= i < b.len() && b[i] == sep && forall|k: int| 0 <= k < i ==> b[k] != sep,
        },
    decreases b.len(),
{
    if b.len() == 0 {
    } else if b[0] == sep {
    } else {
        lemma_find_sep(b.skip(1), sep);
        match find_sep(b.skip(1), sep) {
            None => {
                assert forall|k: int| 0 <= k < b.len() implies b[k] != sep by {
                    if k > 0 {
                        assert(b.skip(1)[k - 1] == b[k]);
                    }
                }
            },
            Some(i) => {
                assert(b.skip(1)[i] == b[i + 1]);
                assert forall|k: int| 0 <= k < i + 1 implies b[k] != sep by {
                    if k > 0 {
                        assert(b.skip(1)[k - 1] == b[k]);
                    }
                }
            },
        }
    }
}

/// One `name:type` declaration parsed from a chunk of the key string: the
/// bytes before the first colon name the field, those between the first and
/// second colon (or the end) name its type.
pub open spec fn spec_key_pair(chunk: Seq<u8>) -> Option<(Seq<char>, Seq<char>)> {
    match find_sep(chunk, 58) {
        None => None,
        Some(i) => {
            let rest = chunk.skip(i + 1);
            let tname = match find_sep(rest, 58) {
                None => rest,
                Some(j) => rest.take(j),
            };
            Some((utf8_lossy(chunk.take(i)), utf8_lossy(tname)))
        },
    }
}

/// The comma-separated list of `name:type` declarations.
pub open spec fn spec_keys(b: Seq<u8>) -> Option<Seq<(Seq<char>, Seq<char>)>>
    decreases b.len() via spec_keys_dec
{
    match find_sep(b, 44) {
        None => match spec_key_pair(b) {
            None => None,
            Some(p) => Some(seq![p]),
        },
        Some(i) => match spec_key_pair(b.take(i)) {
            None => None,
            Some(p) => match spec_keys(b.skip(i + 1)) {
                None => None,
                Some(rest) => Some(seq![p] + rest),
            },
        },
    }
}

#[via_fn]
proof fn spec_keys_dec(b: Seq<u8>) {
    lemma_find_sep(b, 44);
}

/// How often the byte occurs in the sequence.
pub open spec fn count_byte(b: Seq<u8>, x: u8) -> nat
    decreases b.len(),
{
    if b.len() == 0 {
        0
    } else {
        count_byte(b.drop_last(), x) + if b.last() == x {
            1nat
        } else {
            0nat
        }
    }
}

/// One tagged element with the 3-character tag already read: the bytes it
/// consumes and its value, or `None` for malformed input or an unknown tag.
pub open spec fn spec_element(tag: Seq<char>, b: Seq<u8>) -> Option<(nat, ValueModel)>
    decreases b.len(), 0nat, 0nat,
{
    if tag == seq!['c', 'h', 'r'] {
        if b.len() < 1 {
            None
        } else {
            Some((1nat, ValueModel::Char(b[0] as char)))
        }
    } else if tag == seq!['i', 'n', 't'] {
        if b.len() < 4 {
            None
        } else {
            Some((4nat, ValueModel::Int(be_i32(b.take(4)))))
        }
    } else if tag == seq!['l', 'o', 'n'] {
        match spec_long(b) {
            None => None,
            Some((n, v)) => Some((n, ValueModel::Long(v))),
        }
    } else if tag == seq!['s', 't', 'r'] {
        match spec_str32(b) {
            None => None,
            Some((n, Some(s))) => Some((n, ValueModel::Str(s))),
            Some((n, None)) => Some((n, ValueModel::StrNull)),
        }
    } else if tag == seq!['b', 'u', 'f'] {
        match spec_str32(b) {
            None => None,
            Some((n, Some(s))) => Some((n, ValueModel::Buf(s))),
            Some((n, None)) => Some((n, ValueModel::BufNull)),
        }
    } else if tag == seq!['p', 't', 'r'] {
        match spec_ptr(b) {
            None => None,
            Some((n, s)) => Some((n, ValueModel::Ptr(s))),
        }
    } else if tag == seq!['t', 'i', 'm'] {
        match spec_str8(b) {
            None => None,
            Some((n, s)) => Some((n, ValueModel::Time(s))),
        }
    } else if tag == seq!['a', 'r', 'r'] {
        if b.len() < 7 {
            None
        } else {
            let etag = utf8_lossy(b.take(3));
            let count = be_i32(b.subrange(3, 7));
            if count < 0 {
                None
            } else if etag == seq!['s', 't', 'r'] {
                match spec_items_str(count as nat, b.skip(7)) {
                    None => None,
                    Some((c, vs)) => Some(((7 + c) as nat, ValueModel::Array(vs))),
                }
            } else if etag == seq!['i', 'n', 't'] {
                match spec_items_int(count as nat, b.skip(7)) {
                    None => None,
                    Some((c, vs)) => Some(((7 + c) as nat, ValueModel::Array(vs))),
                }
            } else {
                None
            }
        }
    } else if tag == seq!['h', 'd', 'a'] {
        if b.len() < 4 {
            None
        } else {
            let nsz = be_i32(b.take(4)) as int;
            if nsz < 0 || b.len() < 4 + nsz {
                None
            } else {
                let name_bytes = b.subrange(4, 4 + nsz);
                let pc = count_byte(name_bytes, 47) + 1;
                let b2 = b.skip(4 + nsz);
                if b2.len() < 4 {
                    None
                } else {
                    let ksz = be_i32(b2.take(4)) as int;
                    if ksz < 0 || b2.len() < 4 + ksz {
                        None
                    } else {
                        match spec_keys(b2.subrange(4, 4 + ksz)) {
                            None => None,
                            Some(keys) => {
                                let b3 = b2.skip(4 + ksz);
                                if b3.len() < 4 {
                                    None
                                } else {
                                    let rc = be_i32(b3.take(4));
                                    if rc < 0 {
                                        None
                                    } else {
                                        match spec_rows(pc, keys, rc as nat, b3.skip(4)) {
                                            None => None,
                                            Some((c, ptrs, rows)) => Some(
                                                (
                                                    (4 + nsz + 4 + ksz + 4 + c) as nat,
                                                    ValueModel::Hdata(
                                                        utf8_lossy(name_bytes),
                                                        ptrs,
                                                        rows,
                                                    ),
                                                ),
                                            ),
                                        }
                                    }
                                }
                            },
                        }
                    }
                }
            }
        }
    } else {
        None
    }
}

/// `n` consecutive `str` elements, as an array's items.
pub open spec fn spec_items_str(n: nat, b: Seq<u8>) -> Option<(nat, Seq<ValueModel>)>
    decreases b.len(), 1nat, n,
{
    if n == 0 {
        Some((0nat, Seq::empty()))
    } else {
        match spec_str32(b) {
            None => None,
            Some((c, v)) => {
                let item = match v {
                    None => ValueModel::StrNull,
                    Some(s) => ValueModel::Str(s),
                };
                match spec_items_str((n - 1) as nat, b.skip(c as int)) {
                    None => None,
                    Some((c2, vs)) => Some(((c + c2) as nat, seq![item] + vs)),
                }
            },
        }
    }
}

/// `n` consecutive `int` elements, as an array's items.
pub open spec fn spec_items_int(n: nat, b: Seq<u8>) -> Option<(nat, Seq<ValueModel>)>
    decreases b.len(), 1nat, n,
{
    if n == 0 {
        Some((0nat, Seq::empty()))
    } else if b.len() < 4 {
        None
    } else {
        match spec_items_int((n - 1) as nat, b.skip(4)) {
            None => None,
            Some((c2, vs)) => Some(
                ((4 + c2) as nat, seq![ValueModel::Int(be_i32(b.take(4)))] + vs),
            ),
        }
    }
}

/// `n` consecutive `ptr` elements, as one row's leading pointers.
pub open spec fn spec_ptrs(n: nat, b: Seq<u8>) -> Option<(nat, Seq<ValueModel>)>
    decreases b.len(), 1nat, n,
{
    if n == 0 {
        Some((0nat, Seq::empty()))
    } else {
        match spec_ptr(b) {
            None => None,
            Some((c, s)) => match spec_ptrs((n - 1) as nat, b.skip(c as int)) {
                None => None,
                Some((c2, vs)) => Some(((c + c2) as nat, seq![ValueModel::Ptr(s)] + vs)),
            },
        }
    }
}

/// One row's named fields, decoded strictly in declared key order, each with
/// the type its declaration names.
pub open spec fn spec_fields(keys: Seq<(Seq<char>, Seq<char>)>, b: Seq<u8>) -> Option<
    (nat, Seq<(Seq<char>, ValueModel)>),
>
    decreases b.len(), 1nat, keys.len(),
{
    if keys.len() == 0 {
        Some((0nat, Seq::empty()))
    } else {
        match spec_element(keys[0].1, b) {
            None => None,
            Some((c, v)) => {
                if c > b.len() {
                    None
                } else {
                    match spec_fields(keys.skip(1), b.skip(c as int)) {
                        None => None,
                        Some((c2, fs)) => Some(
                            ((c + c2) as nat, seq![(keys[0].0, v)] + fs),
                        ),
                    }
                }
            },
        }
    }
}

/// `n` hdata rows: each row's `pc` pointers, flattened together across all
/// rows, then its declared fields.
pub open spec fn spec_rows(
    pc: nat,
    keys: Seq<(Seq<char>, Seq<char>)>,
    n: nat,
    b: Seq<u8>,
) -> Option<(nat, Seq<ValueModel>, Seq<Seq<(Seq<char>, ValueModel)>>)>
    decreases b.len(), 2nat, n,
{
    if n == 0 {
        Some((0nat, Seq::empty(), Seq::empty()))
    } else {
        match spec_ptrs(pc, b) {
            None => None,
            Some((cp, ptrs)) => {
                if cp > b.len() {
                    None
                } else {
                    match spec_fields(keys, b.skip(cp as int)) {
                        None => None,
                        Some((cf, row)) => {
                            if cp + cf > b.len() {
                                None
                            } else {
                                match spec_rows(pc, keys, (n - 1) as nat, b.skip(cp + cf as int)) {
                                    None => None,
                                    Some((c2, ptrs2, rows2)) => Some(
                                        (
                                            (cp + cf + c2) as nat,
                                            ptrs + ptrs2,
                                            seq![row] + rows2,
                                        ),
                                    ),
                                }
                            }
                        },
                    }
                }
            },
        }
    }
}

/// The sequence of tagged elements that exactly tiles the payload: a 3-byte
/// tag then the element it names, repeated until no byte is left.
pub open spec fn spec_data(b: Seq<u8>) -> Option<Seq<ValueModel>>
    decreases b.len(),
{
    if b.len() == 0 {
        Some(Seq::empty())
    } else if b.len() < 3 {
        None
    } else {
        let tag = utf8_lossy(b.take(3));
        match spec_element(tag, b.skip(3)) {
            None => None,
            Some((c, v)) => {
                if c > b.len() - 3 {
                    None
                } else {
                    match spec_data(b.skip(3 + c as int)) {
                        None => None,
                        Some(rest) => Some(seq![v] + rest),
                    }
                }
            },
        }
    }
}

/// One whole frame: 4 length bytes and the compression flag are skipped, the
/// remainder is inflated, the identifier string read (null maps to the
/// default identifier), and the rest decoded as tagged elements.
pub open spec fn spec_message(frame: Seq<u8>) -> Option<MessageModel> {
    if frame.len() < 5 {
        None
    } else {
        match zlib_inflate(frame.skip(5)) {
            None => None,
            Some(raw) => match spec_str32(raw) {
                None => None,
                Some((n, idopt)) => {
                    let id = match idopt {
                        None => default_id(),
                        Some(s) => s,
                    };
                    if n > raw.len() {
                        None
                    } else {
                        match spec_data(raw.skip(n as int)) {
                            None => None,
                            Some(vals) => Some(MessageModel { id, data: vals }),
                        }
                    }
                },
            },
        }
    }
}

} // verus!

verus! {

/// No value decoder reads past the end of its container: whatever a
/// successful decode consumes is within the bytes it was given. Together with
/// the definition of `spec_data`, which admits a payload only when its
/// elements tile it exactly, this is the guarantee that a decoded frame's
/// elements consume exactly the declared payload, never more.
pub proof fn lemma_element_consumed(tag: Seq<char>, b: Seq<u8>)
    ensures
        match spec_element(tag, b) {
            Some((n, v)) => n <= b.len(),
            None => true,
        },
    decreases b.len(), 0nat, 0nat,
{
    if tag == seq!['a', 'r', 'r'] {
        if b.len() >= 7 {
            let count = be_i32(b.skip(3));
            if count >= 0 {
                lemma_items_str_consumed(count as nat, b.skip(7));
                lemma_items_int_consumed(count as nat, b.skip(7));
            }
        }
    } else if tag == seq!['h', 'd', 'a'] {
        if b.len() >= 4 {
            let nsz = be_i32(b) as int;
            if 0 <= nsz && b.len() >= 4 + nsz {
                let name_bytes = b.subrange(4, 4 + nsz);
                let pc = count_byte(name_bytes, 47) + 1;
                let b2 = b.skip(4 + nsz);
                if b2.len() >= 4 {
                    let ksz = be_i32(b2) as int;
                    if 0 <= ksz && b2.len() >= 4 + ksz {
                        match spec_keys(b2.subrange(4, 4 + ksz)) {
                            None => {},
                            Some(keys) => {
                                let b3 = b2.skip(4 + ksz);
                                if b3.len() >= 4 {
                                    let rc = be_i32(b3);
                                    if rc >= 0 {
                                        lemma_rows_consumed(pc, keys, rc as nat, b3.skip(4));
                                    }
                                }
                            },
                        }
                    }
                }
            }
        }
    }
}

/// Array items of type `str` stay within their bytes.
pub proof fn lemma_items_str_consumed(n: nat, b: Seq<u8>)
    ensures
        match spec_items_str(n, b) {
            Some((c, vs)) => c <= b.len(),
            None => true,
        },
    decreases b.len(), 1nat, n,
{
    if n > 0 {
        match spec_str32(b) {
            None => {},
            Some((c, v)) => {
                lemma_items_str_consumed((n - 1) as nat, b.skip(c as int));
            },
        }
    }
}

/// Array items of type `int` stay within their bytes.
pub proof fn lemma_items_int_consumed(n: nat, b: Seq<u8>)
    ensures
        match spec_items_int(n, b) {
            Some((c, vs)) => c <= b.len(),
            None => true,
        },
    decreases b.len(), 1nat, n,
{
    if n > 0 && b.len() >= 4 {
        lemma_items_int_consumed((n - 1) as nat, b.skip(4));
    }
}

/// A row's pointers stay within their bytes.
pub proof fn lemma_ptrs_consumed(n: nat, b: Seq<u8>)
    ensures
        match spec_ptrs(n, b) {
            Some((c, vs)) => c <= b.len(),
            None => true,
        },
    decreases b.len(), 1nat, n,
{
    if n > 0 {
        match spec_ptr(b) {
            None => {},
            Some((c, s)) => {
                lemma_ptrs_consumed((n - 1) as nat, b.skip(c as int));
            },
        }
    }
}

/// A row's fields stay within their bytes.
pub proof fn lemma_fields_consumed(keys: Seq<(Seq<char>, Seq<char>)>, b: Seq<u8>)
    ensures
        match spec_fields(keys, b) {
            Some((c, fs)) => c <= b.len(),
            None => true,
        },
    decreases b.len(), 1nat, keys.len(),
{
    if keys.len() > 0 {
        match spec_element(keys[0].1, b) {
            None => {},
            Some((c, v)) => {
                if c <= b.len() {
                    lemma_fields_consumed(keys.skip(1), b.skip(c as int));
                }
            },
        }
    }
}

/// An hdata's rows stay within their bytes.
pub proof fn lemma_rows_consumed(
    pc: nat,
    keys: Seq<(Seq<char>, Seq<char>)>,
    n: nat,
    b: Seq<u8>,
)
    ensures
        match spec_rows(pc, keys, n, b) {
            Some((c, ptrs, rows)) => c <= b.len(),
            None => true,
        },
    decreases b.len(), 2nat, n,
{
    if n > 0 {
        match spec_ptrs(pc, b) {
            None => {},
            Some((cp, ptrs)) => {
                if cp <= b.len() {
                    match spec_fields(keys, b.skip(cp as int)) {
                        None => {},
                        Some((cf, row)) => {
                            if cp + cf <= b.len() {
                                lemma_rows_consumed(pc, keys, (n - 1) as nat, b.skip(cp + cf as int));
                            }
                        },
                    }
                }
            },
        }
    }
}

/// A `str` element with length field 0 decodes to the present empty string
/// and one with length field -1 to the explicit null, and those two values
/// are never equal.
pub proof fn lemma_empty_and_null_differ(b1: Seq<u8>, b2: Seq<u8>)
    requires
        b1.len() >= 4,
        be_i32(b1) == 0,
        b2.len() >= 4,
        be_i32(b2) == -1,
    ensures
        spec_element(seq!['s', 't', 'r'], b1) == Some(
            (4nat, ValueModel::Str(Seq::<char>::empty())),
        ),
        spec_element(seq!['s', 't', 'r'], b2) == Some((4nat, ValueModel::StrNull)),
        ValueModel::Str(Seq::<char>::empty()) != ValueModel::StrNull,
        spec_element(seq!['b', 'u', 'f'], b1) == Some(
            (4nat, ValueModel::Buf(Seq::<char>::empty())),
        ),
        spec_element(seq!['b', 'u', 'f'], b2) == Some((4nat, ValueModel::BufNull)),
        ValueModel::Buf(Seq::<char>::empty()) != ValueModel::BufNull,
{
}

/// A `ptr` element with a zero-length digit payload renders as the null
/// pointer `0x0`; one with digits renders them behind a `0x` prefix.
pub proof fn lemma_pointer_rendering(b: Seq<u8>)
    requires
        b.len() >= 1,
        1 + b[0] <= b.len(),
    ensures
        b[0] == 0 ==> spec_ptr(b) == Some((1nat, seq!['0', 'x', '0'])),
        b[0] > 0 ==> spec_ptr(b) == Some(
            ((1 + b[0]) as nat, seq!['0', 'x'] + utf8_lossy(b.subrange(1, 1 + b[0] as int))),
        ),
{
}

/// A successful run of pointers yields exactly as many as were asked for.
pub proof fn lemma_ptrs_count(n: nat, b: Seq<u8>)
    ensures
        match spec_ptrs(n, b) {
            Some((c, vs)) => vs.len() == n,
            None => true,
        },
    decreases b.len(), 1nat, n,
{
    if n > 0 {
        match spec_ptr(b) {
            None => {},
            Some((c, s)) => {
                lemma_ptrs_count((n - 1) as nat, b.skip(c as int));
            },
        }
    }
}

/// Hdata pointer-count derivation: over all rows of an hdata, the flattened
/// pointer list holds exactly the pointers-per-row figure times the row
/// count, and there are exactly as many rows as declared.
pub proof fn lemma_rows_pointer_count(
    pc: nat,
    keys: Seq<(Seq<char>, Seq<char>)>,
    n: nat,
    b: Seq<u8>,
)
    ensures
        match spec_rows(pc, keys, n, b) {
            Some((c, ptrs, rows)) => ptrs.len() == pc * n && rows.len() == n,
            None => true,
        },
    decreases b.len(), 2nat, n,
{
    if n == 0 {
        assert(pc * 0 == 0) by (nonlinear_arith);
    } else {
        match spec_ptrs(pc, b) {
            None => {},
            Some((cp, ptrs)) => {
                lemma_ptrs_count(pc, b);
                if cp <= b.len() {
                    match spec_fields(keys, b.skip(cp as int)) {
                        None => {},
                        Some((cf, row)) => {
                            if cp + cf <= b.len() {
                                lemma_rows_pointer_count(
                                    pc,
                                    keys,
                                    (n - 1) as nat,
                                    b.skip(cp + cf as int),
                                );
                                match spec_rows(pc, keys, (n - 1) as nat, b.skip(cp + cf as int)) {
                                    None => {},
                                    Some((c2, ptrs2, rows2)) => {
                                        assert(pc + pc * (n - 1) == pc * n) by (nonlinear_arith);
                                    },
                                }
                            }
                        },
                    }
                }
            },
        }
    }
}

/// Array homogeneity for `int` arrays: a successful decode of `n` items
/// consumes exactly `4 * n` bytes and yields `n` values, every one an `Int`.
pub proof fn lemma_int_items_layout(n: nat, b: Seq<u8>)
    ensures
        match spec_items_int(n, b) {
            Some((c, vs)) => c == 4 * n && vs.len() == n && (forall|i: int|
                0 <= i < n ==> vs[i] is Int),
            None => true,
        },
    decreases b.len(), 1nat, n,
{
    if n == 0 {
    } else if b.len() >= 4 {
        lemma_int_items_layout((n - 1) as nat, b.skip(4));
    }
}

} // verus!

verus! {

/// Array homogeneity at the element level: an `arr` element whose declared
/// element type is `int` and whose count is `n` consumes exactly
/// `3 + 4 + 4 * n` bytes (element tag, count, elements) and yields an array
/// of exactly `n` values.
pub proof fn lemma_int_array_layout(b: Seq<u8>)
    requires
        b.len() >= 7,
        utf8_lossy(b.take(3)) == seq!['i', 'n', 't'],
        be_i32(b.skip(3)) >= 0,
    ensures
        match spec_element(seq!['a', 'r', 'r'], b) {
            Some((c, v)) => c == 3 + 4 + 4 * be_i32(b.skip(3)) && v is Array
                && v->Array_0.len() == be_i32(b.skip(3)),
            None => true,
        },
{
    let n = be_i32(b.skip(3)) as nat;
    lemma_int_items_layout(n, b.skip(7));
}

/// Hdata pointer-count derivation at the element level: a decoded hdata's
/// flattened pointer list holds exactly one pointer per `/`-separated segment
/// of its path, per row.
pub proof fn lemma_hdata_pointer_count(b: Seq<u8>)
    ensures
        match spec_element(seq!['h', 'd', 'a'], b) {
            Some((c, v)) => v is Hdata && v->Hdata_1.len() == (count_byte(
                b.subrange(4, 4 + be_i32(b) as int),
                47,
            ) + 1) * v->Hdata_2.len(),
            None => true,
        },
{
    if spec_element(seq!['h', 'd', 'a'], b) is Some {
        let nsz = be_i32(b) as int;
        let name_bytes = b.subrange(4, 4 + nsz);
        let pc = count_byte(name_bytes, 47) + 1;
        let b2 = b.skip(4 + nsz);
        let ksz = be_i32(b2) as int;
        let keys = spec_keys(b2.subrange(4, 4 + ksz))->0;
        let b3 = b2.skip(4 + ksz);
        let rc = be_i32(b3);
        lemma_rows_pointer_count(pc, keys, rc as nat, b3.skip(4));
    }
}

} // verus!
