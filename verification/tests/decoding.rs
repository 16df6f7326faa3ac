use weechat_parser::{
    parse_data, parse_element, read_array, read_hdata, read_long, read_pointer,
    read_string_32bit_length, read_string_8bit_length, read_time, ErrorKind, WeechatData,
};

#[test]
fn char_element_consumes_one_byte() {
    let (n, v) = parse_element("chr", &[65, 99]).unwrap();
    assert_eq!(n, 1);
    assert_eq!(v, WeechatData::Char('A'));
}

#[test]
fn int_element_is_big_endian_signed() {
    let (n, v) = parse_element("int", &[0, 1, 226, 64]).unwrap();
    assert_eq!((n, v), (4, WeechatData::Int(123456)));
    let (n, v) = parse_element("int", &[255, 254, 29, 192]).unwrap();
    assert_eq!((n, v), (4, WeechatData::Int(-123456)));
    assert!(parse_element("int", &[0, 1, 2]).is_err());
}

#[test]
fn long_element_parses_signed_decimals() {
    let (n, v) = read_long(&[2, b'4', b'2']).unwrap();
    assert_eq!((n, v), (3, 42));
    let (n, v) = read_long(&[3, b'-', b'4', b'2']).unwrap();
    assert_eq!((n, v), (4, -42));
    let (n, v) = parse_element("lon", &[10, b'1', b'2', b'3', b'4', b'5', b'6', b'7', b'8', b'9', b'0']).unwrap();
    assert_eq!((n, v), (11, WeechatData::Long(1234567890)));
}

#[test]
fn long_element_covers_the_full_range() {
    let min = b"-9223372036854775808";
    let mut bytes = vec![min.len() as u8];
    bytes.extend_from_slice(min);
    assert_eq!(read_long(&bytes).unwrap(), (21, i64::MIN));

    let too_small = b"-9223372036854775809";
    let mut bytes = vec![too_small.len() as u8];
    bytes.extend_from_slice(too_small);
    assert!(read_long(&bytes).is_err());

    let max = b"9223372036854775807";
    let mut bytes = vec![max.len() as u8];
    bytes.extend_from_slice(max);
    assert_eq!(read_long(&bytes).unwrap(), (20, i64::MAX));

    let too_big = b"9223372036854775808";
    let mut bytes = vec![too_big.len() as u8];
    bytes.extend_from_slice(too_big);
    assert!(read_long(&bytes).is_err());
}

#[test]
fn long_element_rejects_bad_digits() {
    assert!(read_long(&[2, b'4', b'x']).is_err());
    assert!(read_long(&[0]).is_err());
    assert!(read_long(&[1, b'-']).is_err());
}

#[test]
fn empty_string_and_null_string_stay_distinct() {
    let (n, v) = read_string_32bit_length(&[0, 0, 0, 0]).unwrap();
    assert_eq!((n, v), (4, Some("".to_owned())));
    let (n, v) = read_string_32bit_length(&[255, 255, 255, 255]).unwrap();
    assert_eq!((n, v), (4, None));

    let (_, empty) = parse_element("str", &[0, 0, 0, 0]).unwrap();
    let (_, null) = parse_element("str", &[255, 255, 255, 255]).unwrap();
    assert_eq!(empty, WeechatData::String("".to_owned()));
    assert_eq!(null, WeechatData::StringNull);
    assert_ne!(empty, null);

    let (_, empty_buf) = parse_element("buf", &[0, 0, 0, 0]).unwrap();
    let (_, null_buf) = parse_element("buf", &[255, 255, 255, 255]).unwrap();
    assert_ne!(empty_buf, null_buf);
}

#[test]
fn other_negative_string_lengths_are_rejected() {
    // -2 as a big-endian 32-bit length
    let r = read_string_32bit_length(&[255, 255, 255, 254, 0, 0]);
    assert_eq!(r.unwrap_err().kind, ErrorKind::MalformedBinaryParse);
}

#[test]
fn string_decodes_utf8_and_replaces_invalid_bytes() {
    // "é" is two bytes of valid UTF-8
    let (n, v) = read_string_32bit_length(&[0, 0, 0, 2, 0xc3, 0xa9]).unwrap();
    assert_eq!((n, v), (6, Some("\u{e9}".to_owned())));
    // a lone 0xff is invalid and replaced, not fatal
    let (n, v) = read_string_32bit_length(&[0, 0, 0, 1, 0xff]).unwrap();
    assert_eq!((n, v), (5, Some("\u{fffd}".to_owned())));
}

#[test]
fn pointer_rendering_has_the_0x_prefix() {
    let (n, v) = read_pointer(&[8, b'1', b'2', b'3', b'4', b'a', b'b', b'c', b'd']).unwrap();
    assert_eq!((n, v), (9, "0x1234abcd".to_owned()));
    // a zero-length digit payload renders as the null pointer
    let (n, v) = read_pointer(&[0]).unwrap();
    assert_eq!((n, v), (1, "0x0".to_owned()));
    let (n, v) = parse_element("ptr", &[1, b'0']).unwrap();
    assert_eq!((n, v), (2, WeechatData::Pointer("0x0".to_owned())));
}

#[test]
fn time_keeps_the_decimal_string() {
    let bytes = [10, b'1', b'3', b'2', b'1', b'9', b'9', b'3', b'4', b'5', b'6'];
    let (n, v) = read_time(&bytes).unwrap();
    assert_eq!((n, v), (11, "1321993456".to_owned()));
    let (n, v) = parse_element("tim", &bytes).unwrap();
    assert_eq!((n, v), (11, WeechatData::Time("1321993456".to_owned())));
    let (n, v) = read_string_8bit_length(&[3, b'a', b'b', b'c']).unwrap();
    assert_eq!((n, v), (4, "abc".to_owned()));
}

#[test]
fn int_array_consumes_tag_count_and_elements() {
    let bytes = [
        b'i', b'n', b't', 0, 0, 0, 3, 0, 0, 0, 123, 0, 0, 1, 200, 0, 0, 3, 21,
    ];
    let (n, v) = read_array(&bytes).unwrap();
    assert_eq!(n, 3 + 4 + 4 * 3);
    assert_eq!(
        v,
        vec![WeechatData::Int(123), WeechatData::Int(456), WeechatData::Int(789)]
    );
}

#[test]
fn str_array_keeps_element_order() {
    let bytes = [
        b's', b't', b'r', 0, 0, 0, 2, 0, 0, 0, 3, b'a', b'b', b'c', 0, 0, 0, 2, b'd', b'e',
    ];
    let (n, v) = read_array(&bytes).unwrap();
    assert_eq!(n, bytes.len());
    assert_eq!(
        v,
        vec![
            WeechatData::String("abc".to_owned()),
            WeechatData::String("de".to_owned())
        ]
    );
}

#[test]
fn array_of_unsupported_element_type_is_unknown() {
    let bytes = [b'l', b'o', b'n', 0, 0, 0, 1, 2, b'4', b'2'];
    let e = read_array(&bytes).unwrap_err();
    assert_eq!(e.kind, ErrorKind::UnknownType);
    assert_eq!(e.tag, Some("lon".to_owned()));
}

#[test]
fn unknown_tags_name_the_offender() {
    let e = parse_element("xyz", &[0, 0, 0, 0]).unwrap_err();
    assert_eq!(e.kind, ErrorKind::UnknownType);
    assert_eq!(e.tag, Some("xyz".to_owned()));
    let e = parse_element("hd", &[]).unwrap_err();
    assert_eq!(e.kind, ErrorKind::UnknownType);
}

fn hdata_bytes(path: &[u8], keys: &[u8], rows: u32, row_bytes: &[u8]) -> Vec<u8> {
    let mut b = Vec::new();
    b.extend_from_slice(&(path.len() as u32).to_be_bytes());
    b.extend_from_slice(path);
    b.extend_from_slice(&(keys.len() as u32).to_be_bytes());
    b.extend_from_slice(keys);
    b.extend_from_slice(&rows.to_be_bytes());
    b.extend_from_slice(row_bytes);
    b
}

#[test]
fn hdata_derives_one_pointer_per_path_segment() {
    // path "a": one pointer per row
    let bytes = hdata_bytes(b"a", b"x:int", 1, &[1, b'f', 0, 0, 0, 7]);
    let (n, name, pointers, rows) = read_hdata(&bytes).unwrap();
    assert_eq!(n, bytes.len());
    assert_eq!(name, "a".to_owned());
    assert_eq!(pointers, vec![WeechatData::Pointer("0xf".to_owned())]);
    assert_eq!(rows, vec![vec![("x".to_owned(), WeechatData::Int(7))]]);
}

#[test]
fn hdata_flattens_pointers_across_rows() {
    // path "a/b/c": three pointers per row, two rows -> six pointers in all
    let row = [1, b'1', 1, b'2', 1, b'3', 0, 0, 0, 5];
    let mut row_bytes = Vec::new();
    row_bytes.extend_from_slice(&row);
    row_bytes.extend_from_slice(&[1, b'4', 1, b'5', 1, b'6', 0, 0, 0, 9]);
    let bytes = hdata_bytes(b"a/b/c", b"n:int", 2, &row_bytes);
    let (n, name, pointers, rows) = read_hdata(&bytes).unwrap();
    assert_eq!(n, bytes.len());
    assert_eq!(name, "a/b/c".to_owned());
    assert_eq!(pointers.len(), 3 * 2);
    assert_eq!(pointers[0], WeechatData::Pointer("0x1".to_owned()));
    assert_eq!(pointers[5], WeechatData::Pointer("0x6".to_owned()));
    assert_eq!(rows.len(), 2);
    assert_eq!(rows[0], vec![("n".to_owned(), WeechatData::Int(5))]);
    assert_eq!(rows[1], vec![("n".to_owned(), WeechatData::Int(9))]);
}

#[test]
fn hdata_fields_follow_declared_key_order() {
    // two keys, decoded strictly in declared order
    let row = [1, b'a', 0, 0, 0, 3, 0, 0, 0, 1, b'z'];
    let bytes = hdata_bytes(b"buffer", b"num:int,name:str", 1, &row);
    let (_, _, _, rows) = read_hdata(&bytes).unwrap();
    assert_eq!(
        rows[0],
        vec![
            ("num".to_owned(), WeechatData::Int(3)),
            ("name".to_owned(), WeechatData::String("z".to_owned())),
        ]
    );
}

#[test]
fn hdata_rejects_null_path_and_bad_keys() {
    // null path name
    let mut b = Vec::new();
    b.extend_from_slice(&[255, 255, 255, 255]);
    assert!(read_hdata(&b).is_err());
    // a key declaration without a type
    let bytes = hdata_bytes(b"a", b"x", 0, &[]);
    assert!(read_hdata(&bytes).is_err());
}

#[test]
fn parse_data_walks_tagged_elements_to_the_end() {
    let bytes = [
        b'c', b'h', b'r', 65, b'i', b'n', b't', 0, 0, 0, 9,
    ];
    let v = parse_data(&bytes, bytes.len()).unwrap();
    assert_eq!(v, vec![WeechatData::Char('A'), WeechatData::Int(9)]);
    // a dangling partial tag is malformed
    let bad = [b'c', b'h', b'r', 65, b'i', b'n'];
    assert!(parse_data(&bad, bad.len()).is_err());
    // so is a truncated element body
    let bad2 = [b'i', b'n', b't', 0, 0];
    assert!(parse_data(&bad2, bad2.len()).is_err());
}
