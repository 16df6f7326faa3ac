use weechat_parser::{Reassembler, WeechatData, WeechatMessage};

fn fixture() -> Vec<u8> {
    vec![
        0, 0, 0, 145, 1, 120, 156, 251, 255, 255, 255, 255, 228, 140, 34, 199, 204, 188, 18, 6,
        198, 71, 14, 64, 234, 255, 63, 217, 3, 57, 249, 121, 92, 134, 70, 198, 38, 166, 102, 230,
        22, 150, 6, 64, 30, 183, 46, 130, 91, 92, 82, 196, 192, 192, 192, 145, 168, 0, 100, 100,
        230, 165, 67, 184, 12, 64, 10, 104, 212, 255, 164, 210, 52, 32, 135, 13, 72, 165, 165, 22,
        1, 73, 144, 88, 65, 73, 17, 7, 72, 123, 98, 82, 114, 10, 144, 205, 104, 80, 146, 153, 203,
        101, 104, 108, 100, 104, 105, 9, 50, 51, 177, 168, 8, 98, 6, 19, 16, 51, 3, 21, 129, 152,
        41, 169, 64, 97, 144, 163, 128, 66, 64, 92, 205, 192, 192, 120, 2, 200, 20, 5, 0, 59, 212,
        56, 52,
    ]
}

#[test]
fn one_chunk_yields_one_message() {
    let mut r = Reassembler::new();
    let out = r.feed(&fixture());
    assert_eq!(out.len(), 1);
    let m = out.into_iter().next().unwrap().unwrap();
    assert_eq!(m.id, "test".to_owned());
    assert_eq!(m.data.len(), 15);
}

#[test]
fn split_chunks_yield_the_identical_message() {
    let data = fixture();
    let whole = WeechatMessage::from_raw_message(&data).unwrap();

    for split in [1usize, 3, 4, 5, 50, 144] {
        let mut r = Reassembler::new();
        let mut out = r.feed(&data[..split]);
        assert!(out.is_empty());
        out = r.feed(&data[split..]);
        assert_eq!(out.len(), 1);
        let m = out.into_iter().next().unwrap().unwrap();
        assert_eq!(m.id, whole.id);
        assert_eq!(m.data, whole.data);
    }
}

#[test]
fn concatenated_frames_come_back_in_order() {
    let data = fixture();
    let mut both = data.clone();
    both.extend_from_slice(&data);
    let mut r = Reassembler::new();
    let out = r.feed(&both);
    assert_eq!(out.len(), 2);
    for m in out {
        let m = m.unwrap();
        assert_eq!(m.data.get(0), Some(&WeechatData::Char('A')));
    }
}

#[test]
fn short_accumulator_waits_for_more_bytes() {
    let mut r = Reassembler::new();
    // exactly four bytes: the drain loop needs more than four to look
    assert!(r.feed(&[0, 0, 0, 145]).is_empty());
    // an empty chunk changes nothing
    assert!(r.feed(&[]).is_empty());
    let out = r.feed(&fixture()[4..]);
    assert_eq!(out.len(), 1);
    assert!(out[0].is_ok());
}

#[test]
fn fail_fast_stops_the_session_for_good() {
    let mut r = Reassembler::new();
    // a declared frame of 6 bytes whose payload is no zlib stream
    let out = r.feed(&[0, 0, 0, 6, 1, 9]);
    assert_eq!(out.len(), 1);
    assert!(out[0].is_err());
    // well-formed frame bytes afterwards produce no further output
    let out = r.feed(&fixture());
    assert!(out.is_empty());
    let out = r.feed(&fixture());
    assert!(out.is_empty());
}

#[test]
fn undersized_frame_length_is_an_error() {
    let mut r = Reassembler::new();
    // the declared length 3 cannot even hold the frame header
    let out = r.feed(&[0, 0, 0, 3, 1, 0, 0]);
    assert_eq!(out.len(), 1);
    assert!(out[0].is_err());
}
