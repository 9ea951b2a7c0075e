use awareness::{decode_update, encode_update, Error, PresenceTable, UpdateRecord};

fn rec(client: u64, version: u64, payload: Option<&str>) -> UpdateRecord {
    UpdateRecord { client, version, payload: payload.map(|s| s.to_string()) }
}

#[test]
fn record_with_a_payload_has_these_bytes() {
    let bytes = encode_update(&vec![rec(1, 2, Some("hi"))]).unwrap();
    assert_eq!(
        bytes,
        vec![
            1, 0, 0, 0, 0, 0, 0, 0, // client
            2, 0, 0, 0, 0, 0, 0, 0, // version
            1, // payload follows
            2, 0, 0, 0, // its length
            b'h', b'i',
        ]
    );
}

#[test]
fn tombstone_record_has_these_bytes() {
    let bytes = encode_update(&vec![rec(0x0102030405060708, 0xfffefdfcfbfaf9f8, None)]).unwrap();
    assert_eq!(
        bytes,
        vec![8, 7, 6, 5, 4, 3, 2, 1, 0xf8, 0xf9, 0xfa, 0xfb, 0xfc, 0xfd, 0xfe, 0xff, 0]
    );
}

#[test]
fn records_follow_one_another() {
    let one = encode_update(&vec![rec(1, 1, Some("a"))]).unwrap();
    let two = encode_update(&vec![rec(2, 2, None)]).unwrap();
    let both = encode_update(&vec![rec(1, 1, Some("a")), rec(2, 2, None)]).unwrap();
    assert_eq!(both, [one, two].concat());
    assert_eq!(encode_update(&vec![]).unwrap(), Vec::<u8>::new());
}

#[test]
fn decode_undoes_encode() {
    let records = vec![
        rec(1, 1, Some("{\"cursor\":5}")),
        rec(u64::MAX, u64::MAX, None),
        rec(0, 0, Some("")),
        rec(1, 3, Some("twice the same client")),
        rec(77, 9, Some("h\u{e9}llo \u{2713} \u{1f600}")),
    ];
    let bytes = encode_update(&records).unwrap();
    assert_eq!(decode_update(&bytes), Ok(records));
    assert_eq!(decode_update(&[]), Ok(vec![]));
}

#[test]
fn encode_undoes_decode() {
    let bytes: Vec<u8> = vec![
        9, 0, 0, 0, 0, 0, 0, 0, 3, 0, 0, 0, 0, 0, 0, 0, 1, 3, 0, 0, 0, 0xe2, 0x9c, 0x93, // "✓"
        4, 0, 0, 0, 0, 0, 0, 0, 1, 0, 0, 0, 0, 0, 0, 0, 0,
    ];
    let records = decode_update(&bytes).unwrap();
    assert_eq!(records, vec![rec(9, 3, Some("\u{2713}")), rec(4, 1, None)]);
    assert_eq!(encode_update(&records).unwrap(), bytes);
}

#[test]
fn text_is_decoded_as_utf8() {
    let mut bytes = vec![1, 0, 0, 0, 0, 0, 0, 0, 1, 0, 0, 0, 0, 0, 0, 0, 1, 5, 0, 0, 0];
    bytes.extend_from_slice("na\u{ef}f".as_bytes());
    let records = decode_update(&bytes).unwrap();
    assert_eq!(records[0].payload.as_deref(), Some("na\u{ef}f"));
    assert_eq!(records[0].payload.as_ref().unwrap().chars().count(), 4);
}

#[test]
fn truncated_records_are_rejected() {
    let bytes = encode_update(&vec![rec(1, 2, Some("hello"))]).unwrap();
    for cut in 1..bytes.len() {
        assert_eq!(decode_update(&bytes[..cut]), Err(Error::DecodeError), "cut at {}", cut);
    }
    let tomb = encode_update(&vec![rec(1, 2, None)]).unwrap();
    for cut in 1..tomb.len() {
        assert_eq!(decode_update(&tomb[..cut]), Err(Error::DecodeError), "cut at {}", cut);
    }
}

#[test]
fn unknown_tag_is_rejected() {
    let mut bytes = encode_update(&vec![rec(1, 2, None)]).unwrap();
    bytes[16] = 2;
    assert_eq!(decode_update(&bytes), Err(Error::DecodeError));
    bytes[16] = 0xff;
    assert_eq!(decode_update(&bytes), Err(Error::DecodeError));
}

#[test]
fn bad_length_is_rejected() {
    let mut bytes = encode_update(&vec![rec(1, 2, Some("hello"))]).unwrap();
    bytes[17] = 6;
    assert_eq!(decode_update(&bytes), Err(Error::DecodeError));
    bytes[17] = 4;
    assert_eq!(decode_update(&bytes), Err(Error::DecodeError));
    bytes[17] = 5;
    bytes[20] = 0xff;
    assert_eq!(decode_update(&bytes), Err(Error::DecodeError));
}

#[test]
fn invalid_utf8_is_rejected() {
    let head = vec![1, 0, 0, 0, 0, 0, 0, 0, 1, 0, 0, 0, 0, 0, 0, 0, 1];
    let texts: Vec<Vec<u8>> = vec![
        vec![0xff],
        vec![0xc3],             // cut short
        vec![0xc0, 0x80],       // overlong
        vec![0xed, 0xa0, 0x80], // surrogate
        vec![b'a', 0x80],
    ];
    for text in texts {
        let mut bytes = head.clone();
        bytes.extend_from_slice(&(text.len() as u32).to_le_bytes());
        bytes.extend_from_slice(&text);
        assert_eq!(decode_update(&bytes), Err(Error::DecodeError), "{:?}", text);
    }
}

#[test]
fn a_bad_record_after_good_ones_fails_the_update() {
    let mut bytes = encode_update(&vec![rec(1, 1, Some("a")), rec(2, 2, Some("b"))]).unwrap();
    let at = bytes.len() - 1;
    bytes[at] = 0xff;
    assert_eq!(decode_update(&bytes), Err(Error::DecodeError));
}

#[test]
fn trailing_bytes_are_rejected() {
    let mut bytes = encode_update(&vec![rec(1, 1, None)]).unwrap();
    bytes.push(0);
    assert_eq!(decode_update(&bytes), Err(Error::DecodeError));
}

#[test]
fn derived_update_is_the_encoding_of_the_table() {
    let mut t = PresenceTable::new(3);
    t.set_local_state(Some("x".to_string()), 1);
    t.merge_records(&vec![rec(1, 4, None)], 2);
    assert_eq!(
        t.derive_update(None).unwrap(),
        encode_update(&vec![rec(3, 1, Some("x")), rec(1, 4, None)]).unwrap()
    );
}
