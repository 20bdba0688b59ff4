use veilid_vc::proto::{
    crc32, get_str, put_str, Packet, HEADER_LEN, MAX_APP_MESSAGE, MAX_CHUNK_DATA, MAX_MISSING_LISTED, XFER_IN_PROGRESS,
};


#[test]
fn probe_survives_padding() {
    let p = Packet::Probe { seq: 42, t0: 1234567 };
    let enc = p.encode(1200);
    assert_eq!(enc.len(), 1200);
    match Packet::decode(&enc) {
        Some(Packet::Probe { seq, t0 }) => {
            assert_eq!(seq, 42);
            assert_eq!(t0, 1234567);
        }
        other => panic!("decoded as {other:?}"),
    }
}

#[test]
fn echo_roundtrips() {
    let p = Packet::Echo { seq: 7, t0: 1, t1: 2, t2: 3 };
    match Packet::decode(&p.encode(0)) {
        Some(Packet::Echo { seq, t0, t1, t2 }) => {
            assert_eq!((seq, t0, t1, t2), (7, 1, 2, 3));
        }
        other => panic!("decoded as {other:?}"),
    }
}

#[test]
fn hello_carries_blob() {
    let blob = vec![9u8; 300];
    let p = Packet::Hello { return_route: blob.clone() };
    match Packet::decode(&p.encode(0)) {
        Some(Packet::Hello { return_route }) => assert_eq!(return_route, blob),
        other => panic!("decoded as {other:?}"),
    }
}

#[test]
fn padding_never_exceeds_the_app_message_cap() {
    let enc = Packet::Probe { seq: 1, t0: 1 }.encode(usize::MAX);
    assert_eq!(enc.len(), MAX_APP_MESSAGE);
}

#[test]
fn foreign_and_truncated_messages_are_rejected() {
    assert!(Packet::decode(b"hello there").is_none());
    assert!(Packet::decode(&[]).is_none());
    let short = &Packet::Probe { seq: 1, t0: 1 }.encode(0)[..10];
    assert!(Packet::decode(short).is_none());
}

#[test]
fn manifest_roundtrips() {
    let p = Packet::Manifest {
        xfer: 0xdead_beef_cafe_f00d,
        total_len: 1_048_576,
        chunk_size: 16384,
        chunk_count: 64,
        crc32: 0x1234_5678,
        name: "cat.png".into(),
    };
    match Packet::decode(&p.encode(0)) {
        Some(Packet::Manifest { xfer, total_len, chunk_size, chunk_count, crc32, name }) => {
            assert_eq!(xfer, 0xdead_beef_cafe_f00d);
            assert_eq!(total_len, 1_048_576);
            assert_eq!((chunk_size, chunk_count, crc32), (16384, 64, 0x1234_5678));
            assert_eq!(name, "cat.png");
        }
        other => panic!("decoded as {other:?}"),
    }
}

#[test]
fn manifest_refusal_carries_its_reason() {
    let p = Packet::ManifestOk { xfer: 1, accepted: false, message: "too big".into() };
    match Packet::decode(&p.encode(0)) {
        Some(Packet::ManifestOk { accepted, message, .. }) => {
            assert!(!accepted);
            assert_eq!(message, "too big");
        }
        other => panic!("decoded as {other:?}"),
    }
}

#[test]
fn a_full_chunk_fits_one_app_message() {
    let data = vec![7u8; MAX_CHUNK_DATA];
    let enc = Packet::Chunk { xfer: 5, index: 9, data: data.clone() }.encode(0);
    assert_eq!(enc.len(), MAX_APP_MESSAGE);
    match Packet::decode(&enc) {
        Some(Packet::Chunk { xfer, index, data: got }) => {
            assert_eq!((xfer, index), (5, 9));
            assert_eq!(got, data);
        }
        other => panic!("decoded as {other:?}"),
    }
}

#[test]
fn an_empty_chunk_is_still_a_chunk() {
    // The last chunk of a file whose length is an exact multiple of the
    // chunk size is never sent, but a zero-length one must not decode as
    // garbage if it is.
    match Packet::decode(&Packet::Chunk { xfer: 1, index: 0, data: vec![] }.encode(0)) {
        Some(Packet::Chunk { data, .. }) => assert!(data.is_empty()),
        other => panic!("decoded as {other:?}"),
    }
}

#[test]
fn status_reply_roundtrips_and_truncates() {
    let missing: Vec<u32> = (0..MAX_MISSING_LISTED as u32 + 500).collect();
    let p = Packet::StatusReply {
        xfer: 3,
        state: XFER_IN_PROGRESS,
        missing_total: missing.len() as u32,
        missing,
    };
    let enc = p.encode(0);
    assert!(enc.len() <= MAX_APP_MESSAGE);
    match Packet::decode(&enc) {
        Some(Packet::StatusReply { state, missing_total, missing, .. }) => {
            assert_eq!(state, XFER_IN_PROGRESS);
            // The honest count survives even though the list did not.
            assert_eq!(missing_total, MAX_MISSING_LISTED as u32 + 500);
            assert_eq!(missing.len(), MAX_MISSING_LISTED);
            assert_eq!(missing[0], 0);
        }
        other => panic!("decoded as {other:?}"),
    }
}

#[test]
fn status_reply_with_a_lying_length_is_rejected() {
    let mut enc = Packet::StatusReply {
        xfer: 1,
        state: XFER_IN_PROGRESS,
        missing_total: 2,
        missing: vec![1, 2],
    }
    .encode(0);
    // Claim far more indices than the message actually carries.
    enc[HEADER_LEN + 13..HEADER_LEN + 17].copy_from_slice(&9999u32.to_le_bytes());
    assert!(Packet::decode(&enc).is_none());
}

#[test]
fn routes_list_roundtrips() {
    let blobs = vec![vec![1u8; 900], vec![2u8; 1100], vec![3u8; 5]];
    match Packet::decode(&Packet::Routes { blobs: blobs.clone() }.encode(0)) {
        Some(Packet::Routes { blobs: got }) => assert_eq!(got, blobs),
        other => panic!("decoded as {other:?}"),
    }
}

#[test]
fn an_empty_routes_list_is_valid() {
    match Packet::decode(&Packet::Routes { blobs: vec![] }.encode(0)) {
        Some(Packet::Routes { blobs }) => assert!(blobs.is_empty()),
        other => panic!("decoded as {other:?}"),
    }
}

#[test]
fn a_routes_list_with_a_lying_length_is_rejected() {
    let mut enc = Packet::Routes { blobs: vec![vec![7u8; 10]] }.encode(0);
    // Claim a blob far longer than the message actually carries.
    enc[HEADER_LEN + 2..HEADER_LEN + 4].copy_from_slice(&9999u16.to_le_bytes());
    assert!(Packet::decode(&enc).is_none());
}

#[test]
fn a_raw_blob_does_not_decode_as_a_routes_list() {
    // v0.2.0 receivers published a bare route blob. It has no magic, so it
    // must not be mistaken for a list -- the sender falls back on it.
    assert!(Packet::decode(&[0x41, 0x52, 0x10, 0x64, 0x50]).is_none());
}

#[test]
fn a_social_payload_roundtrips() {
    let json = br#"{"t":"dm","text":"hello"}"#.to_vec();
    match Packet::decode(&Packet::Social { json: json.clone() }.encode(0)) {
        Some(Packet::Social { json: got }) => assert_eq!(got, json),
        other => panic!("decoded as {other:?}"),
    }
}

#[test]
fn an_oversized_social_payload_is_truncated_not_rejected_by_the_coder() {
    let enc = Packet::Social { json: vec![b'x'; MAX_APP_MESSAGE * 2] }.encode(0);
    assert_eq!(enc.len(), MAX_APP_MESSAGE, "must still fit one app_message");
}

#[test]
fn crc32_matches_the_standard_check_value() {
    assert_eq!(crc32(b"123456789"), 0xCBF4_3926);
    assert_eq!(crc32(b""), 0);
}

#[test]
fn every_packet_kind_survives_the_wire() {
    let packets = vec![
        Packet::Hello { return_route: vec![] },
        Packet::Probe { seq: u64::MAX, t0: 0 },
        Packet::Echo { seq: 0, t0: u64::MAX, t1: 1, t2: u64::MAX },
        Packet::Manifest {
            xfer: 1,
            total_len: u64::MAX,
            chunk_size: 1,
            chunk_count: u32::MAX,
            crc32: u32::MAX,
            name: "naïve.txt".into(),
        },
        Packet::ManifestOk { xfer: 2, accepted: true, message: String::new() },
        Packet::Chunk { xfer: 3, index: 4, data: vec![1, 2, 3] },
        Packet::Status { xfer: 5 },
        Packet::StatusReply { xfer: 6, state: 9, missing_total: 2, missing: vec![7, u32::MAX] },
        Packet::Social { json: b"{}".to_vec() },
        Packet::Routes { blobs: vec![vec![], vec![1]] },
    ];
    for p in &packets {
        let back = Packet::decode(&p.encode(0)).unwrap();
        assert_eq!(format!("{back:?}"), format!("{p:?}"));
    }
}

#[test]
fn a_name_that_is_not_utf8_is_repaired() {
    let mut enc = Packet::Manifest {
        xfer: 1,
        total_len: 0,
        chunk_size: 1,
        chunk_count: 0,
        crc32: 0,
        name: "ab".into(),
    }
    .encode(0);
    let last = enc.len() - 1;
    enc[last] = 0xff;
    match Packet::decode(&enc) {
        Some(Packet::Manifest { name, .. }) => assert_eq!(name, "a\u{fffd}"),
        other => panic!("decoded as {other:?}"),
    }
}

#[test]
fn the_probe_is_laid_out_little_endian() {
    let enc = Packet::Probe { seq: 0x0102, t0: 3 }.encode(0);
    assert_eq!(
        enc,
        vec![0x56, 0x56, 0x43, 0x30, 2, 2, 1, 0, 0, 0, 0, 0, 0, 3, 0, 0, 0, 0, 0, 0, 0]
    );
}

#[test]
fn a_long_name_is_cut_to_what_two_bytes_can_count() {
    let p = Packet::ManifestOk { xfer: 1, accepted: false, message: "x".repeat(70_000) };
    match Packet::decode(&p.encode(0)) {
        Some(Packet::ManifestOk { message, .. }) => assert_eq!(message.len(), 65_535),
        other => panic!("decoded as {other:?}"),
    }
}

#[test]
fn one_wrong_byte_changes_the_checksum() {
    let mut data: Vec<u8> = (0..=255u8).collect();
    let right = crc32(&data);
    for i in 0..data.len() {
        data[i] ^= 0x40;
        assert_ne!(crc32(&data), right);
        data[i] ^= 0x40;
    }
    assert_eq!(crc32(&data), right);
}

#[test]
fn a_text_reads_back_with_its_end() {
    let mut buf = vec![9u8, 9];
    put_str(&mut buf, "héllo");
    let end = buf.len();
    buf.push(7);
    assert_eq!(get_str(&buf, 2), Some(("héllo".to_string(), end)));
    assert_eq!(get_str(&buf[..end], 2), Some(("héllo".to_string(), end)));
    assert_eq!(get_str(&buf[..end - 1], 2), None);
    assert_eq!(get_str(&[0, 0], 0), Some((String::new(), 2)));
    assert_eq!(get_str(&[0, 0], 1), None);
    assert_eq!(get_str(&[0, 0], 99), None);
    assert_eq!(get_str(&[0, 0], usize::MAX), None);
}
