use blinkview::ipc::{
    decode_path, decode_path_wide, encode_path, encode_path_wide, encode_request, instance_role,
    is_ack, request_length, requested_path, requested_path_wide, BindOutcome, InstanceRole,
};

#[test]
fn request_frame_layout() {
    let frame = encode_request(b"/a").unwrap();
    assert_eq!(frame, vec![66, 76, 86, 49, 0, 0, 0, 2, 47, 97]);
    assert_eq!(encode_request(b"").unwrap(), b"BLV1\0\0\0\0".to_vec());
}

#[test]
fn header_checks_magic_and_size() {
    assert_eq!(request_length(b"BLV1\0\0\0\x02"), Some(2));
    assert_eq!(request_length(b"BLV1\0\x10\0\0"), Some(1048576));
    assert_eq!(request_length(b"BLV1\0\x10\0\x01"), None);
    assert_eq!(request_length(b"BLV2\0\0\0\x02"), None);
    assert_eq!(request_length(b"BLV1\0\0\x02"), None);
    assert_eq!(request_length(b"BLV1\x01\x02\x03\x04"), None);
}

#[test]
fn acknowledgement() {
    assert!(is_ack(b"OKAY"));
    assert_eq!(blinkview::ipc::acknowledgement(), b"OKAY".to_vec());
    assert!(!is_ack(b"OKAX"));
    assert!(!is_ack(b"OKAYS"));
    assert!(!is_ack(b""));
}

#[test]
fn paths_survive_the_round_trip() {
    let path = "/tmp/fotos/ä 1.png";
    let frame = encode_request(&encode_path(path)).unwrap();
    let len = request_length(&frame[..8]).unwrap();
    assert_eq!(len, frame.len() - 8);
    assert_eq!(requested_path(frame[8..].to_vec()).unwrap(), path);
    assert_eq!(decode_path(encode_path(path)), path);
}

#[test]
fn invalid_utf8_is_replaced() {
    assert_eq!(decode_path(vec![b'a', 0xFF]), "a\u{FFFD}");
    assert!(requested_path(Vec::new()).is_none());
}

#[test]
fn wide_paths_are_utf16_little_endian() {
    assert_eq!(encode_path_wide("a€"), vec![0x61, 0, 0xAC, 0x20]);
    // A character beyond the basic plane is a surrogate pair.
    assert_eq!(encode_path_wide("😀"), vec![0x3D, 0xD8, 0x00, 0xDE]);
    let path = "C:\\Bilder\\ä 😀.png";
    let frame = encode_request(&encode_path_wide(path)).unwrap();
    let len = request_length(&frame[..8]).unwrap();
    assert_eq!(len, frame.len() - 8);
    assert_eq!(requested_path_wide(frame[8..].to_vec()).unwrap(), path);
    // A trailing odd byte is dropped; an unpaired surrogate is replaced.
    assert_eq!(decode_path_wide(vec![0x61, 0, 0x62]), "a");
    assert_eq!(decode_path_wide(vec![0x00, 0xD8, 0x61, 0]), "\u{FFFD}a");
    assert!(requested_path_wide(Vec::new()).is_none());
}

#[test]
fn instance_role_follows_the_bind_outcome() {
    assert_eq!(instance_role(BindOutcome::Bound), Some(InstanceRole::Primary));
    assert_eq!(instance_role(BindOutcome::InUse), Some(InstanceRole::Forwarded));
    assert_eq!(instance_role(BindOutcome::Failed), None);
}
