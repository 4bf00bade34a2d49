use bdd_rust_multiprotocol_server::protocols::fix::{
    build_message, heartbeat_message, is_heartbeat, reject_message, test_request_message,
};

#[test]
fn heartbeat_message_is_framed_with_length_and_checksum() {
    assert_eq!(
        heartbeat_message(),
        b"8=FIX.4.4\x019=5\x0135=0\x0110=163\x01\n".to_vec()
    );
}

#[test]
fn test_request_message_is_framed() {
    assert_eq!(
        test_request_message(),
        b"8=FIX.4.4\x019=27\x0135=1\x01112=heartbeat-timeout\x0110=142\x01\n".to_vec()
    );
}

#[test]
fn reject_message_is_framed_with_zero_padded_checksum() {
    assert_eq!(
        reject_message(),
        b"8=FIX.4.4\x019=32\x0135=3\x0158=Unsupported FIX message\x0110=054\x01\n".to_vec()
    );
}

#[test]
fn empty_body_gets_length_zero() {
    assert_eq!(build_message(b""), b"8=FIX.4.4\x019=0\x0110=200\x01\n".to_vec());
}

#[test]
fn two_digit_body_length_and_small_checksum() {
    assert_eq!(
        build_message(b"AAAAAAAAAAAA"),
        b"8=FIX.4.4\x019=12\x01AAAAAAAAAAAA10=007\x01\n".to_vec()
    );
}

#[test]
fn checksum_is_byte_sum_modulo_256() {
    let body = vec![0xffu8; 300];
    let message = build_message(&body);
    let trailer_start = message.len() - 8;
    let sum: u32 = message[..trailer_start].iter().map(|b| *b as u32).sum::<u32>() % 256;
    let expected = format!("10={:03}\x01\n", sum);
    assert_eq!(&message[trailer_start..], expected.as_bytes());
    assert!(message.starts_with(b"8=FIX.4.4\x019=300\x01"));
}

#[test]
fn heartbeat_field_is_recognized_between_separators() {
    assert!(is_heartbeat(b"35=0"));
    assert!(is_heartbeat(b"35=0\x01"));
    assert!(is_heartbeat(b"8=FIX.4.4\x0135=0\x01"));
    assert!(is_heartbeat(b"35=0\n"));
    assert!(is_heartbeat(b"49=A\n35=0"));
}

#[test]
fn other_fields_are_not_heartbeats() {
    assert!(!is_heartbeat(b""));
    assert!(!is_heartbeat(b"35="));
    assert!(!is_heartbeat(b"135=0\x01"));
    assert!(!is_heartbeat(b"35=01\x01"));
    assert!(!is_heartbeat(b"35=1\x01"));
    assert!(!is_heartbeat(b"35=0 \x01"));
    assert!(!is_heartbeat(b"hello"));
}

#[test]
fn server_messages_are_recognized_as_expected() {
    assert!(is_heartbeat(&heartbeat_message()));
    assert!(!is_heartbeat(&reject_message()));
    assert!(!is_heartbeat(&test_request_message()));
}
