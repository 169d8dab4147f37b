use bytes::BytesMut;
use rdp_client_core::negotiation::{CodecError, DetectionResult, RDCleanPathErr, RDCleanPathPdu, MAX_LEN, VERSION_1};

fn request() -> RDCleanPathPdu {
    RDCleanPathPdu::new_request(
        vec![0xDE, 0xAD, 0xBE, 0xFF],
        "destination".to_owned(),
        "proxy auth".to_owned(),
        Some("PCB".to_owned()),
    )
    .unwrap()
}

const REQUEST_DER: &[u8] = &[
    0x30, 0x32, 0xA0, 0x4, 0x2, 0x2, 0xD, 0x3E, 0xA2, 0xD, 0xC, 0xB, 0x64, 0x65, 0x73, 0x74, 0x69, 0x6E, 0x61,
    0x74, 0x69, 0x6F, 0x6E, 0xA3, 0xC, 0xC, 0xA, 0x70, 0x72, 0x6F, 0x78, 0x79, 0x20, 0x61, 0x75, 0x74, 0x68, 0xA5,
    0x5, 0xC, 0x3, 0x50, 0x43, 0x42, 0xA6, 0x6, 0x4, 0x4, 0xDE, 0xAD, 0xBE, 0xFF,
];

fn response_success() -> RDCleanPathPdu {
    RDCleanPathPdu::new_response(
        "192.168.7.95".to_owned(),
        vec![0xDE, 0xAD, 0xBE, 0xFF],
        vec![
            vec![0xDE, 0xAD, 0xBE, 0xFF],
            vec![0xDE, 0xAD, 0xBE, 0xFF],
            vec![0xDE, 0xAD, 0xBE, 0xFF],
        ],
    )
    .unwrap()
}

const RESPONSE_SUCCESS_DER: &[u8] = &[
    0x30, 0x34, 0xA0, 0x4, 0x2, 0x2, 0xD, 0x3E, 0xA6, 0x6, 0x4, 0x4, 0xDE, 0xAD, 0xBE, 0xFF, 0xA7, 0x14, 0x30,
    0x12, 0x4, 0x4, 0xDE, 0xAD, 0xBE, 0xFF, 0x4, 0x4, 0xDE, 0xAD, 0xBE, 0xFF, 0x4, 0x4, 0xDE, 0xAD, 0xBE, 0xFF,
    0xA9, 0xE, 0xC, 0xC, 0x31, 0x39, 0x32, 0x2E, 0x31, 0x36, 0x38, 0x2E, 0x37, 0x2E, 0x39, 0x35,
];

const RESPONSE_HTTP_ERROR_DER: &[u8] = &[
    0x30, 0x15, 0xA0, 0x4, 0x2, 0x2, 0xD, 0x3E, 0xA1, 0xD, 0x30, 0xB, 0xA0, 0x3, 0x2, 0x1, 0x1, 0xA1, 0x4, 0x2,
    0x2, 0x1, 0xF4,
];

const RESPONSE_TLS_ERROR_DER: &[u8] = &[
    0x30, 0x14, 0xA0, 0x04, 0x02, 0x02, 0x0D, 0x3E, 0xA1, 0x0C, 0x30, 0x0A, 0xA0, 0x03, 0x02, 0x01, 0x01, 0xA3,
    0x03, 0x02, 0x01, 0x30,
];

fn decode_all(bytes: &[u8]) -> RDCleanPathPdu {
    let mut buf = BytesMut::from(bytes);
    let pdu = RDCleanPathPdu::decode(&mut buf).unwrap().unwrap();
    assert!(buf.is_empty());
    pdu
}

fn round_trip(message: RDCleanPathPdu) {
    let encoded = message.to_der().unwrap();
    assert_eq!(decode_all(&encoded), message);
}

#[test]
fn smoke_request() {
    round_trip(request());
}

#[test]
fn smoke_response_success() {
    round_trip(response_success());
}

#[test]
fn smoke_error_shapes() {
    round_trip(RDCleanPathPdu::new_general_error());
    round_trip(RDCleanPathPdu::new_http_error(500));
    round_trip(RDCleanPathPdu::new_wsa_error(10061));
    round_trip(RDCleanPathPdu::new_tls_error(48));
}

#[test]
fn round_trip_long_and_unicode_fields() {
    let payload: Vec<u8> = (0..300u32).map(|i| i as u8).collect();
    let chain = vec![vec![0x80; 70000], Vec::new()];
    let message = RDCleanPathPdu::new_response("адрес-サーバー".to_owned(), payload, chain).unwrap();
    let encoded = message.to_der().unwrap();
    assert_eq!(&encoded[..4], &[0x30, 0x83, 0x01, 0x12]);
    assert_eq!(decode_all(&encoded), message);
}

#[test]
fn round_trip_large_version_and_fields() {
    let mut message = RDCleanPathPdu::default();
    message.version = u64::MAX;
    message.server_auth = Some(String::new());
    message.error = Some(RDCleanPathErr {
        error_code: 0x8000,
        http_status_code: Some(0),
        wsa_last_error: Some(u16::MAX),
        tls_alert_code: Some(0xFF),
    });
    round_trip(message);
}

#[test]
fn serialization_request() {
    assert_eq!(request().to_der().unwrap(), REQUEST_DER);
}

#[test]
fn serialization_response_success() {
    assert_eq!(response_success().to_der().unwrap(), RESPONSE_SUCCESS_DER);
}

#[test]
fn serialization_http_error() {
    assert_eq!(RDCleanPathPdu::new_http_error(500).to_der().unwrap(), RESPONSE_HTTP_ERROR_DER);
}

#[test]
fn serialization_tls_error() {
    assert_eq!(RDCleanPathPdu::new_tls_error(48).to_der().unwrap(), RESPONSE_TLS_ERROR_DER);
}

#[test]
fn decode_request_sample() {
    assert_eq!(REQUEST_DER.len(), 52);
    let pdu = decode_all(REQUEST_DER);
    assert_eq!(pdu.version, VERSION_1);
    assert_eq!(pdu.destination.as_deref(), Some("destination"));
    assert_eq!(pdu.proxy_auth.as_deref(), Some("proxy auth"));
    assert_eq!(pdu.preconnection_blob.as_deref(), Some("PCB"));
    assert_eq!(pdu.x224_connection_pdu, Some(vec![0xDE, 0xAD, 0xBE, 0xFF]));
    assert_eq!(pdu.error, None);
    assert_eq!(pdu.server_auth, None);
    assert_eq!(pdu.server_cert_chain, None);
    assert_eq!(pdu.server_addr, None);
    assert_eq!(pdu.to_der().unwrap(), REQUEST_DER);
}

#[test]
fn decode_two_messages_back_to_back() {
    let mut buf = BytesMut::from(REQUEST_DER);
    buf.extend_from_slice(RESPONSE_TLS_ERROR_DER);
    let first = RDCleanPathPdu::decode(&mut buf).unwrap().unwrap();
    assert_eq!(first, request());
    assert_eq!(&buf[..], RESPONSE_TLS_ERROR_DER);
    let second = RDCleanPathPdu::decode(&mut buf).unwrap().unwrap();
    assert_eq!(second, RDCleanPathPdu::new_tls_error(48));
    assert!(buf.is_empty());
}

#[test]
fn decode_incomplete_then_complete() {
    for cut in 0..REQUEST_DER.len() {
        let mut buf = BytesMut::from(&REQUEST_DER[..cut]);
        assert_eq!(RDCleanPathPdu::decode(&mut buf), Ok(None));
        assert_eq!(&buf[..], &REQUEST_DER[..cut]);
        buf.extend_from_slice(&REQUEST_DER[cut..]);
        assert_eq!(RDCleanPathPdu::decode(&mut buf).unwrap().unwrap(), request());
    }
}

#[test]
fn decode_incomplete_reserves_room() {
    let mut buf = BytesMut::from(&REQUEST_DER[..10]);
    assert_eq!(RDCleanPathPdu::decode(&mut buf), Ok(None));
    assert!(buf.capacity() >= REQUEST_DER.len());
}

#[test]
fn decode_malformed() {
    let mut wrong_tag = BytesMut::from(&[0x31u8, 0x00][..]);
    assert_eq!(RDCleanPathPdu::decode(&mut wrong_tag), Err(CodecError::Malformed));
    assert_eq!(&wrong_tag[..], &[0x31u8, 0x00]);

    let mut bad_string = BytesMut::from(REQUEST_DER);
    bad_string[12] = 0xFF;
    assert_eq!(RDCleanPathPdu::decode(&mut bad_string), Err(CodecError::Malformed));

    let mut unknown_field = BytesMut::from(&[0x30u8, 0x0A, 0xA0, 0x04, 0x02, 0x02, 0x0D, 0x3E, 0xA8, 0x02, 0x05, 0x00][..]);
    assert_eq!(RDCleanPathPdu::decode(&mut unknown_field), Err(CodecError::Malformed));

    let mut non_minimal_length = BytesMut::from(&[0x30u8, 0x81, 0x06, 0xA0, 0x04, 0x02, 0x02, 0x0D, 0x3E][..]);
    assert_eq!(RDCleanPathPdu::decode(&mut non_minimal_length), Err(CodecError::Malformed));
}

#[test]
fn detect_prefixes() {
    assert_eq!(RDCleanPathPdu::detect(&[]), DetectionResult::NotEnoughBytes);
    for cut in 0..8 {
        assert_eq!(RDCleanPathPdu::detect(&REQUEST_DER[..cut]), DetectionResult::NotEnoughBytes);
    }
    for cut in 8..=REQUEST_DER.len() {
        assert_eq!(RDCleanPathPdu::detect(&REQUEST_DER[..cut]), DetectionResult::Detected(VERSION_1));
    }
}

#[test]
fn detect_failures() {
    assert_eq!(RDCleanPathPdu::detect(&[0x04, 0x00]), DetectionResult::Failed);
    let old_version = [0x30u8, 0x06, 0xA0, 0x04, 0x02, 0x02, 0x0D, 0x3D];
    assert_eq!(RDCleanPathPdu::detect(&old_version), DetectionResult::Failed);
    let negative = [0x30u8, 0x05, 0xA0, 0x03, 0x02, 0x01, 0xFF];
    assert_eq!(RDCleanPathPdu::detect(&negative), DetectionResult::Failed);
}

#[test]
fn version_integer_matches_der_crate() {
    let mut buf = [0u8; 16];
    let expected = der::Encode::encode_to_slice(&VERSION_1, &mut buf).unwrap();
    assert_eq!(&REQUEST_DER[4..8], expected);
}

#[test]
fn oversized_payload_is_refused() {
    let too_long = vec![0u8; MAX_LEN + 1];
    assert!(der::asn1::OctetStringRef::new(&too_long[..]).is_err());
    let r = RDCleanPathPdu::new_request(too_long, "d".to_owned(), "p".to_owned(), None);
    assert_eq!(r, Err(CodecError::Overlength));
    let r = RDCleanPathPdu::new_response("a".to_owned(), Vec::new(), vec![vec![0u8; MAX_LEN + 1]]);
    assert_eq!(r, Err(CodecError::Overlength));
}

#[test]
fn oversized_message_is_refused() {
    let message = RDCleanPathPdu::new_request(vec![0u8; MAX_LEN], "d".to_owned(), "p".to_owned(), None).unwrap();
    assert_eq!(message.to_der(), Err(CodecError::Overlength));
}

#[test]
fn constructors_build_valid_shapes() {
    assert!(request().has_valid_shape());
    assert!(response_success().has_valid_shape());
    assert!(RDCleanPathPdu::new_general_error().has_valid_shape());
    assert!(RDCleanPathPdu::new_http_error(404).has_valid_shape());
    assert!(RDCleanPathPdu::new_wsa_error(10060).has_valid_shape());
    assert!(RDCleanPathPdu::new_tls_error(40).has_valid_shape());
    assert!(!RDCleanPathPdu::default().has_valid_shape());

    let mut mixed = request();
    mixed.server_addr = Some("10.0.0.1".to_owned());
    assert!(!mixed.has_valid_shape());

    let mut two_details = RDCleanPathPdu::new_http_error(500);
    if let Some(e) = two_details.error.as_mut() {
        e.tls_alert_code = Some(1);
    }
    assert!(!two_details.has_valid_shape());

    let mut other_version = request();
    other_version.version = 3389;
    assert!(!other_version.has_valid_shape());
}
