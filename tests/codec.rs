use kwap::msg::{try_from_bytes, try_into_bytes, Code, Message, MessageParseError, MessageToBytesError, Opt, Type};

fn sample() -> Message {
    Message {
        ver: 1,
        ty: Type::Con,
        id: 0x1234,
        token: vec![0xAA, 0xBB],
        code: Code { class: 0, detail: 1 },
        opts: vec![
            Opt { delta: 3, value: b"host".to_vec() },
            Opt { delta: 20, value: vec![1; 300] },
            Opt { delta: 400, value: vec![] },
        ],
        payload: b"payload".to_vec(),
    }
}

#[test]
fn serialize_then_parse_round_trips() {
    let m = sample();
    let bytes = try_into_bytes(&m, 1152).unwrap();
    let back = try_from_bytes(&bytes).unwrap();
    assert_eq!(back, m);
}

#[test]
fn serialize_header_bytes() {
    let m = Message { ver: 1, ty: Type::Con, id: 0, token: vec![], code: Code { class: 0, detail: 0 }, opts: vec![], payload: vec![] };
    assert_eq!(try_into_bytes(&m, 13).unwrap(), vec![0x40, 0x00, 0x00, 0x00]);
    let m = Message { ty: Type::Reset, id: 999, ..m };
    assert_eq!(try_into_bytes(&m, 13).unwrap(), vec![0x70, 0x00, 0x03, 0xE7]);
}

#[test]
fn serialize_option_extensions() {
    let m = Message {
        ver: 1,
        ty: Type::Non,
        id: 1,
        token: vec![],
        code: Code { class: 2, detail: 5 },
        opts: vec![Opt { delta: 13, value: vec![] }, Opt { delta: 269, value: vec![] }],
        payload: vec![],
    };
    assert_eq!(
        try_into_bytes(&m, 1152).unwrap(),
        vec![0x50, 0x45, 0x00, 0x01, 0xD0, 0x00, 0xE0, 0x00, 0x00]
    );
}

#[test]
fn serialize_too_long_and_invalid() {
    let m = Message { payload: vec![0; 2000], ..sample() };
    assert!(matches!(try_into_bytes(&m, 1152), Err(MessageToBytesError::TooLong { capacity: 1152, .. })));
    let m = Message { token: vec![0; 9], ..sample() };
    assert_eq!(try_into_bytes(&m, 1152), Err(MessageToBytesError::Invalid));
}

#[test]
fn parse_errors() {
    assert_eq!(try_from_bytes(&[0x40, 0]), Err(MessageParseError::UnexpectedEndOfStream));
    assert_eq!(try_from_bytes(&[0x49, 0, 0, 0]), Err(MessageParseError::InvalidTokenLength(9)));
    assert_eq!(try_from_bytes(&[0x40, 0, 0, 0, 0xF0]), Err(MessageParseError::OptionDeltaReservedValue(15)));
    assert_eq!(try_from_bytes(&[0x40, 0, 0, 0, 0x0F]), Err(MessageParseError::ValueLengthReservedValue(15)));
    assert_eq!(try_from_bytes(&[0x40, 0, 0, 0, 0xFF]), Err(MessageParseError::PayloadMarkerWithoutPayload));
    assert_eq!(try_from_bytes(&[0x40, 0, 0, 0, 0x02, 1]), Err(MessageParseError::UnexpectedEndOfStream));
    assert_eq!(try_from_bytes(&[0x40, 0, 0, 0, 0xE0, 0xFF, 0xFF]), Err(MessageParseError::OptionDeltaTooLarge));
}
