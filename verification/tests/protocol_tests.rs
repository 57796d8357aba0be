use tinykeeper::protocol::{
    ConnectRequest, ConnectResponse, ErrorCode, MultiHeader, OpCode, ReplyHeader, RequestHeader,
    Stat, SessionId,
};

#[test]
fn connect_request_response_round_trip() {
    let response = ConnectResponse {
        protocol_version: 0,
        timeout_ms: 4000,
        session_id: 42,
        password: vec![9u8; 16],
    };
    let bytes = response.to_bytes();

    // protocol_version(4) + timeout_ms(4) + session_id(8)
    // + password_len(4) + password(16) = 36 bytes.
    assert_eq!(bytes.len(), 36);

    let mut request_bytes = Vec::new();
    request_bytes.extend_from_slice(&0i32.to_be_bytes());
    request_bytes.extend_from_slice(&100i64.to_be_bytes());
    request_bytes.extend_from_slice(&4000i32.to_be_bytes());
    request_bytes.extend_from_slice(&0i64.to_be_bytes());
    request_bytes.extend_from_slice(&16i32.to_be_bytes());
    request_bytes.extend_from_slice(&[0u8; 16]);

    let mut buf = request_bytes.as_slice();
    let request = ConnectRequest::from_bytes(&mut buf).unwrap();

    assert_eq!(request.protocol_version, 0);
    assert_eq!(request.last_zxid_seen, 100);
    assert_eq!(request.timeout_ms, 4000);
    assert_eq!(request.session_id, 0);
    assert_eq!(request.password, vec![0u8; 16]);
    assert!(buf.is_empty());
}

#[test]
fn reply_header_is_sixteen_big_endian_bytes() {
    let bytes = ReplyHeader { xid: 42, zxid: 7, err: ErrorCode::NoNode }.to_bytes();
    assert_eq!(bytes.len(), 16);
    assert_eq!(&bytes[0..4], &42i32.to_be_bytes());
    assert_eq!(&bytes[4..12], &7i64.to_be_bytes());
    assert_eq!(&bytes[12..16], &(-101i32).to_be_bytes());
}

#[test]
fn request_header_reads_xid_and_operation() {
    let mut payload = Vec::new();
    payload.extend_from_slice(&42i32.to_be_bytes());
    payload.extend_from_slice(&11i32.to_be_bytes());
    payload.push(5);
    let mut buf = payload.as_slice();
    let header = RequestHeader::from_bytes(&mut buf).unwrap();
    assert_eq!(header.xid, 42);
    assert_eq!(header.opcode, OpCode::Heartbeat);
    assert_eq!(buf, &[5u8][..]);
}

#[test]
fn request_header_rejects_unknown_operation() {
    let mut payload = Vec::new();
    payload.extend_from_slice(&1i32.to_be_bytes());
    payload.extend_from_slice(&10i32.to_be_bytes());
    let mut buf = payload.as_slice();
    assert_eq!(RequestHeader::from_bytes(&mut buf).err(), Some(10));
}

#[test]
fn opcode_numbers_round_trip() {
    for op in [OpCode::Close, OpCode::Create, OpCode::Multi, OpCode::SetData, OpCode::AddWatch] {
        assert_eq!(OpCode::try_from(op.code()), Ok(op));
    }
    assert_eq!(OpCode::Close.code(), -11);
    assert_eq!(OpCode::Multi.code(), 14);
}

#[test]
fn stat_encodes_sixty_eight_bytes_with_lengths() {
    let stat = Stat {
        czxid: 1,
        mzxid: 2,
        ctime: 3,
        mtime: 4,
        version: 5,
        cversion: 6,
        aversion: 7,
        ephemeral_owner: SessionId(8),
        pzxid: 9,
    };
    let bytes = stat.to_bytes(10, 11);
    assert_eq!(bytes.len(), 68);
    assert_eq!(&bytes[0..8], &1i64.to_be_bytes());
    assert_eq!(&bytes[52..56], &10i32.to_be_bytes());
    assert_eq!(&bytes[56..60], &11i32.to_be_bytes());
    assert_eq!(&bytes[60..68], &9i64.to_be_bytes());
}

#[test]
fn multi_header_round_trips() {
    let header = MultiHeader { op_type: 5, done: false, err: -1 };
    let bytes = header.to_bytes();
    assert_eq!(bytes.len(), 9);
    let mut buf = bytes.as_slice();
    let back = MultiHeader::from_bytes(&mut buf).unwrap();
    assert_eq!(back.op_type, 5);
    assert!(!back.done);
    assert_eq!(back.err, -1);
    assert!(buf.is_empty());
}

#[test]
fn session_id_is_big_endian() {
    assert_eq!(SessionId(0x0102).to_be_bytes(), 0x0102i64.to_be_bytes());
}
