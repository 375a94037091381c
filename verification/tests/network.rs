use bittorrent::network::{match_bytes, HandshakeInfo, ProtocolError};

#[test]
fn match_bytes_1() {
    const BASELINE: &[u8] = &[0x1, 0x2, 0x3, 0x4];
    const CRITERIA: &[u8] = &[0x1, 0x2];
    const RESULT: &[u8] = &[0x3, 0x4];
    assert_eq!(match_bytes(BASELINE, CRITERIA).unwrap(), RESULT);
}

#[test]
fn match_bytes_2() {
    const BASELINE: &[u8] = &[0x1, 0x2, 0x3, 0x4];
    const CRITERIA: &[u8] = &[0x1, 0x2, 0x3, 0x3];
    assert_eq!(match_bytes(BASELINE, CRITERIA), None);
}

#[test]
fn match_bytes_3() {
    const BASELINE: &[u8] = &[0x1, 0x2, 0x3];
    const CRITERIA: &[u8] = &[0x1, 0x2, 0x3, 0x4];
    assert_eq!(match_bytes(BASELINE, CRITERIA), None);
}

#[test]
fn header_decode_1() {
    const SAMPLE: [u8; 68] = [
        19, 66, 105, 116, 84, 111, 114, 114, 101, 110, 116, 32, 112, 114, 111, 116, 111, 99,
        111, 108, 0, 0, 0, 0, 0, 16, 0, 0, 58, 66, 135, 44, 34, 168, 10, 90, 45, 167, 115, 85,
        60, 19, 130, 167, 61, 106, 204, 188, 45, 84, 68, 48, 48, 48, 49, 45, 112, 100, 86, 68,
        102, 70, 51, 75, 100, 112, 119, 49,
    ];

    const RESULT: HandshakeInfo = HandshakeInfo {
        info_hash: [
            58, 66, 135, 44, 34, 168, 10, 90, 45, 167, 115, 85, 60, 19, 130, 167, 61, 106, 204,
            188,
        ],
        peer_id: [
            45, 84, 68, 48, 48, 48, 49, 45, 112, 100, 86, 68, 102, 70, 51, 75, 100, 112, 119,
            49,
        ],
    };

    assert_eq!(HandshakeInfo::decode(SAMPLE.to_vec()).unwrap(), RESULT);
}

#[test]
fn header_encode_1() {
    const RESULT: [u8; 68] = [
        19, 66, 105, 116, 84, 111, 114, 114, 101, 110, 116, 32, 112, 114, 111, 116, 111, 99,
        111, 108, 0, 0, 0, 0, 0, 0, 0, 0, 58, 66, 135, 44, 34, 168, 10, 90, 45, 167, 115, 85,
        60, 19, 130, 167, 61, 106, 204, 188, 45, 84, 68, 48, 48, 48, 49, 45, 112, 100, 86, 68,
        102, 70, 51, 75, 100, 112, 119, 49,
    ];

    const SAMPLE: HandshakeInfo = HandshakeInfo {
        info_hash: [
            58, 66, 135, 44, 34, 168, 10, 90, 45, 167, 115, 85, 60, 19, 130, 167, 61, 106, 204,
            188,
        ],
        peer_id: [
            45, 84, 68, 48, 48, 48, 49, 45, 112, 100, 86, 68, 102, 70, 51, 75, 100, 112, 119,
            49,
        ],
    };

    assert_eq!(SAMPLE.encode(), RESULT.to_vec());
}

fn frame() -> Vec<u8> {
    HandshakeInfo { info_hash: [7; 20], peer_id: [9; 20] }.encode()
}

#[test]
fn handshake_reads_back_from_its_frame() {
    let info = HandshakeInfo { info_hash: [7; 20], peer_id: [9; 20] };
    assert_eq!(HandshakeInfo::decode(info.encode()), Ok(info));
    assert_eq!(info.encode().len(), 68);
}

#[test]
fn handshake_refuses_a_wrong_prefix() {
    let mut bytes = frame();
    bytes[0] = 18;
    assert_eq!(HandshakeInfo::decode(bytes), Err(ProtocolError::NoBittorrentHeader));
    let mut bytes = frame();
    bytes[19] = b'L';
    assert_eq!(HandshakeInfo::decode(bytes), Err(ProtocolError::NoBittorrentHeader));
    assert_eq!(HandshakeInfo::decode(vec![]), Err(ProtocolError::NoBittorrentHeader));
    assert_eq!(
        HandshakeInfo::decode(frame()[..19].to_vec()),
        Err(ProtocolError::NoBittorrentHeader)
    );
}

#[test]
fn handshake_refuses_a_short_frame() {
    for length in [20, 27, 28, 47, 48, 67] {
        assert_eq!(
            HandshakeInfo::decode(frame()[..length].to_vec()),
            Err(ProtocolError::UnexpectedEnd)
        );
    }
}

#[test]
fn handshake_refuses_a_long_frame() {
    let mut bytes = frame();
    bytes.push(0);
    assert_eq!(HandshakeInfo::decode(bytes), Err(ProtocolError::HeaderOverflow));
}

#[test]
fn handshake_does_not_inspect_the_reserved_bytes() {
    let mut bytes = frame();
    bytes[25] = 16;
    assert_eq!(
        HandshakeInfo::decode(bytes),
        Ok(HandshakeInfo { info_hash: [7; 20], peer_id: [9; 20] })
    );
}

#[test]
fn protocol_error_messages() {
    assert_eq!(
        ProtocolError::NoBittorrentHeader.to_str(),
        "Protocol Error: No Bittorrent Header in handshake"
    );
    assert_eq!(
        ProtocolError::UnexpectedEnd.to_str(),
        "Protocol Error: Header ended unexpectedly"
    );
    assert_eq!(
        ProtocolError::HeaderOverflow.to_str(),
        "Protocol Error: Header length too long"
    );
}

#[test]
fn match_bytes_with_an_empty_criteria_keeps_everything() {
    assert_eq!(match_bytes(&[1, 2], &[]), Some(&[1u8, 2][..]));
    assert_eq!(match_bytes(&[], &[]), Some(&[][..]));
    assert_eq!(match_bytes(&[1, 2], &[1, 2]), Some(&[][..]));
}
