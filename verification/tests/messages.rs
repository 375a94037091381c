use bittorrent::encoding::display::repeat;
use bittorrent::encoding::errors::BencodingError;
use bittorrent::encoding::types::BTypes;
use bittorrent::metainfo::{bad_key_message, bad_key_pair_message, DataParseError};
use bittorrent::network::{answer_handshake, same_hash, HandshakeInfo, ProtocolError};

#[test]
fn codec_failure_messages() {
    let cases: Vec<(BencodingError, &str)> = vec![
        (
            BencodingError::CharacterNotFound('e'),
            "BencodingError::CharacterNotFound e",
        ),
        (BencodingError::ParseIntFailure, "BencodingError::ParseIntFailure"),
        (
            BencodingError::MalformedString("bad".to_owned()),
            "BencodingError::MalformedString bad",
        ),
        (
            BencodingError::IncorrectStartingCharacter('x'),
            "BencodingError::IncorrectStartingChar x",
        ),
        (BencodingError::Nested("in".to_owned()), "BencodingError::Nested in"),
        (BencodingError::InvalidType('k'), "BencodingError::InvalidType k"),
        (
            BencodingError::InvalidBType(BTypes::Integer(4)),
            "BencodingError::InvalidBType Integer(4)",
        ),
        (BencodingError::OutOfBounds, "BencodingError::OutOfBounds"),
        (
            BencodingError::MissingInputType(vec![1, 20, 255]),
            "Decoding input had no type character [1, 20, 255]",
        ),
        (
            BencodingError::MissingInputType(vec![]),
            "Decoding input had no type character []",
        ),
        (BencodingError::CouldNotParseUTF8, "Could not parse UTF8 from input"),
        (
            BencodingError::KeyNotFound("peers".to_owned()),
            "Key peers not found in dict",
        ),
        (BencodingError::NotDict, "Input or Expected value not dictionary"),
        (BencodingError::NotList, "Expected value not list"),
        (BencodingError::NotInt, "Expected value not int"),
        (BencodingError::NotByteStr, "Expected value not byte string"),
        (BencodingError::NotTextStr, "Expected value not text string"),
    ];
    for (error, message) in cases {
        assert_eq!(error.to_string(), message);
        assert_eq!(error.clone(), error);
    }
}

#[test]
fn schema_failure_messages() {
    assert_eq!(DataParseError::ExpectedDict.to_string(), "Expected Dict, got other");
    assert_eq!(
        DataParseError::ExpectedInteger.to_string(),
        "Expected Integer, got other"
    );
    assert_eq!(DataParseError::ExpectedList.to_string(), "Expected List, got other");
    assert_eq!(
        DataParseError::ExpectedTextString.to_string(),
        "Expected TextString, got other"
    );
    assert_eq!(
        DataParseError::BadPieceLength(-3).to_string(),
        "Piece length invalid -3"
    );
    assert_eq!(
        DataParseError::BadKey("info.name".to_owned(), None).to_string(),
        "Expected key & value not met, \"info.name\" None"
    );
    assert_eq!(
        DataParseError::BadKey("a\"b".to_owned(), Some(BTypes::Integer(1))).to_string(),
        "Expected key & value not met, \"a\\\"b\" Some(Integer(1))"
    );
    assert_eq!(
        DataParseError::BadKeyPair(
            "length".to_owned(),
            Some(BTypes::Integer(1)),
            "files".to_owned(),
            Some(BTypes::List(vec![]))
        )
        .to_string(),
        "Expected keys & values not met, \"length\" Some(Integer(1)), \"files\", Some(List[])"
    );
}

#[test]
fn messages_from_a_quoted_key() {
    assert_eq!(
        bad_key_message("<k>", &Some(BTypes::TextString("t".to_owned()))),
        "Expected key & value not met, <k> Some(TextString(1)(\"t\"))"
    );
    assert_eq!(
        bad_key_pair_message("<a>", &None, "<b>", &Some(BTypes::Integer(0))),
        "Expected keys & values not met, <a> None, <b>, Some(Integer(0))"
    );
}

#[test]
fn repeat_gives_the_character_that_many_times() {
    assert_eq!(repeat(' ', 0), "");
    assert_eq!(repeat('x', 3), "xxx");
}

#[test]
fn a_handshake_for_our_torrent_is_answered_with_our_frame() {
    let ours = HandshakeInfo { info_hash: [3; 20], peer_id: [4; 20] };
    let theirs = HandshakeInfo { info_hash: [3; 20], peer_id: [5; 20] };
    assert_eq!(answer_handshake(theirs.encode(), &ours), Ok(Some(ours.encode())));
}

#[test]
fn a_handshake_for_another_torrent_is_not_answered() {
    let ours = HandshakeInfo { info_hash: [3; 20], peer_id: [4; 20] };
    let mut hash = [3; 20];
    hash[19] = 2;
    let theirs = HandshakeInfo { info_hash: hash, peer_id: [4; 20] };
    assert_eq!(answer_handshake(theirs.encode(), &ours), Ok(None));
    assert!(!same_hash(&hash, &ours.info_hash));
    assert!(same_hash(&[3; 20], &ours.info_hash));
}

#[test]
fn a_frame_that_is_no_handshake_fails_the_answer() {
    let ours = HandshakeInfo { info_hash: [3; 20], peer_id: [4; 20] };
    assert_eq!(
        answer_handshake(vec![1, 2, 3], &ours),
        Err(ProtocolError::NoBittorrentHeader)
    );
    let mut long = ours.encode();
    long.push(1);
    assert_eq!(answer_handshake(long, &ours), Err(ProtocolError::HeaderOverflow));
    assert_eq!(
        answer_handshake(ours.encode()[..60].to_vec(), &ours),
        Err(ProtocolError::UnexpectedEnd)
    );
}
