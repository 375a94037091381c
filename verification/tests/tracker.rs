use bittorrent::encoding::errors::BencodingError;
use bittorrent::encoding::types::DictInner;
use bittorrent::metainfo::{DownloadTypes, Meta, MetaInfo};
use bittorrent::tracker::{
    announce_query, announce_url, decode_response, generate_peer_id, TrackerDetails, TrackerEvent,
};

fn meta() -> Meta {
    Meta {
        announce: "http://tracker.example/announce".to_string(),
        info: MetaInfo {
            name: "The test file".to_string(),
            piece_length: 4,
            pieces: vec![0x12, 0x43, 0x76, 0xaf],
            files: DownloadTypes::Single { length: 80 },
            leftovers: DictInner::new(),
        },
        leftovers: DictInner::new(),
    }
}

fn details(meta: &Meta, event: TrackerEvent) -> TrackerDetails<'_> {
    TrackerDetails {
        meta,
        peer_id: "abcdefghijklmnopqrst".to_string(),
        port: 6881,
        uploaded: 0,
        downloaded: 10,
        left: 16384,
        event,
    }
}

#[test]
fn event_words() {
    assert_eq!(TrackerEvent::Started.header_value(), "started");
    assert_eq!(TrackerEvent::Completed.header_value(), "completed");
    assert_eq!(TrackerEvent::Stopped.header_value(), "stopped");
    assert_eq!(TrackerEvent::Empty.header_value(), "empty");
}

#[test]
fn query_escapes_every_byte_that_is_no_letter_or_digit() {
    let meta = meta();
    let hash: [u8; 20] = [
        b'a', b'Z', b'0', b'9', 0x00, 0x1f, b' ', b'%', b'-', b'.', b'_', b'~', b'/', 0x7f, 0x80,
        0xff, b'z', b'A', 0x0a, 0xab,
    ];
    assert_eq!(
        announce_query(&hash, &details(&meta, TrackerEvent::Started)),
        "info_hash=aZ09%00%1F%20%25%2D%2E%5F%7E%2F%7F%80%FFzA%0A%AB&peer_id=abcdefghijklmnopqrst\
&port=6881&uploaded=0&downloaded=10&left=16384&event=started"
    );
}

#[test]
fn url_carries_the_identity_of_the_torrent() {
    let meta = meta();
    assert_eq!(
        announce_url(&details(&meta, TrackerEvent::Stopped)),
        "http://tracker.example/announce?info_hash=%5E%CBc%2B%F9c%1B%9F%AF%C9%17%2B%A2%F0z9M%0A%21%3E\
&peer_id=abcdefghijklmnopqrst&port=6881&uploaded=0&downloaded=10&left=16384&event=stopped"
    );
}

#[test]
fn query_writes_large_numbers_in_full() {
    let meta = meta();
    let mut details = details(&meta, TrackerEvent::Empty);
    details.left = usize::MAX;
    details.port = 0;
    let expected = format!(
        "info_hash=AAAAAAAAAAAAAAAAAAAA&peer_id=abcdefghijklmnopqrst&port=0&uploaded=0\
&downloaded=10&left={}&event=empty",
        usize::MAX
    );
    assert_eq!(announce_query(&[b'A'; 20], &details), expected);
}

#[test]
fn peer_id_is_twenty_letters_and_digits() {
    let first = generate_peer_id();
    assert!(first.iter().all(|b| b.is_ascii_alphanumeric()));
    let mut differs = false;
    for _ in 0..8 {
        let next = generate_peer_id();
        assert!(next.iter().all(|b| b.is_ascii_alphanumeric()));
        differs = differs || next != first;
    }
    assert!(differs);
}

#[test]
fn response_must_hold_a_dictionary_of_peers() {
    assert_eq!(decode_response("d5:peersdee".to_string()), Ok(()));
    assert_eq!(decode_response("d5:peersd1:ai1eee".to_string()), Ok(()));
    assert_eq!(
        decode_response("d5:peersi1ee".to_string()),
        Err(BencodingError::NotDict)
    );
    assert_eq!(
        decode_response("d4:peeri1ee".to_string()),
        Err(BencodingError::KeyNotFound("peers".to_owned()))
    );
    assert_eq!(decode_response("i1e".to_string()), Err(BencodingError::NotDict));
    assert_eq!(
        decode_response("".to_string()),
        Err(BencodingError::MissingInputType(vec![]))
    );
}
