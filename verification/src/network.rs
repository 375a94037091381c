//! The peer wire handshake: a fixed 68-byte frame.

use vstd::prelude::*;
use vstd::slice::slice_subrange;

verus! {

/// Why a received handshake frame was refused.
#[derive(Debug, Clone, Copy, PartialEq, Eq)]
pub enum ProtocolError {
    NoBittorrentHeader,
    UnexpectedEnd,
    HeaderOverflow,
}

/// The protocol prefix: the length byte 19 and the ASCII text `BitTorrent protocol`.
pub open spec fn bt_header() -> Seq<u8> {
    seq![
        19u8, 66, 105, 116, 84, 111, 114, 114, 101, 110, 116, 32, 112, 114, 111, 116, 111, 99,
        111, 108,
    ]
}

/// The eight reserved bytes, all zero on output.
pub open spec fn reserved_zeros() -> Seq<u8> {
    Seq::new(8, |i: int| 0u8)
}

/// `criteria` is a prefix of `baseline`.
pub open spec fn is_prefix(criteria: Seq<u8>, baseline: Seq<u8>) -> bool {
    criteria.len() <= baseline.len() && baseline.subrange(0, criteria.len() as int) == criteria
}

/// Strips `criteria` from the front of `baseline`; `None` when `baseline` does not start with it.
pub fn match_bytes<'a>(baseline: &'a [u8], criteria: &[u8]) -> (rest: Option<&'a [u8]>)
    ensures
        is_prefix(criteria@, baseline@) <==> rest is Some,
        rest matches Some(r) ==> r@ == baseline@.subrange(
            criteria@.len() as int,
            baseline@.len() as int,
        ),
{
    let mut index: usize = 0;
    while index < criteria.len()
        invariant
            index <= criteria@.len(),
            index <= baseline@.len(),
            forall|j: int| 0 <= j < index ==> baseline@[j] == criteria@[j],
        decreases criteria@.len() - index,
    {
        if index >= baseline.len() {
            return None;
        }
        if baseline[index] != criteria[index] {
            proof {
                if is_prefix(criteria@, baseline@) {
                    assert(baseline@.subrange(0, criteria@.len() as int)[index as int]
                        == baseline@[index as int]);
                }
            }
            return None;
        }
        index += 1;
    }
    assert(baseline@.subrange(0, criteria@.len() as int) =~= criteria@);
    Some(slice_subrange(baseline, index, baseline.len()))
}

impl ProtocolError {
    /// The message shown for this error.
    pub fn to_str(&self) -> (text: &'static str)
        ensures
            text@ == match *self {
                ProtocolError::NoBittorrentHeader =>
                    "Protocol Error: No Bittorrent Header in handshake"@,
                ProtocolError::UnexpectedEnd => "Protocol Error: Header ended unexpectedly"@,
                ProtocolError::HeaderOverflow => "Protocol Error: Header length too long"@,
            },
    {
        match self {
            ProtocolError::NoBittorrentHeader =>
                "Protocol Error: No Bittorrent Header in handshake",
            ProtocolError::UnexpectedEnd => "Protocol Error: Header ended unexpectedly",
            ProtocolError::HeaderOverflow => "Protocol Error: Header length too long",
        }
    }
}

/// What the two peers exchange in a handshake, besides the fixed prefix.
#[derive(Debug, Clone, Copy, PartialEq, Eq)]
pub struct HandshakeInfo {
    pub info_hash: [u8; 20],
    pub peer_id: [u8; 20],
}

/// The frame that carries `info_hash` and `peer_id`: prefix, reserved bytes, hash, peer id.
pub open spec fn handshake_frame(info_hash: Seq<u8>, peer_id: Seq<u8>) -> Seq<u8> {
    bt_header() + reserved_zeros() + info_hash + peer_id
}

/// What decoding `received` gives: the first violation met from the front of the frame.
pub open spec fn decode_frame(received: Seq<u8>) -> Result<(Seq<u8>, Seq<u8>), ProtocolError> {
    if !is_prefix(bt_header(), received) {
        Err(ProtocolError::NoBittorrentHeader)
    } else if received.len() < 68 {
        Err(ProtocolError::UnexpectedEnd)
    } else if received.len() > 68 {
        Err(ProtocolError::HeaderOverflow)
    } else {
        Ok((received.subrange(28, 48), received.subrange(48, 68)))
    }
}

fn header_bytes() -> (header: [u8; 20])
    ensures
        header@ == bt_header(),
{
    let header: [u8; 20] = [
        19, 66, 105, 116, 84, 111, 114, 114, 101, 110, 116, 32, 112, 114, 111, 116, 111, 99, 111,
        108,
    ];
    assert(header@ =~= bt_header());
    header
}

fn copy_20(source: &[u8], start: usize) -> (out: [u8; 20])
    requires
        start + 20 <= source@.len(),
    ensures
        out@ == source@.subrange(start as int, start + 20),
{
    let mut out: [u8; 20] = [0u8; 20];
    let length: usize = source.len();
    let mut i: usize = 0;
    while i < 20
        invariant
            i <= 20,
            length == source@.len(),
            start + 20 <= source@.len(),
            forall|j: int| 0 <= j < i ==> out@[j] == source@[start + j],
        decreases 20 - i,
    {
        out[i] = source[start + i];
        i += 1;
    }
    assert(out@ =~= source@.subrange(start as int, start + 20));
    out
}

impl HandshakeInfo {
    /// Reads a handshake frame. The frame must be exactly 68 bytes and start with the
    /// protocol prefix; the reserved bytes are not inspected.
    pub fn decode(received: Vec<u8>) -> (result: Result<Self, ProtocolError>)
        ensures
            match decode_frame(received@) {
                Ok((hash, peer)) => result matches Ok(info) && info.info_hash@ == hash
                    && info.peer_id@ == peer,
                Err(e) => result == Err::<Self, ProtocolError>(e),
            },
    {
        let header = header_bytes();
        let rs = received.as_slice();
        if match_bytes(rs, header.as_slice()).is_none() {
            return Err(ProtocolError::NoBittorrentHeader);
        }
        if rs.len() < 68 {
            return Err(ProtocolError::UnexpectedEnd);
        }
        if rs.len() > 68 {
            return Err(ProtocolError::HeaderOverflow);
        }
        let info_hash = copy_20(rs, 28);
        let peer_id = copy_20(rs, 48);
        Ok(Self { info_hash, peer_id })
    }

    /// Writes the 68-byte handshake frame.
    pub fn encode(&self) -> (buffer: Vec<u8>)
        ensures
            buffer@ == handshake_frame(self.info_hash@, self.peer_id@),
            buffer@.len() == 68,
    {
        let header = header_bytes();
        let mut buffer: Vec<u8> = Vec::new();
        let mut i: usize = 0;
        while i < 20
            invariant
                i <= 20,
                header@ == bt_header(),
                buffer@ == bt_header().subrange(0, i as int),
            decreases 20 - i,
        {
            buffer.push(header[i]);
            i += 1;
            assert(buffer@ =~= bt_header().subrange(0, i as int));
        }
        let mut i: usize = 0;
        while i < 8
            invariant
                i <= 8,
                buffer@ == bt_header() + reserved_zeros().subrange(0, i as int),
            decreases 8 - i,
        {
            buffer.push(0u8);
            i += 1;
            assert(buffer@ =~= bt_header() + reserved_zeros().subrange(0, i as int));
        }
        let mut i: usize = 0;
        while i < 20
            invariant
                i <= 20,
                buffer@ == bt_header() + reserved_zeros() + self.info_hash@.subrange(0, i as int),
            decreases 20 - i,
        {
            buffer.push(self.info_hash[i]);
            i += 1;
            assert(buffer@ =~= bt_header() + reserved_zeros() + self.info_hash@.subrange(
                0,
                i as int,
            ));
        }
        let mut i: usize = 0;
        while i < 20
            invariant
                i <= 20,
                buffer@ == bt_header() + reserved_zeros() + self.info_hash@
                    + self.peer_id@.subrange(0, i as int),
            decreases 20 - i,
        {
            buffer.push(self.peer_id[i]);
            i += 1;
            assert(buffer@ =~= bt_header() + reserved_zeros() + self.info_hash@
                + self.peer_id@.subrange(0, i as int));
        }
        assert(buffer@ =~= handshake_frame(self.info_hash@, self.peer_id@));
        buffer
    }
}

/// Whether two digests are the same.
pub fn same_hash(a: &[u8; 20], b: &[u8; 20]) -> (same: bool)
    ensures
        same == (a@ == b@),
{
    let mut i: usize = 0;
    while i < 20
        invariant
            i <= 20,
            forall|j: int| 0 <= j < i ==> a@[j] == b@[j],
        decreases 20 - i,
    {
        if a[i] != b[i] {
            return false;
        }
        i += 1;
    }
    assert(a@ =~= b@);
    true
}

/// What answering a received frame comes to: our own frame when the peer asks for our
/// torrent, nothing when it asks for another, a failure when the frame is no handshake.
pub open spec fn handshake_answer(
    received: Seq<u8>,
    info_hash: Seq<u8>,
    peer_id: Seq<u8>,
) -> Result<Option<Seq<u8>>, ProtocolError> {
    match decode_frame(received) {
        Err(e) => Err(e),
        Ok((hash, _)) => if hash == info_hash {
            Ok(Some(handshake_frame(info_hash, peer_id)))
        } else {
            Ok(None)
        },
    }
}

/// Decides the answer to a handshake that a peer sent: the frame to send back, if any.
pub fn answer_handshake(received: Vec<u8>, ours: &HandshakeInfo) -> (result: Result<
    Option<Vec<u8>>,
    ProtocolError,
>)
    ensures
        match handshake_answer(received@, ours.info_hash@, ours.peer_id@) {
            Err(e) => result == Err::<Option<Vec<u8>>, ProtocolError>(e),
            Ok(Some(frame)) => result matches Ok(Some(f)) && f@ == frame,
            Ok(None) => result matches Ok(None),
        },
{
    let theirs = match HandshakeInfo::decode(received) {
        Ok(info) => info,
        Err(e) => {
            return Err(e);
        },
    };
    if same_hash(&theirs.info_hash, &ours.info_hash) {
        Ok(Some(ours.encode()))
    } else {
        Ok(None)
    }
}

/// A frame reads back as the digest and the peer id that it was written from.
pub proof fn lemma_frame_round_trip(info_hash: Seq<u8>, peer_id: Seq<u8>)
    requires
        info_hash.len() == 20,
        peer_id.len() == 20,
    ensures
        decode_frame(handshake_frame(info_hash, peer_id)) == Ok::<
            (Seq<u8>, Seq<u8>),
            ProtocolError,
        >((info_hash, peer_id)),
{
    let frame = handshake_frame(info_hash, peer_id);
    assert(frame.subrange(0, 20) =~= bt_header());
    assert(frame.subrange(28, 48) =~= info_hash);
    assert(frame.subrange(48, 68) =~= peer_id);
}

} // verus!
