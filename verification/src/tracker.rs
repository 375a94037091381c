//! What a client sends to a tracker: the announce query, and the peer id it announces under.

use percent_encoding::{percent_encode, NON_ALPHANUMERIC};
use rand::Rng;
use vstd::prelude::*;
use vstd::string::StringExecFns;
use vstd::utf8::encode_utf8;
use crate::decimal::{append_decimal, decimal_text};
use crate::encoding::errors::BencodingError;
use crate::encoding::grammar::decode;
use crate::encoding::model::{take_key, Fault, Value};
use crate::encoding::parser::bdecode;
use crate::metainfo::schema::info_fits;
use crate::metainfo::{info_bytes, sha1_digest, Meta};

verus! {

/// Where a download stands when the client announces.
#[derive(Debug, Clone, Copy, PartialEq, Eq)]
pub enum TrackerEvent {
    Started,
    Completed,
    Stopped,
    Empty,
}

impl TrackerEvent {
    /// The word that stands for the event in the query.
    pub fn header_value(&self) -> (word: &'static str)
        ensures
            word@ == event_text(*self),
    {
        match self {
            TrackerEvent::Started => "started",
            TrackerEvent::Completed => "completed",
            TrackerEvent::Stopped => "stopped",
            TrackerEvent::Empty => "empty",
        }
    }
}

/// The word that stands for an event in the query.
pub open spec fn event_text(event: TrackerEvent) -> Seq<char> {
    match event {
        TrackerEvent::Started => "started"@,
        TrackerEvent::Completed => "completed"@,
        TrackerEvent::Stopped => "stopped"@,
        TrackerEvent::Empty => "empty"@,
    }
}

/// All that an announce tells the tracker.
pub struct TrackerDetails<'a> {
    pub meta: &'a Meta,
    pub peer_id: String,
    pub port: usize,
    pub uploaded: usize,
    pub downloaded: usize,
    pub left: usize,
    pub event: TrackerEvent,
}

/// An ASCII letter or digit.
pub open spec fn is_alphanumeric(b: u8) -> bool {
    (48 <= b <= 57) || (65 <= b <= 90) || (97 <= b <= 122)
}

/// The upper-case hexadecimal digit for `d`, where `0 <= d <= 15`.
pub open spec fn hex_upper(d: int) -> char {
    if d < 10 {
        (48 + d) as char
    } else {
        (55 + d) as char
    }
}

/// A byte in a query: itself when it is an ASCII letter or digit, else `%` and its two
/// hexadecimal digits.
pub open spec fn percent_byte(b: u8) -> Seq<char> {
    if is_alphanumeric(b) {
        seq![b as char]
    } else {
        seq!['%', hex_upper(b as int / 16), hex_upper(b as int % 16)]
    }
}

/// A byte string in a query, byte by byte.
pub open spec fn percent_text(bytes: Seq<u8>) -> Seq<char>
    decreases bytes.len(),
{
    if bytes.len() == 0 {
        Seq::empty()
    } else {
        percent_text(bytes.drop_last()) + percent_byte(bytes.last())
    }
}

/// The query of an announce.
pub open spec fn query_text(
    info_hash: Seq<u8>,
    peer_id: Seq<char>,
    port: nat,
    uploaded: nat,
    downloaded: nat,
    left: nat,
    event: TrackerEvent,
) -> Seq<char> {
    "info_hash="@ + percent_text(info_hash) + "&peer_id="@ + peer_id + "&port="@ + decimal_text(
        port,
    ) + "&uploaded="@ + decimal_text(uploaded) + "&downloaded="@ + decimal_text(downloaded)
        + "&left="@ + decimal_text(left) + "&event="@ + event_text(event)
}

/// `percent_encode` of the `percent-encoding` crate with its set `NON_ALPHANUMERIC`, written
/// out as a string: every byte that is no ASCII letter or digit becomes `%` and two
/// upper-case hexadecimal digits, every other byte stays. Not proved here.
#[verifier::external_body]
fn percent_encode_bytes(bytes: &[u8]) -> (text: String)
    ensures
        text@ == percent_text(bytes@),
{
    percent_encode(bytes, NON_ALPHANUMERIC).to_string()
}

/// The query that announces `details` under the torrent identity `info_hash`.
pub fn announce_query(info_hash: &[u8; 20], details: &TrackerDetails) -> (query: String)
    ensures
        query@ == query_text(
            info_hash@,
            details.peer_id@,
            details.port as nat,
            details.uploaded as nat,
            details.downloaded as nat,
            details.left as nat,
            details.event,
        ),
{
    let mut query = String::from_str("info_hash=");
    let hash_text = percent_encode_bytes(info_hash.as_slice());
    query.append(hash_text.as_str());
    query.append("&peer_id=");
    query.append(details.peer_id.as_str());
    query.append("&port=");
    append_decimal(&mut query, details.port);
    query.append("&uploaded=");
    append_decimal(&mut query, details.uploaded);
    query.append("&downloaded=");
    append_decimal(&mut query, details.downloaded);
    query.append("&left=");
    append_decimal(&mut query, details.left);
    query.append("&event=");
    query.append(details.event.header_value());
    query
}

/// The address to fetch for an announce: the tracker's URL, `?`, and the query, with the
/// identity of the torrent taken from its metainfo. Every size in the metainfo's `info` must
/// fit the integers of the wire.
pub fn announce_url(details: &TrackerDetails) -> (url: String)
    requires
        info_fits(details.meta@.info),
    ensures
        url@ == details.meta.announce@ + "?"@ + query_text(
            sha1_digest(info_bytes(details.meta@)),
            details.peer_id@,
            details.port as nat,
            details.uploaded as nat,
            details.downloaded as nat,
            details.left as nat,
            details.event,
        ),
{
    let hash = details.meta.info_hash();
    let query = announce_query(&hash, details);
    let mut url = details.meta.announce.clone();
    url.append("?");
    url.append(query.as_str());
    url
}

/// The thread-local random number generator of the `rand` crate.
#[verifier::external_type_specification]
#[verifier::external_body]
pub struct ExThreadRng(rand::rngs::ThreadRng);

/// `rand::rng`: a handle to the thread-local generator.
#[verifier::external_body]
fn thread_rng() -> rand::rngs::ThreadRng {
    rand::rng()
}

/// `Rng::sample` with the distribution `Alphanumeric` of the `rand` crate: some ASCII letter
/// or digit, which one is left to chance. Not proved here.
#[verifier::external_body]
fn sample_alphanumeric(rng: &mut rand::rngs::ThreadRng) -> (b: u8)
    ensures
        is_alphanumeric(b),
{
    rng.sample(rand::distr::Alphanumeric)
}

/// A fresh peer id: twenty ASCII letters and digits drawn at random.
pub fn generate_peer_id() -> (id: [u8; 20])
    ensures
        forall|i: int| 0 <= i < 20 ==> is_alphanumeric(#[trigger] id@[i]),
{
    let mut chars: [u8; 20] = [65u8; 20];
    let mut rng = thread_rng();
    let mut i: usize = 0;
    while i < 20
        invariant
            i <= 20,
            forall|j: int| 0 <= j < i ==> is_alphanumeric(#[trigger] chars@[j]),
        decreases 20 - i,
    {
        chars[i] = sample_alphanumeric(&mut rng);
        i += 1;
    }
    chars
}

/// What a tracker's answer must be to be accepted: a dictionary with a dictionary under
/// `peers`.
pub open spec fn response_fault(response: Seq<u8>) -> Option<Fault> {
    match decode(response) {
        Err(fault) => Some(fault),
        Ok((value, _)) => match take_key(value, "peers"@) {
            Err(fault) => Some(fault),
            Ok((Value::Dict(_), _)) => None,
            Ok(_) => Some(Fault::NotDict),
        },
    }
}

/// Checks a tracker's answer.
pub fn decode_response(response: String) -> (result: Result<(), BencodingError>)
    ensures
        match response_fault(encode_utf8(response@)) {
            None => result is Ok,
            Some(fault) => result matches Err(e) && e@ == fault,
        },
{
    let res = match bdecode(response.as_str().as_bytes()) {
        Ok((value, _)) => value,
        Err(e) => {
            return Err(e);
        },
    };
    match res.keyed_dict("peers") {
        Ok(_) => Ok(()),
        Err(e) => Err(e),
    }
}

} // verus!
