//! The outside functions that the library calls, each with what is believed of it.

use std::time::{Duration, SystemTime, SystemTimeError};
use vstd::prelude::*;

verus! {

/// A reading of the machine's clock.
#[verifier::external_type_specification]
#[verifier::external_body]
pub struct ExSystemTime(SystemTime);

/// The clock reads earlier than the time it was asked to measure from.
#[verifier::external_type_specification]
#[verifier::external_body]
pub struct ExSystemTimeError(SystemTimeError);

/// `SystemTime::now`: whatever the machine's clock reads; nothing is claimed of it.
pub assume_specification [SystemTime::now]() -> SystemTime;

/// `SystemTime::duration_since`: how long after `earlier` the reading lies, or an error where it
/// lies before; both depend on the machine's clock and nothing is claimed of them.
pub assume_specification [SystemTime::duration_since](
    time: &SystemTime,
    earlier: SystemTime,
) -> Result<Duration, SystemTimeError>;

/// `Duration::as_millis`: the whole milliseconds of a duration, of which nothing is claimed.
pub assume_specification [Duration::as_millis](duration: &Duration) -> u128;

/// `std::time::UNIX_EPOCH`: the time from which milliseconds are counted.
#[verifier::external_body]
pub(crate) fn unix_epoch() -> SystemTime {
    std::time::UNIX_EPOCH
}

/// What a JSON text holds as the string member `member` of its top-level object: nothing where
/// the text is no JSON value, the value is no object, or it has no such member that is a string.
pub uninterp spec fn json_text_member(text: Seq<char>, member: Seq<char>) -> Option<Seq<char>>;

/// `serde_json::from_str` into a `serde_json::Value`, then `Value::get` and `Value::as_str`: the
/// outcome depends on the text and the member's name alone.
#[verifier::external_body]
pub(crate) fn text_member(text: &str, member: &str) -> (r: Option<String>)
    ensures
        crate::text::view(r) == json_text_member(text@, member@),
{
    let value = serde_json::from_str::<serde_json::Value>(text).ok()?;
    Some(value.get(member)?.as_str()?.to_owned())
}

/// `str::to_ascii_lowercase`: the ASCII letters become lower case, every other character stays.
pub assume_specification [str::to_ascii_lowercase](s: &str) -> (r: String)
    ensures
        r@ == crate::text::lowered(s@),
;

/// `str::contains` with a text to look for: whether it stands somewhere in the other.
#[verifier::external_body]
pub(crate) fn contains_text(text: &str, part: &str) -> (r: bool)
    ensures
        r == crate::text::mentions(text@, part@),
{
    text.contains(part)
}

/// The characters of one hexadecimal digit.
pub open spec fn hex_digit(value: nat) -> char {
    if value < 10 {
        (value + 48) as char
    } else {
        (value + 87) as char
    }
}

/// Bytes in lower-case hexadecimal, two digits each.
pub open spec fn hex(bytes: Seq<u8>) -> Seq<char> {
    Seq::new(
        2 * bytes.len(),
        |i: int|
            hex_digit(
                if i % 2 == 0 {
                    bytes[i / 2] as nat / 16
                } else {
                    bytes[i / 2] as nat % 16
                },
            ),
    )
}

/// The text of a hash: `alloy::primitives::FixedBytes` displayed, which is `0x` and all its bytes in
/// lower-case hexadecimal.
#[verifier::external_body]
pub(crate) fn hash_text(bytes: &[u8; 32]) -> (r: String)
    ensures
        r@ == "0x"@ + hex(bytes@),
{
    format!("{}", alloy::primitives::FixedBytes::<32>(*bytes))
}

/// The debugging text of an address: `alloy::primitives::Address` formatted with `{:?}`, which is
/// `0x` and all its bytes in lower-case hexadecimal.
#[verifier::external_body]
pub(crate) fn address_debug_text(bytes: &[u8; 20]) -> (r: String)
    ensures
        r@ == "0x"@ + hex(bytes@),
{
    format!("{:?}", alloy::primitives::Address::from(*bytes))
}

/// The display text of an address with these bytes, in which the case of the letters is a checksum.
pub uninterp spec fn checksummed(bytes: Seq<u8>) -> Seq<char>;

/// `alloy::primitives::Address` displayed: a text that depends on its bytes alone.
#[verifier::external_body]
pub(crate) fn address_text(bytes: &[u8; 20]) -> (r: String)
    ensures
        r@ == checksummed(bytes@),
{
    format!("{}", alloy::primitives::Address::from(*bytes))
}

/// The Keccak-256 hash of some bytes.
pub uninterp spec fn keccak(bytes: Seq<u8>) -> Seq<u8>;

/// `alloy::primitives::keccak256`: 32 bytes that depend on the hashed bytes alone.
#[verifier::external_body]
pub(crate) fn keccak256(bytes: &Vec<u8>) -> (r: [u8; 32])
    ensures
        r@ == keccak(bytes@),
{
    alloy::primitives::keccak256(bytes).0
}

/// What consensus knows of a log, as bytes.
pub struct LogFields {
    pub address: [u8; 20],
    pub topics: Vec<[u8; 32]>,
    pub data: Vec<u8>,
}

impl View for LogFields {
    type V = (Seq<u8>, Seq<Seq<u8>>, Seq<u8>);

    open spec fn view(&self) -> (Seq<u8>, Seq<Seq<u8>>, Seq<u8>) {
        (self.address@, self.topics@.map_values(|topic: [u8; 32]| topic@), self.data@)
    }
}

/// What a list of logs says.
pub open spec fn log_views(logs: Seq<LogFields>) -> Seq<(Seq<u8>, Seq<Seq<u8>>, Seq<u8>)> {
    logs.map_values(|log: LogFields| log@)
}

/// The RLP encoding of a list of logs, each given by its address, topics and data.
pub uninterp spec fn rlp_logs(logs: Seq<(Seq<u8>, Seq<Seq<u8>>, Seq<u8>)>) -> Seq<u8>;

/// `alloy::rlp::encode_iter` over `alloy::primitives::Log` values: bytes that depend on the logs'
/// addresses, topics and data alone.
#[verifier::external_body]
pub(crate) fn encode_logs(logs: &Vec<LogFields>) -> (r: Vec<u8>)
    ensures
        r@ == rlp_logs(log_views(logs@)),
{
    let logs: Vec<alloy::primitives::Log> = logs.iter().map(|log| {
        alloy::primitives::Log::new_unchecked(
            log.address.into(),
            log.topics.iter().map(|topic| alloy::primitives::B256::from(*topic)).collect(),
            log.data.clone().into(),
        )
    }).collect();
    let mut encoded = Vec::new();
    alloy::rlp::encode_iter::<_, _, alloy::primitives::Log>(logs.iter(), &mut encoded);
    encoded
}

/// The root of the ordered trie over some encoded items.
pub uninterp spec fn trie_root(items: Seq<Seq<u8>>) -> Seq<u8>;

/// `alloy::consensus::proofs::ordered_trie_root_encoded`: 32 bytes that depend on the items alone.
#[verifier::external_body]
pub(crate) fn ordered_trie_root(items: &Vec<Vec<u8>>) -> (r: [u8; 32])
    ensures
        r@ == trie_root(crate::table::key_views(items@)),
{
    alloy::consensus::proofs::ordered_trie_root_encoded(items.as_slice()).0
}

/// A character that may stand in an HTTP header value.
pub open spec fn header_char(c: char) -> bool {
    (c as u32 >= 32 && c as u32 != 127) || c == '\t'
}

/// `reqwest::header::HeaderValue::from_str`: it takes a text exactly if no character of it is a
/// control character other than the tab.
#[verifier::external_body]
pub(crate) fn valid_header_value(value: &str) -> (r: bool)
    ensures
        r == (forall|i: int| 0 <= i < value@.len() ==> header_char(#[trigger] value@[i])),
{
    reqwest::header::HeaderValue::from_str(value).is_ok()
}

/// The scheme, user name, password, query and fragment of a URL, where the text is one.
pub uninterp spec fn url_parts(address: Seq<char>) -> Option<
    (Seq<char>, Seq<char>, Option<Seq<char>>, Option<Seq<char>>, Option<Seq<char>>),
>;

/// The parts of a URL that an endpoint is checked for.
pub struct UrlParts {
    pub scheme: String,
    pub username: String,
    pub password: Option<String>,
    pub query: Option<String>,
    pub fragment: Option<String>,
}

impl View for UrlParts {
    type V = (Seq<char>, Seq<char>, Option<Seq<char>>, Option<Seq<char>>, Option<Seq<char>>);

    open spec fn view(&self) -> (
        Seq<char>,
        Seq<char>,
        Option<Seq<char>>,
        Option<Seq<char>>,
        Option<Seq<char>>,
    ) {
        (
            self.scheme@,
            self.username@,
            crate::text::view(self.password),
            crate::text::view(self.query),
            crate::text::view(self.fragment),
        )
    }
}

/// `reqwest::Url::parse` and the accessors of a URL's parts: what they give depends on the text
/// alone.
#[verifier::external_body]
pub(crate) fn parse_url(address: &str) -> (r: Option<UrlParts>)
    ensures
        r is Some <==> url_parts(address@) is Some,
        r matches Some(parts) ==> url_parts(address@) == Some(parts@),
{
    let url = reqwest::Url::parse(address).ok()?;
    Some(
        UrlParts {
            scheme: url.scheme().to_owned(),
            username: url.username().to_owned(),
            password: url.password().map(str::to_owned),
            query: url.query().map(str::to_owned),
            fragment: url.fragment().map(str::to_owned),
        },
    )
}

} // verus!
