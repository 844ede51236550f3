use crate::error::Error;
use crate::text::{ascii_chars, ascii_text, decimal_text, signed_text, unsigned_text};
use crate::torrent::Torrent;
use rand::Rng;
use vstd::prelude::*;
use vstd::utf8::{encode_utf8, is_ascii_chars, is_ascii_chars_encode_utf8};

verus! {

/// Longest peer id, in bytes.
pub const MAX_PEER_ID_LEN: usize = 20;

/// Port announced by a client made with `Client::default`.
pub const DEFAULT_PORT: u16 = 6881;

#[verifier::external_type_specification]
#[verifier::external_body]
pub struct ExUrl(url::Url);

/// A client that announces itself to trackers under a peer id and a port.
pub struct Client {
    id: String,
    port: u16,
}

/// An ASCII letter or digit.
pub open spec fn is_alphanumeric(c: char) -> bool {
    ('0' <= c <= '9') || ('a' <= c <= 'z') || ('A' <= c <= 'Z')
}

/// Lowercase hexadecimal digit, as an ASCII byte, of a value below 16.
pub open spec fn hex_byte(n: u8) -> u8 {
    if n < 10 {
        (n + 48) as u8
    } else {
        (n + 87) as u8
    }
}

/// Each byte written as `%` and two lowercase hexadecimal digits, high half
/// first.
pub open spec fn percent_bytes(b: Seq<u8>) -> Seq<u8>
    decreases b.len(),
{
    if b.len() == 0 {
        Seq::empty()
    } else {
        percent_bytes(b.drop_last()) + seq![37u8, hex_byte(b.last() / 16), hex_byte(b.last() % 16)]
    }
}

/// `url` with the raw info hash appended as the last query parameter.
pub open spec fn with_info_hash(url: Seq<char>, info_hash: Seq<u8>) -> Seq<char> {
    let sep = if url.contains('?') {
        '&'
    } else {
        '?'
    };
    url + seq![sep] + "info_hash="@ + ascii_chars(percent_bytes(info_hash))
}

/// What `url::Url::parse` makes of a text: the serialization of the URL, or
/// `None` where the text is not a URL.
pub uninterp spec fn url_parse(s: Seq<char>) -> Option<Seq<char>>;

/// The serialization of the URL serialized as `url` after `key=value` is
/// appended to its query, form-encoded.
pub uninterp spec fn url_with_pair(url: Seq<char>, key: Seq<char>, value: Seq<char>) -> Seq<
    char,
>;

/// The announce URL with the tracker query: `peer_id`, `port`, `uploaded`,
/// `downloaded`, `left` and `compact=1`, appended in this order.
pub open spec fn tracker_query(
    announce: Seq<char>,
    peer_id: Seq<char>,
    port: u16,
    uploaded: u64,
    downloaded: u64,
    left: i64,
) -> Seq<char> {
    let u0 = url_parse(announce)->0;
    let u1 = url_with_pair(u0, "peer_id"@, peer_id);
    let u2 = url_with_pair(u1, "port"@, decimal_text(port as int));
    let u3 = url_with_pair(u2, "uploaded"@, decimal_text(uploaded as int));
    let u4 = url_with_pair(u3, "downloaded"@, decimal_text(downloaded as int));
    let u5 = url_with_pair(u4, "left"@, decimal_text(left as int));
    url_with_pair(u5, "compact"@, "1"@)
}

/// A parsed URL together with its serialization.
struct AnnounceUrl {
    url: url::Url,
    text: String,
}

/// Relies on `rand::rng` sampled with `rand::distr::Alphanumeric`: one byte,
/// an ASCII letter or digit.
#[verifier::external_body]
fn random_alphanumeric() -> (r: u8)
    ensures
        is_alphanumeric(r as char),
{
    rand::rng().sample(rand::distr::Alphanumeric)
}

/// Relies on `url::Url::parse`, which reads a URL or fails, and on
/// `url::Url::as_str` for the serialization of what it read.
#[verifier::external_body]
fn parse_url(s: &str) -> (r: Option<AnnounceUrl>)
    ensures
        r is Some <==> url_parse(s@) is Some,
        r matches Some(u) ==> u.text@ == url_parse(s@)->0,
{
    match url::Url::parse(s) {
        Ok(url) => {
            let text = url.as_str().to_string();
            Some(AnnounceUrl { url, text })
        },
        Err(_) => None,
    }
}

/// Relies on `url::form_urlencoded::Serializer::append_pair`, reached through
/// `url::Url::query_pairs_mut`: adds `key=value` to the query, form-encoded.
#[verifier::external_body]
fn append_query_pair(u: &mut AnnounceUrl, key: &str, value: &str)
    ensures
        final(u).text@ == url_with_pair(old(u).text@, key@, value@),
{
    u.url.query_pairs_mut().append_pair(key, value);
    u.text = u.url.as_str().to_string();
}

/// A random peer id of twenty ASCII letters and digits.
fn random_peer_id() -> (r: String)
    ensures
        r@.len() == MAX_PEER_ID_LEN,
        forall|i: int| 0 <= i < r@.len() ==> is_alphanumeric(#[trigger] r@[i]),
{
    let mut id: Vec<u8> = Vec::new();
    let mut i: usize = 0;
    while i < MAX_PEER_ID_LEN
        invariant
            i <= MAX_PEER_ID_LEN,
            id@.len() == i,
            forall|j: int| 0 <= j < i ==> is_alphanumeric(#[trigger] id@[j] as char),
        decreases MAX_PEER_ID_LEN - i,
    {
        let c = random_alphanumeric();
        id.push(c);
        i = i + 1;
    }
    ascii_text(id.as_slice())
}

/// Whether `s` holds a `?`.
fn has_question_mark(s: &str) -> (r: bool)
    ensures
        r == s@.contains('?'),
{
    let n = s.unicode_len();
    let mut i: usize = 0;
    while i < n
        invariant
            n == s@.len(),
            i <= n,
            forall|j: int| 0 <= j < i ==> s@[j] != '?',
        decreases n - i,
    {
        if s.get_char(i) == '?' {
            return true;
        }
        i = i + 1;
    }
    false
}

/// Appends the info hash to an announce URL: each raw byte as `%` and two
/// lowercase hex digits, after `?` (or `&` where the URL has a query).
pub fn append_info_hash(url: &str, info_hash: &[u8]) -> (r: String)
    ensures
        r@ == with_info_hash(url@, info_hash@),
{
    let mut escaped: Vec<u8> = Vec::new();
    let mut i: usize = 0;
    while i < info_hash.len()
        invariant
            i <= info_hash@.len(),
            escaped@ == percent_bytes(info_hash@.take(i as int)),
            forall|j: int| 0 <= j < escaped@.len() ==> #[trigger] escaped@[j] < 128,
        decreases info_hash@.len() - i,
    {
        let b = info_hash[i];
        let hi = b / 16;
        let lo = b % 16;
        escaped.push(37);
        escaped.push(if hi < 10 { hi + 48 } else { hi + 87 });
        escaped.push(if lo < 10 { lo + 48 } else { lo + 87 });
        proof {
            let t = info_hash@.take(i + 1);
            assert(t.drop_last() == info_hash@.take(i as int));
            assert(escaped@ =~= percent_bytes(t));
        }
        i = i + 1;
    }
    assert(info_hash@.take(i as int) == info_hash@);
    let mut out = url.to_owned();
    proof {
        reveal_strlit("&");
        reveal_strlit("?");
    }
    if has_question_mark(url) {
        out.append("&");
    } else {
        out.append("?");
    }
    out.append("info_hash=");
    let tail = ascii_text(escaped.as_slice());
    out.append(tail.as_str());
    out
}

/// The tracker request URL: `announce` with the query parameters `peer_id`,
/// `port`, `uploaded`, `downloaded`, `left` and `compact=1`, form-encoded,
/// and then the raw info hash. Fails where `announce` is not a URL.
pub fn build_tracker_url(
    announce: &str,
    info_hash: &[u8],
    peer_id: &str,
    port: u16,
    uploaded: u64,
    downloaded: u64,
    left: i64,
) -> (r: Result<String, Error>)
    ensures
        r is Ok <==> url_parse(announce@) is Some,
        r matches Ok(s) ==> s@ == with_info_hash(
            tracker_query(announce@, peer_id@, port, uploaded, downloaded, left),
            info_hash@,
        ),
        r matches Err(e) ==> e == Error::InvalidUrl,
{
    let mut url = match parse_url(announce) {
        Some(u) => u,
        None => {
            return Err(Error::InvalidUrl);
        },
    };
    append_query_pair(&mut url, "peer_id", peer_id);
    append_query_pair(&mut url, "port", unsigned_text(port as u64).as_str());
    append_query_pair(&mut url, "uploaded", unsigned_text(uploaded).as_str());
    append_query_pair(&mut url, "downloaded", unsigned_text(downloaded).as_str());
    append_query_pair(&mut url, "left", signed_text(left).as_str());
    append_query_pair(&mut url, "compact", "1");
    Ok(append_info_hash(url.text.as_str(), info_hash))
}

impl Client {
    pub closed spec fn peer_id(&self) -> Seq<char> {
        self.id@
    }

    pub closed spec fn peer_port(&self) -> u16 {
        self.port
    }

    /// A client with a random 20-character alphanumeric peer id, on port 6881.
    pub fn default() -> (r: Client)
        ensures
            r.peer_id().len() == 20,
            forall|i: int| 0 <= i < 20 ==> is_alphanumeric(#[trigger] r.peer_id()[i]),
            r.peer_port() == DEFAULT_PORT,
    {
        let id = random_peer_id();
        proof {
            assert(is_ascii_chars(id@));
            is_ascii_chars_encode_utf8(id@);
        }
        Self::new(id, DEFAULT_PORT)
    }

    /// A client with the given peer id, at most 20 bytes long, and port.
    pub fn new(id: String, port: u16) -> (r: Client)
        requires
            encode_utf8(id@).len() <= MAX_PEER_ID_LEN,
        ensures
            r.peer_id() == id@,
            r.peer_port() == port,
    {
        Client { id, port }
    }

    /// The announce request for `torrent`: nothing uploaded or downloaded yet,
    /// the whole length left.
    pub fn announce_url(&self, torrent: &Torrent) -> (r: Result<String, Error>)
        ensures
            r is Ok <==> url_parse(torrent.announce@) is Some,
            r matches Ok(s) ==> s@ == with_info_hash(
                tracker_query(
                    torrent.announce@,
                    self.peer_id(),
                    self.peer_port(),
                    0,
                    0,
                    torrent.info.length,
                ),
                crate::torrent::info_hash(torrent.info),
            ),
            r matches Err(e) ==> e == Error::InvalidUrl,
    {
        let hash = torrent.get_info_hash();
        build_tracker_url(
            torrent.announce.as_str(),
            &hash,
            self.id.as_str(),
            self.port,
            0,
            0,
            torrent.info.length,
        )
    }
}

} // verus!
