use crate::bencode::{ascii_bytes, ascii_key, decode_at, decode_bencoded_value, lookup, Term, Value};
use crate::error::{Error, Field};
use vstd::prelude::*;

verus! {

/// Size of one peer in the compact format: four address bytes, two port bytes.
pub const COMPACT_PEER_LEN: usize = 6;

/// An IPv4 address with a port.
#[derive(Clone, Copy, Debug, PartialEq, Eq)]
pub struct PeerAddress {
    /// The address, most significant byte first.
    pub ip: [u8; 4],
    pub port: u16,
}

/// What a tracker answers to an announce.
#[derive(Clone, Debug)]
pub struct TrackerResponse {
    /// Seconds the client should wait before it announces again.
    pub interval: i64,
    /// Peers that the client can connect to.
    pub peers: Vec<PeerAddress>,
}

pub open spec fn interval_key() -> Seq<u8> {
    ascii_bytes("interval"@)
}

pub open spec fn peers_key() -> Seq<u8> {
    ascii_bytes("peers"@)
}

/// `p` is the peer that the 6-byte group at `6 * i` in `b` describes.
pub open spec fn is_compact_peer(p: PeerAddress, b: Seq<u8>, i: int) -> bool {
    &&& p.ip@ == b.subrange(6 * i, 6 * i + 4)
    &&& p.port as int == b[6 * i + 4] as int * 256 + b[6 * i + 5] as int
}

/// `ps` holds one peer per 6-byte group of `b`, in order.
pub open spec fn compact_peers(ps: Seq<PeerAddress>, b: Seq<u8>) -> bool {
    &&& ps.len() == b.len() / 6
    &&& forall|i: int| 0 <= i < ps.len() ==> is_compact_peer(#[trigger] ps[i], b, i)
}

/// Decodes the compact peer list: each 6-byte group is an IPv4 address and a
/// port, both big-endian. Fails where the length is not a multiple of 6.
pub fn decode_compact_peers(bytes: &[u8]) -> (r: Result<Vec<PeerAddress>, Error>)
    ensures
        bytes@.len() % 6 != 0 <==> r is Err,
        r matches Err(e) ==> e == Error::MalformedInput,
        r matches Ok(ps) ==> compact_peers(ps@, bytes@),
{
    let total = bytes.len();
    if total % COMPACT_PEER_LEN != 0 {
        return Err(Error::MalformedInput);
    }
    let n = total / COMPACT_PEER_LEN;
    let mut out: Vec<PeerAddress> = Vec::new();
    let mut i: usize = 0;
    while i < n
        invariant
            total == bytes@.len(),
            total % 6 == 0,
            n == total / 6,
            i <= n,
            out@.len() == i,
            forall|m: int| 0 <= m < i ==> is_compact_peer(#[trigger] out@[m], bytes@, m),
        decreases n - i,
    {
        proof {
            let len = total as int;
            assert(6 * i + 6 <= len) by (nonlinear_arith)
                requires
                    i < n,
                    n == len / 6,
                    len % 6 == 0,
            ;
        }
        let base = i * 6;
        let ip: [u8; 4] = [bytes[base], bytes[base + 1], bytes[base + 2], bytes[base + 3]];
        let port: u16 = (bytes[base + 4] as u16) * 256 + bytes[base + 5] as u16;
        let p = PeerAddress { ip, port };
        assert(p.ip@ =~= bytes@.subrange(6 * i, 6 * i + 4));
        out.push(p);
        i = i + 1;
    }
    Ok(out)
}

/// The first field of a decoded tracker reply that is missing or has the
/// wrong type; an interval must be a positive number of seconds.
pub open spec fn reply_fault(t: Term) -> Option<Field> {
    if !(lookup(t, interval_key()) matches Some(Term::Int(n)) && n > 0) {
        Some(Field::Interval)
    } else if !(lookup(t, peers_key()) matches Some(Term::Bytes(_))) {
        Some(Field::Peers)
    } else {
        None
    }
}

impl TrackerResponse {
    /// Decodes a tracker reply with a compact peer list. Bytes after the reply
    /// are not read.
    pub fn parse(content: &[u8]) -> (r: Result<TrackerResponse, Error>)
        ensures
            match decode_at(content@, 0) {
                None => r == Err::<TrackerResponse, Error>(Error::MalformedInput),
                Some((t, _)) => match reply_fault(t) {
                    Some(f) => r == Err::<TrackerResponse, Error>(Error::SchemaError(f)),
                    None => {
                        let b = lookup(t, peers_key())->0->Bytes_0;
                        if b.len() % 6 != 0 {
                            r == Err::<TrackerResponse, Error>(Error::MalformedInput)
                        } else {
                            r matches Ok(reply) && reply.interval as int == lookup(
                                t,
                                interval_key(),
                            )->0->Int_0 && compact_peers(reply.peers@, b)
                        }
                    },
                },
            },
    {
        let (doc, _) = match decode_bencoded_value(content) {
            Ok(d) => d,
            Err(e) => {
                return Err(e);
            },
        };
        proof {
            reveal_strlit("interval");
            reveal_strlit("peers");
        }
        let interval = match doc.get(ascii_key("interval")) {
            Some(Value::Integer(n)) => {
                if *n <= 0 {
                    return Err(Error::SchemaError(Field::Interval));
                }
                *n
            },
            _ => {
                return Err(Error::SchemaError(Field::Interval));
            },
        };
        let peers = match doc.get(ascii_key("peers")) {
            Some(Value::Bytes(b)) => decode_compact_peers(b.as_slice()),
            _ => {
                return Err(Error::SchemaError(Field::Peers));
            },
        };
        match peers {
            Ok(peers) => Ok(TrackerResponse { interval, peers }),
            Err(e) => Err(e),
        }
    }
}

} // verus!
