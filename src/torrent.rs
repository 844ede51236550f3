use crate::bencode::{
    ascii_bytes, entries_of, find_key, ascii_key, decode_at, decode_bencoded_value, encode, encode_term, lookup, Term,
    Value,
};
use crate::error::{Error, Field};
use crate::round_trip::{is_canonical, lemma_round_trip};
use crate::text::text_from_bytes;
use vstd::prelude::*;
use vstd::utf8::{decode_utf8, encode_utf8, valid_utf8};

verus! {

/// Size of one piece fingerprint, in bytes.
pub const PIECE_HASH_LEN: usize = 20;

/// The `info` section of a torrent document.
#[derive(Clone, Debug)]
pub struct TorrentInfo {
    /// Size of the file in bytes, for single-file torrents.
    pub length: i64,
    /// Suggested name to save the file or directory as.
    pub name: String,
    /// Number of bytes in each piece.
    pub piece_length: i64,
    /// Concatenated 20-byte fingerprints, one per piece.
    pub pieces: Vec<u8>,
}

/// A torrent document.
#[derive(Clone, Debug)]
pub struct Torrent {
    /// URL of the tracker that keeps track of the peers sharing the content.
    pub announce: String,
    /// What is shared.
    pub info: TorrentInfo,
}

pub open spec fn announce_key() -> Seq<u8> {
    ascii_bytes("announce"@)
}

pub open spec fn info_key() -> Seq<u8> {
    ascii_bytes("info"@)
}

pub open spec fn length_key() -> Seq<u8> {
    ascii_bytes("length"@)
}

pub open spec fn name_key() -> Seq<u8> {
    ascii_bytes("name"@)
}

pub open spec fn piece_length_key() -> Seq<u8> {
    ascii_bytes("piece length"@)
}

pub open spec fn pieces_key() -> Seq<u8> {
    ascii_bytes("pieces"@)
}

/// The byte string stored under `k`.
pub open spec fn bytes_field(t: Term, k: Seq<u8>) -> Option<Seq<u8>> {
    match lookup(t, k) {
        Some(Term::Bytes(b)) => Some(b),
        _ => None,
    }
}

/// The UTF-8 text stored under `k`.
pub open spec fn text_field(t: Term, k: Seq<u8>) -> Option<Seq<u8>> {
    match bytes_field(t, k) {
        Some(b) => if valid_utf8(b) {
            Some(b)
        } else {
            None
        },
        None => None,
    }
}

/// The integer stored under `k`.
pub open spec fn int_field(t: Term, k: Seq<u8>) -> Option<int> {
    match lookup(t, k) {
        Some(Term::Int(n)) => Some(n),
        _ => None,
    }
}

/// The `info` dictionary of a document.
pub open spec fn info_field(t: Term) -> Option<Term> {
    match lookup(t, info_key()) {
        Some(Term::Dict(es)) => Some(Term::Dict(es)),
        _ => None,
    }
}

/// The first field, in document order, that a decoded document misses or
/// holds with the wrong type.
pub open spec fn torrent_fault(t: Term) -> Option<Field> {
    if text_field(t, announce_key()) is None {
        Some(Field::Announce)
    } else if info_field(t) is None {
        Some(Field::Info)
    } else {
        let i = info_field(t)->0;
        if int_field(i, length_key()) is None {
            Some(Field::Length)
        } else if text_field(i, name_key()) is None {
            Some(Field::Name)
        } else if int_field(i, piece_length_key()) is None {
            Some(Field::PieceLength)
        } else if bytes_field(i, pieces_key()) is None {
            Some(Field::Pieces)
        } else {
            None
        }
    }
}

/// `doc` holds exactly the fields of the decoded document `t`.
pub open spec fn torrent_matches(doc: Torrent, t: Term) -> bool {
    let i = info_field(t)->0;
    &&& doc.announce@ == decode_utf8(text_field(t, announce_key())->0)
    &&& doc.info.length as int == int_field(i, length_key())->0
    &&& doc.info.name@ == decode_utf8(text_field(i, name_key())->0)
    &&& doc.info.piece_length as int == int_field(i, piece_length_key())->0
    &&& doc.info.pieces@ == bytes_field(i, pieces_key())->0
}

/// The `info` record as a bencoded dictionary.
pub open spec fn info_term(info: TorrentInfo) -> Term {
    Term::Dict(
        seq![
            (length_key(), Term::Int(info.length as int)),
            (name_key(), Term::Bytes(encode_utf8(info.name@))),
            (piece_length_key(), Term::Int(info.piece_length as int)),
            (pieces_key(), Term::Bytes(info.pieces@)),
        ],
    )
}

/// The SHA-1 digest of some bytes.
pub uninterp spec fn sha1_digest(data: Seq<u8>) -> Seq<u8>;

/// The info hash of an `info` record: the digest of its canonical encoding.
pub open spec fn info_hash(info: TorrentInfo) -> Seq<u8> {
    sha1_digest(encode_term(info_term(info)))
}

/// The info hash is a function of the `info` content alone: two records with
/// the same length, name, piece length and pieces have the same info hash, so
/// computing it twice gives the same bytes.
pub proof fn lemma_info_hash_is_pure(a: TorrentInfo, b: TorrentInfo)
    requires
        a.length == b.length,
        a.name@ == b.name@,
        a.piece_length == b.piece_length,
        a.pieces@ == b.pieces@,
    ensures
        info_hash(a) == info_hash(b),
{
    assert(info_term(a) == info_term(b));
}

/// The info hash of a parsed document is the digest of the bytes of its `info`
/// section, where that section is canonical and holds exactly the keys
/// `length`, `name`, `piece length` and `pieces`, in this order.
pub proof fn lemma_info_hash_of_info_bytes(
    content: Seq<u8>,
    doc: Torrent,
    info_bytes: Seq<u8>,
    length: int,
    name: Seq<u8>,
    piece_length: int,
    pieces: Seq<u8>,
)
    requires
        decode_at(content, 0) matches Some((t, _)) && torrent_fault(t) is None && torrent_matches(
            doc,
            t,
        ) && info_field(t) == Some(
            Term::Dict(
                seq![
                    (length_key(), Term::Int(length)),
                    (name_key(), Term::Bytes(name)),
                    (piece_length_key(), Term::Int(piece_length)),
                    (pieces_key(), Term::Bytes(pieces)),
                ],
            ),
        ),
        is_canonical(info_bytes),
        decode_at(info_bytes, 0) matches Some((i, _)) && info_field((decode_at(content, 0)->0).0)
            == Some(i),
    ensures
        info_hash(doc.info) == sha1_digest(info_bytes),
{
    let t = (decode_at(content, 0)->0).0;
    let i = info_field(t)->0;
    let es = i->Dict_0;
    reveal_strlit("length");
    reveal_strlit("name");
    reveal_strlit("piece length");
    reveal_strlit("pieces");
    assert(length_key() != pieces_key()) by {
        assert(length_key()[0] != pieces_key()[0]);
    }
    assert(name_key().len() != length_key().len());
    assert(name_key().len() != piece_length_key().len());
    assert(name_key().len() != pieces_key().len());
    assert(piece_length_key().len() != length_key().len());
    assert(piece_length_key().len() != pieces_key().len());
    assert(find_key(es, length_key()) == 0) by {
        reveal_with_fuel(find_key, 5);
    }
    assert(find_key(es, name_key()) == 1) by {
        reveal_with_fuel(find_key, 5);
    }
    assert(find_key(es, piece_length_key()) == 2) by {
        reveal_with_fuel(find_key, 5);
    }
    assert(find_key(es, pieces_key()) == 3) by {
        reveal_with_fuel(find_key, 5);
    }
    vstd::utf8::decode_utf8_encode_utf8(name);
    assert(info_term(doc.info) == i);
    lemma_round_trip(info_bytes);
}

/// Relies on `sha1::Sha1` through `digest::Digest::digest`: the SHA-1 digest of
/// the bytes, which depends on the bytes alone.
#[verifier::external_body]
fn sha1_of(data: &[u8]) -> (r: [u8; 20])
    ensures
        r@ == sha1_digest(data@),
{
    <sha1::Sha1 as sha1::Digest>::digest(data).into()
}

fn text_of(v: Option<&Value>) -> (r: Option<String>)
    ensures
        match v {
            Some(x) => match x@ {
                Term::Bytes(b) => if valid_utf8(b) {
                    r matches Some(s) && s@ == decode_utf8(b)
                } else {
                    r is None
                },
                _ => r is None,
            },
            None => r is None,
        },
{
    match v {
        Some(Value::Bytes(b)) => text_from_bytes(b.as_slice()),
        _ => None,
    }
}

fn int_of(v: Option<&Value>) -> (r: Option<i64>)
    ensures
        match v {
            Some(x) => match x@ {
                Term::Int(n) => r matches Some(m) && m as int == n,
                _ => r is None,
            },
            None => r is None,
        },
{
    match v {
        Some(Value::Integer(n)) => Some(*n),
        _ => None,
    }
}

impl Torrent {
    /// Decodes a torrent document. Bytes after the document are not read.
    pub fn parse(content: &[u8]) -> (r: Result<Torrent, Error>)
        ensures
            match decode_at(content@, 0) {
                None => r == Err::<Torrent, Error>(Error::MalformedInput),
                Some((t, _)) => match torrent_fault(t) {
                    Some(f) => r == Err::<Torrent, Error>(Error::SchemaError(f)),
                    None => r matches Ok(doc) && torrent_matches(doc, t),
                },
            },
    {
        let (doc, _) = match decode_bencoded_value(content) {
            Ok(d) => d,
            Err(e) => {
                return Err(e);
            },
        };
        proof {
            reveal_strlit("announce");
            reveal_strlit("info");
            reveal_strlit("length");
            reveal_strlit("name");
            reveal_strlit("piece length");
            reveal_strlit("pieces");
        }
        let announce = match text_of(doc.get(ascii_key("announce"))) {
            Some(s) => s,
            None => {
                return Err(Error::SchemaError(Field::Announce));
            },
        };
        let info = match doc.get(ascii_key("info")) {
            Some(i) => i,
            None => {
                return Err(Error::SchemaError(Field::Info));
            },
        };
        match info {
            Value::Dict(_) => {},
            _ => {
                return Err(Error::SchemaError(Field::Info));
            },
        }
        let length = match int_of(info.get(ascii_key("length"))) {
            Some(n) => n,
            None => {
                return Err(Error::SchemaError(Field::Length));
            },
        };
        let name = match text_of(info.get(ascii_key("name"))) {
            Some(s) => s,
            None => {
                return Err(Error::SchemaError(Field::Name));
            },
        };
        let piece_length = match int_of(info.get(ascii_key("piece length"))) {
            Some(n) => n,
            None => {
                return Err(Error::SchemaError(Field::PieceLength));
            },
        };
        let pieces = match info.get(ascii_key("pieces")) {
            Some(Value::Bytes(b)) => b.clone(),
            _ => {
                return Err(Error::SchemaError(Field::Pieces));
            },
        };
        Ok(Torrent { announce, info: TorrentInfo { length, name, piece_length, pieces } })
    }

    /// The info hash: the SHA-1 digest of the canonical encoding of `info`.
    pub fn get_info_hash(&self) -> (r: [u8; 20])
        ensures
            r@ == info_hash(self.info),
    {
        proof {
            reveal_strlit("length");
            reveal_strlit("name");
            reveal_strlit("piece length");
            reveal_strlit("pieces");
        }
        let name = crate::bencode::copy_bytes(self.info.name.as_str().as_bytes());
        let pieces = crate::bencode::copy_bytes(self.info.pieces.as_slice());
        let length_k = crate::bencode::copy_bytes(ascii_key("length"));
        let name_k = crate::bencode::copy_bytes(ascii_key("name"));
        let piece_length_k = crate::bencode::copy_bytes(ascii_key("piece length"));
        let pieces_k = crate::bencode::copy_bytes(ascii_key("pieces"));
        let entries: Vec<(Vec<u8>, Value)> = vec![
            (length_k, Value::Integer(self.info.length)),
            (name_k, Value::Bytes(name)),
            (piece_length_k, Value::Integer(self.info.piece_length)),
            (pieces_k, Value::Bytes(pieces)),
        ];
        let v = Value::Dict(entries);
        proof {
            crate::bencode::lemma_entries_of_index(entries@);
            assert(entries_of(entries@) =~= seq![
                (length_key(), Term::Int(self.info.length as int)),
                (name_key(), Term::Bytes(encode_utf8(self.info.name@))),
                (piece_length_key(), Term::Int(self.info.piece_length as int)),
                (pieces_key(), Term::Bytes(self.info.pieces@)),
            ]);
            assert(v@ == info_term(self.info));
        }
        let bytes = encode(&v);
        sha1_of(bytes.as_slice())
    }

    /// The fingerprint of each piece, in order: `pieces` cut into 20-byte
    /// chunks. Fails where its length is not a multiple of 20.
    pub fn get_piece_hashes(&self) -> (r: Result<Vec<[u8; 20]>, Error>)
        ensures
            self.info.pieces@.len() % 20 != 0 <==> r is Err,
            r matches Err(e) ==> e == Error::IntegrityError,
            r matches Ok(hs) ==> hs@.len() == self.info.pieces@.len() / 20 && forall|i: int|
                0 <= i < hs@.len() ==> #[trigger] hs@[i]@ == self.info.pieces@.subrange(
                    20 * i,
                    20 * i + 20,
                ),
    {
        let pieces = &self.info.pieces;
        if pieces.len() % PIECE_HASH_LEN != 0 {
            return Err(Error::IntegrityError);
        }
        let total = pieces.len();
        let n = total / PIECE_HASH_LEN;
        let mut out: Vec<[u8; 20]> = Vec::new();
        let mut i: usize = 0;
        while i < n
            invariant
                total == pieces@.len(),
                n == pieces@.len() / 20,
                pieces@.len() % 20 == 0,
                i <= n,
                out@.len() == i,
                forall|m: int|
                    0 <= m < i ==> #[trigger] out@[m]@ == pieces@.subrange(20 * m, 20 * m + 20),
            decreases n - i,
        {
            proof {
                let len = total as int;
                assert(20 * i + 20 <= len) by (nonlinear_arith)
                    requires
                        i < n,
                        n == len / 20,
                        len % 20 == 0,
                ;
            }
            let base = i * 20;
            let mut h: [u8; 20] = [0u8; 20];
            let mut j: usize = 0;
            while j < PIECE_HASH_LEN
                invariant
                    n == pieces@.len() / 20,
                    i < n,
                    base == 20 * i,
                    base + 20 <= total,
                    total == pieces@.len(),
                    j <= 20,
                    forall|m: int| 0 <= m < j ==> #[trigger] h@[m] == pieces@[base + m],
                decreases 20 - j,
            {
                h[j] = pieces[base + j];
                j = j + 1;
            }
            assert(h@ =~= pieces@.subrange(20 * i, 20 * i + 20));
            out.push(h);
            i = i + 1;
        }
        Ok(out)
    }
}

} // verus!
