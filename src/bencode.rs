use crate::error::Error;
use vstd::prelude::*;

verus! {

/// Mathematical model of a bencoded value.
pub enum Term {
    Int(int),
    Bytes(Seq<u8>),
    List(Seq<Term>),
    Dict(Seq<(Seq<u8>, Term)>),
}

/// A bencoded value. Dictionary entries keep the order in which their keys
/// first appeared.
#[derive(Debug, PartialEq, Eq)]
pub enum Value {
    Integer(i64),
    Bytes(Vec<u8>),
    List(Vec<Value>),
    Dict(Vec<(Vec<u8>, Value)>),
}

pub open spec fn term_of(v: Value) -> Term
    decreases v,
{
    match v {
        Value::Integer(n) => Term::Int(n as int),
        Value::Bytes(b) => Term::Bytes(b@),
        Value::List(items) => Term::List(terms_of(items@)),
        Value::Dict(entries) => Term::Dict(entries_of(entries@)),
    }
}

pub open spec fn terms_of(s: Seq<Value>) -> Seq<Term>
    decreases s,
{
    if s.len() == 0 {
        Seq::empty()
    } else {
        terms_of(s.drop_last()).push(term_of(s.last()))
    }
}

pub open spec fn entries_of(s: Seq<(Vec<u8>, Value)>) -> Seq<(Seq<u8>, Term)>
    decreases s,
{
    if s.len() == 0 {
        Seq::empty()
    } else {
        entries_of(s.drop_last()).push((s.last().0@, term_of(s.last().1)))
    }
}

impl View for Value {
    type V = Term;

    open spec fn view(&self) -> Term {
        term_of(*self)
    }
}


pub open spec fn is_digit(c: u8) -> bool {
    48 <= c <= 57
}

/// Decimal digits of `n`, most significant first, without leading zeros.
pub open spec fn nat_digits(n: nat) -> Seq<u8>
    decreases n,
{
    if n < 10 {
        seq![(48 + n) as u8]
    } else {
        nat_digits(n / 10).push((48 + n % 10) as u8)
    }
}

/// Decimal text of `n`, with a leading `-` when it is negative.
pub open spec fn int_digits(n: int) -> Seq<u8> {
    if n < 0 {
        seq![45u8] + nat_digits((-n) as nat)
    } else {
        nat_digits(n as nat)
    }
}

/// The number that a run of decimal digits spells.
pub open spec fn digits_value(d: Seq<u8>) -> nat
    decreases d.len(),
{
    if d.len() == 0 {
        0
    } else {
        digits_value(d.drop_last()) * 10 + (d.last() - 48) as nat
    }
}

/// The first position at or after `i` that does not hold a digit.
pub open spec fn digits_end(s: Seq<u8>, i: int) -> int
    decreases s.len() - i,
{
    if 0 <= i < s.len() && is_digit(s[i]) {
        digits_end(s, i + 1)
    } else {
        i
    }
}

/// `a` sorts strictly before `b` in byte-lexicographic order.
pub open spec fn bytes_lt(a: Seq<u8>, b: Seq<u8>) -> bool {
    exists|i: int|
        0 <= i <= a.len() && i <= b.len() && #[trigger] a.take(i) == b.take(i) && ((i == a.len()
            && i < b.len()) || (i < a.len() && i < b.len() && a[i] < b[i]))
}

/// Canonical encoding of an integer: `i<decimal>e`.
pub open spec fn encode_int(n: int) -> Seq<u8> {
    seq![105u8] + int_digits(n) + seq![101u8]
}

/// Canonical encoding of a byte string: `<length>:<bytes>`.
pub open spec fn encode_bytes(b: Seq<u8>) -> Seq<u8> {
    nat_digits(b.len()) + seq![58u8] + b
}

/// Inserts a (key, encoded value) pair before the first pair whose key does not
/// sort before its own.
pub open spec fn insert_pair(p: (Seq<u8>, Seq<u8>), s: Seq<(Seq<u8>, Seq<u8>)>) -> Seq<
    (Seq<u8>, Seq<u8>),
>
    decreases s.len(),
{
    if s.len() == 0 {
        seq![p]
    } else if !bytes_lt(s[0].0, p.0) {
        seq![p] + s
    } else {
        seq![s[0]] + insert_pair(p, s.drop_first())
    }
}

/// The pairs of `s`, sorted by key.
pub open spec fn sort_pairs(s: Seq<(Seq<u8>, Seq<u8>)>) -> Seq<(Seq<u8>, Seq<u8>)>
    decreases s.len(),
{
    if s.len() == 0 {
        s
    } else {
        insert_pair(s.last(), sort_pairs(s.drop_last()))
    }
}

/// The concatenation of each key's encoding followed by its encoded value.
pub open spec fn join_pairs(s: Seq<(Seq<u8>, Seq<u8>)>) -> Seq<u8>
    decreases s.len(),
{
    if s.len() == 0 {
        Seq::empty()
    } else {
        join_pairs(s.drop_last()) + encode_bytes(s.last().0) + s.last().1
    }
}

/// The canonical encoding of a value. Dictionary entries are written in
/// byte-lexicographic order of their keys.
pub open spec fn encode_term(t: Term) -> Seq<u8>
    decreases t,
{
    match t {
        Term::Int(n) => encode_int(n),
        Term::Bytes(b) => encode_bytes(b),
        Term::List(items) => seq![108u8] + encode_items(items) + seq![101u8],
        Term::Dict(entries) => seq![100u8] + join_pairs(sort_pairs(encoded_entries(entries)))
            + seq![101u8],
    }
}

/// The concatenated encodings of a list's items.
pub open spec fn encode_items(items: Seq<Term>) -> Seq<u8>
    decreases items,
{
    if items.len() == 0 {
        Seq::empty()
    } else {
        encode_items(items.drop_last()) + encode_term(items.last())
    }
}

/// Each entry's key with its value's encoding.
pub open spec fn encoded_entries(entries: Seq<(Seq<u8>, Term)>) -> Seq<(Seq<u8>, Seq<u8>)>
    decreases entries,
{
    if entries.len() == 0 {
        Seq::empty()
    } else {
        encoded_entries(entries.drop_last()).push(
            (entries.last().0, encode_term(entries.last().1)),
        )
    }
}

/// Index of the entry with key `k`, or -1.
pub open spec fn find_key(entries: Seq<(Seq<u8>, Term)>, k: Seq<u8>) -> int
    decreases entries.len(),
{
    if entries.len() == 0 {
        -1
    } else if entries.last().0 == k {
        entries.len() - 1
    } else {
        find_key(entries.drop_last(), k)
    }
}

/// Stores `v` under `k`: a key already present keeps its place and takes the
/// new value; a new key goes last.
pub open spec fn put_entry(entries: Seq<(Seq<u8>, Term)>, k: Seq<u8>, v: Term) -> Seq<
    (Seq<u8>, Term),
> {
    let i = find_key(entries, k);
    if i >= 0 {
        entries.update(i, (k, v))
    } else {
        entries.push((k, v))
    }
}

/// Reads `i<digits>e` at `pos`: an optional `-`, then digits without a leading
/// zero (but for `0` itself), and no `-0`; the value must fit in 64 bits.
pub open spec fn decode_int_at(s: Seq<u8>, pos: int) -> Option<(Term, int)> {
    let neg = pos + 1 < s.len() && s[pos + 1] == 45u8;
    let start = if neg {
        pos + 2
    } else {
        pos + 1
    };
    let end = digits_end(s, start);
    let d = s.subrange(start, end);
    if end == start || end >= s.len() || s[end] != 101u8 || (d.len() > 1 && d[0] == 48u8) || (
    neg && d[0] == 48u8) {
        None
    } else {
        let v: int = if neg {
            -digits_value(d)
        } else {
            digits_value(d) as int
        };
        if i64::MIN <= v <= i64::MAX {
            Some((Term::Int(v), end + 1))
        } else {
            None
        }
    }
}

/// Reads `<length>:<bytes>` at `pos`.
pub open spec fn decode_bytes_at(s: Seq<u8>, pos: int) -> Option<(Seq<u8>, int)> {
    let end = digits_end(s, pos);
    if end == pos || end >= s.len() || s[end] != 58u8 {
        None
    } else {
        let n = digits_value(s.subrange(pos, end));
        if end + 1 + n > s.len() {
            None
        } else {
            Some((s.subrange(end + 1, end + 1 + n), end + 1 + n))
        }
    }
}

/// Decodes one value that starts at `pos`; gives it with the position just
/// after it, or `None` where the bytes there are not bencode.
pub open spec fn decode_at(s: Seq<u8>, pos: int) -> Option<(Term, int)>
    decreases s.len() - pos, 0int,
{
    if pos < 0 || pos >= s.len() {
        None
    } else if s[pos] == 105u8 {
        decode_int_at(s, pos)
    } else if is_digit(s[pos]) {
        match decode_bytes_at(s, pos) {
            Some((b, n)) => Some((Term::Bytes(b), n)),
            None => None,
        }
    } else if s[pos] == 108u8 {
        decode_list_from(s, pos + 1, Seq::empty())
    } else if s[pos] == 100u8 {
        decode_dict_from(s, pos + 1, Seq::empty())
    } else {
        None
    }
}

/// Decodes list items from `pos` up to the closing `e`, after those in `acc`.
pub open spec fn decode_list_from(s: Seq<u8>, pos: int, acc: Seq<Term>) -> Option<(Term, int)>
    decreases s.len() - pos, 1int,
{
    if pos < 0 || pos >= s.len() {
        None
    } else if s[pos] == 101u8 {
        Some((Term::List(acc), pos + 1))
    } else {
        match decode_at(s, pos) {
            Some((t, next)) => if next <= pos || next > s.len() {
                None
            } else {
                decode_list_from(s, next, acc.push(t))
            },
            None => None,
        }
    }
}

/// Decodes dictionary entries from `pos` up to the closing `e`, into `acc`.
pub open spec fn decode_dict_from(s: Seq<u8>, pos: int, acc: Seq<(Seq<u8>, Term)>) -> Option<
    (Term, int),
>
    decreases s.len() - pos, 1int,
{
    if pos < 0 || pos >= s.len() {
        None
    } else if s[pos] == 101u8 {
        Some((Term::Dict(acc), pos + 1))
    } else if !is_digit(s[pos]) {
        None
    } else {
        match decode_bytes_at(s, pos) {
            Some((k, kn)) => if kn <= pos || kn > s.len() {
                None
            } else {
                match decode_at(s, kn) {
                    Some((v, next)) => if next <= kn || next > s.len() {
                        None
                    } else {
                        decode_dict_from(s, next, put_entry(acc, k, v))
                    },
                    None => None,
                }
            },
            None => None,
        }
    }
}


pub(crate) proof fn lemma_entries_of_index(s: Seq<(Vec<u8>, Value)>)
    ensures
        entries_of(s).len() == s.len(),
        forall|j: int|
            0 <= j < s.len() ==> #[trigger] entries_of(s)[j] == (s[j].0@, term_of(s[j].1)),
    decreases s.len(),
{
    if s.len() > 0 {
        lemma_entries_of_index(s.drop_last());
    }
}

pub(crate) proof fn lemma_find_key(es: Seq<(Seq<u8>, Term)>, k: Seq<u8>)
    ensures
        find_key(es, k) == -1 ==> forall|m: int| 0 <= m < es.len() ==> #[trigger] es[m].0 != k,
        find_key(es, k) != -1 ==> 0 <= find_key(es, k) < es.len() && es[find_key(es, k)].0 == k
            && forall|m: int| find_key(es, k) < m < es.len() ==> #[trigger] es[m].0 != k,
    decreases es.len(),
{
    if es.len() > 0 && es.last().0 != k {
        let r = find_key(es.drop_last(), k);
        lemma_find_key(es.drop_last(), k);
        assert(find_key(es, k) == r);
        if r == -1 {
            assert forall|m: int| 0 <= m < es.len() implies #[trigger] es[m].0 != k by {
                if m < es.len() - 1 {
                    assert(es.drop_last()[m] == es[m]);
                }
            }
        } else {
            assert(es.drop_last()[r] == es[r]);
            assert forall|m: int| r < m < es.len() implies #[trigger] es[m].0 != k by {
                if m < es.len() - 1 {
                    assert(es.drop_last()[m] == es[m]);
                }
            }
        }
    }
}

proof fn lemma_digits_value_prefix(d: Seq<u8>, j: int)
    requires
        0 <= j <= d.len(),
    ensures
        digits_value(d.take(j)) <= digits_value(d),
    decreases d.len(),
{
    if j < d.len() {
        assert(d.drop_last().take(j) == d.take(j));
        lemma_digits_value_prefix(d.drop_last(), j);
    } else {
        assert(d.take(j) == d);
    }
}

/// Compares two byte strings for equality.
fn bytes_equal(a: &[u8], b: &[u8]) -> (r: bool)
    ensures
        r == (a@ == b@),
{
    if a.len() != b.len() {
        return false;
    }
    let mut i: usize = 0;
    while i < a.len()
        invariant
            a@.len() == b@.len(),
            i <= a@.len(),
            a@.take(i as int) == b@.take(i as int),
        decreases a@.len() - i,
    {
        if a[i] != b[i] {
            return false;
        }
        assert(a@.take(i + 1) == a@.take(i as int).push(a@[i as int]));
        assert(b@.take(i + 1) == b@.take(i as int).push(b@[i as int]));
        i = i + 1;
    }
    assert(a@.take(i as int) == a@);
    assert(b@.take(i as int) == b@);
    true
}

/// The first position at or after `i` that does not hold a digit.
fn scan_digits(buf: &[u8], i: usize) -> (r: usize)
    requires
        i <= buf@.len(),
    ensures
        r as int == digits_end(buf@, i as int),
        i <= r <= buf@.len(),
{
    let mut j = i;
    while j < buf.len() && buf[j] >= 48 && buf[j] <= 57
        invariant
            i <= j <= buf@.len(),
            digits_end(buf@, i as int) == digits_end(buf@, j as int),
        decreases buf@.len() - j,
    {
        j = j + 1;
    }
    j
}

/// The number spelled by the digits `buf[start..end]`, or `None` where it
/// exceeds `limit`.
fn read_number(buf: &[u8], start: usize, end: usize, limit: u64) -> (r: Option<u64>)
    requires
        start <= end <= buf@.len(),
        forall|j: int| start <= j < end ==> is_digit(#[trigger] buf@[j]),
    ensures
        match r {
            Some(v) => v as int == digits_value(buf@.subrange(start as int, end as int)) && v <= limit,
            None => digits_value(buf@.subrange(start as int, end as int)) > limit,
        },
{
    let ghost d = buf@.subrange(start as int, end as int);
    let mut acc: u128 = 0;
    let mut j = start;
    while j < end
        invariant
            start <= j <= end <= buf@.len(),
            d == buf@.subrange(start as int, end as int),
            forall|m: int| start <= m < end ==> is_digit(#[trigger] buf@[m]),
            acc as int == digits_value(buf@.subrange(start as int, j as int)),
            acc <= limit,
        decreases end - j,
    {
        assert(buf@.subrange(start as int, j + 1).drop_last() == buf@.subrange(start as int, j as int));
        assert(is_digit(buf@[j as int]));
        acc = acc * 10 + (buf[j] - 48) as u128;
        j = j + 1;
        if acc > limit as u128 {
            proof {
                assert(d.take(j - start) == buf@.subrange(start as int, j as int));
                lemma_digits_value_prefix(d, j - start);
            }
            return None;
        }
    }
    Some(acc as u64)
}

/// Reads the integer token `i<digits>e` at `pos`.
fn decode_int_token(buf: &[u8], pos: usize) -> (r: Result<(Value, usize), Error>)
    requires
        pos < buf@.len(),
        buf@[pos as int] == 105u8,
    ensures
        match r {
            Ok((v, n)) => decode_int_at(buf@, pos as int) == Some((v@, n as int)) && pos < n
                <= buf@.len(),
            Err(e) => decode_int_at(buf@, pos as int) is None && e == Error::MalformedInput,
        },
{
    let neg = pos < buf.len() - 1 && buf[pos + 1] == 45;
    let start = if neg {
        pos + 2
    } else {
        pos + 1
    };
    let end = scan_digits(buf, start);
    if end == start || end >= buf.len() || buf[end] != 101 || (end - start > 1 && buf[start]
        == 48) || (neg && buf[start] == 48) {
        return Err(Error::MalformedInput);
    }
    proof {
        lemma_digits_run(buf@, start as int);
    }
    match read_number(buf, start, end, 9223372036854775808u64) {
        None => Err(Error::MalformedInput),
        Some(m) => {
            if neg {
                let v: i64 = if m == 9223372036854775808u64 {
                    i64::MIN
                } else {
                    -(m as i64)
                };
                Ok((Value::Integer(v), end + 1))
            } else if m > 9223372036854775807u64 {
                Err(Error::MalformedInput)
            } else {
                Ok((Value::Integer(m as i64), end + 1))
            }
        },
    }
}

proof fn lemma_digits_run(s: Seq<u8>, i: int)
    requires
        0 <= i <= s.len(),
    ensures
        i <= digits_end(s, i) <= s.len(),
        forall|j: int| i <= j < digits_end(s, i) ==> is_digit(#[trigger] s[j]),
        digits_end(s, i) < s.len() ==> !is_digit(s[digits_end(s, i)]),
    decreases s.len() - i,
{
    if i < s.len() && is_digit(s[i]) {
        lemma_digits_run(s, i + 1);
    }
}

/// Reads the byte-string token `<length>:<bytes>` at `pos`.
fn decode_bytes_token(buf: &[u8], pos: usize) -> (r: Result<(Vec<u8>, usize), Error>)
    requires
        pos < buf@.len(),
    ensures
        match r {
            Ok((b, n)) => decode_bytes_at(buf@, pos as int) == Some((b@, n as int)) && pos < n
                <= buf@.len(),
            Err(e) => decode_bytes_at(buf@, pos as int) is None && e == Error::MalformedInput,
        },
{
    let end = scan_digits(buf, pos);
    if end == pos || end >= buf.len() || buf[end] != 58 {
        return Err(Error::MalformedInput);
    }
    proof {
        lemma_digits_run(buf@, pos as int);
    }
    let rest = buf.len() - (end + 1);
    match read_number(buf, pos, end, rest as u64) {
        None => Err(Error::MalformedInput),
        Some(n) => {
            assert(n <= rest);
            let n = n as usize;
            let from = end + 1;
            let stop = from + n;
            let mut out: Vec<u8> = Vec::new();
            let mut j = from;
            while j < stop
                invariant
                    stop == from + n,
                    from <= j <= stop <= buf@.len(),
                    out@ == buf@.subrange(from as int, j as int),
                decreases stop - j,
            {
                out.push(buf[j]);
                assert(out@ == buf@.subrange(from as int, j + 1));
                j = j + 1;
            }
            Ok((out, stop))
        },
    }
}


/// Index of the entry whose key is `k`, searched from the end.
fn find_entry(entries: &Vec<(Vec<u8>, Value)>, k: &[u8]) -> (r: Option<usize>)
    ensures
        match r {
            Some(i) => find_key(entries_of(entries@), k@) == i as int,
            None => find_key(entries_of(entries@), k@) == -1,
        },
{
    proof {
        lemma_entries_of_index(entries@);
        lemma_find_key(entries_of(entries@), k@);
    }
    let ghost es = entries_of(entries@);
    let mut j = entries.len();
    while j > 0
        invariant
            j <= entries@.len(),
            es == entries_of(entries@),
            es.len() == entries@.len(),
            forall|m: int| j <= m < es.len() ==> #[trigger] es[m].0 != k@,
        decreases j,
    {
        j = j - 1;
        proof {
            lemma_entries_of_index(entries@);
        }
        if bytes_equal(entries[j].0.as_slice(), k) {
            proof {
                lemma_entries_of_index(entries@);
                lemma_find_key(es, k@);
            }
            assert(es[j as int].0 == k@);
            return Some(j);
        }
    }
    None
}

/// Decodes the value that starts at `pos`.
fn decode_value_at(buf: &[u8], pos: usize) -> (r: Result<(Value, usize), Error>)
    requires
        pos <= buf@.len(),
    ensures
        match r {
            Ok((v, n)) => decode_at(buf@, pos as int) == Some((v@, n as int)) && pos < n
                <= buf@.len(),
            Err(e) => decode_at(buf@, pos as int) is None && e == Error::MalformedInput,
        },
    decreases buf@.len() - pos, 0int,
{
    if pos >= buf.len() {
        return Err(Error::MalformedInput);
    }
    let c = buf[pos];
    if c == 105 {
        decode_int_token(buf, pos)
    } else if c >= 48 && c <= 57 {
        match decode_bytes_token(buf, pos) {
            Ok((b, n)) => Ok((Value::Bytes(b), n)),
            Err(e) => Err(e),
        }
    } else if c == 108 {
        decode_list_body(buf, pos + 1)
    } else if c == 100 {
        decode_dict_body(buf, pos + 1)
    } else {
        Err(Error::MalformedInput)
    }
}

/// Decodes list items from `pos` up to and including the closing `e`.
fn decode_list_body(buf: &[u8], pos: usize) -> (r: Result<(Value, usize), Error>)
    requires
        0 < pos <= buf@.len(),
    ensures
        match r {
            Ok((v, n)) => decode_list_from(buf@, pos as int, Seq::empty()) == Some(
                (v@, n as int),
            ) && pos < n <= buf@.len(),
            Err(e) => decode_list_from(buf@, pos as int, Seq::empty()) is None && e
                == Error::MalformedInput,
        },
    decreases buf@.len() - pos, 1int,
{
    let mut items: Vec<Value> = Vec::new();
    let mut p = pos;
    loop
        invariant
            0 < pos <= p <= buf@.len(),
            decode_list_from(buf@, pos as int, Seq::empty()) == decode_list_from(
                buf@,
                p as int,
                terms_of(items@),
            ),
        decreases buf@.len() - p,
    {
        if p >= buf.len() {
            return Err(Error::MalformedInput);
        }
        if buf[p] == 101 {
            return Ok((Value::List(items), p + 1));
        }
        match decode_value_at(buf, p) {
            Err(e) => {
                return Err(e);
            },
            Ok((v, n)) => {
                let ghost old_items = items@;
                items.push(v);
                assert(items@.drop_last() == old_items);
                p = n;
            },
        }
    }
}

/// Decodes dictionary entries from `pos` up to and including the closing `e`.
fn decode_dict_body(buf: &[u8], pos: usize) -> (r: Result<(Value, usize), Error>)
    requires
        0 < pos <= buf@.len(),
    ensures
        match r {
            Ok((v, n)) => decode_dict_from(buf@, pos as int, Seq::empty()) == Some(
                (v@, n as int),
            ) && pos < n <= buf@.len(),
            Err(e) => decode_dict_from(buf@, pos as int, Seq::empty()) is None && e
                == Error::MalformedInput,
        },
    decreases buf@.len() - pos, 1int,
{
    let mut entries: Vec<(Vec<u8>, Value)> = Vec::new();
    let mut p = pos;
    loop
        invariant
            0 < pos <= p <= buf@.len(),
            decode_dict_from(buf@, pos as int, Seq::empty()) == decode_dict_from(
                buf@,
                p as int,
                entries_of(entries@),
            ),
        decreases buf@.len() - p,
    {
        if p >= buf.len() {
            return Err(Error::MalformedInput);
        }
        if buf[p] == 101 {
            return Ok((Value::Dict(entries), p + 1));
        }
        if buf[p] < 48 || buf[p] > 57 {
            return Err(Error::MalformedInput);
        }
        let (k, kn) = match decode_bytes_token(buf, p) {
            Err(e) => {
                return Err(e);
            },
            Ok(t) => t,
        };
        let (v, n) = match decode_value_at(buf, kn) {
            Err(e) => {
                return Err(e);
            },
            Ok(t) => t,
        };
        let ghost old_es = entries_of(entries@);
        let ghost kv = k@;
        let ghost vv = v@;
        proof {
            lemma_entries_of_index(entries@);
            lemma_find_key(old_es, kv);
        }
        match find_entry(&entries, k.as_slice()) {
            Some(i) => {
                entries.set(i, (k, v));
                proof {
                    lemma_entries_of_index(entries@);
                    assert(entries_of(entries@) =~= old_es.update(i as int, (kv, vv)));
                }
            },
            None => {
                let ghost before = entries@;
                entries.push((k, v));
                assert(entries@.drop_last() == before);
            },
        }
        p = n;
    }
}

/// Decodes the bencoded value at the start of `encoded`, and gives it with the
/// number of bytes it takes. Bytes after it are not read.
pub fn decode_bencoded_value(encoded: &[u8]) -> (r: Result<(Value, usize), Error>)
    ensures
        match r {
            Ok((v, n)) => decode_at(encoded@, 0) == Some((v@, n as int)) && 0 < n
                <= encoded@.len(),
            Err(e) => decode_at(encoded@, 0) is None && e == Error::MalformedInput,
        },
{
    decode_value_at(encoded, 0)
}


/// The view of each (key, encoded value) pair.
pub open spec fn pairs_view(p: Seq<(Vec<u8>, Vec<u8>)>) -> Seq<(Seq<u8>, Seq<u8>)> {
    Seq::new(p.len(), |j: int| (p[j].0@, p[j].1@))
}

/// `bytes_lt(a, b)`, computed.
fn bytes_less(a: &[u8], b: &[u8]) -> (r: bool)
    ensures
        r == bytes_lt(a@, b@),
{
    let mut i: usize = 0;
    while i < a.len() && i < b.len() && a[i] == b[i]
        invariant
            i <= a@.len(),
            i <= b@.len(),
            a@.take(i as int) == b@.take(i as int),
        decreases a@.len() - i,
    {
        assert(a@.take(i + 1) == a@.take(i as int).push(a@[i as int]));
        assert(b@.take(i + 1) == b@.take(i as int).push(b@[i as int]));
        i = i + 1;
    }
    let r = (i == a.len() && i < b.len()) || (i < a.len() && i < b.len() && a[i] < b[i]);
    if !r {
        assert forall|w: int|
            0 <= w <= a@.len() && w <= b@.len() && #[trigger] a@.take(w) == b@.take(w) implies !((
        w == a@.len() && w < b@.len()) || (w < a@.len() && w < b@.len() && a@[w] < b@[w])) by {
            if w < i {
                assert(a@.take(i as int)[w] == b@.take(i as int)[w]);
            } else if w > i {
                assert(a@.take(w)[i as int] == b@.take(w)[i as int]);
            }
        }
    }
    r
}

pub(crate) fn copy_bytes(b: &[u8]) -> (r: Vec<u8>)
    ensures
        r@ == b@,
{
    let mut out: Vec<u8> = Vec::new();
    let mut j: usize = 0;
    while j < b.len()
        invariant
            j <= b@.len(),
            out@ == b@.take(j as int),
        decreases b@.len() - j,
    {
        out.push(b[j]);
        assert(out@ == b@.take(j + 1));
        j = j + 1;
    }
    assert(b@.take(j as int) == b@);
    out
}

/// Appends the decimal digits of `n`.
pub(crate) fn push_nat_digits(out: &mut Vec<u8>, n: u64)
    ensures
        final(out)@ == old(out)@ + nat_digits(n as nat),
    decreases n,
{
    if n >= 10 {
        push_nat_digits(out, n / 10);
    }
    out.push((48 + n % 10) as u8);
    assert(final(out)@ =~= old(out)@ + nat_digits(n as nat));
}

/// Appends `<length>:<bytes>`.
fn push_bytes_token(out: &mut Vec<u8>, b: &[u8])
    ensures
        final(out)@ == old(out)@ + encode_bytes(b@),
{
    push_nat_digits(out, b.len() as u64);
    out.push(58);
    let mut j: usize = 0;
    let ghost mid = out@;
    while j < b.len()
        invariant
            j <= b@.len(),
            out@ == mid + b@.take(j as int),
        decreases b@.len() - j,
    {
        out.push(b[j]);
        assert(b@.take(j + 1) == b@.take(j as int).push(b@[j as int]));
        j = j + 1;
    }
    assert(b@.take(j as int) == b@);
    assert(out@ =~= old(out)@ + encode_bytes(b@));
}

pub(crate) proof fn lemma_insert_at(p: (Seq<u8>, Seq<u8>), s: Seq<(Seq<u8>, Seq<u8>)>, j: int)
    requires
        0 <= j <= s.len(),
        forall|m: int| 0 <= m < j ==> bytes_lt(#[trigger] s[m].0, p.0),
        j < s.len() ==> !bytes_lt(s[j].0, p.0),
    ensures
        insert_pair(p, s) == s.take(j) + seq![p] + s.skip(j),
    decreases j,
{
    if j == 0 {
        assert(s.take(0) + seq![p] + s.skip(0) =~= seq![p] + s);
    } else {
        let t = s.drop_first();
        assert forall|m: int| 0 <= m < j - 1 implies bytes_lt(#[trigger] t[m].0, p.0) by {
            assert(t[m] == s[m + 1]);
        }
        assert(bytes_lt(s[0].0, p.0));
        lemma_insert_at(p, t, j - 1);
        assert(seq![s[0]] + (t.take(j - 1) + seq![p] + t.skip(j - 1)) =~= s.take(j) + seq![p]
            + s.skip(j));
    }
}

/// Inserts a pair at its sorted place.
fn insert_sorted(sorted: &mut Vec<(Vec<u8>, Vec<u8>)>, p: (Vec<u8>, Vec<u8>))
    ensures
        pairs_view(final(sorted)@) == insert_pair((p.0@, p.1@), pairs_view(old(sorted)@)),
{
    let ghost pv = (p.0@, p.1@);
    let ghost s = pairs_view(sorted@);
    let mut j: usize = 0;
    while j < sorted.len() && bytes_less(sorted[j].0.as_slice(), p.0.as_slice())
        invariant
            j <= sorted@.len(),
            s == pairs_view(sorted@),
            sorted@ == old(sorted)@,
            pv == (p.0@, p.1@),
            forall|m: int| 0 <= m < j ==> bytes_lt(#[trigger] s[m].0, pv.0),
        decreases sorted@.len() - j,
    {
        j = j + 1;
    }
    proof {
        lemma_insert_at(pv, s, j as int);
    }
    sorted.insert(j, p);
    assert(pairs_view(sorted@) =~= s.take(j as int) + seq![pv] + s.skip(j as int));
}

/// Appends the canonical encoding of `v`.
fn encode_into(v: &Value, out: &mut Vec<u8>)
    ensures
        final(out)@ == old(out)@ + encode_term(v@),
    decreases v,
{
    match v {
        Value::Integer(n) => {
            out.push(105);
            if *n < 0 {
                out.push(45);
                let m: u64 = (0i128 - (*n as i128)) as u64;
                push_nat_digits(out, m);
            } else {
                push_nat_digits(out, *n as u64);
            }
            out.push(101);
            assert(final(out)@ =~= old(out)@ + encode_term(v@));
        },
        Value::Bytes(b) => {
            push_bytes_token(out, b.as_slice());
        },
        Value::List(items) => {
            out.push(108);
            let ghost start = out@;
            let mut i: usize = 0;
            while i < items.len()
                invariant
                    *v == Value::List(*items),
                    i <= items@.len(),
                    out@ == start + encode_items(terms_of(items@.take(i as int))),
                decreases items@.len() - i,
            {
                proof {
                    vstd::std_specs::vec::axiom_vec_index_decreases(*items, i as int);
                    assert(decreases_to!(*v => (*v)->List_0));
                    assert(decreases_to!(*items => items[i as int]));
                    assert(decreases_to!(*v => items[i as int]));
                }
                encode_into(&items[i], out);
                proof {
                    assert(items@.take(i + 1).drop_last() == items@.take(i as int));
                    let ts = terms_of(items@.take(i + 1));
                    assert(ts.drop_last() == terms_of(items@.take(i as int)));
                    assert(ts.last() == term_of(items@[i as int]));
                    assert(out@ =~= start + encode_items(ts));
                }
                i = i + 1;
            }
            assert(items@.take(i as int) == items@);
            out.push(101);
            assert(final(out)@ =~= old(out)@ + encode_term(v@));
        },
        Value::Dict(entries) => {
            let mut sorted: Vec<(Vec<u8>, Vec<u8>)> = Vec::new();
            let mut i: usize = 0;
            while i < entries.len()
                invariant
                    *v == Value::Dict(*entries),
                    i <= entries@.len(),
                    pairs_view(sorted@) == sort_pairs(
                        encoded_entries(entries_of(entries@.take(i as int))),
                    ),
                decreases entries@.len() - i,
            {
                let key = copy_bytes(entries[i].0.as_slice());
                let mut enc: Vec<u8> = Vec::new();
                proof {
                    vstd::std_specs::vec::axiom_vec_index_decreases(*entries, i as int);
                    assert(decreases_to!(*v => (*v)->Dict_0));
                    assert(decreases_to!(*entries => entries[i as int]));
                    assert(decreases_to!(entries[i as int] => entries[i as int].1));
                    assert(decreases_to!(*v => entries[i as int].1));
                }
                encode_into(&entries[i].1, &mut enc);
                assert(enc@ =~= encode_term(entries[i as int].1@));
                let ghost before = encoded_entries(entries_of(entries@.take(i as int)));
                insert_sorted(&mut sorted, (key, enc));
                proof {
                    assert(entries@.take(i + 1).drop_last() == entries@.take(i as int));
                    let es = entries_of(entries@.take(i + 1));
                    assert(es.drop_last() == entries_of(entries@.take(i as int)));
                    assert(es.last() == (entries@[i as int].0@, term_of(entries@[i as int].1)));
                    let ee = encoded_entries(es);
                    assert(ee.drop_last() == before);
                    assert(ee.last() == (entries@[i as int].0@, encode_term(
                        entries@[i as int].1@,
                    )));
                }
                i = i + 1;
            }
            assert(entries@.take(i as int) == entries@);
            let ghost sv = pairs_view(sorted@);
            out.push(100);
            let ghost start = out@;
            let mut j: usize = 0;
            while j < sorted.len()
                invariant
                    j <= sorted@.len(),
                    sv == pairs_view(sorted@),
                    out@ == start + join_pairs(sv.take(j as int)),
                decreases sorted@.len() - j,
            {
                push_bytes_token(out, sorted[j].0.as_slice());
                let ghost mid = out@;
                let mut k: usize = 0;
                while k < sorted[j].1.len()
                    invariant
                        j < sorted@.len(),
                        k <= sorted@[j as int].1@.len(),
                        out@ == mid + sorted@[j as int].1@.take(k as int),
                    decreases sorted@[j as int].1@.len() - k,
                {
                    out.push(sorted[j].1[k]);
                    assert(sorted@[j as int].1@.take(k + 1) == sorted@[j as int].1@.take(
                        k as int,
                    ).push(sorted@[j as int].1@[k as int]));
                    k = k + 1;
                }
                assert(sorted@[j as int].1@.take(k as int) == sorted@[j as int].1@);
                assert(sv.take(j + 1).drop_last() == sv.take(j as int));
                assert(out@ =~= start + join_pairs(sv.take(j + 1)));
                j = j + 1;
            }
            assert(sv.take(j as int) == sv);
            out.push(101);
            assert(final(out)@ =~= old(out)@ + encode_term(v@));
        },
    }
}

/// The canonical bencoding of `v`: dictionary keys in byte-lexicographic order.
pub fn encode(v: &Value) -> (r: Vec<u8>)
    ensures
        r@ == encode_term(v@),
{
    let mut out: Vec<u8> = Vec::new();
    encode_into(v, &mut out);
    assert(out@ =~= encode_term(v@));
    out
}


/// The value stored under `key` in a dictionary; `None` for a missing key or a
/// value that is not a dictionary.
pub open spec fn lookup(t: Term, key: Seq<u8>) -> Option<Term> {
    match t {
        Term::Dict(es) => {
            let i = find_key(es, key);
            if i >= 0 {
                Some(es[i].1)
            } else {
                None
            }
        },
        _ => None,
    }
}

/// The bytes of an ASCII text.
pub open spec fn ascii_bytes(c: Seq<char>) -> Seq<u8> {
    Seq::new(c.len(), |i: int| c[i] as u8)
}

/// The bytes of an ASCII string literal.
pub fn ascii_key(s: &str) -> (r: &[u8])
    requires
        s.is_ascii(),
    ensures
        r@ == ascii_bytes(s@),
{
    proof {
        vstd::string::is_ascii_spec_bytes(s);
    }
    let r = s.as_bytes();
    assert(r@ =~= ascii_bytes(s@));
    r
}

impl Value {
    /// The value stored under `key`, where `self` is a dictionary that has it.
    pub fn get(&self, key: &[u8]) -> (r: Option<&Value>)
        ensures
            match r {
                Some(x) => lookup(self@, key@) == Some(x@),
                None => lookup(self@, key@) is None,
            },
    {
        match self {
            Value::Dict(entries) => {
                proof {
                    lemma_entries_of_index(entries@);
                    lemma_find_key(entries_of(entries@), key@);
                }
                match find_entry(entries, key) {
                    Some(i) => Some(&entries[i].1),
                    None => None,
                }
            },
            _ => None,
        }
    }
}

} // verus!
