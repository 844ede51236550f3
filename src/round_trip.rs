use crate::bencode::{
    bytes_lt, decode_at, decode_bytes_at, decode_dict_from, decode_int_at, decode_list_from,
    digits_end, digits_value, encode_bytes, encode_int, encode_items, encode_term,
    encoded_entries, find_key, is_digit, join_pairs, lemma_find_key,
    lemma_insert_at, nat_digits, put_entry, sort_pairs, Term,
};
use vstd::prelude::*;

verus! {

/// A value that has a canonical encoding: integers fit in 64 bits and each
/// dictionary lists its keys in strictly increasing byte order.
pub open spec fn well_formed(t: Term) -> bool
    decreases t,
{
    match t {
        Term::Int(n) => i64::MIN <= n <= i64::MAX,
        Term::Bytes(_) => true,
        Term::List(items) => forall|i: int| 0 <= i < items.len() ==> well_formed(#[trigger] items[i]),
        Term::Dict(entries) => (forall|i: int, j: int|
            0 <= i < j < entries.len() ==> bytes_lt(#[trigger] entries[i].0, #[trigger] entries[j].0))
            && forall|i: int| 0 <= i < entries.len() ==> well_formed(#[trigger] entries[i].1),
    }
}

/// The canonical byte strings: encodings of well-formed values.
pub open spec fn is_canonical(b: Seq<u8>) -> bool {
    exists|t: Term| well_formed(t) && encode_term(t) == b
}

proof fn lemma_split(s: Seq<u8>, pos: int, a: Seq<u8>, b: Seq<u8>)
    requires
        0 <= pos,
        pos + a.len() + b.len() <= s.len(),
        s.subrange(pos, pos + a.len() + b.len()) == a + b,
    ensures
        s.subrange(pos, pos + a.len()) == a,
        s.subrange(pos + a.len(), pos + a.len() + b.len()) == b,
{
    assert(s.subrange(pos, pos + a.len()) =~= (a + b).subrange(0, a.len() as int));
    assert(s.subrange(pos + a.len(), pos + a.len() + b.len()) =~= (a + b).subrange(
        a.len() as int,
        (a.len() + b.len()) as int,
    ));
}

proof fn lemma_nat_digits(n: nat)
    ensures
        nat_digits(n).len() >= 1,
        forall|i: int| 0 <= i < nat_digits(n).len() ==> is_digit(#[trigger] nat_digits(n)[i]),
        digits_value(nat_digits(n)) == n,
        nat_digits(n)[0] == 48u8 <==> n == 0,
        nat_digits(n).len() > 1 ==> n >= 10,
    decreases n,
{
    if n >= 10 {
        lemma_nat_digits(n / 10);
        let d = nat_digits(n);
        assert(d.drop_last() == nat_digits(n / 10));
        assert(d[0] == nat_digits(n / 10)[0]);
        assert(d.last() == (48 + n % 10) as u8);
        vstd::arithmetic::div_mod::lemma_fundamental_div_mod(n as int, 10);
        assert(digits_value(d) == digits_value(nat_digits(n / 10)) * 10 + (n % 10));
        assert((n / 10) * 10 + n % 10 == n);
    } else {
        let d = nat_digits(n);
        assert(d.drop_last() =~= Seq::<u8>::empty());
        assert(digits_value(Seq::<u8>::empty()) == 0);
        assert(d.last() as int == 48 + n);
        assert(digits_value(d) == digits_value(d.drop_last()) * 10 + (d.last() - 48) as nat);
    }
}

proof fn lemma_digits_end_at(s: Seq<u8>, p: int, q: int)
    requires
        0 <= p <= q <= s.len(),
        forall|j: int| p <= j < q ==> is_digit(#[trigger] s[j]),
        q < s.len() ==> !is_digit(s[q]),
    ensures
        digits_end(s, p) == q,
    decreases q - p,
{
    if p < q {
        lemma_digits_end_at(s, p + 1, q);
    }
}

/// A number's digits followed by a non-digit are read back as that number.
proof fn lemma_read_digits(s: Seq<u8>, p: int, n: nat)
    requires
        0 <= p,
        p + nat_digits(n).len() < s.len(),
        s.subrange(p, p + nat_digits(n).len()) == nat_digits(n),
        !is_digit(s[p + nat_digits(n).len()]),
    ensures
        digits_end(s, p) == p + nat_digits(n).len(),
        s.subrange(p, digits_end(s, p)) == nat_digits(n),
        digits_value(s.subrange(p, digits_end(s, p))) == n,
{
    let d = nat_digits(n);
    lemma_nat_digits(n);
    assert forall|j: int| p <= j < p + d.len() implies is_digit(#[trigger] s[j]) by {
        assert(s[j] == s.subrange(p, p + d.len())[j - p]);
    }
    lemma_digits_end_at(s, p, p + d.len());
}

proof fn lemma_encode_first(t: Term)
    ensures
        encode_term(t).len() >= 1,
        encode_term(t)[0] != 101u8,
        is_digit(encode_term(t)[0]) <==> t is Bytes,
{
    match t {
        Term::Bytes(b) => {
            lemma_nat_digits(b.len());
            assert(encode_term(t)[0] == nat_digits(b.len())[0]);
        },
        _ => {},
    }
}

proof fn lemma_decode_int(s: Seq<u8>, pos: int, n: int)
    requires
        i64::MIN <= n <= i64::MAX,
        0 <= pos,
        pos + encode_int(n).len() <= s.len(),
        s.subrange(pos, pos + encode_int(n).len()) == encode_int(n),
    ensures
        decode_int_at(s, pos) == Some((Term::Int(n), pos + encode_int(n).len())),
{
    let e = encode_int(n);
    let m: nat = if n < 0 {
        (-n) as nat
    } else {
        n as nat
    };
    let d = nat_digits(m);
    lemma_nat_digits(m);
    assert forall|j: int| 0 <= j < e.len() implies #[trigger] s[pos + j] == e[j] by {
        assert(s.subrange(pos, pos + e.len())[j] == s[pos + j]);
    }
    let start = if n < 0 {
        pos + 2
    } else {
        pos + 1
    };
    if n < 0 {
        assert(s[pos + 1] == e[1]);
        assert(s.subrange(start, start + d.len()) =~= e.subrange(2, (2 + d.len()) as int));
        assert(e.subrange(2, (2 + d.len()) as int) =~= d);
        assert(s[start + d.len()] == e[(2 + d.len()) as int]);
    } else {
        assert(s[pos + 1] == e[1]);
        assert(e[1] == d[0]);
        assert(s.subrange(start, start + d.len()) =~= e.subrange(1, (1 + d.len()) as int));
        assert(e.subrange(1, (1 + d.len()) as int) =~= d);
        assert(s[start + d.len()] == e[(1 + d.len()) as int]);
    }
    lemma_read_digits(s, start, m);
}

proof fn lemma_decode_bytes(s: Seq<u8>, pos: int, b: Seq<u8>)
    requires
        0 <= pos,
        pos + encode_bytes(b).len() <= s.len(),
        s.subrange(pos, pos + encode_bytes(b).len()) == encode_bytes(b),
    ensures
        decode_bytes_at(s, pos) == Some((b, pos + encode_bytes(b).len())),
{
    let e = encode_bytes(b);
    let d = nat_digits(b.len());
    lemma_nat_digits(b.len());
    assert forall|j: int| 0 <= j < e.len() implies #[trigger] s[pos + j] == e[j] by {
        assert(s.subrange(pos, pos + e.len())[j] == s[pos + j]);
    }
    assert(s.subrange(pos, pos + d.len()) =~= e.subrange(0, d.len() as int));
    assert(e.subrange(0, d.len() as int) =~= d);
    assert(s[pos + d.len()] == e[d.len() as int]);
    lemma_read_digits(s, pos, b.len());
    assert(s.subrange(pos + d.len() + 1, pos + d.len() + 1 + b.len()) =~= e.subrange(
        (d.len() + 1) as int,
        e.len() as int,
    ));
}

/// The number of children of a value, plus one.
pub open spec fn width(t: Term) -> nat {
    match t {
        Term::List(items) => items.len() + 1,
        Term::Dict(entries) => entries.len() + 1,
        _ => 0,
    }
}

proof fn lemma_encoded_entries(entries: Seq<(Seq<u8>, Term)>)
    ensures
        encoded_entries(entries).len() == entries.len(),
        forall|i: int|
            0 <= i < entries.len() ==> #[trigger] encoded_entries(entries)[i] == (
                entries[i].0,
                encode_term(entries[i].1),
            ),
    decreases entries.len(),
{
    if entries.len() > 0 {
        lemma_encoded_entries(entries.drop_last());
    }
}

proof fn lemma_sorted_fixed(s: Seq<(Seq<u8>, Seq<u8>)>)
    requires
        forall|i: int, j: int| 0 <= i < j < s.len() ==> bytes_lt(#[trigger] s[i].0, #[trigger] s[j].0),
    ensures
        sort_pairs(s) == s,
    decreases s.len(),
{
    if s.len() > 0 {
        let dl = s.drop_last();
        assert forall|i: int, j: int| 0 <= i < j < dl.len() implies bytes_lt(
            #[trigger] dl[i].0,
            #[trigger] dl[j].0,
        ) by {
            assert(dl[i] == s[i] && dl[j] == s[j]);
        }
        lemma_sorted_fixed(dl);
        assert forall|m: int| 0 <= m < dl.len() implies bytes_lt(#[trigger] dl[m].0, s.last().0) by {
            assert(dl[m] == s[m]);
        }
        lemma_insert_at(s.last(), dl, dl.len() as int);
        assert(dl.take(dl.len() as int) + seq![s.last()] + dl.skip(dl.len() as int) =~= s);
    }
}

proof fn lemma_bytes_lt_irreflexive(a: Seq<u8>)
    ensures
        !bytes_lt(a, a),
{
}

/// Decoding a list's encoding reads its first `k` items in turn.
proof fn lemma_decode_items(s: Seq<u8>, pos: int, t: Term, k: int)
    requires
        t is List,
        well_formed(t),
        0 <= pos,
        pos + encode_term(t).len() <= s.len(),
        s.subrange(pos, pos + encode_term(t).len()) == encode_term(t),
        0 <= k <= t->List_0.len(),
    ensures
        decode_list_from(s, pos + 1, Seq::empty()) == decode_list_from(
            s,
            pos + 1 + encode_items(t->List_0.take(k)).len(),
            t->List_0.take(k),
        ),
    decreases t, k,
{
    let items = t->List_0;
    let body = encode_items(items);
    assert(encode_term(t) == seq![108u8] + body + seq![101u8]);
    if k == 0 {
        assert(items.take(0) =~= Seq::<Term>::empty());
    } else {
        lemma_decode_items(s, pos, t, k - 1);
        let prev = items.take(k - 1);
        let cur = items.take(k);
        assert(cur.drop_last() == prev);
        let p = pos + 1 + encode_items(prev).len();
        let x = items[k - 1];
        let ex = encode_term(x);
        assert(encode_items(cur) == encode_items(prev) + ex);
        // the encoding of the first k items is a prefix of the list body
        let rest = encode_items(items);
        lemma_items_prefix(items, k);
        let pre = encode_items(cur);
        assert(pre.len() <= body.len());
        assert(s.subrange(pos + 1, pos + 1 + pre.len()) =~= encode_term(t).subrange(1, (1 + pre.len()) as int));
        assert(encode_term(t).subrange(1, (1 + pre.len()) as int) =~= body.subrange(0, pre.len() as int));
        lemma_split(s, pos + 1, encode_items(prev), ex);
        assert(decreases_to!(t => items));
        assert(decreases_to!(items => items[k - 1]));
        lemma_decode_encoded(s, p, x);
        lemma_encode_first(x);
        assert(s[p] == ex[0]) by {
            assert(s.subrange(p, p + ex.len())[0] == s[p]);
        }
        assert(prev.push(x) == cur);
    }
}

proof fn lemma_items_prefix(items: Seq<Term>, k: int)
    requires
        0 <= k <= items.len(),
    ensures
        encode_items(items.take(k)).len() <= encode_items(items).len(),
        encode_items(items).subrange(0, encode_items(items.take(k)).len() as int) == encode_items(
            items.take(k),
        ),
    decreases items.len(),
{
    if k == items.len() {
        assert(items.take(k) == items);
        assert(encode_items(items).subrange(0, encode_items(items).len() as int) =~= encode_items(
            items,
        ));
    } else {
        lemma_items_prefix(items.drop_last(), k);
        assert(items.drop_last().take(k) == items.take(k));
        let a = encode_items(items.drop_last());
        let whole = encode_items(items);
        assert(whole == a + encode_term(items.last()));
        let pl = encode_items(items.take(k)).len() as int;
        assert(whole.subrange(0, pl) =~= a.subrange(0, pl));
    }
}

proof fn lemma_pairs_prefix(ps: Seq<(Seq<u8>, Seq<u8>)>, k: int)
    requires
        0 <= k <= ps.len(),
    ensures
        join_pairs(ps.take(k)).len() <= join_pairs(ps).len(),
        join_pairs(ps).subrange(0, join_pairs(ps.take(k)).len() as int) == join_pairs(ps.take(k)),
    decreases ps.len(),
{
    if k == ps.len() {
        assert(ps.take(k) == ps);
        assert(join_pairs(ps).subrange(0, join_pairs(ps).len() as int) =~= join_pairs(ps));
    } else {
        lemma_pairs_prefix(ps.drop_last(), k);
        assert(ps.drop_last().take(k) == ps.take(k));
        let a = join_pairs(ps.drop_last());
        let whole = join_pairs(ps);
        assert(whole == a + encode_bytes(ps.last().0) + ps.last().1);
        let pl = join_pairs(ps.take(k)).len() as int;
        assert(whole.subrange(0, pl) =~= a.subrange(0, pl));
    }
}

/// Decoding a dictionary's encoding reads its first `k` entries in turn.
proof fn lemma_decode_entries(s: Seq<u8>, pos: int, t: Term, k: int)
    requires
        t is Dict,
        well_formed(t),
        0 <= pos,
        pos + encode_term(t).len() <= s.len(),
        s.subrange(pos, pos + encode_term(t).len()) == encode_term(t),
        0 <= k <= t->Dict_0.len(),
    ensures
        decode_dict_from(s, pos + 1, Seq::empty()) == decode_dict_from(
            s,
            pos + 1 + join_pairs(encoded_entries(t->Dict_0).take(k)).len(),
            t->Dict_0.take(k),
        ),
    decreases t, k,
{
    let entries = t->Dict_0;
    let ee = encoded_entries(entries);
    lemma_encoded_entries(entries);
    assert forall|i: int, j: int| 0 <= i < j < ee.len() implies bytes_lt(
        #[trigger] ee[i].0,
        #[trigger] ee[j].0,
    ) by {
        assert(bytes_lt(entries[i].0, entries[j].0));
    }
    lemma_sorted_fixed(ee);
    let body = join_pairs(ee);
    assert(encode_term(t) == seq![100u8] + body + seq![101u8]);
    if k == 0 {
        assert(entries.take(0) =~= Seq::<(Seq<u8>, Term)>::empty());
        assert(ee.take(0) =~= Seq::<(Seq<u8>, Seq<u8>)>::empty());
    } else {
        lemma_decode_entries(s, pos, t, k - 1);
        let prev = ee.take(k - 1);
        let cur = ee.take(k);
        assert(cur.drop_last() == prev);
        let key = entries[k - 1].0;
        let x = entries[k - 1].1;
        let ex = encode_term(x);
        let ek = encode_bytes(key);
        assert(cur.last() == (key, ex));
        assert(join_pairs(cur) == join_pairs(prev) + ek + ex);
        let p = pos + 1 + join_pairs(prev).len();
        lemma_pairs_prefix(ee, k);
        let pre = join_pairs(cur);
        assert(s.subrange(pos + 1, pos + 1 + pre.len()) =~= encode_term(t).subrange(1, (1 + pre.len()) as int));
        assert(encode_term(t).subrange(1, (1 + pre.len()) as int) =~= body.subrange(0, pre.len() as int));
        lemma_split(s, pos + 1, join_pairs(prev) + ek, ex);
        lemma_split(s, pos + 1, join_pairs(prev), ek);
        lemma_decode_bytes(s, p, key);
        lemma_nat_digits(key.len());
        assert(s[p] == ek[0]) by {
            assert(s.subrange(p, p + ek.len())[0] == s[p]);
        }
        assert(ek[0] == nat_digits(key.len())[0]);
        assert(decreases_to!(t => entries));
        assert(decreases_to!(entries => entries[k - 1]));
        assert(decreases_to!(entries[k - 1] => entries[k - 1].1));
        lemma_decode_encoded(s, p + ek.len(), x);
        lemma_encode_first(x);
        let acc = entries.take(k - 1);
        lemma_find_key(acc, key);
        if find_key(acc, key) != -1 {
            let r = find_key(acc, key);
            assert(acc[r] == entries[r]);
            assert(bytes_lt(entries[r].0, entries[k - 1].0));
            lemma_bytes_lt_irreflexive(key);
        }
        assert(put_entry(acc, key, x) == acc.push((key, x)));
        assert(acc.push((key, x)) =~= entries.take(k));
    }
}

/// A well-formed value's encoding, found at `pos`, decodes to that value and
/// ends right after the encoding.
pub proof fn lemma_decode_encoded(s: Seq<u8>, pos: int, t: Term)
    requires
        well_formed(t),
        0 <= pos,
        pos + encode_term(t).len() <= s.len(),
        s.subrange(pos, pos + encode_term(t).len()) == encode_term(t),
    ensures
        decode_at(s, pos) == Some((t, pos + encode_term(t).len())),
    decreases t, width(t) + 1,
{
    let e = encode_term(t);
    lemma_encode_first(t);
    assert(s[pos] == e[0]) by {
        assert(s.subrange(pos, pos + e.len())[0] == s[pos]);
    }
    match t {
        Term::Int(n) => {
            lemma_decode_int(s, pos, n);
        },
        Term::Bytes(b) => {
            lemma_decode_bytes(s, pos, b);
        },
        Term::List(items) => {
            lemma_decode_items(s, pos, t, items.len() as int);
            assert(items.take(items.len() as int) == items);
            let end = pos + 1 + encode_items(items).len();
            assert(s[end] == e[e.len() - 1]) by {
                assert(s.subrange(pos, pos + e.len())[e.len() - 1] == s[end]);
            }
        },
        Term::Dict(entries) => {
            lemma_decode_entries(s, pos, t, entries.len() as int);
            assert(entries.take(entries.len() as int) == entries);
            let ee = encoded_entries(entries);
            lemma_encoded_entries(entries);
            assert(ee.take(ee.len() as int) == ee);
            assert forall|i: int, j: int| 0 <= i < j < ee.len() implies bytes_lt(
                #[trigger] ee[i].0,
                #[trigger] ee[j].0,
            ) by {
                assert(bytes_lt(entries[i].0, entries[j].0));
            }
            lemma_sorted_fixed(ee);
            let end = pos + 1 + join_pairs(ee).len();
            assert(s[end] == e[e.len() - 1]) by {
                assert(s.subrange(pos, pos + e.len())[e.len() - 1] == s[end]);
            }
        },
    }
}

/// Round trip: a canonical byte string decodes to a value whose canonical
/// encoding is that byte string again, and decoding reads all of it.
pub proof fn lemma_round_trip(b: Seq<u8>)
    requires
        is_canonical(b),
    ensures
        decode_at(b, 0) matches Some((t, n)) && n == b.len() && encode_term(t) == b,
{
    let t = choose|t: Term| well_formed(t) && encode_term(t) == b;
    assert(b.subrange(0, b.len() as int) == b);
    lemma_decode_encoded(b, 0, t);
}

} // verus!
