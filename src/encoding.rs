//! The canonical Bencode encoding of a model value, and the values that the
//! decoder reads back from it.
use vstd::prelude::*;
use crate::value::{Bencode, has_key};
use crate::grammar::{
    DecodeErrorKind, MAX_DEPTH, is_digit, digits_end, digits_value, read_dict, read_integer, read_list,
    read_raw_bytes, read_value,
};

verus! {

/// The decimal digits of `n`, most significant first, without leading zeros.
pub open spec fn nat_digits(n: nat) -> Seq<u8>
    decreases n,
{
    if n < 10 {
        seq![(48 + n) as u8]
    } else {
        nat_digits(n / 10).push((48 + n % 10) as u8)
    }
}

/// `i<n>e`.
pub open spec fn encode_int(n: int) -> Seq<u8> {
    if n < 0 {
        seq![105u8, 45u8] + nat_digits((-n) as nat) + seq![101u8]
    } else {
        seq![105u8] + nat_digits(n as nat) + seq![101u8]
    }
}

/// `<length>:<bytes>`.
pub open spec fn encode_bytes(b: Seq<u8>) -> Seq<u8> {
    nat_digits(b.len()) + seq![58u8] + b
}

pub open spec fn encode(v: Bencode) -> Seq<u8>
    decreases v,
{
    match v {
        Bencode::Int(n) => encode_int(n),
        Bencode::Bytes(b) => encode_bytes(b),
        Bencode::List(items) => seq![108u8] + encode_items(items) + seq![101u8],
        Bencode::Dict(entries) => seq![100u8] + encode_entries(entries) + seq![101u8],
    }
}

/// The encodings of the items, one after another.
pub open spec fn encode_items(items: Seq<Bencode>) -> Seq<u8>
    decreases items,
{
    if items.len() == 0 {
        seq![]
    } else {
        encode(items[0]) + encode_items(items.subrange(1, items.len() as int))
    }
}

/// The encodings of the entries, each key followed by its value.
pub open spec fn encode_entries(entries: Seq<(Seq<u8>, Bencode)>) -> Seq<u8>
    decreases entries,
{
    if entries.len() == 0 {
        seq![]
    } else {
        encode_bytes(entries[0].0) + encode(entries[0].1) + encode_entries(
            entries.subrange(1, entries.len() as int),
        )
    }
}

/// The keys of the entries are pairwise distinct.
pub open spec fn keys_distinct(entries: Seq<(Seq<u8>, Bencode)>) -> bool {
    forall|i: int, j: int|
        0 <= i < j < entries.len() ==> #[trigger] entries[i].0 != #[trigger] entries[j].0
}

/// A value that the decoder can produce when it starts inside `depth`
/// containers: integers within `i64`, distinct keys in each dictionary, and
/// no more than `MAX_DEPTH` nested containers in all.
pub open spec fn well_formed(v: Bencode, depth: nat) -> bool
    decreases v,
{
    match v {
        Bencode::Int(n) => i64::MIN <= n <= i64::MAX,
        Bencode::Bytes(_) => true,
        Bencode::List(items) => depth < MAX_DEPTH && items_well_formed(items, depth + 1),
        Bencode::Dict(entries) => depth < MAX_DEPTH && keys_distinct(entries) && entries_well_formed(
            entries,
            depth + 1,
        ),
    }
}

pub open spec fn items_well_formed(items: Seq<Bencode>, depth: nat) -> bool
    decreases items,
{
    items.len() == 0 || (well_formed(items[0], depth) && items_well_formed(
        items.subrange(1, items.len() as int),
        depth,
    ))
}

pub open spec fn entries_well_formed(entries: Seq<(Seq<u8>, Bencode)>, depth: nat) -> bool
    decreases entries,
{
    entries.len() == 0 || (well_formed(entries[0].1, depth) && entries_well_formed(
        entries.subrange(1, entries.len() as int),
        depth,
    ))
}

/// `e` stands in `s` from `p` on.
pub open spec fn occurs_at(s: Seq<u8>, p: int, e: Seq<u8>) -> bool {
    0 <= p && p + e.len() <= s.len() && s.subrange(p, p + e.len()) == e
}

proof fn lemma_nat_digits(n: nat)
    ensures
        nat_digits(n).len() >= 1,
        forall|k: int| 0 <= k < nat_digits(n).len() ==> is_digit(#[trigger] nat_digits(n)[k]),
        nat_digits(n)[0] == 48u8 ==> n == 0,
    decreases n,
{
    if n >= 10 {
        lemma_nat_digits(n / 10);
        let d = nat_digits(n / 10);
        assert forall|k: int| 0 <= k < nat_digits(n).len() implies is_digit(#[trigger] nat_digits(n)[k]) by {
            if k < d.len() {
                assert(nat_digits(n)[k] == d[k]);
            }
        }
    }
}

proof fn lemma_occurs_split(s: Seq<u8>, p: int, a: Seq<u8>, b: Seq<u8>)
    requires
        occurs_at(s, p, a + b),
    ensures
        occurs_at(s, p, a),
        occurs_at(s, p + a.len(), b),
{
    assert(s.subrange(p, p + a.len()) =~= (a + b).subrange(0, a.len() as int));
    assert((a + b).subrange(0, a.len() as int) =~= a);
    assert(s.subrange(p + a.len(), p + a.len() + b.len()) =~= (a + b).subrange(a.len() as int, (a + b).len() as int));
    assert((a + b).subrange(a.len() as int, (a + b).len() as int) =~= b);
}

proof fn lemma_occurs_index(s: Seq<u8>, p: int, e: Seq<u8>, k: int)
    requires
        occurs_at(s, p, e),
        0 <= k < e.len(),
    ensures
        s[p + k] == e[k],
{
    assert(s.subrange(p, p + e.len())[k] == s[p + k]);
}

/// The digits of `n` standing at `p` and followed by a non-digit (or the end)
/// are read back as `n`.
proof fn lemma_read_digits(s: Seq<u8>, p: int, n: nat)
    requires
        occurs_at(s, p, nat_digits(n)),
        p + nat_digits(n).len() < s.len() ==> !is_digit(s[p + nat_digits(n).len()]),
    ensures
        digits_end(s, p) == p + nat_digits(n).len(),
        digits_value(s, p, p + nat_digits(n).len()) == n,
{
    lemma_nat_digits(n);
    let d = nat_digits(n);
    assert forall|k: int| p <= k < p + d.len() implies is_digit(#[trigger] s[k]) by {
        lemma_occurs_index(s, p, d, k - p);
    }
    lemma_digits_end_run(s, p, p + d.len());
    lemma_read_digits_value(s, p, n);
}

proof fn lemma_read_digits_value(s: Seq<u8>, p: int, n: nat)
    requires
        occurs_at(s, p, nat_digits(n)),
    ensures
        digits_value(s, p, p + nat_digits(n).len()) == n,
    decreases n,
{
    lemma_nat_digits(n);
    let d = nat_digits(n);
    let last = (48 + n % 10) as u8;
    assert(last as int == 48 + n % 10);
    if n >= 10 {
        let d1 = nat_digits(n / 10);
        assert(d =~= d1 + seq![last]);
        lemma_occurs_split(s, p, d1, seq![last]);
        lemma_read_digits_value(s, p, n / 10);
        lemma_occurs_index(s, p, d, d1.len() as int);
        assert(s[p + d1.len()] == last);
        assert(digits_value(s, p, p + d.len()) == digits_value(s, p, p + d1.len()) * 10 + (
        s[p + d1.len()] as int - 48));
        assert((n / 10) * 10 + n % 10 == n);
    } else {
        lemma_occurs_index(s, p, d, 0);
        assert(digits_value(s, p, p + 1) == digits_value(s, p, p) * 10 + (s[p] as int - 48));
    }
}

proof fn lemma_digits_end_run(s: Seq<u8>, p: int, q: int)
    requires
        0 <= p <= q <= s.len(),
        forall|k: int| p <= k < q ==> is_digit(#[trigger] s[k]),
        q < s.len() ==> !is_digit(s[q]),
    ensures
        digits_end(s, p) == q,
    decreases q - p,
{
    if p < q {
        lemma_digits_end_run(s, p + 1, q);
    }
}

proof fn lemma_read_int(s: Seq<u8>, p: int, n: int)
    requires
        occurs_at(s, p, encode_int(n)),
        i64::MIN <= n <= i64::MAX,
    ensures
        read_integer(s, p) == Ok::<(Bencode, int), (DecodeErrorKind, int)>(
            (Bencode::Int(n), p + encode_int(n).len()),
        ),
{
    let m: nat = if n < 0 { (-n) as nat } else { n as nat };
    let d = nat_digits(m);
    lemma_nat_digits(m);
    lemma_nat_digits(0);
    let head = if n < 0 { seq![105u8, 45u8] } else { seq![105u8] };
    assert(encode_int(n) == head + d + seq![101u8]);
    lemma_occurs_split(s, p, head + d, seq![101u8]);
    lemma_occurs_split(s, p, head, d);
    lemma_occurs_index(s, p + head.len() + d.len(), seq![101u8], 0);
    lemma_occurs_index(s, p, head, 0);
    lemma_occurs_index(s, p + head.len(), d, 0);
    if n < 0 {
        lemma_occurs_index(s, p, head, 1);
    }
    lemma_read_digits(s, p + head.len(), m);
}

pub proof fn lemma_read_raw(s: Seq<u8>, p: int, b: Seq<u8>)
    requires
        occurs_at(s, p, encode_bytes(b)),
    ensures
        read_raw_bytes(s, p) == Ok::<(Seq<u8>, int), (DecodeErrorKind, int)>(
            (b, p + encode_bytes(b).len()),
        ),
{
    let d = nat_digits(b.len());
    lemma_nat_digits(b.len());
    lemma_nat_digits(0);
    lemma_occurs_split(s, p, d + seq![58u8], b);
    lemma_occurs_split(s, p, d, seq![58u8]);
    lemma_occurs_index(s, p + d.len(), seq![58u8], 0);
    lemma_occurs_index(s, p, d, 0);
    lemma_read_digits(s, p, b.len());
}

/// The first byte of an encoding tells its kind, and is never `e`.
proof fn lemma_encode_first(v: Bencode)
    ensures
        encode(v).len() >= 1,
        encode(v)[0] != 101u8,
        is_digit(encode(v)[0]) <==> v is Bytes,
{
    match v {
        Bencode::Bytes(b) => {
            lemma_nat_digits(b.len());
        },
        _ => {},
    }
}

pub proof fn lemma_read_encoded(s: Seq<u8>, p: int, v: Bencode, depth: nat)
    requires
        well_formed(v, depth),
        occurs_at(s, p, encode(v)),
    ensures
        read_value(s, p, depth) == Ok::<(Bencode, int), (DecodeErrorKind, int)>(
            (v, p + encode(v).len()),
        ),
    decreases v,
{
    lemma_encode_first(v);
    lemma_occurs_index(s, p, encode(v), 0);
    match v {
        Bencode::Int(n) => {
            lemma_read_int(s, p, n);
        },
        Bencode::Bytes(b) => {
            lemma_read_raw(s, p, b);
        },
        Bencode::List(items) => {
            let body = encode_items(items);
            assert(encode(v) =~= seq![108u8] + (body + seq![101u8]));
            lemma_occurs_split(s, p, seq![108u8], body + seq![101u8]);
            lemma_read_items(s, p + 1, items, depth + 1, seq![]);
            assert(seq![] + items =~= items);
        },
        Bencode::Dict(entries) => {
            let body = encode_entries(entries);
            assert(encode(v) =~= seq![100u8] + (body + seq![101u8]));
            lemma_occurs_split(s, p, seq![100u8], body + seq![101u8]);
            lemma_read_entries(s, p + 1, entries, depth + 1, seq![]);
            assert(seq![] + entries =~= entries);
        },
    }
}

proof fn lemma_read_items(s: Seq<u8>, q: int, items: Seq<Bencode>, depth: nat, acc: Seq<Bencode>)
    requires
        items_well_formed(items, depth),
        occurs_at(s, q, encode_items(items) + seq![101u8]),
    ensures
        read_list(s, q, depth, acc) == Ok::<(Bencode, int), (DecodeErrorKind, int)>(
            (Bencode::List(acc + items), q + encode_items(items).len() + 1),
        ),
    decreases items,
{
    if items.len() == 0 {
        lemma_occurs_index(s, q, encode_items(items) + seq![101u8], 0);
        assert(acc + items =~= acc);
    } else {
        let first = items[0];
        let rest = items.subrange(1, items.len() as int);
        let e0 = encode(first);
        let tail = encode_items(rest) + seq![101u8];
        assert(encode_items(items) + seq![101u8] =~= e0 + tail);
        lemma_occurs_split(s, q, e0, tail);
        lemma_encode_first(first);
        lemma_occurs_index(s, q, e0, 0);
        lemma_read_encoded(s, q, first, depth);
        lemma_read_items(s, q + e0.len(), rest, depth, acc.push(first));
        assert(acc.push(first) + rest =~= acc + items);
    }
}

proof fn lemma_read_entries(
    s: Seq<u8>,
    q: int,
    entries: Seq<(Seq<u8>, Bencode)>,
    depth: nat,
    acc: Seq<(Seq<u8>, Bencode)>,
)
    requires
        entries_well_formed(entries, depth),
        keys_distinct(entries),
        forall|j: int| 0 <= j < entries.len() ==> !has_key(acc, #[trigger] entries[j].0),
        occurs_at(s, q, encode_entries(entries) + seq![101u8]),
    ensures
        read_dict(s, q, depth, acc) == Ok::<(Bencode, int), (DecodeErrorKind, int)>(
            (Bencode::Dict(acc + entries), q + encode_entries(entries).len() + 1),
        ),
    decreases entries,
{
    if entries.len() == 0 {
        lemma_occurs_index(s, q, encode_entries(entries) + seq![101u8], 0);
        assert(acc + entries =~= acc);
    } else {
        let k = entries[0].0;
        let v = entries[0].1;
        let rest = entries.subrange(1, entries.len() as int);
        let ek = encode_bytes(k);
        let ev = encode(v);
        let tail = encode_entries(rest) + seq![101u8];
        assert(encode_entries(entries) + seq![101u8] =~= ek + (ev + tail));
        lemma_occurs_split(s, q, ek, ev + tail);
        lemma_occurs_split(s, q + ek.len(), ev, tail);
        lemma_nat_digits(k.len());
        assert(ek[0] == nat_digits(k.len())[0]);
        lemma_occurs_index(s, q, ek, 0);
        lemma_read_raw(s, q, k);
        lemma_encode_first(v);
        lemma_read_encoded(s, q + ek.len(), v, depth);
        let acc2 = acc.push((k, v));
        assert forall|j: int| 0 <= j < rest.len() implies !has_key(acc2, #[trigger] rest[j].0) by {
            assert(rest[j] == entries[j + 1]);
            assert(!has_key(acc, entries[j + 1].0));
            if has_key(acc2, rest[j].0) {
                let i = choose|i: int| 0 <= i < acc2.len() && #[trigger] acc2[i].0 == rest[j].0;
                if i < acc.len() {
                    assert(acc[i].0 == entries[j + 1].0);
                } else {
                    assert(entries[0].0 != entries[j + 1].0);
                }
            }
        }
        assert(keys_distinct(rest)) by {
            assert forall|a: int, b: int| 0 <= a < b < rest.len() implies #[trigger] rest[a].0
                != #[trigger] rest[b].0 by {
                assert(rest[a] == entries[a + 1] && rest[b] == entries[b + 1]);
            }
        }
        lemma_read_entries(s, q + ek.len() + ev.len(), rest, depth, acc2);
        assert(acc2 + rest =~= acc + entries);
    }
}

/// The encoding of a length starts with a digit.
pub proof fn lemma_digits_first(n: nat)
    ensures
        nat_digits(n).len() >= 1,
        is_digit(nat_digits(n)[0]),
{
    lemma_nat_digits(n);
}

} // verus!
