//! Canonical byte form of type records: fixed-width little-endian integers,
//! length-prefixed UTF-8 strings, and a total order used to sort set-like
//! member lists before they are written out.

use vstd::prelude::*;
use vstd::relations::*;
use vstd::seq_lib::*;

verus! {

/// Lexicographic `<=` on byte strings: a proper prefix sorts first.
pub open spec fn lex_le(a: Seq<u8>, b: Seq<u8>) -> bool
    decreases a.len(),
{
    if a.len() == 0 {
        true
    } else if b.len() == 0 {
        false
    } else if a[0] < b[0] {
        true
    } else if a[0] > b[0] {
        false
    } else {
        lex_le(a.drop_first(), b.drop_first())
    }
}

/// Order on sort keys: by name bytes, then by the fixed-width tail.
pub open spec fn key_le(a: (Seq<u8>, u64), b: (Seq<u8>, u64)) -> bool {
    if a.0 == b.0 {
        a.1 <= b.1
    } else {
        lex_le(a.0, b.0)
    }
}

pub proof fn lemma_lex_le_reflexive(a: Seq<u8>)
    ensures
        lex_le(a, a),
    decreases a.len(),
{
    if a.len() > 0 {
        lemma_lex_le_reflexive(a.drop_first());
    }
}

pub proof fn lemma_lex_le_antisymmetric(a: Seq<u8>, b: Seq<u8>)
    requires
        lex_le(a, b),
        lex_le(b, a),
    ensures
        a == b,
    decreases a.len(),
{
    if a.len() > 0 && b.len() > 0 {
        lemma_lex_le_antisymmetric(a.drop_first(), b.drop_first());
        assert(a =~= seq![a[0]] + a.drop_first());
        assert(b =~= seq![b[0]] + b.drop_first());
    } else {
        assert(a =~= b);
    }
}

pub proof fn lemma_lex_le_transitive(a: Seq<u8>, b: Seq<u8>, c: Seq<u8>)
    requires
        lex_le(a, b),
        lex_le(b, c),
    ensures
        lex_le(a, c),
    decreases a.len(),
{
    if a.len() > 0 && b.len() > 0 && c.len() > 0 {
        if a[0] == b[0] && b[0] == c[0] {
            lemma_lex_le_transitive(a.drop_first(), b.drop_first(), c.drop_first());
        }
    }
}

pub proof fn lemma_lex_le_total(a: Seq<u8>, b: Seq<u8>)
    ensures
        lex_le(a, b) || lex_le(b, a),
    decreases a.len(),
{
    if a.len() > 0 && b.len() > 0 {
        lemma_lex_le_total(a.drop_first(), b.drop_first());
    }
}

/// `key_le` is a total order, so sorting by it has one result per multiset.
pub proof fn lemma_key_le_total_ordering()
    ensures
        total_ordering(key_order()),
{
    let leq = key_order();
    assert forall|a: (Seq<u8>, u64)| #[trigger] leq(a, a) by {}
    assert forall|a: (Seq<u8>, u64), b: (Seq<u8>, u64)|
        #[trigger] leq(a, b) && #[trigger] leq(b, a) implies a == b by {
        if a.0 != b.0 {
            lemma_lex_le_antisymmetric(a.0, b.0);
        }
    }
    assert forall|a: (Seq<u8>, u64), b: (Seq<u8>, u64), c: (Seq<u8>, u64)|
        #[trigger] leq(a, b) && #[trigger] leq(b, c) implies leq(a, c) by {
        if a.0 != b.0 && b.0 != c.0 {
            lemma_lex_le_transitive(a.0, b.0, c.0);
            if a.0 == c.0 {
                lemma_lex_le_antisymmetric(a.0, b.0);
            }
        }
    }
    assert forall|a: (Seq<u8>, u64), b: (Seq<u8>, u64)|
        #[trigger] leq(a, b) || #[trigger] leq(b, a) by {
        lemma_lex_le_total(a.0, b.0);
    }
    assert(reflexive(leq));
    assert(antisymmetric(leq));
    assert(transitive(leq));
    assert(strongly_connected(leq));
}


/// A member of a set-like list, reduced to what orders it: the UTF-8 bytes
/// of its name and one fixed-width value.
pub struct SortKey {
    pub name: Vec<u8>,
    pub tail: u64,
}

pub open spec fn key_view(k: SortKey) -> (Seq<u8>, u64) {
    (k.name@, k.tail)
}

pub open spec fn key_order() -> spec_fn((Seq<u8>, u64), (Seq<u8>, u64)) -> bool {
    |a: (Seq<u8>, u64), b: (Seq<u8>, u64)| key_le(a, b)
}

/// Eight bytes, least significant first.
pub open spec fn u64_le(x: u64) -> Seq<u8> {
    seq![
        x as u8,
        (x >> 8u64) as u8,
        (x >> 16u64) as u8,
        (x >> 24u64) as u8,
        (x >> 32u64) as u8,
        (x >> 40u64) as u8,
        (x >> 48u64) as u8,
        (x >> 56u64) as u8,
    ]
}

/// A byte string preceded by its length.
pub open spec fn str_bytes(s: Seq<u8>) -> Seq<u8> {
    u64_le(s.len() as u64) + s
}

pub open spec fn bool_byte(b: bool) -> Seq<u8> {
    if b {
        seq![1u8]
    } else {
        seq![0u8]
    }
}

pub open spec fn key_bytes(k: (Seq<u8>, u64)) -> Seq<u8> {
    str_bytes(k.0) + u64_le(k.1)
}

/// The keys written one after the other, in sequence order.
pub open spec fn keys_bytes(s: Seq<(Seq<u8>, u64)>) -> Seq<u8>
    decreases s.len(),
{
    if s.len() == 0 {
        Seq::empty()
    } else {
        keys_bytes(s.drop_last()) + key_bytes(s.last())
    }
}

/// The canonical form of a set-like list: its keys, sorted, then written out.
pub open spec fn sorted_keys_bytes(s: Seq<(Seq<u8>, u64)>) -> Seq<u8> {
    u64_le(s.len() as u64) + keys_bytes(s.sort_by(key_order()))
}

pub fn push_u64(out: &mut Vec<u8>, x: u64)
    ensures
        final(out)@ == old(out)@ + u64_le(x),
{
    out.push(x as u8);
    out.push((x >> 8u64) as u8);
    out.push((x >> 16u64) as u8);
    out.push((x >> 24u64) as u8);
    out.push((x >> 32u64) as u8);
    out.push((x >> 40u64) as u8);
    out.push((x >> 48u64) as u8);
    out.push((x >> 56u64) as u8);
    assert(out@ =~= old(out)@ + u64_le(x));
}

pub fn push_bool(out: &mut Vec<u8>, b: bool)
    ensures
        final(out)@ == old(out)@ + bool_byte(b),
{
    if b {
        out.push(1u8);
    } else {
        out.push(0u8);
    }
    assert(out@ =~= old(out)@ + bool_byte(b));
}

pub fn push_bytes(out: &mut Vec<u8>, b: &[u8])
    ensures
        final(out)@ == old(out)@ + str_bytes(b@),
{
    push_u64(out, b.len() as u64);
    let ghost mid = out@;
    let mut i: usize = 0;
    while i < b.len()
        invariant
            i <= b@.len(),
            out@ == mid + b@.subrange(0, i as int),
        decreases b@.len() - i,
    {
        out.push(b[i]);
        i = i + 1;
        assert(out@ =~= mid + b@.subrange(0, i as int));
    }
    assert(b@.subrange(0, b@.len() as int) =~= b@);
}

pub fn lex_le_exec(a: &[u8], b: &[u8]) -> (r: bool)
    ensures
        r == lex_le(a@, b@),
{
    let mut i: usize = 0;
    assert(a@.subrange(0, a@.len() as int) =~= a@);
    assert(b@.subrange(0, b@.len() as int) =~= b@);
    while i < a.len() && i < b.len() && a[i] == b[i]
        invariant
            i <= a@.len(),
            i <= b@.len(),
            lex_le(a@, b@) == lex_le(
                a@.subrange(i as int, a@.len() as int),
                b@.subrange(i as int, b@.len() as int),
            ),
        decreases a@.len() - i,
    {
        assert(a@.subrange(i as int, a@.len() as int).drop_first() =~= a@.subrange(
            i + 1,
            a@.len() as int,
        ));
        assert(b@.subrange(i as int, b@.len() as int).drop_first() =~= b@.subrange(
            i + 1,
            b@.len() as int,
        ));
        i = i + 1;
    }
    if i == a.len() {
        true
    } else if i == b.len() {
        false
    } else {
        a[i] < b[i]
    }
}

pub fn key_le_exec(a: &SortKey, b: &SortKey) -> (r: bool)
    ensures
        r == key_le(key_view(*a), key_view(*b)),
{
    let ab = lex_le_exec(a.name.as_slice(), b.name.as_slice());
    let ba = lex_le_exec(b.name.as_slice(), a.name.as_slice());
    proof {
        if ab && ba {
            lemma_lex_le_antisymmetric(a.name@, b.name@);
        }
        if a.name@ == b.name@ {
            lemma_lex_le_reflexive(a.name@);
        }
    }
    if ab && ba {
        a.tail <= b.tail
    } else {
        ab
    }
}

/// Inserts `k` after every key that sorts at or before it.
pub fn insert_sorted(out: &mut Vec<SortKey>, k: SortKey)
    requires
        sorted_by(old(out)@.map_values(|x: SortKey| key_view(x)), key_order()),
    ensures
        sorted_by(final(out)@.map_values(|x: SortKey| key_view(x)), key_order()),
        final(out)@.map_values(|x: SortKey| key_view(x)).to_multiset() == old(
            out,
        )@.map_values(|x: SortKey| key_view(x)).to_multiset().insert(key_view(k)),
{
    proof {
        lemma_key_le_total_ordering();
    }
    let ghost v = out@.map_values(|x: SortKey| key_view(x));
    let mut p: usize = 0;
    while p < out.len() && key_le_exec(&out[p], &k)
        invariant
            p <= out@.len(),
            v == out@.map_values(|x: SortKey| key_view(x)),
            forall|j: int| 0 <= j < p ==> key_le(#[trigger] v[j], key_view(k)),
        decreases out@.len() - p,
    {
        p = p + 1;
    }
    let ghost kv = key_view(k);
    out.insert(p, k);
    let ghost w = out@.map_values(|x: SortKey| key_view(x));
    assert(w =~= v.insert(p as int, kv));
    proof {
        to_multiset_insert(v, p as int, kv);
    }
    assert forall|i: int, j: int| 0 <= i < j < w.len() implies #[trigger] key_order()(
        w[i],
        w[j],
    ) by {
        let leq = key_order();
        if p < v.len() {
            assert(!key_le(v[p as int], kv));
            lemma_lex_le_total(kv.0, v[p as int].0);
            assert(leq(kv, v[p as int]));
        }
        if j < p {
            assert(w[i] == v[i] && w[j] == v[j]);
        } else if j == p {
            assert(w[i] == v[i]);
        } else if i == p {
            assert(w[j] == v[j - 1]);
            if j - 1 > p {
                assert(leq(v[p as int], v[j - 1]));
            }
        } else if i < p {
            assert(w[i] == v[i] && w[j] == v[j - 1]);
            assert(leq(v[i], kv));
            assert(leq(kv, v[p as int]));
            if j - 1 > p {
                assert(leq(v[p as int], v[j - 1]));
            }
        } else {
            assert(w[i] == v[i - 1] && w[j] == v[j - 1]);
        }
    }
}

} // verus!
