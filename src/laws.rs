//! Laws of the type registry: idempotent registration, identities that do
//! not depend on the order of set-like members, closure under merging, and
//! the algebra of merging.

use vstd::prelude::*;
use vstd::multiset::*;
use vstd::relations::*;
use vstd::seq_lib::*;
use vstd::utf8::*;
use crate::canonical::{bool_byte, key_order, lemma_key_le_total_ordering, str_bytes, u64_le};
use crate::type_registry::{
    BaseTypeKind, EnumVariant, RegistryView, StructField, Type, TypeId, UnionField, canonical_bytes,
    content_id, enum_key, field_bytes, fields_bytes, ids_bytes, kind_bytes, tag_bytes, utf8_of,
    lemma_filter_keys, lemma_merge_wf, refs_of, union_key,
};

verus! {

/// Registering a record a second time changes nothing: the registry after
/// two registrations is the registry after one, both calls answer the same
/// content id, and a record that was new adds exactly one entry.
pub proof fn lemma_register_idempotent(r: RegistryView, t: Type)
    requires
        r.wf(),
    ensures
        r.register(t).register(t) == r.register(t),
        r.register(t).has_id(content_id(t)),
        r.register(t).types.len() == r.types.len() + if r.has_id(content_id(t)) {
            0int
        } else {
            1int
        },
{
    let id = content_id(t);
    if !r.has_id(id) {
        let r1 = r.register(t);
        assert(r1.types[r1.types.len() - 1].id == id);
    }
}

/// Applying a function to both sides keeps two sequences permutations of
/// each other.
pub proof fn lemma_multiset_map<A, B>(s1: Seq<A>, s2: Seq<A>, f: spec_fn(A) -> B)
    requires
        s1.to_multiset() == s2.to_multiset(),
    ensures
        s1.map_values(f).to_multiset() == s2.map_values(f).to_multiset(),
    decreases s1.len(),
{
    broadcast use group_to_multiset_ensures, group_multiset_axioms;

    if s1.len() == 0 {
        assert(s1.to_multiset().len() == 0);
        assert(s2.len() == s2.to_multiset().len());
        assert(s2.len() == 0);
        assert(s1.map_values(f) =~= s2.map_values(f));
    } else {
        let x = s1.last();
        assert(s1.to_multiset().count(x) > 0) by {
            assert(s1.contains(x)) by {
                assert(s1[s1.len() - 1] == x);
            }
        }
        assert(s2.contains(x));
        let j = choose|j: int| 0 <= j < s2.len() && s2[j] == x;
        let d1 = s1.drop_last();
        let d2 = s2.remove(j);
        assert(s1.remove(s1.len() - 1) =~= d1);
        assert(d1.to_multiset() =~= d2.to_multiset());
        lemma_multiset_map(d1, d2, f);
        assert(s1.map_values(f) =~= d1.map_values(f).push(f(x)));
        assert(s2.map_values(f).remove(j) =~= d2.map_values(f));
        let m = s2.map_values(f).to_multiset();
        assert(s2.map_values(f)[j] == f(x));
        assert(m.count(f(x)) > 0) by {
            assert(s2.map_values(f).contains(f(x)));
        }
        assert(m =~= m.remove(f(x)).insert(f(x)));
    }
}

/// Sorting two permutations of each other by the key order gives one result.
proof fn lemma_sort_permutation(s1: Seq<(Seq<u8>, u64)>, s2: Seq<(Seq<u8>, u64)>)
    requires
        s1.to_multiset() == s2.to_multiset(),
    ensures
        s1.sort_by(key_order()) == s2.sort_by(key_order()),
        s1.len() == s2.len(),
{
    broadcast use group_to_multiset_ensures;

    lemma_key_le_total_ordering();
    s1.lemma_sort_by_ensures(key_order());
    s2.lemma_sort_by_ensures(key_order());
    lemma_sorted_unique(s1.sort_by(key_order()), s2.sort_by(key_order()), key_order());
    assert(s1.len() == s1.to_multiset().len());
    assert(s2.len() == s2.to_multiset().len());
}

/// What identifies an enum member: its name and value.
pub open spec fn variant_view(v: EnumVariant) -> (Seq<char>, i64) {
    (v.name@, v.value)
}

/// What identifies a union member: its name and type.
pub open spec fn union_field_view(f: UnionField) -> (Seq<char>, TypeId) {
    (f.name@, f.type_id)
}

/// Two enum records that differ only in the order of their members have the
/// same content id.
pub proof fn lemma_enum_order_independent(a: Type, b: Type)
    requires
        a.pointer_depth == b.pointer_depth,
        a.is_const == b.is_const,
        a.is_volatile == b.is_volatile,
        match (a.kind, b.kind) {
            (
                BaseTypeKind::Enum { name: n1, backing_id: k1, variants: v1, size: s1 },
                BaseTypeKind::Enum { name: n2, backing_id: k2, variants: v2, size: s2 },
            ) => n1@ == n2@ && k1 == k2 && s1 == s2 && v1@.map_values(
                |v: EnumVariant| variant_view(v),
            ).to_multiset() == v2@.map_values(|v: EnumVariant| variant_view(v)).to_multiset(),
            _ => false,
        },
    ensures
        content_id(a) == content_id(b),
{
    match (a.kind, b.kind) {
        (
            BaseTypeKind::Enum { name: n1, backing_id: k1, variants: v1, size: s1 },
            BaseTypeKind::Enum { name: n2, backing_id: k2, variants: v2, size: s2 },
        ) => {
            let g = |p: (Seq<char>, i64)| (encode_utf8(p.0), p.1 as u64);
            let w1 = v1@.map_values(|v: EnumVariant| variant_view(v));
            let w2 = v2@.map_values(|v: EnumVariant| variant_view(v));
            lemma_multiset_map(w1, w2, g);
            assert(v1@.map_values(|v: EnumVariant| enum_key(v)) =~= w1.map_values(g));
            assert(v2@.map_values(|v: EnumVariant| enum_key(v)) =~= w2.map_values(g));
            lemma_sort_permutation(w1.map_values(g), w2.map_values(g));
        },
        _ => {},
    }
}

/// Two union records that differ only in the order of their members have the
/// same content id.
pub proof fn lemma_union_order_independent(a: Type, b: Type)
    requires
        a.pointer_depth == b.pointer_depth,
        a.is_const == b.is_const,
        a.is_volatile == b.is_volatile,
        match (a.kind, b.kind) {
            (
                BaseTypeKind::Union { name: n1, variants: v1, size: s1, alignment: l1 },
                BaseTypeKind::Union { name: n2, variants: v2, size: s2, alignment: l2 },
            ) => n1@ == n2@ && s1 == s2 && l1 == l2 && v1@.map_values(
                |f: UnionField| union_field_view(f),
            ).to_multiset() == v2@.map_values(|f: UnionField| union_field_view(f)).to_multiset(),
            _ => false,
        },
    ensures
        content_id(a) == content_id(b),
{
    match (a.kind, b.kind) {
        (
            BaseTypeKind::Union { name: n1, variants: v1, size: s1, alignment: l1 },
            BaseTypeKind::Union { name: n2, variants: v2, size: s2, alignment: l2 },
        ) => {
            let g = |p: (Seq<char>, TypeId)| (encode_utf8(p.0), p.1.0);
            let w1 = v1@.map_values(|f: UnionField| union_field_view(f));
            let w2 = v2@.map_values(|f: UnionField| union_field_view(f));
            lemma_multiset_map(w1, w2, g);
            assert(v1@.map_values(|f: UnionField| union_key(f)) =~= w1.map_values(g));
            assert(v2@.map_values(|f: UnionField| union_key(f)) =~= w2.map_values(g));
            lemma_sort_permutation(w1.map_values(g), w2.map_values(g));
        },
        _ => {},
    }
}


/// Where a merged registry finds each id: in the first registry if it is
/// there, else in the second.
pub proof fn lemma_merge_record(a: RegistryView, b: RegistryView, id: TypeId)
    requires
        a.wf(),
        b.wf(),
    ensures
        a.merge(b).has_id(id) == (a.has_id(id) || b.has_id(id)),
        a.has_id(id) ==> a.merge(b).record(id) == a.record(id),
        !a.has_id(id) && b.has_id(id) ==> a.merge(b).record(id) == b.record(id),
{
    let m = a.merge(b);
    let tpred = |t: Type| !a.has_id(t.id);
    let ft = b.types.filter(tpred);
    lemma_merge_wf(a, b);
    lemma_filter_keys(b.types, tpred, |t: Type| t.id);
    if a.has_id(id) {
        let i = a.index_of(id);
        assert(m.types[i] == a.types[i]);
        let k = m.index_of(id);
        assert(m.types[k].id == id);
    } else if b.has_id(id) {
        let q = b.index_of(id);
        assert(tpred(b.types[q]));
        b.types.lemma_filter_contains(tpred, q);
        let r = choose|r: int| 0 <= r < ft.len() && ft[r] == b.types[q];
        assert(m.types[a.types.len() + r] == ft[r]);
        let k = m.index_of(id);
        assert(m.types[k].id == id);
    } else if m.has_id(id) {
        let k = m.index_of(id);
        if k >= a.types.len() {
            let r = k - a.types.len();
            assert(m.types[k] == ft[r]);
            let j = choose|j: int| 0 <= j < b.types.len() && #[trigger] b.types[j] == ft[r];
            assert(b.types[j].id == id);
        } else {
            assert(a.types[k].id == id);
        }
    }
}

/// Merging closed registries gives a closed registry: every id that a
/// merged record refers to resolves in the merged registry.
pub proof fn lemma_merge_closed(a: RegistryView, b: RegistryView)
    requires
        a.wf(),
        b.wf(),
        a.closed(),
        b.closed(),
    ensures
        a.merge(b).closed(),
{
    let m = a.merge(b);
    let tpred = |t: Type| !a.has_id(t.id);
    let ft = b.types.filter(tpred);
    lemma_filter_keys(b.types, tpred, |t: Type| t.id);
    assert forall|i: int, k: int|
        0 <= i < m.types.len() && 0 <= k < refs_of(m.types[i]).len() implies m.has_id(
        #[trigger] refs_of(m.types[i])[k],
    ) by {
        let x = refs_of(m.types[i])[k];
        if i < a.types.len() {
            assert(m.types[i] == a.types[i]);
            assert(a.has_id(refs_of(a.types[i])[k]));
        } else {
            let r = i - a.types.len();
            assert(m.types[i] == ft[r]);
            let j = choose|j: int| 0 <= j < b.types.len() && #[trigger] b.types[j] == ft[r];
            assert(b.has_id(refs_of(b.types[j])[k]));
        }
        lemma_merge_record(a, b, x);
    }
}

/// Merging a registry with itself gives it back unchanged.
pub proof fn lemma_merge_idempotent(a: RegistryView)
    requires
        a.wf(),
    ensures
        a.merge(a) == a,
{
    let tpred = |t: Type| !a.has_id(t.id);
    let opred = |p: (u64, TypeId)| !a.has_offset(p.0);
    lemma_filter_keys(a.types, tpred, |t: Type| t.id);
    lemma_filter_keys(a.offsets, opred, |p: (u64, TypeId)| p.0);
    let ft = a.types.filter(tpred);
    let fo = a.offsets.filter(opred);
    if ft.len() > 0 {
        let j = choose|j: int| 0 <= j < a.types.len() && #[trigger] a.types[j] == ft[0];
        assert(tpred(ft[0]));
        assert(a.has_id(a.types[j].id));
    }
    if fo.len() > 0 {
        let j = choose|j: int| 0 <= j < a.offsets.len() && #[trigger] a.offsets[j] == fo[0];
        assert(opred(fo[0]));
        assert(a.has_offset(a.offsets[j].0));
    }
    assert(a.merge(a).types =~= a.types);
    assert(a.merge(a).offsets =~= a.offsets);
}

/// Two records with equal content (their DWARF provenance aside).
pub open spec fn same_content(x: Type, y: Type) -> bool {
    &&& x.id == y.id
    &&& x.kind == y.kind
    &&& x.pointer_depth == y.pointer_depth
    &&& x.is_const == y.is_const
    &&& x.is_volatile == y.is_volatile
}

/// Merging in either order stores the same ids, with the same content under
/// each, provided the two registries agree on the ids they share.
pub proof fn lemma_merge_commutative(a: RegistryView, b: RegistryView)
    requires
        a.wf(),
        b.wf(),
        forall|id: TypeId|
            a.has_id(id) && b.has_id(id) ==> same_content(a.record(id), b.record(id)),
    ensures
        forall|id: TypeId| a.merge(b).has_id(id) == b.merge(a).has_id(id),
        forall|id: TypeId|
            a.merge(b).has_id(id) ==> same_content(a.merge(b).record(id), b.merge(a).record(id)),
{
    assert forall|id: TypeId| a.merge(b).has_id(id) == b.merge(a).has_id(id) by {
        lemma_merge_record(a, b, id);
        lemma_merge_record(b, a, id);
    }
    assert forall|id: TypeId| a.merge(b).has_id(id) implies same_content(
        a.merge(b).record(id),
        b.merge(a).record(id),
    ) by {
        lemma_merge_record(a, b, id);
        lemma_merge_record(b, a, id);
        if a.has_id(id) && b.has_id(id) {
        } else if a.has_id(id) {
            assert(same_content(a.record(id), a.record(id)));
        } else {
            assert(same_content(b.record(id), b.record(id)));
        }
    }
}


/// Eight little-endian bytes determine the integer.
pub proof fn lemma_u64_le_injective(x: u64, y: u64)
    requires
        u64_le(x) == u64_le(y),
    ensures
        x == y,
{
    assert(u64_le(x)[0] == u64_le(y)[0]);
    assert(u64_le(x)[1] == u64_le(y)[1]);
    assert(u64_le(x)[2] == u64_le(y)[2]);
    assert(u64_le(x)[3] == u64_le(y)[3]);
    assert(u64_le(x)[4] == u64_le(y)[4]);
    assert(u64_le(x)[5] == u64_le(y)[5]);
    assert(u64_le(x)[6] == u64_le(y)[6]);
    assert(u64_le(x)[7] == u64_le(y)[7]);
    assert(x == y) by (bit_vector)
        requires
            x as u8 == y as u8,
            (x >> 8u64) as u8 == (y >> 8u64) as u8,
            (x >> 16u64) as u8 == (y >> 16u64) as u8,
            (x >> 24u64) as u8 == (y >> 24u64) as u8,
            (x >> 32u64) as u8 == (y >> 32u64) as u8,
            (x >> 40u64) as u8 == (y >> 40u64) as u8,
            (x >> 48u64) as u8 == (y >> 48u64) as u8,
            (x >> 56u64) as u8 == (y >> 56u64) as u8,
    ;
}

/// What a struct field contributes to its record's identity.
pub open spec fn field_key(f: StructField) -> (Seq<u8>, u64, u64, u64) {
    (utf8_of(f.name), f.type_id.0, f.offset as u64, f.size as u64)
}

/// The UTF-8 length of every field name fits in 64 bits.
pub open spec fn field_names_fit(s: Seq<StructField>) -> bool {
    forall|i: int| 0 <= i < s.len() ==> #[trigger] utf8_of(s[i].name).len() <= u64::MAX
}

proof fn lemma_fields_bytes_front(s: Seq<StructField>)
    requires
        s.len() > 0,
    ensures
        fields_bytes(s) == field_bytes(s[0]) + fields_bytes(s.drop_first()),
    decreases s.len(),
{
    if s.len() == 1 {
        assert(s.drop_last() =~= Seq::<StructField>::empty());
        assert(s.drop_first() =~= Seq::<StructField>::empty());
        assert(fields_bytes(s.drop_last()) =~= Seq::<u8>::empty());
        assert(fields_bytes(s.drop_first()) =~= Seq::<u8>::empty());
        assert(s.last() == s[0]);
        assert(fields_bytes(s) =~= field_bytes(s[0]));
    } else {
        lemma_fields_bytes_front(s.drop_last());
        assert(s.drop_last().drop_first() =~= s.drop_first().drop_last());
        assert(s.drop_first().last() == s.last());
        assert(s.drop_last()[0] == s[0]);
        assert(fields_bytes(s) =~= field_bytes(s[0]) + fields_bytes(s.drop_first()));
    }
}

proof fn lemma_assoc(a: Seq<u8>, b: Seq<u8>, c: Seq<u8>)
    ensures
        (a + b) + c == a + (b + c),
{
    assert((a + b) + c =~= a + (b + c));
}

proof fn lemma_regroup(
    p0: Seq<u8>,
    p1: Seq<u8>,
    p2: Seq<u8>,
    f: Seq<u8>,
    t0: Seq<u8>,
    t1: Seq<u8>,
    t2: Seq<u8>,
    t3: Seq<u8>,
    t4: Seq<u8>,
    t5: Seq<u8>,
)
    ensures
        p0 + p1 + p2 + f + t0 + t1 + t2 + t3 + t4 + t5 == (p0 + p1 + p2) + (f + (t0 + t1 + t2 + t3
            + t4 + t5)),
{
    assert(p0 + p1 + p2 + f + t0 + t1 + t2 + t3 + t4 + t5 =~= (p0 + p1 + p2) + (f + (t0 + t1 + t2
        + t3 + t4 + t5)));
}

/// Equal bytes of `a + x` and `b + y` with `a` and `b` of one length split
/// into equal parts.
proof fn lemma_split_equal(a: Seq<u8>, x: Seq<u8>, b: Seq<u8>, y: Seq<u8>)
    requires
        a + x == b + y,
        a.len() == b.len(),
    ensures
        a == b,
        x == y,
{
    assert(a =~= (a + x).subrange(0, a.len() as int));
    assert(b =~= (b + y).subrange(0, b.len() as int));
    assert(x =~= (a + x).subrange(a.len() as int, (a + x).len() as int));
    assert(y =~= (b + y).subrange(b.len() as int, (b + y).len() as int));
}

proof fn lemma_field_bytes_injective(f: StructField, g: StructField, x: Seq<u8>, y: Seq<u8>)
    requires
        field_bytes(f) + x == field_bytes(g) + y,
        utf8_of(f.name).len() <= u64::MAX,
        utf8_of(g.name).len() <= u64::MAX,
    ensures
        field_key(f) == field_key(g),
        x == y,
{
    let nf = utf8_of(f.name);
    let ng = utf8_of(g.name);
    let rf = u64_le(f.type_id.0) + u64_le(f.offset as u64) + u64_le(f.size as u64);
    let rg = u64_le(g.type_id.0) + u64_le(g.offset as u64) + u64_le(g.size as u64);
    assert(field_bytes(f) + x =~= u64_le(nf.len() as u64) + (nf + rf + x));
    assert(field_bytes(g) + y =~= u64_le(ng.len() as u64) + (ng + rg + y));
    lemma_split_equal(u64_le(nf.len() as u64), nf + rf + x, u64_le(ng.len() as u64), ng + rg + y);
    lemma_u64_le_injective(nf.len() as u64, ng.len() as u64);
    assert(nf + rf + x =~= nf + (u64_le(f.type_id.0) + (u64_le(f.offset as u64) + (u64_le(f.size as u64) + x))));
    assert(ng + rg + y =~= ng + (u64_le(g.type_id.0) + (u64_le(g.offset as u64) + (u64_le(g.size as u64) + y))));
    lemma_split_equal(nf, u64_le(f.type_id.0) + (u64_le(f.offset as u64) + (u64_le(f.size as u64) + x)), ng, u64_le(g.type_id.0) + (u64_le(g.offset as u64) + (u64_le(g.size as u64) + y)));
    lemma_split_equal(u64_le(f.type_id.0), u64_le(f.offset as u64) + (u64_le(f.size as u64) + x), u64_le(g.type_id.0), u64_le(g.offset as u64) + (u64_le(g.size as u64) + y));
    lemma_split_equal(u64_le(f.offset as u64), u64_le(f.size as u64) + x, u64_le(g.offset as u64), u64_le(g.size as u64) + y);
    lemma_split_equal(u64_le(f.size as u64), x, u64_le(g.size as u64), y);
    lemma_u64_le_injective(f.type_id.0, g.type_id.0);
    lemma_u64_le_injective(f.offset as u64, g.offset as u64);
    lemma_u64_le_injective(f.size as u64, g.size as u64);
}

#[verifier::rlimit(50)]
proof fn lemma_fields_bytes_injective(s1: Seq<StructField>, s2: Seq<StructField>, x: Seq<u8>, y: Seq<u8>)
    requires
        s1.len() == s2.len(),
        field_names_fit(s1),
        field_names_fit(s2),
        fields_bytes(s1) + x == fields_bytes(s2) + y,
    ensures
        s1.map_values(|f: StructField| field_key(f)) == s2.map_values(|f: StructField| field_key(f)),
        x == y,
    decreases s1.len(),
{
    if s1.len() == 0 {
        assert(fields_bytes(s1) + x =~= x);
        assert(fields_bytes(s2) + y =~= y);
        assert(s1.map_values(|f: StructField| field_key(f)) =~= s2.map_values(|f: StructField| field_key(f)));
    } else {
        lemma_fields_bytes_front(s1);
        lemma_fields_bytes_front(s2);
        let t1 = s1.drop_first();
        let t2 = s2.drop_first();
        lemma_assoc(field_bytes(s1[0]), fields_bytes(t1), x);
        lemma_assoc(field_bytes(s2[0]), fields_bytes(t2), y);
        assert(utf8_of(s1[0].name).len() <= u64::MAX);
        assert(utf8_of(s2[0].name).len() <= u64::MAX);
        lemma_field_bytes_injective(s1[0], s2[0], fields_bytes(t1) + x, fields_bytes(t2) + y);
        assert forall|i: int| 0 <= i < t1.len() implies #[trigger] utf8_of(t1[i].name).len() <= u64::MAX by {
            assert(t1[i] == s1[i + 1]);
        }
        assert forall|i: int| 0 <= i < t2.len() implies #[trigger] utf8_of(t2[i].name).len() <= u64::MAX by {
            assert(t2[i] == s2[i + 1]);
        }
        lemma_fields_bytes_injective(t1, t2, x, y);
        let k1 = s1.map_values(|f: StructField| field_key(f));
        let k2 = s2.map_values(|f: StructField| field_key(f));
        assert forall|i: int| 0 <= i < k1.len() implies k1[i] == k2[i] by {
            if i > 0 {
                assert(t1.map_values(|f: StructField| field_key(f))[i - 1] == k1[i]);
                assert(t2.map_values(|f: StructField| field_key(f))[i - 1] == k2[i]);
            }
        }
        assert(k1 =~= k2);
    }
}

/// Two struct records that hold their fields in a different order have
/// different canonical forms. (Their ids are digests of those forms; that
/// distinct forms give distinct digests is the digest's concern, not
/// something proved here.)
#[verifier::rlimit(50)]
pub proof fn lemma_struct_field_order_changes_canonical_form(a: Type, b: Type)
    requires
        a.pointer_depth == b.pointer_depth,
        a.is_const == b.is_const,
        a.is_volatile == b.is_volatile,
        match (a.kind, b.kind) {
            (
                BaseTypeKind::Struct { name: n1, fields: f1, size: s1, alignment: l1, is_opaque: o1 },
                BaseTypeKind::Struct { name: n2, fields: f2, size: s2, alignment: l2, is_opaque: o2 },
            ) => n1@ == n2@ && s1 == s2 && l1 == l2 && o1 == o2 && f1@.len() == f2@.len()
                && field_names_fit(f1@) && field_names_fit(f2@) && f1@.map_values(
                |f: StructField| field_key(f),
            ) != f2@.map_values(|f: StructField| field_key(f)),
            _ => false,
        },
    ensures
        canonical_bytes(a.kind, a.pointer_depth, a.is_const, a.is_volatile) != canonical_bytes(
            b.kind,
            b.pointer_depth,
            b.is_const,
            b.is_volatile,
        ),
{
    match (a.kind, b.kind) {
        (
            BaseTypeKind::Struct { name: n1, fields: f1, size: s1, alignment: l1, is_opaque: o1 },
            BaseTypeKind::Struct { name: n2, fields: f2, size: s2, alignment: l2, is_opaque: o2 },
        ) => {
            let p = tag_bytes(1) + str_bytes(utf8_of(n1)) + u64_le(f1@.len() as u64);
            let t = u64_le(s1 as u64) + u64_le(l1 as u64) + bool_byte(o1) + u64_le(
                a.pointer_depth as u64,
            ) + bool_byte(a.is_const) + bool_byte(a.is_volatile);
            assert(utf8_of(n1) == utf8_of(n2));
            assert(kind_bytes(a.kind) == tag_bytes(1) + str_bytes(utf8_of(n1)) + u64_le(
                f1@.len() as u64,
            ) + fields_bytes(f1@) + u64_le(s1 as u64) + u64_le(l1 as u64) + bool_byte(o1));
            assert(kind_bytes(b.kind) == tag_bytes(1) + str_bytes(utf8_of(n1)) + u64_le(
                f1@.len() as u64,
            ) + fields_bytes(f2@) + u64_le(s1 as u64) + u64_le(l1 as u64) + bool_byte(o1));
            lemma_regroup(
                tag_bytes(1),
                str_bytes(utf8_of(n1)),
                u64_le(f1@.len() as u64),
                fields_bytes(f1@),
                u64_le(s1 as u64),
                u64_le(l1 as u64),
                bool_byte(o1),
                u64_le(a.pointer_depth as u64),
                bool_byte(a.is_const),
                bool_byte(a.is_volatile),
            );
            lemma_regroup(
                tag_bytes(1),
                str_bytes(utf8_of(n1)),
                u64_le(f1@.len() as u64),
                fields_bytes(f2@),
                u64_le(s1 as u64),
                u64_le(l1 as u64),
                bool_byte(o1),
                u64_le(a.pointer_depth as u64),
                bool_byte(a.is_const),
                bool_byte(a.is_volatile),
            );
            assert(canonical_bytes(a.kind, a.pointer_depth, a.is_const, a.is_volatile) == p + (
            fields_bytes(f1@) + t));
            assert(canonical_bytes(b.kind, b.pointer_depth, b.is_const, b.is_volatile) == p + (
            fields_bytes(f2@) + t));
            if canonical_bytes(a.kind, a.pointer_depth, a.is_const, a.is_volatile)
                == canonical_bytes(b.kind, b.pointer_depth, b.is_const, b.is_volatile) {
                lemma_split_equal(p, fields_bytes(f1@) + t, p, fields_bytes(f2@) + t);
                lemma_fields_bytes_injective(f1@, f2@, t, t);
            }
        },
        _ => {},
    }
}

proof fn lemma_ids_bytes_shape(s: Seq<TypeId>)
    ensures
        ids_bytes(s).len() == 8 * s.len(),
        forall|i: int|
            0 <= i < s.len() ==> #[trigger] ids_bytes(s).subrange(8 * i, 8 * i + 8) == u64_le(s[i].0),
    decreases s.len(),
{
    if s.len() > 0 {
        let d = s.drop_last();
        lemma_ids_bytes_shape(d);
        assert forall|i: int| 0 <= i < s.len() implies #[trigger] ids_bytes(s).subrange(
            8 * i,
            8 * i + 8,
        ) == u64_le(s[i].0) by {
            if i < d.len() {
                assert(ids_bytes(s).subrange(8 * i, 8 * i + 8) =~= ids_bytes(d).subrange(8 * i, 8 * i + 8));
                assert(d[i] == s[i]);
            } else {
                assert(ids_bytes(s).subrange(8 * i, 8 * i + 8) =~= u64_le(s.last().0));
            }
        }
    }
}

/// Two function records whose parameter lists hold the same number of
/// types in a different order have different canonical forms.
pub proof fn lemma_function_param_order_changes_canonical_form(a: Type, b: Type)
    requires
        a.pointer_depth == b.pointer_depth,
        a.is_const == b.is_const,
        a.is_volatile == b.is_volatile,
        match (a.kind, b.kind) {
            (
                BaseTypeKind::Function { return_type_id: r1, parameter_type_ids: p1, is_variadic: v1 },
                BaseTypeKind::Function { return_type_id: r2, parameter_type_ids: p2, is_variadic: v2 },
            ) => r1 == r2 && v1 == v2 && p1@.len() == p2@.len() && p1@ != p2@,
            _ => false,
        },
    ensures
        canonical_bytes(a.kind, a.pointer_depth, a.is_const, a.is_volatile) != canonical_bytes(
            b.kind,
            b.pointer_depth,
            b.is_const,
            b.is_volatile,
        ),
{
    match (a.kind, b.kind) {
        (
            BaseTypeKind::Function { return_type_id: r1, parameter_type_ids: p1, is_variadic: v1 },
            BaseTypeKind::Function { return_type_id: r2, parameter_type_ids: p2, is_variadic: v2 },
        ) => {
            let head = tag_bytes(6) + crate::type_registry::opt_id_bytes(r1) + u64_le(p1@.len() as u64);
            let t = bool_byte(v1) + u64_le(a.pointer_depth as u64) + bool_byte(a.is_const) + bool_byte(
                a.is_volatile,
            );
            assert(canonical_bytes(a.kind, a.pointer_depth, a.is_const, a.is_volatile) =~= head + (
            ids_bytes(p1@) + t));
            assert(canonical_bytes(b.kind, b.pointer_depth, b.is_const, b.is_volatile) =~= head + (
            ids_bytes(p2@) + t));
            lemma_ids_bytes_shape(p1@);
            lemma_ids_bytes_shape(p2@);
            if canonical_bytes(a.kind, a.pointer_depth, a.is_const, a.is_volatile)
                == canonical_bytes(b.kind, b.pointer_depth, b.is_const, b.is_volatile) {
                lemma_split_equal(head, ids_bytes(p1@) + t, head, ids_bytes(p2@) + t);
                lemma_split_equal(ids_bytes(p1@), t, ids_bytes(p2@), t);
                assert forall|i: int| 0 <= i < p1@.len() implies p1@[i] == p2@[i] by {
                    assert(ids_bytes(p1@).subrange(8 * i, 8 * i + 8) == u64_le(p1@[i].0));
                    assert(ids_bytes(p2@).subrange(8 * i, 8 * i + 8) == u64_le(p2@[i].0));
                    lemma_u64_le_injective(p1@[i].0, p2@[i].0);
                }
                assert(p1@ =~= p2@);
            }
        },
        _ => {},
    }
}

} // verus!
