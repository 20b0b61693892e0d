//! Type records, their content-addressed identities, and the registry that
//! stores them.

use vstd::prelude::*;
use vstd::relations::*;
use vstd::seq_lib::*;
use vstd::string::*;
use vstd::utf8::*;
use vstd::std_specs::hash::DefaultHasherAdditionalSpecFns;
use vstd::std_specs::iter::IteratorSpec;
use std::collections::hash_map::DefaultHasher;
use std::hash::Hasher;
use crate::canonical::{
    SortKey, bool_byte, insert_sorted, key_order, key_view, keys_bytes, lemma_key_le_total_ordering,
    push_bool, push_bytes, push_u64, sorted_keys_bytes, str_bytes, u64_le,
};

verus! {

/// Identity of a type record: a 64-bit digest of its canonical form.
#[derive(Clone, Copy, Debug, PartialEq, Eq, Structural, Hash, PartialOrd, Ord)]
pub struct TypeId(pub u64);

/// One C type use-site: a base kind with the pointer and qualifier layers
/// that were folded into it.
#[derive(Clone, Debug)]
pub struct Type {
    pub id: TypeId,
    pub kind: BaseTypeKind,
    pub pointer_depth: usize,
    pub is_const: bool,
    pub is_volatile: bool,
    pub dwarf_offset: Option<u64>,
}

#[derive(Clone, Debug)]
#[allow(inconsistent_fields)]
pub enum BaseTypeKind {
    /// int, float, uint8_t, size_t, etc.
    Primitive { name: String, size: usize, alignment: usize },
    Struct {
        name: String,
        fields: Vec<StructField>,
        size: usize,
        alignment: usize,
        /// declared but never defined
        is_opaque: bool,
    },
    Union { name: String, variants: Vec<UnionField>, size: usize, alignment: usize },
    Enum { name: String, backing_id: TypeId, variants: Vec<EnumVariant>, size: usize },
    /// fixed-length array, e.g. int[10]
    Array { element_type_id: TypeId, count: usize, size: usize },
    Typedef { name: String, aliased_type_id: TypeId },
    /// target of a function pointer
    Function { return_type_id: Option<TypeId>, parameter_type_ids: Vec<TypeId>, is_variadic: bool },
}

#[derive(Clone, Debug)]
pub struct StructField {
    pub name: String,
    pub type_id: TypeId,
    /// bytes from the start of the struct
    pub offset: usize,
    pub size: usize,
}

#[derive(Clone, Debug)]
pub struct UnionField {
    pub name: String,
    pub type_id: TypeId,
}

#[derive(Clone, Debug)]
pub struct EnumVariant {
    pub name: String,
    pub value: i64,
}

/// UTF-8 bytes of a string.
pub open spec fn utf8_of(s: String) -> Seq<u8> {
    encode_utf8(s@)
}

pub open spec fn tag_bytes(t: u8) -> Seq<u8> {
    seq![t, 0u8, 0u8, 0u8]
}

pub open spec fn field_bytes(f: StructField) -> Seq<u8> {
    str_bytes(utf8_of(f.name)) + u64_le(f.type_id.0) + u64_le(f.offset as u64) + u64_le(
        f.size as u64,
    )
}

/// Struct fields written in their declared order.
pub open spec fn fields_bytes(s: Seq<StructField>) -> Seq<u8>
    decreases s.len(),
{
    if s.len() == 0 {
        Seq::empty()
    } else {
        fields_bytes(s.drop_last()) + field_bytes(s.last())
    }
}

/// Type ids written in sequence order.
pub open spec fn ids_bytes(s: Seq<TypeId>) -> Seq<u8>
    decreases s.len(),
{
    if s.len() == 0 {
        Seq::empty()
    } else {
        ids_bytes(s.drop_last()) + u64_le(s.last().0)
    }
}

pub open spec fn union_key(f: UnionField) -> (Seq<u8>, u64) {
    (utf8_of(f.name), f.type_id.0)
}

pub open spec fn enum_key(v: EnumVariant) -> (Seq<u8>, u64) {
    (utf8_of(v.name), v.value as u64)
}

pub open spec fn opt_id_bytes(r: Option<TypeId>) -> Seq<u8> {
    match r {
        Some(id) => seq![1u8] + u64_le(id.0),
        None => seq![0u8],
    }
}

/// Canonical form of a base kind. Struct fields and function parameters keep
/// their order; union and enum members are sorted, so that their order does
/// not count.
pub open spec fn kind_bytes(k: BaseTypeKind) -> Seq<u8> {
    match k {
        BaseTypeKind::Primitive { name, size, alignment } => tag_bytes(0) + str_bytes(
            utf8_of(name),
        ) + u64_le(size as u64) + u64_le(alignment as u64),
        BaseTypeKind::Struct { name, fields, size, alignment, is_opaque } => tag_bytes(1)
            + str_bytes(utf8_of(name)) + u64_le(fields@.len() as u64) + fields_bytes(fields@)
            + u64_le(size as u64) + u64_le(alignment as u64) + bool_byte(is_opaque),
        BaseTypeKind::Union { name, variants, size, alignment } => tag_bytes(2) + str_bytes(
            utf8_of(name),
        ) + sorted_keys_bytes(variants@.map_values(|f: UnionField| union_key(f))) + u64_le(
            size as u64,
        ) + u64_le(alignment as u64),
        BaseTypeKind::Enum { name, backing_id, variants, size } => tag_bytes(3) + str_bytes(
            utf8_of(name),
        ) + u64_le(backing_id.0) + sorted_keys_bytes(
            variants@.map_values(|v: EnumVariant| enum_key(v)),
        ) + u64_le(size as u64),
        BaseTypeKind::Array { element_type_id, count, size } => tag_bytes(4) + u64_le(
            element_type_id.0,
        ) + u64_le(count as u64) + u64_le(size as u64),
        BaseTypeKind::Typedef { name, aliased_type_id } => tag_bytes(5) + str_bytes(
            utf8_of(name),
        ) + u64_le(aliased_type_id.0),
        BaseTypeKind::Function { return_type_id, parameter_type_ids, is_variadic } => tag_bytes(6)
            + opt_id_bytes(return_type_id) + u64_le(parameter_type_ids@.len() as u64) + ids_bytes(
            parameter_type_ids@,
        ) + bool_byte(is_variadic),
    }
}

/// Canonical form of a whole record: its base kind, then its pointer depth
/// and qualifiers. Provenance (the DWARF offset) and the stored id take no
/// part.
pub open spec fn canonical_bytes(
    k: BaseTypeKind,
    pointer_depth: usize,
    is_const: bool,
    is_volatile: bool,
) -> Seq<u8> {
    kind_bytes(k) + u64_le(pointer_depth as u64) + bool_byte(is_const) + bool_byte(is_volatile)
}

/// The identity that a record's content determines.
pub open spec fn content_id(t: Type) -> TypeId {
    TypeId(
        DefaultHasher::spec_finish(
            seq![canonical_bytes(t.kind, t.pointer_depth, t.is_const, t.is_volatile)],
        ),
    )
}

fn push_name(out: &mut Vec<u8>, s: &String)
    ensures
        final(out)@ == old(out)@ + str_bytes(utf8_of(*s)),
{
    push_bytes(out, s.as_str().as_bytes());
}

/// A sequence that is sorted by the key order and holds the same keys as
/// `src` is the sorted form of `src`.
proof fn lemma_sorted_is_sort_by(a: Seq<(Seq<u8>, u64)>, src: Seq<(Seq<u8>, u64)>)
    requires
        sorted_by(a, key_order()),
        a.to_multiset() == src.to_multiset(),
    ensures
        a == src.sort_by(key_order()),
{
    lemma_key_le_total_ordering();
    src.lemma_sort_by_ensures(key_order());
    lemma_sorted_unique(a, src.sort_by(key_order()), key_order());
}

fn push_keys(out: &mut Vec<u8>, keys: &Vec<SortKey>)
    ensures
        final(out)@ == old(out)@ + u64_le(keys@.len() as u64) + keys_bytes(
            keys@.map_values(|x: SortKey| key_view(x)),
        ),
{
    push_u64(out, keys.len() as u64);
    let ghost mid = out@;
    let ghost kv = keys@.map_values(|x: SortKey| key_view(x));
    let mut i: usize = 0;
    while i < keys.len()
        invariant
            i <= keys@.len(),
            kv == keys@.map_values(|x: SortKey| key_view(x)),
            out@ == mid + keys_bytes(kv.take(i as int)),
        decreases keys@.len() - i,
    {
        push_bytes(out, keys[i].name.as_slice());
        push_u64(out, keys[i].tail);
        assert(kv.take(i + 1).drop_last() =~= kv.take(i as int));
        i = i + 1;
        assert(out@ =~= mid + keys_bytes(kv.take(i as int)));
    }
    assert(kv.take(keys@.len() as int) =~= kv);
}

fn union_sort_keys(vs: &Vec<UnionField>) -> (r: Vec<SortKey>)
    ensures
        r@.len() == vs@.len(),
        r@.map_values(|x: SortKey| key_view(x)) == vs@.map_values(|f: UnionField| union_key(f)).sort_by(
            key_order(),
        ),
{
    let ghost src = vs@.map_values(|f: UnionField| union_key(f));
    let mut out: Vec<SortKey> = Vec::new();
    let mut i: usize = 0;
    assert(out@.map_values(|x: SortKey| key_view(x)) =~= src.take(0));
    while i < vs.len()
        invariant
            i <= vs@.len(),
            src == vs@.map_values(|f: UnionField| union_key(f)),
            sorted_by(out@.map_values(|x: SortKey| key_view(x)), key_order()),
            out@.map_values(|x: SortKey| key_view(x)).to_multiset() == src.take(
                i as int,
            ).to_multiset(),
        decreases vs@.len() - i,
    {
        let k = SortKey { name: vs[i].name.as_str().as_bytes_vec(), tail: vs[i].type_id.0 };
        assert(key_view(k) == src[i as int]);
        insert_sorted(&mut out, k);
        proof {
            assert(src.take(i + 1) =~= src.take(i as int).push(src[i as int]));
            to_multiset_build(src.take(i as int), src[i as int]);
        }
        i = i + 1;
    }
    proof {
        assert(src.take(vs@.len() as int) =~= src);
        lemma_sorted_is_sort_by(out@.map_values(|x: SortKey| key_view(x)), src);
        to_multiset_len(src);
        to_multiset_len(out@.map_values(|x: SortKey| key_view(x)));
    }
    out
}

fn enum_sort_keys(vs: &Vec<EnumVariant>) -> (r: Vec<SortKey>)
    ensures
        r@.len() == vs@.len(),
        r@.map_values(|x: SortKey| key_view(x)) == vs@.map_values(|v: EnumVariant| enum_key(v)).sort_by(
            key_order(),
        ),
{
    let ghost src = vs@.map_values(|v: EnumVariant| enum_key(v));
    let mut out: Vec<SortKey> = Vec::new();
    let mut i: usize = 0;
    assert(out@.map_values(|x: SortKey| key_view(x)) =~= src.take(0));
    while i < vs.len()
        invariant
            i <= vs@.len(),
            src == vs@.map_values(|v: EnumVariant| enum_key(v)),
            sorted_by(out@.map_values(|x: SortKey| key_view(x)), key_order()),
            out@.map_values(|x: SortKey| key_view(x)).to_multiset() == src.take(
                i as int,
            ).to_multiset(),
        decreases vs@.len() - i,
    {
        let k = SortKey { name: vs[i].name.as_str().as_bytes_vec(), tail: #[verifier::truncate] (vs[i].value as u64) };
        assert(key_view(k) == src[i as int]);
        insert_sorted(&mut out, k);
        proof {
            assert(src.take(i + 1) =~= src.take(i as int).push(src[i as int]));
            to_multiset_build(src.take(i as int), src[i as int]);
        }
        i = i + 1;
    }
    proof {
        assert(src.take(vs@.len() as int) =~= src);
        lemma_sorted_is_sort_by(out@.map_values(|x: SortKey| key_view(x)), src);
        to_multiset_len(src);
        to_multiset_len(out@.map_values(|x: SortKey| key_view(x)));
    }
    out
}


fn push_tag(out: &mut Vec<u8>, t: u8)
    ensures
        final(out)@ == old(out)@ + tag_bytes(t),
{
    out.push(t);
    out.push(0u8);
    out.push(0u8);
    out.push(0u8);
    assert(out@ =~= old(out)@ + tag_bytes(t));
}

fn push_fields(out: &mut Vec<u8>, fields: &Vec<StructField>)
    ensures
        final(out)@ == old(out)@ + u64_le(fields@.len() as u64) + fields_bytes(fields@),
{
    push_u64(out, fields.len() as u64);
    let ghost mid = out@;
    let mut i: usize = 0;
    while i < fields.len()
        invariant
            i <= fields@.len(),
            out@ == mid + fields_bytes(fields@.take(i as int)),
        decreases fields@.len() - i,
    {
        let f = &fields[i];
        push_name(out, &f.name);
        push_u64(out, f.type_id.0);
        push_u64(out, f.offset as u64);
        push_u64(out, f.size as u64);
        assert(fields@.take(i + 1).drop_last() =~= fields@.take(i as int));
        i = i + 1;
        assert(out@ =~= mid + fields_bytes(fields@.take(i as int)));
    }
    assert(fields@.take(fields@.len() as int) =~= fields@);
}

fn push_ids(out: &mut Vec<u8>, ids: &Vec<TypeId>)
    ensures
        final(out)@ == old(out)@ + u64_le(ids@.len() as u64) + ids_bytes(ids@),
{
    push_u64(out, ids.len() as u64);
    let ghost mid = out@;
    let mut i: usize = 0;
    while i < ids.len()
        invariant
            i <= ids@.len(),
            out@ == mid + ids_bytes(ids@.take(i as int)),
        decreases ids@.len() - i,
    {
        push_u64(out, ids[i].0);
        assert(ids@.take(i + 1).drop_last() =~= ids@.take(i as int));
        i = i + 1;
        assert(out@ =~= mid + ids_bytes(ids@.take(i as int)));
    }
    assert(ids@.take(ids@.len() as int) =~= ids@);
}

impl BaseTypeKind {
    /// The canonical bytes of this base kind.
    fn to_canonical(&self) -> (r: Vec<u8>)
        ensures
            r@ == kind_bytes(*self),
    {
        let mut out: Vec<u8> = Vec::new();
        match self {
            BaseTypeKind::Primitive { name, size, alignment } => {
                push_tag(&mut out, 0);
                push_name(&mut out, name);
                push_u64(&mut out, *size as u64);
                push_u64(&mut out, *alignment as u64);
            },
            BaseTypeKind::Struct { name, fields, size, alignment, is_opaque } => {
                push_tag(&mut out, 1);
                push_name(&mut out, name);
                push_fields(&mut out, fields);
                push_u64(&mut out, *size as u64);
                push_u64(&mut out, *alignment as u64);
                push_bool(&mut out, *is_opaque);
            },
            BaseTypeKind::Union { name, variants, size, alignment } => {
                push_tag(&mut out, 2);
                push_name(&mut out, name);
                let keys = union_sort_keys(variants);
                push_keys(&mut out, &keys);
                push_u64(&mut out, *size as u64);
                push_u64(&mut out, *alignment as u64);
            },
            BaseTypeKind::Enum { name, backing_id, variants, size } => {
                push_tag(&mut out, 3);
                push_name(&mut out, name);
                push_u64(&mut out, backing_id.0);
                let keys = enum_sort_keys(variants);
                push_keys(&mut out, &keys);
                push_u64(&mut out, *size as u64);
            },
            BaseTypeKind::Array { element_type_id, count, size } => {
                push_tag(&mut out, 4);
                push_u64(&mut out, element_type_id.0);
                push_u64(&mut out, *count as u64);
                push_u64(&mut out, *size as u64);
            },
            BaseTypeKind::Typedef { name, aliased_type_id } => {
                push_tag(&mut out, 5);
                push_name(&mut out, name);
                push_u64(&mut out, aliased_type_id.0);
            },
            BaseTypeKind::Function { return_type_id, parameter_type_ids, is_variadic } => {
                push_tag(&mut out, 6);
                match return_type_id {
                    Some(id) => {
                        out.push(1u8);
                        push_u64(&mut out, id.0);
                    },
                    None => {
                        out.push(0u8);
                    },
                }
                push_ids(&mut out, parameter_type_ids);
                push_bool(&mut out, *is_variadic);
            },
        }
        assert(out@ =~= kind_bytes(*self));
        out
    }
}

/// Digest of the canonical form of a record with the given content.
fn compute_type_id(kind: &BaseTypeKind, pointer_depth: usize, is_const: bool, is_volatile: bool) -> (r:
    TypeId)
    ensures
        r == TypeId(
            DefaultHasher::spec_finish(
                seq![canonical_bytes(*kind, pointer_depth, is_const, is_volatile)],
            ),
        ),
{
    let mut bytes = kind.to_canonical();
    push_u64(&mut bytes, pointer_depth as u64);
    push_bool(&mut bytes, is_const);
    push_bool(&mut bytes, is_volatile);
    let mut hasher = DefaultHasher::new();
    hasher.write(bytes.as_slice());
    assert(hasher@ =~= seq![canonical_bytes(*kind, pointer_depth, is_const, is_volatile)]);
    TypeId(hasher.finish())
}


/// The name under which a record is indexed.
pub open spec fn name_of(t: Type) -> Seq<char> {
    match t.kind {
        BaseTypeKind::Primitive { name, .. } => name@,
        BaseTypeKind::Struct { name, .. } => name@,
        BaseTypeKind::Union { name, .. } => name@,
        BaseTypeKind::Enum { name, .. } => name@,
        BaseTypeKind::Typedef { name, .. } => name@,
        BaseTypeKind::Array { .. } => "<array>"@,
        BaseTypeKind::Function { .. } => "<function>"@,
    }
}

/// The ids that a record refers to: member, backing, element, aliased,
/// return and parameter types.
pub open spec fn refs_of(t: Type) -> Seq<TypeId> {
    refs_of_kind(t.kind)
}

/// The ids that a base kind refers to.
pub open spec fn refs_of_kind(k: BaseTypeKind) -> Seq<TypeId> {
    match k {
        BaseTypeKind::Primitive { .. } => Seq::empty(),
        BaseTypeKind::Struct { fields, .. } => fields@.map_values(|f: StructField| f.type_id),
        BaseTypeKind::Union { variants, .. } => variants@.map_values(|f: UnionField| f.type_id),
        BaseTypeKind::Enum { backing_id, .. } => seq![backing_id],
        BaseTypeKind::Array { element_type_id, .. } => seq![element_type_id],
        BaseTypeKind::Typedef { aliased_type_id, .. } => seq![aliased_type_id],
        BaseTypeKind::Function { return_type_id, parameter_type_ids, .. } => match return_type_id {
            Some(r) => seq![r] + parameter_type_ids@,
            None => parameter_type_ids@,
        },
    }
}

/// What a registry holds: its records in the order they were first
/// registered, and the DWARF offset index in the order its keys arrived.
pub struct RegistryView {
    pub types: Seq<Type>,
    pub offsets: Seq<(u64, TypeId)>,
}

impl RegistryView {
    pub open spec fn has_id(self, id: TypeId) -> bool {
        exists|i: int| 0 <= i < self.types.len() && #[trigger] self.types[i].id == id
    }

    pub open spec fn index_of(self, id: TypeId) -> int {
        choose|i: int| 0 <= i < self.types.len() && #[trigger] self.types[i].id == id
    }

    /// The record stored under `id`.
    pub open spec fn record(self, id: TypeId) -> Type {
        self.types[self.index_of(id)]
    }

    pub open spec fn has_offset(self, o: u64) -> bool {
        exists|i: int| 0 <= i < self.offsets.len() && #[trigger] self.offsets[i].0 == o
    }

    pub open spec fn offset_index(self, o: u64) -> int {
        choose|i: int| 0 <= i < self.offsets.len() && #[trigger] self.offsets[i].0 == o
    }

    /// The id that the offset index holds for `o`.
    pub open spec fn offset_target(self, o: u64) -> TypeId {
        self.offsets[self.offset_index(o)].1
    }

    /// Ids are unique and each is the digest of its record's content; offset
    /// keys are unique and lead to stored records.
    pub open spec fn wf(self) -> bool {
        &&& forall|i: int, j: int|
            0 <= i < j < self.types.len() ==> #[trigger] self.types[i].id
                != #[trigger] self.types[j].id
        &&& forall|i: int| 0 <= i < self.types.len() ==> #[trigger] self.types[i].id == content_id(self.types[i])
        &&& forall|i: int, j: int|
            0 <= i < j < self.offsets.len() ==> #[trigger] self.offsets[i].0
                != #[trigger] self.offsets[j].0
        &&& forall|i: int| 0 <= i < self.offsets.len() ==> self.has_id(#[trigger] self.offsets[i].1)
    }

    /// Points offset `o` at `id`, replacing what it pointed at before.
    pub open spec fn set_offset(self, o: u64, id: TypeId) -> Seq<(u64, TypeId)> {
        if self.has_offset(o) {
            self.offsets.update(self.offset_index(o), (o, id))
        } else {
            self.offsets.push((o, id))
        }
    }

    /// The registry after registering `t`: nothing changes when a record with
    /// the same content id is already stored; otherwise `t` is stored under
    /// that id and its DWARF offset, if any, is indexed.
    pub open spec fn register(self, t: Type) -> RegistryView {
        let id = content_id(t);
        if self.has_id(id) {
            self
        } else {
            RegistryView {
                types: self.types.push(Type { id: id, ..t }),
                offsets: match t.dwarf_offset {
                    Some(o) => self.set_offset(o, id),
                    None => self.offsets,
                },
            }
        }
    }

    /// Records of `other` whose ids are new here are appended in `other`'s
    /// order; so are offsets that are new here.
    pub open spec fn merge(self, other: RegistryView) -> RegistryView {
        RegistryView {
            types: self.types + other.types.filter(|t: Type| !self.has_id(t.id)),
            offsets: self.offsets + other.offsets.filter(|p: (u64, TypeId)| !self.has_offset(p.0)),
        }
    }

    /// Every id that a stored record refers to is stored too.
    pub open spec fn closed(self) -> bool {
        forall|i: int, k: int|
            0 <= i < self.types.len() && 0 <= k < refs_of(self.types[i]).len() ==> self.has_id(
                #[trigger] refs_of(self.types[i])[k],
            )
    }

    /// The records indexed under `name`, in registration order.
    pub open spec fn named(self, name: Seq<char>) -> Seq<Type> {
        self.types.filter(|t: Type| name_of(t) == name)
    }
}

/// Filtering keeps distinct keys distinct, and keeps only elements of the
/// source that satisfy the predicate.
pub proof fn lemma_filter_keys<A, K>(s: Seq<A>, pred: spec_fn(A) -> bool, key: spec_fn(A) -> K)
    requires
        forall|i: int, j: int| 0 <= i < j < s.len() ==> key(#[trigger] s[i]) != key(#[trigger] s[j]),
    ensures
        forall|i: int, j: int|
            0 <= i < j < s.filter(pred).len() ==> key(#[trigger] s.filter(pred)[i]) != key(
                #[trigger] s.filter(pred)[j],
            ),
        forall|k: int|
            0 <= k < s.filter(pred).len() ==> pred(#[trigger] s.filter(pred)[k]) && exists|j: int|
                0 <= j < s.len() && #[trigger] s[j] == s.filter(pred)[k],
    decreases s.len(),
{
    reveal(Seq::filter);
    if s.len() > 0 {
        let d = s.drop_last();
        lemma_filter_keys(d, pred, key);
        let f = s.filter(pred);
        let fd = d.filter(pred);
        assert forall|k: int| 0 <= k < f.len() implies pred(#[trigger] f[k]) && exists|j: int|
            0 <= j < s.len() && #[trigger] s[j] == f[k] by {
            if k < fd.len() {
                assert(f[k] == fd[k]);
                let j = choose|j: int| 0 <= j < d.len() && #[trigger] d[j] == fd[k];
                assert(s[j] == f[k]);
            } else {
                assert(s[s.len() - 1] == f[k]);
            }
        }
        assert forall|i: int, j: int| 0 <= i < j < f.len() implies key(#[trigger] f[i]) != key(
            #[trigger] f[j],
        ) by {
            if j < fd.len() {
                assert(f[i] == fd[i] && f[j] == fd[j]);
            } else {
                assert(f[i] == fd[i]);
                let m = choose|m: int| 0 <= m < d.len() && #[trigger] d[m] == fd[i];
                assert(s[m] == f[i]);
                assert(f[j] == s[s.len() - 1]);
            }
        }
    }
}

/// Merging two well-formed registries gives a well-formed registry.
pub proof fn lemma_merge_wf(a: RegistryView, b: RegistryView)
    requires
        a.wf(),
        b.wf(),
    ensures
        a.merge(b).wf(),
{
    let m = a.merge(b);
    let tpred = |t: Type| !a.has_id(t.id);
    let opred = |p: (u64, TypeId)| !a.has_offset(p.0);
    let ft = b.types.filter(tpred);
    let fo = b.offsets.filter(opred);
    lemma_filter_keys(b.types, tpred, |t: Type| t.id);
    lemma_filter_keys(b.offsets, opred, |p: (u64, TypeId)| p.0);
    assert forall|i: int, j: int| 0 <= i < j < m.types.len() implies #[trigger] m.types[i].id
        != #[trigger] m.types[j].id by {
        if j >= a.types.len() && i < a.types.len() {
            assert(m.types[j] == ft[j - a.types.len()]);
            assert(tpred(ft[j - a.types.len()]));
            assert(m.types[i] == a.types[i]);
        } else if i >= a.types.len() {
            assert(m.types[i] == ft[i - a.types.len()]);
            assert(m.types[j] == ft[j - a.types.len()]);
        }
    }
    assert forall|i: int| 0 <= i < m.types.len() implies #[trigger] m.types[i].id == content_id(
        m.types[i],
    ) by {
        if i >= a.types.len() {
            let k = i - a.types.len();
            assert(m.types[i] == ft[k]);
            let j = choose|j: int| 0 <= j < b.types.len() && #[trigger] b.types[j] == ft[k];
            assert(b.types[j].id == content_id(b.types[j]));
        }
    }
    assert forall|i: int, j: int| 0 <= i < j < m.offsets.len() implies #[trigger] m.offsets[i].0
        != #[trigger] m.offsets[j].0 by {
        if j >= a.offsets.len() && i < a.offsets.len() {
            assert(m.offsets[j] == fo[j - a.offsets.len()]);
            assert(opred(fo[j - a.offsets.len()]));
            assert(m.offsets[i] == a.offsets[i]);
        } else if i >= a.offsets.len() {
            assert(m.offsets[i] == fo[i - a.offsets.len()]);
            assert(m.offsets[j] == fo[j - a.offsets.len()]);
        }
    }
    assert forall|i: int| 0 <= i < m.offsets.len() implies m.has_id(#[trigger] m.offsets[i].1) by {
        if i < a.offsets.len() {
            assert(m.offsets[i] == a.offsets[i]);
            assert(a.has_id(a.offsets[i].1));
            let k = choose|k: int| 0 <= k < a.types.len() && #[trigger] a.types[k].id == a.offsets[i].1;
            assert(m.types[k] == a.types[k]);
        } else {
            let k = i - a.offsets.len();
            assert(m.offsets[i] == fo[k]);
            let j = choose|j: int| 0 <= j < b.offsets.len() && #[trigger] b.offsets[j] == fo[k];
            let id = b.offsets[j].1;
            assert(b.has_id(id));
            if a.has_id(id) {
                let q = choose|q: int| 0 <= q < a.types.len() && #[trigger] a.types[q].id == id;
                assert(m.types[q] == a.types[q]);
            } else {
                let q = choose|q: int| 0 <= q < b.types.len() && #[trigger] b.types[q].id == id;
                assert(tpred(b.types[q]));
                b.types.lemma_filter_contains(tpred, q);
                let r = choose|r: int| 0 <= r < ft.len() && ft[r] == b.types[q];
                assert(m.types[a.types.len() + r] == ft[r]);
            }
        }
    }
}

/// Registering a record whose references are all stored keeps a closed
/// registry closed, and only ever appends.
pub proof fn lemma_register_closed(r: RegistryView, t: Type)
    requires
        r.wf(),
        r.closed(),
        forall|k: int| 0 <= k < refs_of(t).len() ==> r.has_id(#[trigger] refs_of(t)[k]),
    ensures
        r.register(t).closed(),
        r.types.is_prefix_of(r.register(t).types),
{
    let n = r.register(t);
    assert(n.types.subrange(0, r.types.len() as int) =~= r.types);
    assert forall|i: int, k: int|
        0 <= i < n.types.len() && 0 <= k < refs_of(n.types[i]).len() implies n.has_id(
        #[trigger] refs_of(n.types[i])[k],
    ) by {
        let x = refs_of(n.types[i])[k];
        if i < r.types.len() {
            assert(n.types[i] == r.types[i]);
            assert(r.has_id(x));
        } else {
            assert(refs_of(n.types[i]) == refs_of(t));
            assert(r.has_id(x));
        }
        let j = choose|j: int| 0 <= j < r.types.len() && #[trigger] r.types[j].id == x;
        assert(n.types[j] == r.types[j]);
    }
}

/// An id stored in a registry is stored in every registry that extends it.
pub proof fn lemma_prefix_has_id(r: RegistryView, s: RegistryView)
    requires
        r.types.is_prefix_of(s.types),
    ensures
        forall|id: TypeId| r.has_id(id) ==> #[trigger] s.has_id(id),
{
    assert forall|id: TypeId| r.has_id(id) implies #[trigger] s.has_id(id) by {
        let j = choose|j: int| 0 <= j < r.types.len() && #[trigger] r.types[j].id == id;
        assert(s.types[j] == r.types[j]);
    }
}

/// Extending is transitive.
pub proof fn lemma_prefix_trans(a: Seq<Type>, b: Seq<Type>, c: Seq<Type>)
    requires
        a.is_prefix_of(b),
        b.is_prefix_of(c),
    ensures
        a.is_prefix_of(c),
{
    assert(a =~= c.subrange(0, a.len() as int)) by {
        assert forall|i: int| 0 <= i < a.len() implies a[i] == c[i] by {
            assert(a[i] == b[i]);
            assert(b[i] == c[i]);
        }
    }
}

/// Content-addressed store of type records with indexes by DWARF offset and
/// by name. Records are kept in registration order, which is also the order
/// `get_by_name` answers in. The offset index is a sequence of pairs with
/// unique keys: it serves `get_by_dwarf_offset` only, and as a sequence its
/// merge is stated exactly (the first registry's entries win, new keys are
/// appended in order).
#[derive(Clone)]
pub struct TypeRegistry {
    types: Vec<Type>,
    dwarf_to_id: Vec<(u64, TypeId)>,
}

impl View for TypeRegistry {
    type V = RegistryView;

    closed spec fn view(&self) -> RegistryView {
        RegistryView { types: self.types@, offsets: self.dwarf_to_id@ }
    }
}

impl TypeRegistry {
    pub fn new() -> (r: Self)
        ensures
            r@.types.len() == 0,
            r@.offsets.len() == 0,
            r@.wf(),
    {
        TypeRegistry { types: Vec::new(), dwarf_to_id: Vec::new() }
    }

    fn find_id(&self, id: TypeId) -> (r: Option<usize>)
        ensures
            match r {
                Some(i) => i < self@.types.len() && self@.types[i as int].id == id,
                None => !self@.has_id(id),
            },
    {
        let mut i: usize = 0;
        while i < self.types.len()
            invariant
                i <= self.types@.len(),
                forall|j: int| 0 <= j < i ==> #[trigger] self.types@[j].id != id,
            decreases self.types@.len() - i,
        {
            if self.types[i].id == id {
                return Some(i);
            }
            i = i + 1;
        }
        None
    }

    fn find_offset(&self, o: u64) -> (r: Option<usize>)
        ensures
            match r {
                Some(i) => i < self@.offsets.len() && self@.offsets[i as int].0 == o,
                None => !self@.has_offset(o),
            },
    {
        let mut i: usize = 0;
        while i < self.dwarf_to_id.len()
            invariant
                i <= self.dwarf_to_id@.len(),
                forall|j: int| 0 <= j < i ==> #[trigger] self.dwarf_to_id@[j].0 != o,
            decreases self.dwarf_to_id@.len() - i,
        {
            if self.dwarf_to_id[i].0 == o {
                return Some(i);
            }
            i = i + 1;
        }
        None
    }

    /// Stores `type_` under the digest of its content and returns that id. A
    /// record with the same content that is already stored is kept as it is.
    #[verifier::rlimit(30)]
    pub fn register_type(&mut self, type_: Type) -> (id: TypeId)
        requires
            old(self)@.wf(),
        ensures
            id == content_id(type_),
            final(self)@ == old(self)@.register(type_),
            final(self)@.wf(),
            final(self)@.has_id(id),
    {
        let mut type_ = type_;
        let id = compute_type_id(&type_.kind, type_.pointer_depth, type_.is_const, type_.is_volatile);
        match self.find_id(id) {
            Some(i) => {
                return id;
            },
            None => {},
        }
        let ghost before = self@;
        type_.id = id;
        match type_.dwarf_offset {
            Some(o) => {
                match self.find_offset(o) {
                    Some(k) => {
                        self.dwarf_to_id.set(k, (o, id));
                    },
                    None => {
                        self.dwarf_to_id.push((o, id));
                    },
                }
            },
            None => {},
        }
        let ghost offsets_before = before.offsets;
        self.types.push(type_);
        proof {
            let t = self@.types.last();
            assert(self@.types[self@.types.len() - 1].id == id);
            assert(self@.types =~= before.types.push(t));
            assert(content_id(t) == id);
            assert forall|i: int, j: int| 0 <= i < j < self@.types.len() implies #[trigger] self@.types[i].id
                != #[trigger] self@.types[j].id by {
                if j == self@.types.len() - 1 {
                    assert(self@.types[i] == before.types[i]);
                }
            }
            assert forall|i: int| 0 <= i < self@.types.len() implies #[trigger] self@.types[i].id
                == content_id(self@.types[i]) by {
                if i < before.types.len() {
                    assert(self@.types[i] == before.types[i]);
                }
            }
            assert forall|i: int, j: int| 0 <= i < j < self@.offsets.len() implies #[trigger] self@.offsets[i].0
                != #[trigger] self@.offsets[j].0 by {
                if j >= offsets_before.len() {
                    assert(self@.offsets[i] == offsets_before[i]);
                } else {
                    assert(self@.offsets[i].0 == offsets_before[i].0);
                    assert(self@.offsets[j].0 == offsets_before[j].0);
                }
            }
            assert forall|i: int| 0 <= i < self@.offsets.len() implies self@.has_id(
                #[trigger] self@.offsets[i].1,
            ) by {
                if self@.offsets[i].1 == id {
                    assert(self@.types[self@.types.len() - 1].id == id);
                } else {
                    let j = choose|j: int| 0 <= j < before.offsets.len() && before.offsets[j] == self@.offsets[i];
                    assert(before.has_id(before.offsets[j].1));
                    let k = choose|k: int| 0 <= k < before.types.len() && #[trigger] before.types[k].id == before.offsets[j].1;
                    assert(self@.types[k].id == before.types[k].id);
                }
            }
        }
        id
    }

    /// The record stored under `id`.
    pub fn get_type(&self, id: TypeId) -> (r: Option<&Type>)
        requires
            self@.wf(),
        ensures
            match r {
                Some(t) => self@.has_id(id) && *t == self@.record(id),
                None => !self@.has_id(id),
            },
    {
        match self.find_id(id) {
            Some(i) => {
                assert(self@.index_of(id) == i) by {
                    let k = self@.index_of(id);
                    assert(self@.types[k].id == id);
                }
                Some(&self.types[i])
            },
            None => None,
        }
    }

    /// The record that the DWARF offset `offset` was registered with.
    pub fn get_by_dwarf_offset(&self, offset: u64) -> (r: Option<&Type>)
        requires
            self@.wf(),
        ensures
            match r {
                Some(t) => self@.has_offset(offset) && *t == self@.record(
                    self@.offset_target(offset),
                ),
                None => !self@.has_offset(offset),
            },
    {
        match self.find_offset(offset) {
            Some(k) => {
                assert(self@.offset_index(offset) == k) by {
                    let j = self@.offset_index(offset);
                    assert(self@.offsets[j].0 == offset);
                }
                assert(self@.has_id(self@.offsets[k as int].1));
                self.get_type(self.dwarf_to_id[k].1)
            },
            None => None,
        }
    }

    /// Every record whose name is `name`, in registration order.
    pub fn get_by_name(&self, name: &str) -> (r: Vec<&Type>)
        ensures
            r@.map_values(|t: &Type| *t) == self@.named(name@),
    {
        let target = String::from_str(name);
        let mut out: Vec<&Type> = Vec::new();
        let mut i: usize = 0;
        assert(out@.map_values(|t: &Type| *t) =~= self.types@.take(0).filter(|t: Type| name_of(t) == name@)) by {
            reveal(Seq::filter);
        }
        while i < self.types.len()
            invariant
                i <= self.types@.len(),
                target@ == name@,
                out@.map_values(|t: &Type| *t) == self.types@.take(i as int).filter(
                    |t: Type| name_of(t) == name@,
                ),
            decreases self.types@.len() - i,
        {
            let t = &self.types[i];
            let n = t.get_name();
            proof {
                reveal(Seq::filter);
                assert(self.types@.take(i + 1).drop_last() =~= self.types@.take(i as int));
                assert(self.types@.take(i + 1).last() == *t);
            }
            let ghost before = out@;
            if n == target {
                out.push(t);
                assert(out@.map_values(|t: &Type| *t) =~= before.map_values(|t: &Type| *t).push(*t));
            }
            i = i + 1;
        }
        assert(self.types@.take(self.types@.len() as int) =~= self.types@);
        out
    }

    /// Adds the records of `other` whose ids are not stored here, and the
    /// offset index entries whose offsets are not indexed here. Records and
    /// entries already present are kept as they are.
    pub fn merge(&mut self, other: TypeRegistry)
        requires
            old(self)@.wf(),
            other@.wf(),
        ensures
            final(self)@ == old(self)@.merge(other@),
            final(self)@.wf(),
    {
        let ghost a = self@;
        let ghost b = other@;
        let ghost tpred = |t: Type| !a.has_id(t.id);
        let ghost opred = |p: (u64, TypeId)| !a.has_offset(p.0);
        let TypeRegistry { types: mut rest, dwarf_to_id: other_offsets } = other;
        let n: usize = rest.len();
        let mut i: usize = 0;
        proof {
            reveal(Seq::filter);
            assert(b.types.take(0).filter(tpred) =~= Seq::<Type>::empty());
            assert(b.types.subrange(0, n as int) =~= b.types);
        }
        while rest.len() > 0
            invariant
                i <= n,
                n == b.types.len(),
                rest@ == b.types.subrange(i as int, n as int),
                rest@.len() == n - i,
                self.dwarf_to_id@ == a.offsets,
                self.types@ == a.types + b.types.take(i as int).filter(tpred),
                forall|k: int|
                    #![trigger self.types@[k]]
                    a.types.len() <= k < self.types@.len() ==> exists|j: int|
                        0 <= j < i && #[trigger] b.types[j].id == self.types@[k].id,
                b.wf(),
                tpred == (|t: Type| !a.has_id(t.id)),
            decreases rest@.len(),
        {
            let t = rest.remove(0);
            assert(t == b.types[i as int]);
            let ghost before = self.types@;
            let found = self.find_id(t.id);
            proof {
                reveal(Seq::filter);
                assert(b.types.take(i + 1).drop_last() =~= b.types.take(i as int));
                if found is Some {
                    let k = found->Some_0 as int;
                    if k >= a.types.len() {
                        let j = choose|j: int| 0 <= j < i && #[trigger] b.types[j].id == self.types@[k].id;
                        assert(b.types[j].id != b.types[i as int].id);
                    } else {
                        assert(a.types[k].id == t.id);
                    }
                } else {
                    assert forall|k: int| 0 <= k < a.types.len() implies #[trigger] a.types[k].id != t.id by {
                        assert(self.types@[k] == a.types[k]);
                        assert(self@.types[k].id == a.types[k].id);
                    }
                }
            }
            if found.is_none() {
                self.types.push(t);
                proof {
                    assert forall|k: int|
                        #![trigger self.types@[k]]
                        a.types.len() <= k < self.types@.len() implies exists|j: int|
                            0 <= j < i + 1 && #[trigger] b.types[j].id == self.types@[k].id by {
                        if k < before.len() {
                            let j = choose|j: int| 0 <= j < i && #[trigger] b.types[j].id == before[k].id;
                            assert(b.types[j].id == self.types@[k].id);
                        } else {
                            assert(b.types[i as int].id == self.types@[k].id);
                        }
                    }
                }
            }
            assert(self.types@ =~= a.types + b.types.take(i + 1).filter(tpred));
            i = i + 1;
            assert(rest@ =~= b.types.subrange(i as int, n as int));
        }
        assert(b.types.take(n as int) =~= b.types);
        let mut j: usize = 0;
        proof {
            reveal(Seq::filter);
            assert(b.offsets.take(0).filter(opred) =~= Seq::<(u64, TypeId)>::empty());
        }
        while j < other_offsets.len()
            invariant
                j <= other_offsets@.len(),
                other_offsets@ == b.offsets,
                self.types@ == a.merge(b).types,
                self.dwarf_to_id@ == a.offsets + b.offsets.take(j as int).filter(opred),
                forall|k: int|
                    #![trigger self.dwarf_to_id@[k]]
                    a.offsets.len() <= k < self.dwarf_to_id@.len() ==> exists|q: int|
                        0 <= q < j && #[trigger] b.offsets[q].0 == self.dwarf_to_id@[k].0,
                b.wf(),
                opred == (|p: (u64, TypeId)| !a.has_offset(p.0)),
            decreases other_offsets@.len() - j,
        {
            let p = other_offsets[j];
            let ghost before = self.dwarf_to_id@;
            let found = self.find_offset(p.0);
            proof {
                reveal(Seq::filter);
                assert(b.offsets.take(j + 1).drop_last() =~= b.offsets.take(j as int));
                if found is Some {
                    let k = found->Some_0 as int;
                    if k >= a.offsets.len() {
                        let q = choose|q: int| 0 <= q < j && #[trigger] b.offsets[q].0 == self.dwarf_to_id@[k].0;
                        assert(b.offsets[q].0 != b.offsets[j as int].0);
                    } else {
                        assert(a.offsets[k].0 == p.0);
                    }
                } else {
                    assert forall|k: int| 0 <= k < a.offsets.len() implies #[trigger] a.offsets[k].0 != p.0 by {
                        assert(self.dwarf_to_id@[k] == a.offsets[k]);
                        assert(self@.offsets[k].0 == a.offsets[k].0);
                    }
                }
            }
            if found.is_none() {
                self.dwarf_to_id.push(p);
                proof {
                    assert forall|k: int|
                        #![trigger self.dwarf_to_id@[k]]
                        a.offsets.len() <= k < self.dwarf_to_id@.len() implies exists|q: int|
                            0 <= q < j + 1 && #[trigger] b.offsets[q].0 == self.dwarf_to_id@[k].0 by {
                        if k < before.len() {
                            let q = choose|q: int| 0 <= q < j && #[trigger] b.offsets[q].0 == before[k].0;
                            assert(b.offsets[q].0 == self.dwarf_to_id@[k].0);
                        } else {
                            assert(b.offsets[j as int].0 == self.dwarf_to_id@[k].0);
                        }
                    }
                }
            }
            assert(self.dwarf_to_id@ =~= a.offsets + b.offsets.take(j + 1).filter(opred));
            j = j + 1;
        }
        proof {
            assert(b.offsets.take(b.offsets.len() as int) =~= b.offsets);
            assert(self@ =~= a.merge(b));
            lemma_merge_wf(a, b);
        }
    }

    /// All records, in registration order.
    pub fn all_types(&self) -> (r: std::slice::Iter<'_, Type>)
        ensures
            r.remaining() == self@.types.as_ref(),
    {
        broadcast use vstd::std_specs::slice::axiom_spec_slice_iter;

        self.types.as_slice().iter()
    }

    pub fn len(&self) -> (r: usize)
        ensures
            r == self@.types.len(),
    {
        self.types.len()
    }

    pub fn is_empty(&self) -> (r: bool)
        ensures
            r == (self@.types.len() == 0),
    {
        self.types.len() == 0
    }
}

/// Text of one decimal digit.
pub open spec fn digit(d: nat) -> Seq<char> {
    if d == 0 {
        "0"@
    } else if d == 1 {
        "1"@
    } else if d == 2 {
        "2"@
    } else if d == 3 {
        "3"@
    } else if d == 4 {
        "4"@
    } else if d == 5 {
        "5"@
    } else if d == 6 {
        "6"@
    } else if d == 7 {
        "7"@
    } else if d == 8 {
        "8"@
    } else {
        "9"@
    }
}

/// Decimal text of `n`, without leading zeros.
pub open spec fn decimal(n: nat) -> Seq<char>
    decreases n,
{
    if n < 10 {
        digit(n)
    } else {
        decimal(n / 10) + digit(n % 10)
    }
}

pub open spec fn stars(n: nat) -> Seq<char> {
    Seq::new(n, |i: int| '*')
}

/// C text of a record: the base kind, then `const ` and `volatile `
/// prefixes, then one `*` per pointer level. An array's element is looked up
/// in `reg`; where it is missing, or array nesting goes deeper than `fuel`,
/// it reads `void`.
pub open spec fn type_to_c(t: Type, reg: RegistryView, fuel: nat) -> Seq<char>
    decreases fuel,
{
    let base = match t.kind {
        BaseTypeKind::Primitive { name, .. } => name@,
        BaseTypeKind::Struct { name, .. } => "struct "@ + name@,
        BaseTypeKind::Union { name, .. } => "union "@ + name@,
        BaseTypeKind::Enum { name, .. } => name@,
        BaseTypeKind::Typedef { name, .. } => name@,
        BaseTypeKind::Array { element_type_id, count, .. } => {
            let elem = if fuel > 0 && reg.has_id(element_type_id) {
                type_to_c(reg.record(element_type_id), reg, (fuel - 1) as nat)
            } else {
                "void"@
            };
            elem + "["@ + decimal(count as nat) + "]"@
        },
        BaseTypeKind::Function { .. } => "void (*)(...)"@,
    };
    let with_const = if t.is_const {
        "const "@ + base
    } else {
        base
    };
    let with_volatile = if t.is_volatile {
        "volatile "@ + with_const
    } else {
        with_const
    };
    with_volatile + stars(t.pointer_depth as nat)
}

/// C text of the record stored under `id`, or `void` where none is.
pub open spec fn id_to_c(id: TypeId, reg: RegistryView) -> Seq<char> {
    if reg.has_id(id) {
        type_to_c(reg.record(id), reg, reg.types.len())
    } else {
        "void"@
    }
}

fn digit_str(d: usize) -> (r: &'static str)
    requires
        d < 10,
    ensures
        r@ == digit(d as nat),
{
    if d == 0 {
        "0"
    } else if d == 1 {
        "1"
    } else if d == 2 {
        "2"
    } else if d == 3 {
        "3"
    } else if d == 4 {
        "4"
    } else if d == 5 {
        "5"
    } else if d == 6 {
        "6"
    } else if d == 7 {
        "7"
    } else if d == 8 {
        "8"
    } else {
        "9"
    }
}

fn push_decimal(out: &mut String, n: usize)
    ensures
        final(out)@ == old(out)@ + decimal(n as nat),
    decreases n,
{
    if n >= 10 {
        push_decimal(out, n / 10);
    }
    out.append(digit_str(n % 10));
    assert(out@ =~= old(out)@ + decimal(n as nat));
}

impl Default for TypeRegistry {
    fn default() -> (r: Self)
        ensures
            r@.types.len() == 0,
            r@.offsets.len() == 0,
            r@.wf(),
    {
        TypeRegistry::new()
    }
}

impl Type {
    fn c_string_with_fuel(&self, registry: &TypeRegistry, fuel: usize) -> (r: String)
        requires
            registry@.wf(),
        ensures
            r@ == type_to_c(*self, registry@, fuel as nat),
        decreases fuel,
    {
        let mut out = match &self.kind {
            BaseTypeKind::Primitive { name, .. } => name.clone(),
            BaseTypeKind::Struct { name, .. } => String::from_str("struct ").concat(name.as_str()),
            BaseTypeKind::Union { name, .. } => String::from_str("union ").concat(name.as_str()),
            BaseTypeKind::Enum { name, .. } => name.clone(),
            BaseTypeKind::Typedef { name, .. } => name.clone(),
            BaseTypeKind::Array { element_type_id, count, .. } => {
                let mut elem = if fuel > 0 {
                    match registry.get_type(*element_type_id) {
                        Some(t) => t.c_string_with_fuel(registry, fuel - 1),
                        None => String::from_str("void"),
                    }
                } else {
                    String::from_str("void")
                };
                elem.append("[");
                push_decimal(&mut elem, *count);
                elem.append("]");
                elem
            },
            BaseTypeKind::Function { .. } => String::from_str("void (*)(...)"),
        };
        if self.is_const {
            out = String::from_str("const ").concat(out.as_str());
        }
        if self.is_volatile {
            out = String::from_str("volatile ").concat(out.as_str());
        }
        let ghost prefix = out@;
        let mut i: usize = 0;
        while i < self.pointer_depth
            invariant
                i <= self.pointer_depth,
                out@ == prefix + stars(i as nat),
            decreases self.pointer_depth - i,
        {
            out.append("*");
            proof {
                reveal_strlit("*");
            }
            i = i + 1;
            assert(out@ =~= prefix + stars(i as nat));
        }
        out
    }

    /// C declaration text of this record; see `type_to_c`.
    pub fn to_c_string(&self, registry: &TypeRegistry) -> (r: String)
        requires
            registry@.wf(),
        ensures
            r@ == type_to_c(*self, registry@, registry@.types.len()),
    {
        self.c_string_with_fuel(registry, registry.len())
    }

    /// The name under which this record is indexed.
    pub fn get_name(&self) -> (r: String)
        ensures
            r@ == name_of(*self),
    {
        match &self.kind {
            BaseTypeKind::Primitive { name, .. } => name.clone(),
            BaseTypeKind::Struct { name, .. } => name.clone(),
            BaseTypeKind::Union { name, .. } => name.clone(),
            BaseTypeKind::Enum { name, .. } => name.clone(),
            BaseTypeKind::Typedef { name, .. } => name.clone(),
            BaseTypeKind::Array { .. } => String::from_str("<array>"),
            BaseTypeKind::Function { .. } => String::from_str("<function>"),
        }
    }
}

} // verus!
