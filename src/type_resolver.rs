//! Resolution of a unit's type entries into records of a type registry.
//!
//! Pointer, const and volatile entries are folded into the record of the
//! type they wrap. Every record is registered only after the records it
//! refers to, so the registry stays closed. An entry that is reached again
//! while its own members are being resolved (a self-referential struct)
//! stands, at that inner use, for an opaque declaration of itself.
//!
//! What an offset resolves to is stated by the pure function `resolve_id`
//! over the unit's entries; the resolver computes exactly that id.

use vstd::prelude::*;
use vstd::string::*;
use vstd::utf8::*;
use vstd::std_specs::hash::DefaultHasherAdditionalSpecFns;
use std::collections::hash_map::DefaultHasher;
use crate::canonical::{bool_byte, sorted_keys_bytes, str_bytes, u64_le};
use crate::die::{
    Die, DieTable, TAG_ARRAY_TYPE, TAG_BASE_TYPE, TAG_CONST_TYPE, TAG_ENUMERATION_TYPE,
    TAG_ENUMERATOR, TAG_FORMAL_PARAMETER, TAG_MEMBER, TAG_POINTER_TYPE, TAG_STRUCTURE_TYPE, TAG_SUBRANGE_TYPE,
    TAG_SUBROUTINE_TYPE, TAG_TYPEDEF, TAG_UNION_TYPE, TAG_UNSPECIFIED_PARAMETERS, TAG_VOLATILE_TYPE,
    child_dies, is_tag,
};
use crate::type_registry::{
    BaseTypeKind, EnumVariant, RegistryView, StructField, Type, TypeId, TypeRegistry, UnionField,
    canonical_bytes, content_id, fields_bytes, ids_bytes, kind_bytes, tag_bytes, union_key, enum_key, lemma_prefix_has_id, lemma_prefix_trans, lemma_register_closed, refs_of,
    refs_of_kind,
};

verus! {

/// Builds the type registry of one compilation unit.
pub struct TypeResolver<'a> {
    unit: &'a DieTable,
    type_registry: TypeRegistry,
    /// offsets resolved from the top, with the ids they gave
    memo: Vec<(u64, TypeId)>,
}

/// `s` holds everything `r` holds, in the same places.
pub open spec fn extends(r: RegistryView, s: RegistryView) -> bool {
    r.types.is_prefix_of(s.types)
}

/// Every id that `k` refers to is stored in `r`.
pub open spec fn refs_stored(r: RegistryView, k: BaseTypeKind) -> bool {
    forall|j: int| 0 <= j < refs_of_kind(k).len() ==> r.has_id(#[trigger] refs_of_kind(k)[j])
}

/// The canonical `void`: a primitive named `void` of size 0.
pub open spec fn is_void(k: BaseTypeKind) -> bool {
    k matches BaseTypeKind::Primitive { name, size, alignment } && name@ == "void"@ && size == 0
        && alignment == 1
}

pub open spec fn name_or(name: Option<String>, fallback: Seq<char>) -> Seq<char> {
    match name {
        Some(n) => n@,
        None => fallback,
    }
}

/// The byte size an entry declares, 0 where it declares none.
pub open spec fn entry_size(d: Die) -> usize {
    match d.byte_size {
        Some(b) => b as usize,
        None => 0,
    }
}

pub open spec fn is_wrapper(d: Die) -> bool {
    d.tag == TAG_POINTER_TYPE || d.tag == TAG_CONST_TYPE || d.tag == TAG_VOLATILE_TYPE
}

/// Following pointer, const and volatile entries from `offset`, through at
/// most `steps` entries: the pointer levels, whether const and volatile were
/// met, and the index of the base entry reached. No base entry is reached
/// where the chain ends without a target, leads to a missing offset, or is
/// longer than `steps`; the chain then stands for `void`.
#[verifier::opaque]
pub open spec fn chain(unit: DieTable, offset: u64, steps: nat) -> (nat, bool, bool, Option<int>)
    decreases steps,
{
    if steps == 0 {
        (0, false, false, None)
    } else {
        match unit.first_at(offset) {
            None => (0, false, false, None),
            Some(i) => {
                let d = unit.dies@[i];
                if is_wrapper(d) {
                    let rest = match d.type_ref {
                        Some(n) => chain(unit, n, (steps - 1) as nat),
                        None => (0, false, false, None),
                    };
                    (
                        rest.0 + if d.tag == TAG_POINTER_TYPE {
                            1nat
                        } else {
                            0nat
                        },
                        rest.1 || d.tag == TAG_CONST_TYPE,
                        rest.2 || d.tag == TAG_VOLATILE_TYPE,
                        rest.3,
                    )
                } else {
                    (0, false, false, Some(i))
                }
            },
        }
    }
}

/// One step of `chain`.
pub proof fn lemma_chain_unfold(unit: DieTable, offset: u64, steps: nat)
    ensures
        chain(unit, offset, steps) == (if steps == 0 {
            (0, false, false, None)
        } else {
            match unit.first_at(offset) {
                None => (0, false, false, None),
                Some(i) => {
                    let d = unit.dies@[i];
                    if is_wrapper(d) {
                        let rest = match d.type_ref {
                            Some(n) => chain(unit, n, (steps - 1) as nat),
                            None => (0, false, false, None),
                        };
                        (
                            rest.0 + if d.tag == TAG_POINTER_TYPE {
                                1nat
                            } else {
                                0nat
                            },
                            rest.1 || d.tag == TAG_CONST_TYPE,
                            rest.2 || d.tag == TAG_VOLATILE_TYPE,
                            rest.3,
                        )
                    } else {
                        (0, false, false, Some(i))
                    }
                },
            }
        }),
{
    reveal(chain);
}


/// The byte size declared by the outermost pointer entry of the chain from
/// `offset` (0 where it declares none, or the chain has no pointer).
pub open spec fn pointer_size(unit: DieTable, offset: u64, steps: nat) -> usize
    decreases steps,
{
    if steps == 0 {
        0
    } else {
        match unit.first_at(offset) {
            None => 0,
            Some(i) => {
                let d = unit.dies@[i];
                if d.tag == TAG_POINTER_TYPE {
                    entry_size(d)
                } else if is_wrapper(d) {
                    match d.type_ref {
                        Some(n) => pointer_size(unit, n, (steps - 1) as nat),
                        None => 0,
                    }
                } else {
                    0
                }
            },
        }
    }
}

/// The byte size a base kind holds itself (typedefs and functions hold none).
pub open spec fn kind_size(k: BaseTypeKind) -> usize {
    match k {
        BaseTypeKind::Primitive { size, .. } => size,
        BaseTypeKind::Struct { size, .. } => size,
        BaseTypeKind::Union { size, .. } => size,
        BaseTypeKind::Enum { size, .. } => size,
        BaseTypeKind::Array { size, .. } => size,
        _ => 0,
    }
}

/// The alignment that a record gives to a union that holds it.
pub open spec fn kind_align(k: BaseTypeKind) -> Option<usize> {
    match k {
        BaseTypeKind::Primitive { alignment, .. } => Some(alignment),
        BaseTypeKind::Struct { alignment, .. } => Some(alignment),
        _ => None,
    }
}

/// The canonical `void` record: no pointer levels, no qualifiers.
pub open spec fn void_type_ok(t: Type) -> bool {
    is_void(t.kind) && t.pointer_depth == 0 && !t.is_const && !t.is_volatile
}

/// The canonical `int` record that backs an enum naming no type of its own.
pub open spec fn int_type_ok(t: Type) -> bool {
    &&& t.kind matches BaseTypeKind::Primitive { name, size, alignment } && name@ == "int"@ && size
        == 4 && alignment == 4
    &&& t.pointer_depth == 0
    &&& !t.is_const
    &&& !t.is_volatile
}

pub open spec fn field_view(f: StructField) -> (Seq<char>, TypeId, usize, usize) {
    (f.name@, f.type_id, f.offset, f.size)
}

pub open spec fn member_view(f: UnionField) -> (Seq<char>, TypeId) {
    (f.name@, f.type_id)
}

pub open spec fn enumerator_view(v: EnumVariant) -> (Seq<char>, i64) {
    (v.name@, v.value)
}

pub open spec fn max_opt(a: Option<usize>, x: usize) -> Option<usize> {
    match a {
        Some(w) => Some(if x > w { x } else { w }),
        None => Some(x),
    }
}

/// A member's byte offset: its data member location, or 0.
pub open spec fn member_offset(c: Die) -> usize {
    match c.member_location {
        Some(m) => m as usize,
        None => 0,
    }
}

/// The element count of an array: from the first subrange child that gives
/// a count, or an upper bound (count = bound + 1); 0 where none does.
pub open spec fn subrange_count(unit: DieTable, cs: Seq<u64>) -> usize
    decreases cs.len(),
{
    if cs.len() == 0 {
        0
    } else {
        let rest = subrange_count(unit, cs.drop_first());
        match unit.die_at(cs[0]) {
            Some(c) => if c.tag == TAG_SUBRANGE_TYPE {
                match c.count {
                    Some(n) => n as usize,
                    None => match c.upper_bound {
                        Some(u) => if u < u64::MAX {
                            (u + 1) as usize
                        } else {
                            0
                        },
                        None => rest,
                    },
                }
            } else {
                rest
            },
            None => rest,
        }
    }
}

/// Enumerators of an enum: name (or empty) and value (or 0), in order.
pub open spec fn enum_members(unit: DieTable, cs: Seq<u64>) -> Seq<(Seq<char>, i64)>
    decreases cs.len(),
{
    if cs.len() == 0 {
        Seq::empty()
    } else {
        let prev = enum_members(unit, cs.drop_last());
        match unit.die_at(cs.last()) {
            Some(c) => if c.tag == TAG_ENUMERATOR {
                prev.push(
                    (
                        name_or(c.name, Seq::empty()),
                        match c.const_value {
                            Some(v) => v,
                            None => 0,
                        },
                    ),
                )
            } else {
                prev
            },
            None => prev,
        }
    }
}

/// A length-prefixed UTF-8 name.
pub open spec fn name_bytes(s: Seq<char>) -> Seq<u8> {
    str_bytes(encode_utf8(s))
}

pub open spec fn field_view_bytes(f: (Seq<char>, TypeId, usize, usize)) -> Seq<u8> {
    name_bytes(f.0) + u64_le(f.1.0) + u64_le(f.2 as u64) + u64_le(f.3 as u64)
}

pub open spec fn fields_view_bytes(s: Seq<(Seq<char>, TypeId, usize, usize)>) -> Seq<u8>
    decreases s.len(),
{
    if s.len() == 0 {
        Seq::empty()
    } else {
        fields_view_bytes(s.drop_last()) + field_view_bytes(s.last())
    }
}

pub open spec fn prim_bytes(name: Seq<char>, size: usize, alignment: usize) -> Seq<u8> {
    tag_bytes(0) + name_bytes(name) + u64_le(size as u64) + u64_le(alignment as u64)
}

/// The canonical form of a record from its kind's bytes and its qualifiers.
pub open spec fn record_bytes(kb: Seq<u8>, depth: nat, is_const: bool, is_volatile: bool) -> Seq<u8> {
    kb + u64_le(depth as u64) + bool_byte(is_const) + bool_byte(is_volatile)
}

pub open spec fn bytes_id(b: Seq<u8>) -> TypeId {
    TypeId(DefaultHasher::spec_finish(seq![b]))
}

/// Id of the canonical `void`.
pub open spec fn void_id() -> TypeId {
    bytes_id(record_bytes(prim_bytes("void"@, 0, 1), 0, false, false))
}

/// Id of the canonical `int`.
pub open spec fn int_id() -> TypeId {
    bytes_id(record_bytes(prim_bytes("int"@, 4, 4), 0, false, false))
}

/// The canonical bytes, size and alignment of the base kind that entry `i`
/// gives; the same kind as `kind_ok` describes.
pub open spec fn kind_spec(unit: DieTable, i: int, stack: Seq<u64>, fuel: nat) -> (
    Seq<u8>,
    usize,
    Option<usize>,
)
    decreases fuel, 4nat, 0nat,
{
    let d = unit.dies@[i];
    let name = name_or(d.name, "<anonymous>"@);
    let inner = stack.push(d.offset);
    let sz = entry_size(d);
    if stack.contains(d.offset) {
        if d.tag == TAG_STRUCTURE_TYPE {
            (
                tag_bytes(1) + name_bytes(name) + u64_le(0) + fields_view_bytes(Seq::empty()) + u64_le(
                    sz as u64,
                ) + u64_le(1) + bool_byte(true),
                sz,
                Some(1),
            )
        } else if d.tag == TAG_UNION_TYPE {
            (
                tag_bytes(2) + name_bytes(name) + sorted_keys_bytes(Seq::empty()) + u64_le(sz as u64)
                    + u64_le(1),
                sz,
                None,
            )
        } else if d.tag == TAG_TYPEDEF {
            (tag_bytes(5) + name_bytes(name) + u64_le(void_id().0), 0, None)
        } else {
            (prim_bytes("void"@, 0, 1), 0, Some(1))
        }
    } else if d.tag == TAG_BASE_TYPE {
        (prim_bytes(name, sz, sz), sz, Some(sz))
    } else if d.tag == TAG_TYPEDEF {
        (
            tag_bytes(5) + name_bytes(name) + u64_le(ref_id(unit, d.type_ref, inner, fuel).0),
            ref_size(unit, d.type_ref, inner, fuel),
            None,
        )
    } else if d.tag == TAG_STRUCTURE_TYPE {
        let m = struct_members(unit, d.children@, inner, fuel);
        let al = match m.1 {
            Some(w) => w,
            None => 1,
        };
        (
            tag_bytes(1) + name_bytes(name) + u64_le(m.0.len() as u64) + fields_view_bytes(m.0)
                + u64_le(sz as u64) + u64_le(al as u64) + bool_byte(sz == 0 && d.declaration),
            sz,
            Some(al),
        )
    } else if d.tag == TAG_UNION_TYPE {
        let m = union_members(unit, d.children@, inner, fuel);
        let al = match m.1 {
            Some(w) => w,
            None => 1,
        };
        (
            tag_bytes(2) + name_bytes(name) + sorted_keys_bytes(
                m.0.map_values(|p: (Seq<char>, TypeId)| (encode_utf8(p.0), p.1.0)),
            ) + u64_le(sz as u64) + u64_le(al as u64),
            sz,
            None,
        )
    } else if d.tag == TAG_ENUMERATION_TYPE {
        let backing = match d.type_ref {
            Some(o) => resolve_id(unit, o, inner, fuel),
            None => int_id(),
        };
        let esz: usize = match d.byte_size {
            Some(b) => b as usize,
            None => 4,
        };
        (
            tag_bytes(3) + name_bytes(name) + u64_le(backing.0) + sorted_keys_bytes(
                enum_members(unit, d.children@).map_values(
                    |p: (Seq<char>, i64)| (encode_utf8(p.0), p.1 as u64),
                ),
            ) + u64_le(esz as u64),
            esz,
            None,
        )
    } else if d.tag == TAG_ARRAY_TYPE {
        let es = ref_size(unit, d.type_ref, inner, fuel);
        let n = subrange_count(unit, d.children@);
        let total: usize = if es as int * n as int <= usize::MAX {
            (es * n) as usize
        } else {
            0
        };
        (
            tag_bytes(4) + u64_le(ref_id(unit, d.type_ref, inner, fuel).0) + u64_le(n as u64) + u64_le(
                total as u64,
            ),
            total,
            None,
        )
    } else if d.tag == TAG_SUBROUTINE_TYPE {
        let ps = param_ids(unit, d.children@, inner, fuel);
        let ret = match d.type_ref {
            Some(o) => seq![1u8] + u64_le(resolve_id(unit, o, inner, fuel).0),
            None => seq![0u8],
        };
        let variadic = exists|j: int|
            0 <= j < d.children@.len() && is_tag(
                #[trigger] child_dies(unit, d)[j],
                TAG_UNSPECIFIED_PARAMETERS,
            );
        (tag_bytes(6) + ret + u64_le(ps.len() as u64) + ids_bytes(ps) + bool_byte(variadic), 0, None)
    } else {
        (prim_bytes("<unknown:"@ + d.tag_name@ + ">"@, 0, 1), 0, Some(1))
    }
}

/// Resolving `offset`: the base kind's bytes, size and alignment, then the
/// chain's pointer levels and qualifiers. Where `fuel` is out, or the chain
/// reaches no base entry, the base kind is `void`.
pub open spec fn resolve_parts(unit: DieTable, offset: u64, stack: Seq<u64>, fuel: nat) -> (
    Seq<u8>,
    usize,
    Option<usize>,
    (nat, bool, bool),
)
    decreases fuel, 1nat, 0nat,
{
    if fuel == 0 {
        (prim_bytes("void"@, 0, 1), 0, Some(1), (0, false, false))
    } else {
        let c = chain(unit, offset, unit.dies@.len());
        let ks = match c.3 {
            Some(i) => if 0 <= i < unit.dies@.len() {
                kind_spec(unit, i, stack, (fuel - 1) as nat)
            } else {
                (prim_bytes("void"@, 0, 1), 0, Some(1))
            },
            None => (prim_bytes("void"@, 0, 1), 0, Some(1)),
        };
        let size = if c.0 > 0 {
            pointer_size(unit, offset, unit.dies@.len())
        } else {
            ks.1
        };
        (ks.0, size, ks.2, (c.0, c.1, c.2))
    }
}

/// The id that resolving `offset` gives, with `stack` the entries being
/// resolved further up and `fuel` the nesting depth left.
pub open spec fn resolve_id(unit: DieTable, offset: u64, stack: Seq<u64>, fuel: nat) -> TypeId
    decreases fuel, 2nat, 0nat,
{
    let p = resolve_parts(unit, offset, stack, fuel);
    bytes_id(record_bytes(p.0, p.3.0, p.3.1, p.3.2))
}

/// The byte size of the record that resolving `offset` gives: the declared
/// size of its outermost pointer entry for a pointer, else the size its base
/// kind holds (a typedef's is that of its target).
pub open spec fn resolve_size(unit: DieTable, offset: u64, stack: Seq<u64>, fuel: nat) -> usize
    decreases fuel, 2nat, 0nat,
{
    resolve_parts(unit, offset, stack, fuel).1
}

/// The alignment that the record resolving `offset` gives holds, if any.
pub open spec fn resolve_align(unit: DieTable, offset: u64, stack: Seq<u64>, fuel: nat) -> Option<
    usize,
>
    decreases fuel, 2nat, 0nat,
{
    resolve_parts(unit, offset, stack, fuel).2
}

/// A record that resolving `offset` can give: qualifiers from the chain,
/// and the base kind `kind_ok` describes (`void` where the chain reaches no
/// base entry or `fuel` is out).
pub open spec fn resolved_ok(unit: DieTable, offset: u64, stack: Seq<u64>, fuel: nat, t: Type) -> bool {
    if fuel == 0 {
        void_type_ok(t)
    } else {
        let c = chain(unit, offset, unit.dies@.len());
        &&& t.pointer_depth as nat == c.0
        &&& t.is_const == c.1
        &&& t.is_volatile == c.2
        &&& match c.3 {
            None => is_void(t.kind),
            Some(i) => 0 <= i < unit.dies@.len() && kind_ok(unit, i, stack, (fuel - 1) as nat, t.kind),
        }
    }
}

/// The id for an optional type reference: `void` where there is none.
pub open spec fn ref_id(unit: DieTable, r: Option<u64>, stack: Seq<u64>, fuel: nat) -> TypeId
    decreases fuel, 2nat, 1nat,
{
    match r {
        Some(o) => resolve_id(unit, o, stack, fuel),
        None => void_id(),
    }
}

pub open spec fn ref_size(unit: DieTable, r: Option<u64>, stack: Seq<u64>, fuel: nat) -> usize
    decreases fuel, 2nat, 1nat,
{
    match r {
        Some(o) => resolve_size(unit, o, stack, fuel),
        None => 0,
    }
}

/// Fields of a struct: one per member child with a type, in order, and the
/// largest field size.
pub open spec fn struct_members(unit: DieTable, cs: Seq<u64>, stack: Seq<u64>, fuel: nat) -> (
    Seq<(Seq<char>, TypeId, usize, usize)>,
    Option<usize>,
)
    decreases fuel, 3nat, cs.len(),
{
    if cs.len() == 0 {
        (Seq::empty(), None)
    } else {
        let prev = struct_members(unit, cs.drop_last(), stack, fuel);
        match unit.die_at(cs.last()) {
            Some(c) => if c.tag == TAG_MEMBER && c.type_ref is Some {
                let o = c.type_ref->Some_0;
                let sz = resolve_size(unit, o, stack, fuel);
                (
                    prev.0.push(
                        (name_or(c.name, Seq::empty()), resolve_id(unit, o, stack, fuel), member_offset(c), sz),
                    ),
                    max_opt(prev.1, sz),
                )
            } else {
                prev
            },
            None => prev,
        }
    }
}

/// Members of a union: one per member child with a type, in order, and the
/// largest alignment among those whose record has one.
pub open spec fn union_members(unit: DieTable, cs: Seq<u64>, stack: Seq<u64>, fuel: nat) -> (
    Seq<(Seq<char>, TypeId)>,
    Option<usize>,
)
    decreases fuel, 3nat, cs.len(),
{
    if cs.len() == 0 {
        (Seq::empty(), None)
    } else {
        let prev = union_members(unit, cs.drop_last(), stack, fuel);
        match unit.die_at(cs.last()) {
            Some(c) => if c.tag == TAG_MEMBER && c.type_ref is Some {
                let o = c.type_ref->Some_0;
                (
                    prev.0.push((name_or(c.name, Seq::empty()), resolve_id(unit, o, stack, fuel))),
                    match resolve_align(unit, o, stack, fuel) {
                        Some(a) => max_opt(prev.1, a),
                        None => prev.1,
                    },
                )
            } else {
                prev
            },
            None => prev,
        }
    }
}

/// Parameter types of a subroutine: one per formal parameter child, in order.
pub open spec fn param_ids(unit: DieTable, cs: Seq<u64>, stack: Seq<u64>, fuel: nat) -> Seq<TypeId>
    decreases fuel, 3nat, cs.len(),
{
    if cs.len() == 0 {
        Seq::empty()
    } else {
        let prev = param_ids(unit, cs.drop_last(), stack, fuel);
        match unit.die_at(cs.last()) {
            Some(c) => if c.tag == TAG_FORMAL_PARAMETER {
                prev.push(ref_id(unit, c.type_ref, stack, fuel))
            } else {
                prev
            },
            None => prev,
        }
    }
}

/// The base kind that entry `i` gives. An entry that is being resolved
/// further up (on `stack`) gives a member-less declaration of a struct or
/// union, a typedef of `void`, or else `void`. Otherwise the kind is built
/// from the entry's attributes and children, its references resolved with
/// the entry pushed on the stack.
#[verifier::opaque]
pub open spec fn kind_ok(unit: DieTable, i: int, stack: Seq<u64>, fuel: nat, k: BaseTypeKind) -> bool {
    let d = unit.dies@[i];
    let name = name_or(d.name, "<anonymous>"@);
    let inner = stack.push(d.offset);
    if stack.contains(d.offset) {
        if d.tag == TAG_STRUCTURE_TYPE {
            k matches BaseTypeKind::Struct { name: n, fields, size, alignment, is_opaque } && n@ == name
                && fields@.len() == 0 && size == entry_size(d) && alignment == 1 && is_opaque
        } else if d.tag == TAG_UNION_TYPE {
            k matches BaseTypeKind::Union { name: n, variants, size, alignment } && n@ == name
                && variants@.len() == 0 && size == entry_size(d) && alignment == 1
        } else if d.tag == TAG_TYPEDEF {
            k matches BaseTypeKind::Typedef { name: n, aliased_type_id } && n@ == name
                && aliased_type_id == void_id()
        } else {
            is_void(k)
        }
    } else if d.tag == TAG_BASE_TYPE {
        k matches BaseTypeKind::Primitive { name: n, size, alignment } && n@ == name && size
            == entry_size(d) && alignment == size
    } else if d.tag == TAG_TYPEDEF {
        k matches BaseTypeKind::Typedef { name: n, aliased_type_id } && n@ == name && aliased_type_id
            == ref_id(unit, d.type_ref, inner, fuel)
    } else if d.tag == TAG_STRUCTURE_TYPE {
        let m = struct_members(unit, d.children@, inner, fuel);
        k matches BaseTypeKind::Struct { name: n, fields, size, alignment, is_opaque } && n@ == name
            && fields@.map_values(|f: StructField| field_view(f)) == m.0 && size == entry_size(d)
            && alignment == match m.1 {
            Some(w) => w,
            None => 1,
        } && is_opaque == (size == 0 && d.declaration)
    } else if d.tag == TAG_UNION_TYPE {
        let m = union_members(unit, d.children@, inner, fuel);
        k matches BaseTypeKind::Union { name: n, variants, size, alignment } && n@ == name
            && variants@.map_values(|f: UnionField| member_view(f)) == m.0 && size == entry_size(d)
            && alignment == match m.1 {
            Some(w) => w,
            None => 1,
        }
    } else if d.tag == TAG_ENUMERATION_TYPE {
        k matches BaseTypeKind::Enum { name: n, backing_id, variants, size } && n@ == name
            && backing_id == match d.type_ref {
            Some(o) => resolve_id(unit, o, inner, fuel),
            None => int_id(),
        } && variants@.map_values(|v: EnumVariant| enumerator_view(v)) == enum_members(
            unit,
            d.children@,
        ) && size == match d.byte_size {
            Some(b) => b as usize,
            None => 4,
        }
    } else if d.tag == TAG_ARRAY_TYPE {
        let es = ref_size(unit, d.type_ref, inner, fuel);
        let n = subrange_count(unit, d.children@);
        k matches BaseTypeKind::Array { element_type_id, count, size } && element_type_id == ref_id(
            unit,
            d.type_ref,
            inner,
            fuel,
        ) && count == n && size == if es as int * n as int <= usize::MAX {
            (es * n) as usize
        } else {
            0
        }
    } else if d.tag == TAG_SUBROUTINE_TYPE {
        k matches BaseTypeKind::Function { return_type_id, parameter_type_ids, is_variadic }
            && return_type_id == match d.type_ref {
            Some(o) => Some(resolve_id(unit, o, inner, fuel)),
            None => None,
        } && parameter_type_ids@ == param_ids(unit, d.children@, inner, fuel) && is_variadic
            == exists|j: int|
            0 <= j < d.children@.len() && is_tag(
                #[trigger] child_dies(unit, d)[j],
                TAG_UNSPECIFIED_PARAMETERS,
            )
    } else {
        k matches BaseTypeKind::Primitive { name: n, size, alignment } && n@ == "<unknown:"@
            + d.tag_name@ + ">"@ && size == 0 && alignment == 1
    }
}


proof fn lemma_fields_view_bytes(s: Seq<StructField>)
    ensures
        fields_bytes(s) == fields_view_bytes(s.map_values(|f: StructField| field_view(f))),
    decreases s.len(),
{
    let v = s.map_values(|f: StructField| field_view(f));
    if s.len() > 0 {
        assert(s.drop_last().map_values(|f: StructField| field_view(f)) =~= v.drop_last());
        lemma_fields_view_bytes(s.drop_last());
        assert(v.last() == field_view(s.last()));
    }
}

proof fn lemma_void_bytes(k: BaseTypeKind)
    requires
        is_void(k),
    ensures
        kind_bytes(k) == prim_bytes("void"@, 0, 1),
        kind_size(k) == 0,
        kind_align(k) == Some(1usize),
{
}

/// What `kind_ok` describes has the bytes, size and alignment `kind_spec`
/// computes.
#[verifier::rlimit(60)]
proof fn lemma_kind_ok_spec(unit: DieTable, i: int, stack: Seq<u64>, fuel: nat, k: BaseTypeKind)
    requires
        0 <= i < unit.dies@.len(),
        kind_ok(unit, i, stack, fuel, k),
    ensures
        kind_bytes(k) == kind_spec(unit, i, stack, fuel).0,
        unit.dies@[i].tag != TAG_TYPEDEF || stack.contains(unit.dies@[i].offset) ==> kind_size(k)
            == kind_spec(unit, i, stack, fuel).1,
        kind_align(k) == kind_spec(unit, i, stack, fuel).2,
{
    reveal(kind_ok);
    let d = unit.dies@[i];
    match k {
        BaseTypeKind::Struct { fields, .. } => {
            lemma_fields_view_bytes(fields@);
            assert(fields@.len() == fields@.map_values(|f: StructField| field_view(f)).len());
            if stack.contains(d.offset) {
                assert(fields@.map_values(|f: StructField| field_view(f)) =~= Seq::empty());
            }
        },
        BaseTypeKind::Union { variants, .. } => {
            let g = |p: (Seq<char>, TypeId)| (encode_utf8(p.0), p.1.0);
            let w = variants@.map_values(|f: UnionField| member_view(f));
            assert(variants@.map_values(|f: UnionField| union_key(f)) =~= w.map_values(g));
            if stack.contains(d.offset) {
                assert(w.map_values(g) =~= Seq::empty());
            }
        },
        BaseTypeKind::Enum { variants, .. } => {
            let g = |p: (Seq<char>, i64)| (encode_utf8(p.0), p.1 as u64);
            let w = variants@.map_values(|v: EnumVariant| enumerator_view(v));
            assert(variants@.map_values(|v: EnumVariant| enum_key(v)) =~= w.map_values(g));
        },
        _ => {},
    }
}

/// A record that resolving can give has the id, size and alignment that
/// `resolve_id`, `resolve_size` and `resolve_align` state.
proof fn lemma_resolved_matches(unit: DieTable, offset: u64, stack: Seq<u64>, fuel: nat, t: Type)
    requires
        resolved_ok(unit, offset, stack, fuel, t),
    ensures
        resolve_id(unit, offset, stack, fuel) == content_id(t),
        resolve_align(unit, offset, stack, fuel) == kind_align(t.kind),
{
    let c = chain(unit, offset, unit.dies@.len());
    if fuel == 0 || c.3 is None {
        lemma_void_bytes(t.kind);
    } else {
        lemma_kind_ok_spec(unit, c.3->Some_0, stack, (fuel - 1) as nat, t.kind);
    }
    assert(canonical_bytes(t.kind, t.pointer_depth, t.is_const, t.is_volatile) == record_bytes(
        kind_bytes(t.kind),
        t.pointer_depth as nat,
        t.is_const,
        t.is_volatile,
    ));
}

proof fn lemma_void_id(t: Type)
    requires
        void_type_ok(t),
    ensures
        void_id() == content_id(t),
{
    lemma_void_bytes(t.kind);
}

proof fn lemma_int_id(t: Type)
    requires
        int_type_ok(t),
    ensures
        int_id() == content_id(t),
{
}


/// A base kind with pointer depth and qualifiers, as the chain from
/// `offset` gives them; `fuel` is the nesting depth left for the base kind.
pub open spec fn metadata_matches(
    unit: DieTable,
    offset: u64,
    stack: Seq<u64>,
    fuel: nat,
    r: (BaseTypeKind, usize, bool, bool),
) -> bool {
    let c = chain(unit, offset, unit.dies@.len());
    &&& r.1 as nat == c.0
    &&& r.2 == c.1
    &&& r.3 == c.2
    &&& match c.3 {
        None => is_void(r.0),
        Some(i) => 0 <= i < unit.dies@.len() && kind_ok(unit, i, stack, fuel, r.0),
    }
}
fn void_base() -> (k: BaseTypeKind)
    ensures
        refs_of_kind(k).len() == 0,
        k matches BaseTypeKind::Primitive { name, size, alignment } && name@ == "void"@ && size
            == 0 && alignment == 1,
{
    BaseTypeKind::Primitive { name: String::from_str("void"), size: 0, alignment: 1 }
}

fn named_or(name: &Option<String>, fallback: &str) -> (r: String)
    ensures
        r@ == name_or(*name, fallback@),
{
    match name {
        Some(n) => n.clone(),
        None => String::from_str(fallback),
    }
}

/// Whether a child of `die` stands for further, unspecified arguments.
fn has_unspecified_parameters(unit: &DieTable, die: &Die) -> (r: bool)
    ensures
        r == exists|j: int|
            0 <= j < die.children@.len() && is_tag(
                #[trigger] child_dies(*unit, *die)[j],
                TAG_UNSPECIFIED_PARAMETERS,
            ),
{
    let mut c: usize = 0;
    while c < die.children.len()
        invariant
            c <= die.children@.len(),
            forall|j: int|
                0 <= j < c ==> !is_tag(#[trigger] child_dies(*unit, *die)[j], TAG_UNSPECIFIED_PARAMETERS),
        decreases die.children@.len() - c,
    {
        let ghost cc = c as int;
        assert(child_dies(*unit, *die)[cc] == unit.die_at(die.children@[cc]));
        match unit.entry_at(die.children[c]) {
            Some(ci) => {
                if unit.dies[ci].tag == TAG_UNSPECIFIED_PARAMETERS {
                    return true;
                }
            },
            None => {},
        }
        c = c + 1;
    }
    false
}


fn kind_size_exec(k: &BaseTypeKind) -> (r: usize)
    ensures
        r == kind_size(*k),
{
    match k {
        BaseTypeKind::Primitive { size, .. } => *size,
        BaseTypeKind::Struct { size, .. } => *size,
        BaseTypeKind::Union { size, .. } => *size,
        BaseTypeKind::Enum { size, .. } => *size,
        BaseTypeKind::Array { size, .. } => *size,
        _ => 0,
    }
}

fn kind_align_exec(k: &BaseTypeKind) -> (r: Option<usize>)
    ensures
        r == kind_align(*k),
{
    match k {
        BaseTypeKind::Primitive { alignment, .. } => Some(*alignment),
        BaseTypeKind::Struct { alignment, .. } => Some(*alignment),
        _ => None,
    }
}

fn pointer_result(p: Option<usize>) -> (r: usize)
    ensures
        r == match p {
            Some(x) => x,
            None => 0,
        },
{
    match p {
        Some(x) => x,
        None => 0,
    }
}

fn widen(a: Option<usize>, x: usize) -> (r: Option<usize>)
    ensures
        r == max_opt(a, x),
{
    match a {
        Some(w) => if x > w {
            Some(x)
        } else {
            Some(w)
        },
        None => Some(x),
    }
}

impl<'a> TypeResolver<'a> {
    pub closed spec fn registry(&self) -> RegistryView {
        self.type_registry@
    }

    pub closed spec fn unit(&self) -> DieTable {
        *self.unit
    }

    /// Offsets resolved from the top, with the ids they gave.
    pub closed spec fn memo_view(&self) -> Seq<(u64, TypeId)> {
        self.memo@
    }

    /// `offset` was resolved from the top before.
    pub closed spec fn memo_has(&self, offset: u64) -> bool {
        exists|k: int| 0 <= k < self.memo@.len() && #[trigger] self.memo@[k].0 == offset
    }

    /// Each remembered id is the one the offset resolves to, and is stored.
    pub closed spec fn memo_ok(&self) -> bool {
        forall|k: int|
            0 <= k < self.memo@.len() ==> #[trigger] self.memo@[k].1 == resolve_id(
                *self.unit,
                self.memo@[k].0,
                Seq::empty(),
                self.unit.dies@.len() as nat,
            ) && self.type_registry@.has_id(self.memo@[k].1)
    }

    pub open spec fn inv(&self) -> bool {
        self.registry().wf() && self.registry().closed() && self.memo_ok()
    }

    /// A resolver with an empty registry over the entries of `unit`.
    pub fn new(unit: &'a DieTable) -> (r: Self)
        ensures
            r.inv(),
            r.registry().types.len() == 0,
            r.unit() == *unit,
            forall|o: u64| !r.memo_has(o),
    {
        TypeResolver { unit, type_registry: TypeRegistry::new(), memo: Vec::new() }
    }

    /// The registry built so far.
    pub fn get_registry(&self) -> (r: &TypeRegistry)
        ensures
            r@ == self.registry(),
    {
        &self.type_registry
    }

    /// Ends resolution and hands over the registry.
    pub fn into_registry(self) -> (r: TypeRegistry)
        ensures
            r@ == self.registry(),
    {
        self.type_registry
    }

    fn register(
        &mut self,
        kind: BaseTypeKind,
        pointer_depth: usize,
        is_const: bool,
        is_volatile: bool,
        dwarf_offset: Option<u64>,
    ) -> (id: TypeId)
        requires
            old(self).inv(),
            refs_stored(old(self).registry(), kind),
        ensures
            final(self).inv(),
            extends(old(self).registry(), final(self).registry()),
            final(self).registry().has_id(id),
            final(self).unit() == old(self).unit(),
            final(self).memo@ == old(self).memo@,
            id == content_id(
                Type { id: TypeId(0), kind, pointer_depth, is_const, is_volatile, dwarf_offset },
            ),
            final(self).registry() == old(self).registry().register(
                Type { id: TypeId(0), kind, pointer_depth, is_const, is_volatile, dwarf_offset },
            ),
    {
        let t = Type { id: TypeId(0), kind, pointer_depth, is_const, is_volatile, dwarf_offset };
        let ghost before = self.type_registry@;
        proof {
            assert(refs_of(t) == refs_of_kind(kind));
            lemma_register_closed(self.type_registry@, t);
        }
        let id = self.type_registry.register_type(t);
        proof {
            lemma_prefix_has_id(before, self.type_registry@);
        }
        id
    }

    /// The canonical `void`: a primitive of size 0, registered on first use.
    pub fn get_void_type_id(&mut self) -> (id: TypeId)
        requires
            old(self).inv(),
        ensures
            final(self).inv(),
            extends(old(self).registry(), final(self).registry()),
            final(self).registry().has_id(id),
            final(self).unit() == old(self).unit(),
            final(self).memo_view() == old(self).memo_view(),
            forall|o: u64| final(self).memo_has(o) == old(self).memo_has(o),
            id == void_id(),
            exists|t: Type|
                void_type_ok(t) && t.dwarf_offset is None && final(self).registry() == old(
                    self,
                ).registry().register(t),
    {
        let k = void_base();
        let ghost t = Type {
            id: TypeId(0),
            kind: k,
            pointer_depth: 0,
            is_const: false,
            is_volatile: false,
            dwarf_offset: None,
        };
        let id = self.register(k, 0, false, false, None);
        proof {
            lemma_void_id(t);
            assert(void_type_ok(t) && t.dwarf_offset is None && self.registry() == old(
                self,
            ).registry().register(t));
        }
        id
    }

    fn get_int_type_id(&mut self) -> (id: TypeId)
        requires
            old(self).inv(),
        ensures
            final(self).inv(),
            extends(old(self).registry(), final(self).registry()),
            final(self).registry().has_id(id),
            final(self).unit() == old(self).unit(),
            final(self).memo@ == old(self).memo@,
            id == int_id(),
    {
        let k = BaseTypeKind::Primitive { name: String::from_str("int"), size: 4, alignment: 4 };
        let ghost t = Type {
            id: TypeId(0),
            kind: k,
            pointer_depth: 0,
            is_const: false,
            is_volatile: false,
            dwarf_offset: None,
        };
        let id = self.register(k, 0, false, false, None);
        proof {
            lemma_int_id(t);
        }
        id
    }

    /// Resolves the entry at `offset` into a registered record and returns
    /// its id: `resolve_id` of the offset with nothing further up and the
    /// whole unit as nesting depth. An offset resolved from the top before
    /// answers at once, with the registry left as it is.
    pub fn build_type_registry_entry(&mut self, offset: u64) -> (id: TypeId)
        requires
            old(self).inv(),
        ensures
            final(self).inv(),
            extends(old(self).registry(), final(self).registry()),
            final(self).registry().has_id(id),
            final(self).unit() == old(self).unit(),
            id == resolve_id(old(self).unit(), offset, Seq::empty(), old(self).unit().dies@.len()),
            final(self).memo_has(offset),
            forall|o: u64| old(self).memo_has(o) ==> #[trigger] final(self).memo_has(o),
            old(self).memo_has(offset) ==> final(self).registry() == old(self).registry(),
    {
        match self.memo_find(offset) {
            Some(id) => {
                proof {
                    assert(self.registry().types =~= self.registry().types.subrange(
                        0,
                        self.registry().types.len() as int,
                    ));
                }
                return id;
            },
            None => {},
        }
        let mut stack: Vec<u64> = Vec::new();
        let fuel = self.unit.dies.len();
        let ghost before = self.memo@;
        let (id, _, _) = self.resolve(offset, &mut stack, fuel);
        assert(stack@ =~= Seq::<u64>::empty());
        self.memo.push((offset, id));
        proof {
            assert(self.memo@[self.memo@.len() - 1].0 == offset);
            assert forall|o: u64| old(self).memo_has(o) implies #[trigger] self.memo_has(o) by {
                let j = choose|j: int| 0 <= j < before.len() && #[trigger] before[j].0 == o;
                assert(self.memo@[j] == before[j]);
            }
            assert forall|j: int| 0 <= j < self.memo@.len() implies #[trigger] self.memo@[j].1
                == resolve_id(*self.unit, self.memo@[j].0, Seq::empty(), self.unit.dies@.len() as nat)
                && self.type_registry@.has_id(self.memo@[j].1) by {
                if j < before.len() {
                    assert(self.memo@[j] == before[j]);
                }
            }
        }
        id
    }

    fn memo_find(&self, offset: u64) -> (r: Option<TypeId>)
        requires
            self.inv(),
        ensures
            match r {
                Some(id) => self.memo_has(offset) && self.registry().has_id(id) && id == resolve_id(
                    self.unit(),
                    offset,
                    Seq::empty(),
                    self.unit().dies@.len(),
                ),
                None => !self.memo_has(offset),
            },
    {
        let mut k: usize = 0;
        while k < self.memo.len()
            invariant
                self.inv(),
                k <= self.memo@.len(),
                forall|j: int| 0 <= j < k ==> #[trigger] self.memo@[j].0 != offset,
            decreases self.memo@.len() - k,
        {
            if self.memo[k].0 == offset {
                let id = self.memo[k].1;
                assert(self.memo@[k as int].1 == id);
                assert(self.memo@[k as int].0 == offset);
                return Some(id);
            }
            k = k + 1;
        }
        None
    }

    fn resolve(&mut self, offset: u64, stack: &mut Vec<u64>, fuel: usize) -> (r: (
        TypeId,
        usize,
        Option<usize>,
    ))
        requires
            old(self).inv(),
        ensures
            final(stack)@ == old(stack)@,
            final(self).inv(),
            extends(old(self).registry(), final(self).registry()),
            final(self).registry().has_id(r.0),
            final(self).unit() == old(self).unit(),
            final(self).memo@ == old(self).memo@,
            r.0 == resolve_id(old(self).unit(), offset, old(stack)@, fuel as nat),
            r.1 == resolve_size(old(self).unit(), offset, old(stack)@, fuel as nat),
            r.2 == resolve_align(old(self).unit(), offset, old(stack)@, fuel as nat),
        decreases fuel, 0nat,
    {
        if fuel == 0 {
            let id = self.get_void_type_id();
            proof {
                let t = choose|t: Type|
                    void_type_ok(t) && t.dwarf_offset is None && self.registry() == old(
                        self,
                    ).registry().register(t);
                lemma_void_id(t);
                lemma_resolved_matches(old(self).unit(), offset, stack@, 0, t);
            }
            return (id, 0, Some(1));
        }
        let (kind, pointer_depth, is_const, is_volatile, size) = self.extract_type_metadata(
            offset,
            stack,
            fuel - 1,
        );
        let align = kind_align_exec(&kind);
        let ghost t = Type {
            id: TypeId(0),
            kind,
            pointer_depth,
            is_const,
            is_volatile,
            dwarf_offset: Some(offset),
        };
        let id = self.register(kind, pointer_depth, is_const, is_volatile, Some(offset));
        proof {
            assert(resolved_ok(old(self).unit(), offset, old(stack)@, fuel as nat, t));
            lemma_resolved_matches(old(self).unit(), offset, old(stack)@, fuel as nat, t);
        }
        (id, size, align)
    }

    /// Follows pointer, const and volatile entries from `offset` down to a
    /// base entry, counting pointer levels and noting qualifiers.
    #[verifier::rlimit(60)]
    fn extract_type_metadata(&mut self, offset: u64, stack: &mut Vec<u64>, fuel: usize) -> (r: (
        BaseTypeKind,
        usize,
        bool,
        bool,
        usize,
    ))
        requires
            old(self).inv(),
        ensures
            final(stack)@ == old(stack)@,
            final(self).inv(),
            extends(old(self).registry(), final(self).registry()),
            refs_stored(final(self).registry(), r.0),
            metadata_matches(old(self).unit(), offset, old(stack)@, fuel as nat, (r.0, r.1, r.2, r.3)),
            r.4 == if chain(old(self).unit(), offset, old(self).unit().dies@.len()).0 > 0 {
                pointer_size(old(self).unit(), offset, old(self).unit().dies@.len())
            } else {
                match chain(old(self).unit(), offset, old(self).unit().dies@.len()).3 {
                    Some(i) => kind_spec(old(self).unit(), i, old(stack)@, fuel as nat).1,
                    None => 0,
                }
            },
            final(self).unit() == old(self).unit(),
            final(self).memo@ == old(self).memo@,
        decreases fuel, 4nat,
    {
        let unit = self.unit;
        let n = unit.dies.len();
        let mut pointer_depth: usize = 0;
        let mut is_const = false;
        let mut is_volatile = false;
        let mut current = offset;
        let mut steps: usize = 0;
        let ghost total = chain(*unit, offset, n as nat);
        let ghost mut rest = total;
        let mut ptr_size: Option<usize> = None;
        while steps < n
            invariant
                unit == self.unit,
                n == unit.dies@.len(),
                steps <= n,
                pointer_depth <= steps,
                self.inv(),
                self.registry() == old(self).registry(),
                self.unit() == old(self).unit(),
                self.memo@ == old(self).memo@,
                stack@ == old(stack)@,
                *unit == old(self).unit(),
                total == chain(*unit, offset, n as nat),
                rest == chain(*unit, current, (n - steps) as nat),
                total == (
                    pointer_depth as nat + rest.0,
                    is_const || rest.1,
                    is_volatile || rest.2,
                    rest.3,
                ),
                (ptr_size is Some) == (pointer_depth > 0),
                pointer_size(*unit, offset, n as nat) == match ptr_size {
                    Some(p) => p,
                    None => pointer_size(*unit, current, (n - steps) as nat),
                },
            decreases n - steps,
        {
            proof {
                lemma_chain_unfold(*unit, current, (n - steps) as nat);
            }
            let idx = match unit.entry_at(current) {
                Some(i) => i,
                None => {
                    return (void_base(), pointer_depth, is_const, is_volatile, pointer_result(ptr_size));
                },
            };
            let die = &unit.dies[idx];
            if die.tag == TAG_POINTER_TYPE {
                if pointer_depth == 0 {
                    ptr_size = Some(match die.byte_size {
                        Some(b) => #[verifier::truncate] (b as usize),
                        None => 0,
                    });
                }
                pointer_depth = pointer_depth + 1;
            } else if die.tag == TAG_CONST_TYPE {
                is_const = true;
            } else if die.tag == TAG_VOLATILE_TYPE {
                is_volatile = true;
            } else {
                let (kind, base_size) = self.extract_base(idx, stack, fuel);
                let size = match ptr_size {
                    Some(p) => p,
                    None => base_size,
                };
                return (kind, pointer_depth, is_const, is_volatile, size);
            }
            match die.type_ref {
                Some(next) => {
                    current = next;
                    proof {
                        rest = chain(*unit, next, (n - steps - 1) as nat);
                    }
                },
                None => {
                    return (void_base(), pointer_depth, is_const, is_volatile, pointer_result(ptr_size));
                },
            }
            steps = steps + 1;
        }
        proof {
            lemma_chain_unfold(*unit, current, 0);
            assert(rest == (0nat, false, false, None::<int>));
        }
        // a chain of wrappers longer than the unit loops back on itself
        (void_base(), pointer_depth, is_const, is_volatile, pointer_result(ptr_size))
    }

    /// The base kind of the entry at index `idx`; see `kind_ok`.
    fn extract_base(&mut self, idx: usize, stack: &mut Vec<u64>, fuel: usize) -> (r: (
        BaseTypeKind,
        usize,
    ))
        requires
            old(self).inv(),
            idx < old(self).unit().dies@.len(),
        ensures
            final(stack)@ == old(stack)@,
            final(self).inv(),
            extends(old(self).registry(), final(self).registry()),
            refs_stored(final(self).registry(), r.0),
            kind_ok(old(self).unit(), idx as int, old(stack)@, fuel as nat, r.0),
            r.1 == kind_spec(old(self).unit(), idx as int, old(stack)@, fuel as nat).1,
            final(self).unit() == old(self).unit(),
            final(self).memo@ == old(self).memo@,
        decreases fuel, 3nat,
    {
        proof {
            reveal(kind_ok);
        }
        let unit = self.unit;
        let die = &unit.dies[idx];
        let mut on_stack = false;
        let mut i: usize = 0;
        while i < stack.len()
            invariant
                i <= stack@.len(),
                on_stack == exists|j: int| 0 <= j < i && stack@[j] == die.offset,
            decreases stack@.len() - i,
        {
            if stack[i] == die.offset {
                on_stack = true;
            }
            i = i + 1;
        }
        assert(on_stack == stack@.contains(die.offset));
        if on_stack {
            // the entry is being resolved further up: refer to it without
            // descending into it again
            let name = named_or(&die.name, "<anonymous>");
            let size = match die.byte_size {
                Some(b) => #[verifier::truncate] (b as usize),
                None => 0,
            };
            if die.tag == TAG_STRUCTURE_TYPE {
                return (
                    BaseTypeKind::Struct { name, fields: Vec::new(), size, alignment: 1, is_opaque: true },
                    size,
                );
            } else if die.tag == TAG_UNION_TYPE {
                return (BaseTypeKind::Union { name, variants: Vec::new(), size, alignment: 1 }, size);
            } else if die.tag == TAG_TYPEDEF {
                let aliased_type_id = self.get_void_type_id();
                let k = BaseTypeKind::Typedef { name, aliased_type_id };
                assert(refs_of_kind(k) =~= seq![aliased_type_id]);
                return (k, 0);
            }
            return (void_base(), 0);
        }
        if die.tag == TAG_BASE_TYPE {
            let name = named_or(&die.name, "<anonymous>");
            let size = match die.byte_size {
                Some(b) => #[verifier::truncate] (b as usize),
                None => 0,
            };
            return (BaseTypeKind::Primitive { name, size, alignment: size }, size);
        }
        if die.tag != TAG_TYPEDEF && die.tag != TAG_STRUCTURE_TYPE && die.tag != TAG_UNION_TYPE
            && die.tag != TAG_ENUMERATION_TYPE && die.tag != TAG_ARRAY_TYPE && die.tag
            != TAG_SUBROUTINE_TYPE {
            let mut name = String::from_str("<unknown:");
            name.append(die.tag_name.as_str());
            name.append(">");
            return (BaseTypeKind::Primitive { name, size: 0, alignment: 1 }, 0);
        }
        stack.push(die.offset);
        let r = if die.tag == TAG_TYPEDEF {
            self.extract_typedef_type(idx, stack, fuel)
        } else {
            let k = if die.tag == TAG_STRUCTURE_TYPE {
                self.extract_struct_type(idx, stack, fuel)
            } else if die.tag == TAG_UNION_TYPE {
                self.extract_union_type(idx, stack, fuel)
            } else if die.tag == TAG_ENUMERATION_TYPE {
                self.extract_enum_type(idx, stack, fuel)
            } else if die.tag == TAG_ARRAY_TYPE {
                self.extract_array_type(idx, stack, fuel)
            } else {
                self.extract_function_type(idx, stack, fuel)
            };
            let size = kind_size_exec(&k);
            (k, size)
        };
        stack.pop();
        proof {
            if die.tag != TAG_TYPEDEF {
                lemma_kind_ok_spec(old(self).unit(), idx as int, old(stack)@, fuel as nat, r.0);
            }
        }
        r
    }

    /// The record for an optional type reference; `void` where there is none.
    fn resolve_ref(&mut self, r: Option<u64>, stack: &mut Vec<u64>, fuel: usize) -> (res: (
        TypeId,
        usize,
    ))
        requires
            old(self).inv(),
        ensures
            final(stack)@ == old(stack)@,
            final(self).inv(),
            extends(old(self).registry(), final(self).registry()),
            final(self).registry().has_id(res.0),
            final(self).unit() == old(self).unit(),
            final(self).memo@ == old(self).memo@,
            res.0 == ref_id(old(self).unit(), r, old(stack)@, fuel as nat),
            res.1 == ref_size(old(self).unit(), r, old(stack)@, fuel as nat),
        decreases fuel, 1nat,
    {
        match r {
            Some(o) => {
                let (id, size, _) = self.resolve(o, stack, fuel);
                (id, size)
            },
            None => (self.get_void_type_id(), 0),
        }
    }

    fn extract_typedef_type(&mut self, idx: usize, stack: &mut Vec<u64>, fuel: usize) -> (r: (
        BaseTypeKind,
        usize,
    ))
        requires
            old(self).inv(),
            idx < old(self).unit().dies@.len(),
            old(self).unit().dies@[idx as int].tag == TAG_TYPEDEF,
        ensures
            final(stack)@ == old(stack)@,
            final(self).inv(),
            extends(old(self).registry(), final(self).registry()),
            refs_stored(final(self).registry(), r.0),
            r.1 == ref_size(old(self).unit(), old(self).unit().dies@[idx as int].type_ref, old(stack)@, fuel as nat),
            final(self).unit() == old(self).unit(),
            final(self).memo@ == old(self).memo@,
            r.0 matches BaseTypeKind::Typedef { name: n, aliased_type_id } && n@ == name_or(
                old(self).unit().dies@[idx as int].name,
                "<anonymous>"@,
            ) && aliased_type_id == ref_id(old(self).unit(), old(self).unit().dies@[idx as int].type_ref, old(stack)@, fuel as nat),
        decreases fuel, 2nat,
    {
        let unit = self.unit;
        let die = &unit.dies[idx];
        let name = named_or(&die.name, "<anonymous>");
        let (aliased_type_id, size) = self.resolve_ref(die.type_ref, stack, fuel);
        let k = BaseTypeKind::Typedef { name, aliased_type_id };
        assert(refs_of_kind(k) =~= seq![aliased_type_id]);
        (k, size)
    }

    #[verifier::rlimit(60)]
    fn extract_struct_type(&mut self, idx: usize, stack: &mut Vec<u64>, fuel: usize) -> (k:
        BaseTypeKind)
        requires
            old(self).inv(),
            idx < old(self).unit().dies@.len(),
            old(self).unit().dies@[idx as int].tag == TAG_STRUCTURE_TYPE,
        ensures
            final(stack)@ == old(stack)@,
            final(self).inv(),
            extends(old(self).registry(), final(self).registry()),
            refs_stored(final(self).registry(), k),
            final(self).unit() == old(self).unit(),
            final(self).memo@ == old(self).memo@,
            k matches BaseTypeKind::Struct { name: n, fields, size, alignment, is_opaque } && n@
                == name_or(old(self).unit().dies@[idx as int].name, "<anonymous>"@) && fields@.map_values(
                |f: StructField| field_view(f),
            ) == struct_members(old(self).unit(), old(self).unit().dies@[idx as int].children@, old(stack)@, fuel as nat).0 && size == entry_size(
                old(self).unit().dies@[idx as int],
            ) && alignment == match struct_members(old(self).unit(), old(self).unit().dies@[idx as int].children@, old(stack)@, fuel as nat).1 {
                Some(w) => w,
                None => 1,
            } && is_opaque == (size == 0 && old(self).unit().dies@[idx as int].declaration),
        decreases fuel, 2nat,
    {
        let unit = self.unit;
        let die = &unit.dies[idx];
        let name = named_or(&die.name, "<anonymous>");
        let size: usize = match die.byte_size {
            Some(b) => #[verifier::truncate] (b as usize),
            None => 0,
        };
        // declared only: no size, and the declaration flag is set
        let is_opaque = size == 0 && die.declaration;
        let mut fields: Vec<StructField> = Vec::new();
        let mut widest: Option<usize> = None;
        let mut c: usize = 0;
        assert(die.children@.take(0) =~= Seq::<u64>::empty());
        assert(fields@.map_values(|f: StructField| field_view(f)) =~= Seq::empty());
        while c < die.children.len()
            invariant
                self.inv(),
                self.unit() == old(self).unit(),
                self.memo@ == old(self).memo@,
                extends(old(self).registry(), self.registry()),
                stack@ == old(stack)@,
                *unit == old(self).unit(),
                *die == old(self).unit().dies@[idx as int],
                c <= die.children@.len(),
                forall|j: int| 0 <= j < fields@.len() ==> self.registry().has_id(#[trigger] fields@[j].type_id),
                fields@.map_values(|f: StructField| field_view(f)) == struct_members(*unit, die.children@.take(c as int), stack@, fuel as nat).0,
                widest == struct_members(*unit, die.children@.take(c as int), stack@, fuel as nat).1,
            decreases die.children@.len() - c,
        {
            let child_off = die.children[c];
            let ghost cs = die.children@.take(c + 1);
            proof {
                assert(cs.drop_last() =~= die.children@.take(c as int));
                assert(cs.last() == child_off);
            }
            let entry = unit.entry_at(child_off);
            proof {
                reveal_strlit("");
                assert(""@ =~= Seq::<char>::empty());
            }
            match entry {
                Some(ci) => {
                    let child = &unit.dies[ci];
                    if child.tag == TAG_MEMBER {
                        match child.type_ref {
                            Some(r) => {
                                let ghost before = self.registry();
                                let ghost old_fields = fields@.map_values(|f: StructField| field_view(f));
                                let (type_id, field_size, _) = self.resolve(r, stack, fuel);
                        proof {
                            lemma_prefix_has_id(before, self.registry());
                            lemma_prefix_trans(old(self).registry().types, before.types, self.registry().types);
                        }
                                let offset: usize = match child.member_location {
                                    Some(m) => #[verifier::truncate] (m as usize),
                                    None => 0,
                                };
                                widest = widen(widest, field_size);
                                let fname = named_or(&child.name, "");
                                let f = StructField { name: fname, type_id, offset, size: field_size };
                                let ghost fv = field_view(f);
                                fields.push(f);
                                assert(fields@.map_values(|f: StructField| field_view(f)) =~= old_fields.push(fv));
                            },
                            None => {},
                        }
                    }
                },
                None => {},
            }
            c = c + 1;
        }
        assert(die.children@.take(die.children@.len() as int) =~= die.children@);
        let alignment = match widest {
            Some(w) => w,
            None => 1,
        };
        let k = BaseTypeKind::Struct { name, fields, size, alignment, is_opaque };
        k
    }

    #[verifier::rlimit(60)]
    fn extract_union_type(&mut self, idx: usize, stack: &mut Vec<u64>, fuel: usize) -> (k:
        BaseTypeKind)
        requires
            old(self).inv(),
            idx < old(self).unit().dies@.len(),
            old(self).unit().dies@[idx as int].tag == TAG_UNION_TYPE,
        ensures
            final(stack)@ == old(stack)@,
            final(self).inv(),
            extends(old(self).registry(), final(self).registry()),
            refs_stored(final(self).registry(), k),
            final(self).unit() == old(self).unit(),
            final(self).memo@ == old(self).memo@,
            k matches BaseTypeKind::Union { name: n, variants, size, alignment } && n@ == name_or(
                old(self).unit().dies@[idx as int].name,
                "<anonymous>"@,
            ) && variants@.map_values(|f: UnionField| member_view(f)) == union_members(
                old(self).unit(),
                old(self).unit().dies@[idx as int].children@,
                old(stack)@,
                fuel as nat,
            ).0 && size == entry_size(old(self).unit().dies@[idx as int]) && alignment == match union_members(
                old(self).unit(),
                old(self).unit().dies@[idx as int].children@,
                old(stack)@,
                fuel as nat,
            ).1 {
                Some(w) => w,
                None => 1,
            },
        decreases fuel, 2nat,
    {
        let unit = self.unit;
        let die = &unit.dies[idx];
        let name = named_or(&die.name, "<anonymous>");
        let size: usize = match die.byte_size {
            Some(b) => #[verifier::truncate] (b as usize),
            None => 0,
        };
        let mut variants: Vec<UnionField> = Vec::new();
        let mut widest: Option<usize> = None;
        let mut c: usize = 0;
        assert(die.children@.take(0) =~= Seq::<u64>::empty());
        assert(variants@.map_values(|f: UnionField| member_view(f)) =~= Seq::empty());
        while c < die.children.len()
            invariant
                self.inv(),
                self.unit() == old(self).unit(),
                self.memo@ == old(self).memo@,
                extends(old(self).registry(), self.registry()),
                stack@ == old(stack)@,
                *unit == old(self).unit(),
                *die == old(self).unit().dies@[idx as int],
                c <= die.children@.len(),
                forall|j: int| 0 <= j < variants@.len() ==> self.registry().has_id(#[trigger] variants@[j].type_id),
                variants@.map_values(|f: UnionField| member_view(f)) == union_members(*unit, die.children@.take(c as int), stack@, fuel as nat).0,
                widest == union_members(*unit, die.children@.take(c as int), stack@, fuel as nat).1,
            decreases die.children@.len() - c,
        {
            let child_off = die.children[c];
            let ghost cs = die.children@.take(c + 1);
            proof {
                assert(cs.drop_last() =~= die.children@.take(c as int));
                assert(cs.last() == child_off);
            }
            let entry = unit.entry_at(child_off);
            proof {
                reveal_strlit("");
                assert(""@ =~= Seq::<char>::empty());
            }
            match entry {
                Some(ci) => {
                    let child = &unit.dies[ci];
                    if child.tag == TAG_MEMBER {
                        match child.type_ref {
                            Some(r) => {
                                let ghost before = self.registry();
                                let ghost old_vars = variants@.map_values(|f: UnionField| member_view(f));
                                let (type_id, _, align) = self.resolve(r, stack, fuel);
                        proof {
                            lemma_prefix_has_id(before, self.registry());
                            lemma_prefix_trans(old(self).registry().types, before.types, self.registry().types);
                        }
                                match align {
                                    Some(a) => {
                                        widest = widen(widest, a);
                                    },
                                    None => {},
                                }
                                let fname = named_or(&child.name, "");
                                let f = UnionField { name: fname, type_id };
                                let ghost fv = member_view(f);
                                variants.push(f);
                                assert(variants@.map_values(|f: UnionField| member_view(f)) =~= old_vars.push(fv));
                            },
                            None => {},
                        }
                    }
                },
                None => {},
            }
            c = c + 1;
        }
        assert(die.children@.take(die.children@.len() as int) =~= die.children@);
        let alignment = match widest {
            Some(w) => w,
            None => 1,
        };
        let k = BaseTypeKind::Union { name, variants, size, alignment };
        k
    }

    #[verifier::rlimit(60)]
    fn extract_enum_type(&mut self, idx: usize, stack: &mut Vec<u64>, fuel: usize) -> (k:
        BaseTypeKind)
        requires
            old(self).inv(),
            idx < old(self).unit().dies@.len(),
            old(self).unit().dies@[idx as int].tag == TAG_ENUMERATION_TYPE,
        ensures
            final(stack)@ == old(stack)@,
            final(self).inv(),
            extends(old(self).registry(), final(self).registry()),
            refs_stored(final(self).registry(), k),
            final(self).unit() == old(self).unit(),
            final(self).memo@ == old(self).memo@,
            k matches BaseTypeKind::Enum { name: n, backing_id, variants, size } && n@ == name_or(
                old(self).unit().dies@[idx as int].name,
                "<anonymous>"@,
            ) && backing_id == match old(self).unit().dies@[idx as int].type_ref {
                Some(o) => resolve_id(old(self).unit(), o, old(stack)@, fuel as nat),
                None => int_id(),
            } && variants@.map_values(|v: EnumVariant| enumerator_view(v)) == enum_members(
                old(self).unit(),
                old(self).unit().dies@[idx as int].children@,
            ) && size == match old(self).unit().dies@[idx as int].byte_size {
                Some(b) => b as usize,
                None => 4,
            },
        decreases fuel, 2nat,
    {
        let unit = self.unit;
        let die = &unit.dies[idx];
        let name = named_or(&die.name, "<anonymous>");
        let size: usize = match die.byte_size {
            Some(b) => #[verifier::truncate] (b as usize),
            None => 4,
        };
        let backing_id = match die.type_ref {
            Some(r) => {
                let (id, _, _) = self.resolve(r, stack, fuel);
                id
            },
            None => self.get_int_type_id(),
        };
        let mut variants: Vec<EnumVariant> = Vec::new();
        let mut c: usize = 0;
        assert(die.children@.take(0) =~= Seq::<u64>::empty());
        assert(variants@.map_values(|v: EnumVariant| enumerator_view(v)) =~= Seq::empty());
        while c < die.children.len()
            invariant
                c <= die.children@.len(),
                *unit == old(self).unit(),
                *die == old(self).unit().dies@[idx as int],
                variants@.map_values(|v: EnumVariant| enumerator_view(v)) == enum_members(*unit, die.children@.take(c as int)),
            decreases die.children@.len() - c,
        {
            let child_off = die.children[c];
            let ghost cs = die.children@.take(c + 1);
            proof {
                assert(cs.drop_last() =~= die.children@.take(c as int));
                assert(cs.last() == child_off);
            }
            let entry = unit.entry_at(child_off);
            proof {
                reveal_strlit("");
                assert(""@ =~= Seq::<char>::empty());
            }
            match entry {
                Some(ci) => {
                    let child = &unit.dies[ci];
                    if child.tag == TAG_ENUMERATOR {
                        let value = match child.const_value {
                            Some(v) => v,
                            None => 0,
                        };
                        let ghost old_vars = variants@.map_values(|v: EnumVariant| enumerator_view(v));
                        let v = EnumVariant { name: named_or(&child.name, ""), value };
                        let ghost vv = enumerator_view(v);
                        variants.push(v);
                        assert(variants@.map_values(|v: EnumVariant| enumerator_view(v)) =~= old_vars.push(vv));
                    }
                },
                None => {},
            }
            c = c + 1;
        }
        assert(die.children@.take(die.children@.len() as int) =~= die.children@);
        let k = BaseTypeKind::Enum { name, backing_id, variants, size };
        assert(refs_of_kind(k) =~= seq![backing_id]);
        k
    }

    /// The element count of an array entry; see `subrange_count`.
    #[verifier::rlimit(60)]
    fn extract_array_count(&self, idx: usize) -> (r: usize)
        requires
            idx < self.unit().dies@.len(),
        ensures
            r == subrange_count(self.unit(), self.unit().dies@[idx as int].children@),
    {
        let unit = self.unit;
        let die = &unit.dies[idx];
        let ghost cs = die.children@;
        let mut c: usize = 0;
        assert(cs.subrange(0, cs.len() as int) =~= cs);
        while c < die.children.len()
            invariant
                c <= cs.len(),
                cs == die.children@,
                *unit == self.unit(),
                *die == self.unit().dies@[idx as int],
                subrange_count(*unit, cs) == subrange_count(*unit, cs.subrange(c as int, cs.len() as int)),
            decreases die.children@.len() - c,
        {
            let ghost rest = cs.subrange(c as int, cs.len() as int);
            assert(rest.drop_first() =~= cs.subrange(c + 1, cs.len() as int));
            assert(rest[0] == die.children@[c as int]);
            match unit.entry_at(die.children[c]) {
                Some(ci) => {
                    let child = &unit.dies[ci];
                    if child.tag == TAG_SUBRANGE_TYPE {
                        match child.count {
                            Some(n) => {
                                return #[verifier::truncate] (n as usize);
                            },
                            None => {},
                        }
                        match child.upper_bound {
                            Some(u) => {
                                if u < u64::MAX {
                                    return #[verifier::truncate] ((u + 1) as usize);
                                }
                                return 0;
                            },
                            None => {},
                        }
                    }
                },
                None => {},
            }
            c = c + 1;
        }
        assert(cs.subrange(cs.len() as int, cs.len() as int) =~= Seq::<u64>::empty());
        0
    }

    fn extract_array_type(&mut self, idx: usize, stack: &mut Vec<u64>, fuel: usize) -> (k:
        BaseTypeKind)
        requires
            old(self).inv(),
            idx < old(self).unit().dies@.len(),
            old(self).unit().dies@[idx as int].tag == TAG_ARRAY_TYPE,
        ensures
            final(stack)@ == old(stack)@,
            final(self).inv(),
            extends(old(self).registry(), final(self).registry()),
            refs_stored(final(self).registry(), k),
            final(self).unit() == old(self).unit(),
            final(self).memo@ == old(self).memo@,
            k matches BaseTypeKind::Array { element_type_id, count, size } && element_type_id
                == ref_id(old(self).unit(), old(self).unit().dies@[idx as int].type_ref, old(stack)@, fuel as nat) && count == subrange_count(
                old(self).unit(),
                old(self).unit().dies@[idx as int].children@,
            ) && size == if ref_size(old(self).unit(), old(self).unit().dies@[idx as int].type_ref, old(stack)@, fuel as nat) as int * count as int
                <= usize::MAX {
                (ref_size(old(self).unit(), old(self).unit().dies@[idx as int].type_ref, old(stack)@, fuel as nat) * count) as usize
            } else {
                0
            },
        decreases fuel, 2nat,
    {
        let unit = self.unit;
        let die = &unit.dies[idx];
        let (element_type_id, element_size) = self.resolve_ref(die.type_ref, stack, fuel);
        let count = self.extract_array_count(idx);
        // a size that does not fit counts as unknown
        let size = match element_size.checked_mul(count) {
            Some(s) => s,
            None => 0,
        };
        let k = BaseTypeKind::Array { element_type_id, count, size };
        assert(refs_of_kind(k) =~= seq![element_type_id]);
        k
    }

    #[verifier::rlimit(60)]
    fn extract_function_type(&mut self, idx: usize, stack: &mut Vec<u64>, fuel: usize) -> (k:
        BaseTypeKind)
        requires
            old(self).inv(),
            idx < old(self).unit().dies@.len(),
            old(self).unit().dies@[idx as int].tag == TAG_SUBROUTINE_TYPE,
        ensures
            final(stack)@ == old(stack)@,
            final(self).inv(),
            extends(old(self).registry(), final(self).registry()),
            refs_stored(final(self).registry(), k),
            final(self).unit() == old(self).unit(),
            final(self).memo@ == old(self).memo@,
            k matches BaseTypeKind::Function { return_type_id, parameter_type_ids, is_variadic }
                && return_type_id == match old(self).unit().dies@[idx as int].type_ref {
                Some(o) => Some(resolve_id(old(self).unit(), o, old(stack)@, fuel as nat)),
                None => None,
            } && parameter_type_ids@ == param_ids(old(self).unit(), old(self).unit().dies@[idx as int].children@, old(stack)@, fuel as nat)
                && is_variadic == exists|j: int|
                0 <= j < old(self).unit().dies@[idx as int].children@.len() && is_tag(
                    #[trigger] child_dies(old(self).unit(), old(self).unit().dies@[idx as int])[j],
                    TAG_UNSPECIFIED_PARAMETERS,
                ),
        decreases fuel, 2nat,
    {
        let unit = self.unit;
        let die = &unit.dies[idx];
        let return_type_id = match die.type_ref {
            Some(r) => {
                let (id, _, _) = self.resolve(r, stack, fuel);
                Some(id)
            },
            None => None,
        };
        let mut parameter_type_ids: Vec<TypeId> = Vec::new();
        let is_variadic = has_unspecified_parameters(unit, die);
        let mut c: usize = 0;
        assert(die.children@.take(0) =~= Seq::<u64>::empty());
        while c < die.children.len()
            invariant
                self.inv(),
                self.unit() == old(self).unit(),
                self.memo@ == old(self).memo@,
                extends(old(self).registry(), self.registry()),
                stack@ == old(stack)@,
                *unit == old(self).unit(),
                *die == old(self).unit().dies@[idx as int],
                c <= die.children@.len(),
                forall|j: int| 0 <= j < parameter_type_ids@.len() ==> self.registry().has_id(#[trigger] parameter_type_ids@[j]),
                parameter_type_ids@ == param_ids(*unit, die.children@.take(c as int), stack@, fuel as nat),
                return_type_id == match die.type_ref {
                    Some(o) => Some(resolve_id(*unit, o, stack@, fuel as nat)),
                    None => None,
                },
                match return_type_id {
                    Some(r) => self.registry().has_id(r),
                    None => true,
                },
            decreases die.children@.len() - c,
        {
            let child_off = die.children[c];
            let ghost cs = die.children@.take(c + 1);
            proof {
                assert(cs.drop_last() =~= die.children@.take(c as int));
                assert(cs.last() == child_off);
            }
            let entry = unit.entry_at(child_off);
            proof {
                reveal_strlit("");
                assert(""@ =~= Seq::<char>::empty());
            }
            match entry {
                Some(ci) => {
                    let child = &unit.dies[ci];
                    if child.tag == TAG_FORMAL_PARAMETER {
                        let ghost before = self.registry();
                        let (type_id, _) = self.resolve_ref(child.type_ref, stack, fuel);
                    proof {
                        lemma_prefix_has_id(before, self.registry());
                        lemma_prefix_trans(old(self).registry().types, before.types, self.registry().types);
                    }
                        parameter_type_ids.push(type_id);
                    }
                },
                None => {},
            }
            c = c + 1;
        }
        assert(die.children@.take(die.children@.len() as int) =~= die.children@);
        let k = BaseTypeKind::Function { return_type_id, parameter_type_ids, is_variadic };
        k
    }
}

} // verus!
