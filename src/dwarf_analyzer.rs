//! Function extraction over the entries of each compilation unit, export
//! filtering, and the merge of per-unit registries into one.

use vstd::prelude::*;
use vstd::string::*;
use crate::die::{
    Die, DieTable, TAG_FORMAL_PARAMETER, TAG_SUBPROGRAM, TAG_UNSPECIFIED_PARAMETERS, child_dies,
    is_tag,
};
use crate::type_registry::{RegistryView, TypeId, TypeRegistry, lemma_prefix_has_id, lemma_prefix_trans};
use crate::type_resolver::{TypeResolver, extends, ref_id};
use crate::types::{FunctionSignature, Parameter};
use crate::laws::{lemma_merge_closed, lemma_merge_record};

verus! {

/// The bytes of one binary that carries DWARF debugging information.
pub struct DwarfAnalyzer {
    data: Vec<u8>,
}

impl DwarfAnalyzer {
    pub fn new(data: Vec<u8>) -> (r: Self)
        ensures
            r.spec_data() == data@,
    {
        DwarfAnalyzer { data }
    }

    pub closed spec fn spec_data(&self) -> Seq<u8> {
        self.data@
    }

    pub fn data(&self) -> (r: &Vec<u8>)
        ensures
            r@ == self.spec_data(),
    {
        &self.data
    }
}

/// Signatures of a binary's functions, with the registry their type ids live in.
pub struct AnalysisResult {
    pub signatures: Vec<FunctionSignature>,
    pub type_registry: TypeRegistry,
}

/// An entry's own name: its linkage name, else its plain name.
pub open spec fn own_name(d: Die) -> Option<Seq<char>> {
    match d.linkage_name {
        Some(n) => Some(n@),
        None => match d.name {
            Some(n) => Some(n@),
            None => None,
        },
    }
}

/// The own name of the entry that a reference leads to.
pub open spec fn referenced_name(unit: DieTable, r: Option<u64>) -> Option<Seq<char>> {
    match r {
        Some(o) => match unit.die_at(o) {
            Some(d) => own_name(d),
            None => None,
        },
        None => None,
    }
}

/// A function's name: none for a compiler-generated one; else its own name,
/// else the name its specification has, else the name its abstract origin
/// has.
pub open spec fn function_name(unit: DieTable, d: Die) -> Option<Seq<char>> {
    if d.artificial {
        None
    } else if own_name(d) is Some {
        own_name(d)
    } else if referenced_name(unit, d.specification) is Some {
        referenced_name(unit, d.specification)
    } else {
        referenced_name(unit, d.abstract_origin)
    }
}

/// `name` is exported when no symbol list is given, or when the list holds
/// it with or without a leading underscore.
pub open spec fn exported(symbols: Option<Seq<Seq<char>>>, name: Seq<char>) -> bool {
    match symbols {
        None => true,
        Some(s) => s.contains(name) || s.contains("_"@ + name),
    }
}

pub open spec fn symbol_list(symbols: Option<Vec<String>>) -> Option<Seq<Seq<char>>> {
    match symbols {
        Some(v) => Some(v@.map_values(|s: String| s@)),
        None => None,
    }
}

/// The entry is a named, exported function definition.
pub open spec fn selected(unit: DieTable, d: Die, symbols: Option<Seq<Seq<char>>>) -> bool {
    &&& d.tag == TAG_SUBPROGRAM
    &&& !d.declaration
    &&& function_name(unit, d) is Some
    &&& exported(symbols, function_name(unit, d)->Some_0)
}

/// Names of a function's formal parameters, in order; empty where absent.
pub open spec fn param_names(cs: Seq<Option<Die>>) -> Seq<Seq<char>> {
    cs.filter(|c: Option<Die>| is_tag(c, TAG_FORMAL_PARAMETER)).map_values(
        |c: Option<Die>|
            match c->Some_0.name {
                Some(n) => n@,
                None => Seq::empty(),
            },
    )
}

/// Types of a function's formal parameters, in order: what resolving each
/// one's type reference from the top gives, `void` where it has none.
pub open spec fn param_type_ids(unit: DieTable, cs: Seq<Option<Die>>) -> Seq<TypeId> {
    cs.filter(|c: Option<Die>| is_tag(c, TAG_FORMAL_PARAMETER)).map_values(
        |c: Option<Die>| ref_id(unit, c->Some_0.type_ref, Seq::empty(), unit.dies@.len()),
    )
}

/// What a signature says of the entry it was extracted from.
pub open spec fn describes(
    unit: DieTable,
    d: Die,
    symbols: Option<Seq<Seq<char>>>,
    sig: FunctionSignature,
    reg: RegistryView,
) -> bool {
    &&& sig.name@ == function_name(unit, d)->Some_0
    &&& sig.is_exported == exported(symbols, sig.name@)
    &&& sig.parameters@.map_values(|p: Parameter| p.name@) == param_names(child_dies(unit, d))
    &&& sig.parameters@.map_values(|p: Parameter| p.type_id) == param_type_ids(unit, child_dies(unit, d))
    &&& sig.return_type_id == ref_id(unit, d.type_ref, Seq::empty(), unit.dies@.len())
    &&& sig.is_variadic == exists|k: int|
        0 <= k < d.children@.len() && is_tag(
            #[trigger] child_dies(unit, d)[k],
            TAG_UNSPECIFIED_PARAMETERS,
        )
    &&& reg.has_id(sig.return_type_id)
    &&& forall|k: int| 0 <= k < sig.parameters@.len() ==> reg.has_id(#[trigger] sig.parameters@[k].type_id)
}

/// The entries of the unit that yield a signature, in order.
pub open spec fn selected_dies(unit: DieTable, symbols: Option<Seq<Seq<char>>>) -> Seq<Die> {
    unit.dies@.filter(|d: Die| selected(unit, d, symbols))
}

fn contains_name(symbols: &Vec<String>, name: &String) -> (r: bool)
    ensures
        r == symbols@.map_values(|s: String| s@).contains(name@),
{
    let ghost v = symbols@.map_values(|s: String| s@);
    let mut i: usize = 0;
    while i < symbols.len()
        invariant
            i <= symbols@.len(),
            v == symbols@.map_values(|s: String| s@),
            forall|j: int| 0 <= j < i ==> v[j] != name@,
        decreases symbols@.len() - i,
    {
        if symbols[i] == *name {
            assert(v[i as int] == name@);
            return true;
        }
        i = i + 1;
    }
    false
}

fn is_exported(symbols: &Option<Vec<String>>, name: &String) -> (r: bool)
    ensures
        r == exported(symbol_list(*symbols), name@),
{
    match symbols {
        None => true,
        Some(s) => {
            let prefixed = String::from_str("_").concat(name.as_str());
            contains_name(s, name) || contains_name(s, &prefixed)
        },
    }
}


fn read_entry_name(die: &Die) -> (r: Option<String>)
    ensures
        match r {
            Some(n) => own_name(*die) == Some(n@),
            None => own_name(*die) is None,
        },
{
    match &die.linkage_name {
        Some(n) => Some(n.clone()),
        None => match &die.name {
            Some(n) => Some(n.clone()),
            None => None,
        },
    }
}

fn resolve_name_reference(unit: &DieTable, r: Option<u64>) -> (n: Option<String>)
    ensures
        match n {
            Some(s) => referenced_name(*unit, r) == Some(s@),
            None => referenced_name(*unit, r) is None,
        },
{
    match r {
        Some(o) => match unit.entry_at(o) {
            Some(i) => read_entry_name(&unit.dies[i]),
            None => None,
        },
        None => None,
    }
}

fn get_function_name(unit: &DieTable, die: &Die) -> (r: Option<String>)
    ensures
        match r {
            Some(n) => function_name(*unit, *die) == Some(n@),
            None => function_name(*unit, *die) is None,
        },
{
    if die.artificial {
        return None;
    }
    match read_entry_name(die) {
        Some(n) => {
            return Some(n);
        },
        None => {},
    }
    match resolve_name_reference(unit, die.specification) {
        Some(n) => {
            return Some(n);
        },
        None => {},
    }
    resolve_name_reference(unit, die.abstract_origin)
}

/// The formal parameters of the function entry `die`, and whether it takes
/// further unspecified arguments.
#[verifier::rlimit(40)]
fn extract_parameters(unit: &DieTable, die: &Die, resolver: &mut TypeResolver) -> (r: (
    Vec<Parameter>,
    bool,
))
    requires
        old(resolver).inv(),
        old(resolver).unit() == *unit,
    ensures
        final(resolver).inv(),
        extends(old(resolver).registry(), final(resolver).registry()),
        r.0@.map_values(|p: Parameter| p.name@) == param_names(child_dies(*unit, *die)),
        r.0@.map_values(|p: Parameter| p.type_id) == param_type_ids(*unit, child_dies(*unit, *die)),
        final(resolver).unit() == old(resolver).unit(),
        r.1 == exists|k: int|
            0 <= k < die.children@.len() && is_tag(
                #[trigger] child_dies(*unit, *die)[k],
                TAG_UNSPECIFIED_PARAMETERS,
            ),
        forall|k: int| 0 <= k < r.0@.len() ==> final(resolver).registry().has_id(#[trigger] r.0@[k].type_id),
{
    let ghost cs = child_dies(*unit, *die);
    let ghost fpred = |c: Option<Die>| is_tag(c, TAG_FORMAL_PARAMETER);
    let mut parameters: Vec<Parameter> = Vec::new();
    let mut is_variadic = false;
    let mut c: usize = 0;
    proof {
        reveal(Seq::filter);
        assert(parameters@.map_values(|p: Parameter| p.name@) =~= param_names(cs.take(0)));
        assert(parameters@.map_values(|p: Parameter| p.type_id) =~= param_type_ids(*unit, cs.take(0)));
    }
    while c < die.children.len()
        invariant
            c <= die.children@.len(),
            cs == child_dies(*unit, *die),
            fpred == (|c: Option<Die>| is_tag(c, TAG_FORMAL_PARAMETER)),
            resolver.inv(),
            extends(old(resolver).registry(), resolver.registry()),
            parameters@.map_values(|p: Parameter| p.name@) == param_names(cs.take(c as int)),
            parameters@.map_values(|p: Parameter| p.type_id) == param_type_ids(*unit, cs.take(c as int)),
            resolver.unit() == *unit,
            is_variadic == exists|k: int|
                0 <= k < c && is_tag(#[trigger] cs[k], TAG_UNSPECIFIED_PARAMETERS),
            forall|k: int| 0 <= k < parameters@.len() ==> resolver.registry().has_id(#[trigger] parameters@[k].type_id),
        decreases die.children@.len() - c,
    {
        let ghost before = parameters@.map_values(|p: Parameter| p.name@);
        let ghost before_ids = parameters@.map_values(|p: Parameter| p.type_id);
        let ghost was_variadic = is_variadic;
        let entry = unit.entry_at(die.children[c]);
        proof {
            reveal(Seq::filter);
            assert(cs.take(c + 1).drop_last() =~= cs.take(c as int));
            assert(cs[c as int] == unit.die_at(die.children@[c as int]));
        }
        match entry {
            Some(ci) => {
                let child = &unit.dies[ci];
                if child.tag == TAG_FORMAL_PARAMETER {
                    let name = match &child.name {
                        Some(n) => n.clone(),
                        None => String::new(),
                    };
                    let ghost reg0 = resolver.registry();
                    let type_id = match child.type_ref {
                        Some(o) => resolver.build_type_registry_entry(o),
                        None => resolver.get_void_type_id(),
                    };
                    proof {
                        lemma_prefix_has_id(reg0, resolver.registry());
                        lemma_prefix_trans(old(resolver).registry().types, reg0.types, resolver.registry().types);
                    }
                    parameters.push(Parameter { name, type_id });
                    assert(parameters@.map_values(|p: Parameter| p.name@) =~= before.push(name@));
                    assert(parameters@.map_values(|p: Parameter| p.type_id) =~= before_ids.push(type_id));
                } else if child.tag == TAG_UNSPECIFIED_PARAMETERS {
                    is_variadic = true;
                }
            },
            None => {},
        }
        proof {
            assert(param_names(cs.take(c + 1)) =~= if fpred(cs[c as int]) {
                param_names(cs.take(c as int)).push(
                    match cs[c as int]->Some_0.name {
                        Some(n) => n@,
                        None => Seq::empty(),
                    },
                )
            } else {
                param_names(cs.take(c as int))
            });
            assert(param_type_ids(*unit, cs.take(c + 1)) =~= if fpred(cs[c as int]) {
                param_type_ids(*unit, cs.take(c as int)).push(
                    ref_id(*unit, cs[c as int]->Some_0.type_ref, Seq::empty(), unit.dies@.len()),
                )
            } else {
                param_type_ids(*unit, cs.take(c as int))
            });
            if is_tag(cs[c as int], TAG_UNSPECIFIED_PARAMETERS) {
                assert(is_variadic);
            } else if is_variadic {
                assert(was_variadic);
            }
        }
        c = c + 1;
    }
    assert(cs.take(die.children@.len() as int) =~= cs);
    (parameters, is_variadic)
}


/// A signature stays described when the registry grows.
proof fn lemma_describes_extends(
    unit: DieTable,
    d: Die,
    symbols: Option<Seq<Seq<char>>>,
    sig: FunctionSignature,
    r: RegistryView,
    s: RegistryView,
)
    requires
        describes(unit, d, symbols, sig, r),
        forall|id| r.has_id(id) ==> #[trigger] s.has_id(id),
    ensures
        describes(unit, d, symbols, sig, s),
{
    assert(s.has_id(sig.return_type_id));
    assert forall|k: int| 0 <= k < sig.parameters@.len() implies s.has_id(
        #[trigger] sig.parameters@[k].type_id,
    ) by {
        assert(r.has_id(sig.parameters@[k].type_id));
    }
}

/// One signature per named, exported function definition of the unit, in
/// entry order.
pub fn extract_functions_from_unit(
    unit: &DieTable,
    exported_symbols: &Option<Vec<String>>,
    resolver: &mut TypeResolver,
) -> (r: Vec<FunctionSignature>)
    requires
        old(resolver).inv(),
        old(resolver).unit() == *unit,
    ensures
        final(resolver).inv(),
        extends(old(resolver).registry(), final(resolver).registry()),
        final(resolver).unit() == old(resolver).unit(),
        r@.len() == selected_dies(*unit, symbol_list(*exported_symbols)).len(),
        forall|k: int|
            0 <= k < r@.len() ==> describes(
                *unit,
                selected_dies(*unit, symbol_list(*exported_symbols))[k],
                symbol_list(*exported_symbols),
                #[trigger] r@[k],
                final(resolver).registry(),
            ),
{
    let ghost sym = symbol_list(*exported_symbols);
    let ghost spred = |d: Die| selected(*unit, d, sym);
    let mut signatures: Vec<FunctionSignature> = Vec::new();
    let mut i: usize = 0;
    proof {
        reveal(Seq::filter);
        assert(unit.dies@.take(0).filter(spred) =~= Seq::<Die>::empty());
    }
    while i < unit.dies.len()
        invariant
            i <= unit.dies@.len(),
            sym == symbol_list(*exported_symbols),
            spred == (|d: Die| selected(*unit, d, sym)),
            resolver.inv(),
            extends(old(resolver).registry(), resolver.registry()),
            resolver.unit() == *unit,
            signatures@.len() == unit.dies@.take(i as int).filter(spred).len(),
            forall|k: int|
                0 <= k < signatures@.len() ==> describes(
                    *unit,
                    unit.dies@.take(i as int).filter(spred)[k],
                    sym,
                    #[trigger] signatures@[k],
                    resolver.registry(),
                ),
        decreases unit.dies@.len() - i,
    {
        let die = &unit.dies[i];
        let ghost prev = unit.dies@.take(i as int).filter(spred);
        proof {
            reveal(Seq::filter);
            assert(unit.dies@.take(i + 1).drop_last() =~= unit.dies@.take(i as int));
            assert(unit.dies@.take(i + 1).last() == *die);
        }
        if die.tag == TAG_SUBPROGRAM && !die.declaration {
            match get_function_name(unit, die) {
                Some(name) => {
                    if is_exported(exported_symbols, &name) {
                        let ghost reg0 = resolver.registry();
                        let return_type_id = match die.type_ref {
                            Some(o) => resolver.build_type_registry_entry(o),
                            None => resolver.get_void_type_id(),
                        };
                        let ghost reg1 = resolver.registry();
                        let (parameters, is_variadic) = extract_parameters(unit, die, resolver);
                        proof {
                            lemma_prefix_has_id(reg0, resolver.registry());
                            lemma_prefix_has_id(reg1, resolver.registry());
                            lemma_prefix_trans(reg0.types, reg1.types, resolver.registry().types);
                            lemma_prefix_trans(
                                old(resolver).registry().types,
                                reg0.types,
                                resolver.registry().types,
                            );
                        }
                        let sig = FunctionSignature {
                            name,
                            return_type_id,
                            parameters,
                            is_variadic,
                            is_exported: true,
                        };
                        let ghost old_sigs = signatures@;
                        signatures.push(sig);
                        proof {
                            assert(unit.dies@.take(i + 1).filter(spred) =~= prev.push(*die));
                            assert forall|k: int| 0 <= k < signatures@.len() implies describes(
                                *unit,
                                unit.dies@.take(i + 1).filter(spred)[k],
                                sym,
                                #[trigger] signatures@[k],
                                resolver.registry(),
                            ) by {
                                if k < old_sigs.len() {
                                    assert(signatures@[k] == old_sigs[k]);
                                    lemma_describes_extends(
                                        *unit,
                                        prev[k],
                                        sym,
                                        old_sigs[k],
                                        reg0,
                                        resolver.registry(),
                                    );
                                }
                            }
                        }
                    } else {
                        assert(unit.dies@.take(i + 1).filter(spred) =~= prev);
                    }
                },
                None => {
                    assert(unit.dies@.take(i + 1).filter(spred) =~= prev);
                },
            }
        } else {
            assert(unit.dies@.take(i + 1).filter(spred) =~= prev);
        }
        i = i + 1;
    }
    assert(unit.dies@.take(unit.dies@.len() as int) =~= unit.dies@);
    signatures
}


/// Every selected entry of every unit, with the unit it belongs to, in unit
/// order and then entry order.
pub open spec fn all_selected(units: Seq<DieTable>, symbols: Option<Seq<Seq<char>>>) -> Seq<
    (DieTable, Die),
>
    decreases units.len(),
{
    if units.len() == 0 {
        Seq::empty()
    } else {
        let u = units.last();
        all_selected(units.drop_last(), symbols) + selected_dies(u, symbols).map_values(
            |d: Die| (u, d),
        )
    }
}

/// Extracts the signatures of every unit and merges the units' registries
/// into one. Each signature describes its entry in the merged registry, which
/// is closed: every id in it resolves.
pub fn analyze_units(units: &Vec<DieTable>, exported_symbols: &Option<Vec<String>>) -> (r:
    AnalysisResult)
    ensures
        r.type_registry@.wf(),
        r.type_registry@.closed(),
        r.signatures@.len() == all_selected(units@, symbol_list(*exported_symbols)).len(),
        forall|k: int|
            0 <= k < r.signatures@.len() ==> describes(
                all_selected(units@, symbol_list(*exported_symbols))[k].0,
                all_selected(units@, symbol_list(*exported_symbols))[k].1,
                symbol_list(*exported_symbols),
                #[trigger] r.signatures@[k],
                r.type_registry@,
            ),
{
    let ghost sym = symbol_list(*exported_symbols);
    let mut signatures: Vec<FunctionSignature> = Vec::new();
    let mut combined = TypeRegistry::new();
    let mut u: usize = 0;
    proof {
        reveal_with_fuel(all_selected, 1);
        assert(units@.take(0).len() == 0);
    }
    while u < units.len()
        invariant
            u <= units@.len(),
            sym == symbol_list(*exported_symbols),
            combined@.wf(),
            combined@.closed(),
            signatures@.len() == all_selected(units@.take(u as int), sym).len(),
            forall|k: int|
                0 <= k < signatures@.len() ==> describes(
                    all_selected(units@.take(u as int), sym)[k].0,
                    all_selected(units@.take(u as int), sym)[k].1,
                    sym,
                    #[trigger] signatures@[k],
                    combined@,
                ),
        decreases units@.len() - u,
    {
        let unit = &units[u];
        let mut resolver = TypeResolver::new(unit);
        let mut unit_sigs = extract_functions_from_unit(unit, exported_symbols, &mut resolver);
        let ghost unit_view = resolver.registry();
        let unit_registry = resolver.into_registry();
        let ghost before = combined@;
        let ghost old_sigs = signatures@;
        let ghost new_sigs = unit_sigs@;
        combined.merge(unit_registry);
        proof {
            lemma_merge_closed(before, unit_view);
            assert(before.types.is_prefix_of(combined@.types)) by {
                assert(combined@.types.subrange(0, before.types.len() as int) =~= before.types);
            }
            lemma_prefix_has_id(before, combined@);
            assert forall|id| unit_view.has_id(id) implies #[trigger] combined@.has_id(id) by {
                lemma_merge_record(before, unit_view, id);
            }
        }
        signatures.append(&mut unit_sigs);
        proof {
            let prev = all_selected(units@.take(u as int), sym);
            let here = selected_dies(*unit, sym).map_values(|d: Die| (*unit, d));
            assert(units@.take(u + 1).drop_last() =~= units@.take(u as int));
            assert(units@.take(u + 1).last() == *unit);
            assert(all_selected(units@.take(u + 1), sym) == prev + here);
            assert forall|k: int| 0 <= k < signatures@.len() implies describes(
                all_selected(units@.take(u + 1), sym)[k].0,
                all_selected(units@.take(u + 1), sym)[k].1,
                sym,
                #[trigger] signatures@[k],
                combined@,
            ) by {
                if k < old_sigs.len() {
                    assert(signatures@[k] == old_sigs[k]);
                    assert((prev + here)[k] == prev[k]);
                    lemma_describes_extends(prev[k].0, prev[k].1, sym, old_sigs[k], before, combined@);
                } else {
                    let j = k - old_sigs.len();
                    assert(signatures@[k] == new_sigs[j]);
                    assert((prev + here)[k] == here[j]);
                    lemma_describes_extends(
                        *unit,
                        selected_dies(*unit, sym)[j],
                        sym,
                        new_sigs[j],
                        unit_view,
                        combined@,
                    );
                }
            }
        }
        u = u + 1;
    }
    assert(units@.take(units@.len() as int) =~= units@);
    AnalysisResult { signatures, type_registry: combined }
}

} // verus!
