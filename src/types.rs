//! Function signatures and their C rendering.

use vstd::prelude::*;
use vstd::string::*;
use vstd::multiset::*;
use vstd::seq_lib::*;
use crate::canonical::{lex_le, lex_le_exec, lemma_lex_le_total, lemma_lex_le_transitive};
use crate::type_registry::{TypeId, TypeRegistry, id_to_c, utf8_of};

verus! {

/// A C function parameter: its name (possibly empty) and its type.
#[derive(Clone, Debug)]
pub struct Parameter {
    pub name: String,
    pub type_id: TypeId,
}

/// A complete C function signature.
#[derive(Clone, Debug)]
pub struct FunctionSignature {
    pub name: String,
    pub return_type_id: TypeId,
    pub parameters: Vec<Parameter>,
    pub is_variadic: bool,
    pub is_exported: bool,
}

/// A parameter's text: its type, followed by its name where it has one.
pub open spec fn param_to_c(p: Parameter, reg: crate::type_registry::RegistryView) -> Seq<char> {
    if p.name@.len() == 0 {
        id_to_c(p.type_id, reg)
    } else {
        id_to_c(p.type_id, reg) + " "@ + p.name@
    }
}

/// Parameter texts joined with `, `.
pub open spec fn params_joined(s: Seq<Parameter>, reg: crate::type_registry::RegistryView) -> Seq<
    char,
>
    decreases s.len(),
{
    if s.len() == 0 {
        Seq::empty()
    } else if s.len() == 1 {
        param_to_c(s[0], reg)
    } else {
        params_joined(s.drop_last(), reg) + ", "@ + param_to_c(s.last(), reg)
    }
}

/// The text between the parentheses: `void` for no parameters, else the
/// joined parameters, with `, ...` after them for a variadic function.
pub open spec fn params_to_c(sig: FunctionSignature, reg: crate::type_registry::RegistryView) -> Seq<
    char,
> {
    if sig.parameters@.len() == 0 {
        "void"@
    } else if sig.is_variadic {
        params_joined(sig.parameters@, reg) + ", ..."@
    } else {
        params_joined(sig.parameters@, reg)
    }
}

/// `RET NAME(PARAMS)`.
pub open spec fn signature_to_c(sig: FunctionSignature, reg: crate::type_registry::RegistryView) -> Seq<
    char,
> {
    id_to_c(sig.return_type_id, reg) + " "@ + sig.name@ + "("@ + params_to_c(sig, reg) + ")"@
}

/// C text of the type stored under `id`, or `void`.
pub fn id_c_string(registry: &TypeRegistry, id: TypeId) -> (r: String)
    requires
        registry@.wf(),
    ensures
        r@ == id_to_c(id, registry@),
{
    match registry.get_type(id) {
        Some(t) => t.to_c_string(registry),
        None => String::from_str("void"),
    }
}

impl FunctionSignature {
    /// The signature as a C declaration, without the trailing semicolon.
    pub fn to_string(&self, registry: &TypeRegistry) -> (r: String)
        requires
            registry@.wf(),
        ensures
            r@ == signature_to_c(*self, registry@),
    {
        let mut out = id_c_string(registry, self.return_type_id);
        out.append(" ");
        out.append(self.name.as_str());
        out.append("(");
        if self.parameters.len() == 0 {
            out.append("void");
        } else {
            let ghost prefix = out@;
            let ghost ps = self.parameters@;
            let mut i: usize = 0;
            while i < self.parameters.len()
                invariant
                    0 < ps.len(),
                    ps == self.parameters@,
                    i <= ps.len(),
                    registry@.wf(),
                    out@ == prefix + params_joined(ps.take(i as int), registry@),
                decreases ps.len() - i,
            {
                let ghost before = out@;
                if i > 0 {
                    out.append(", ");
                }
                let p = &self.parameters[i];
                let ty = id_c_string(registry, p.type_id);
                out.append(ty.as_str());
                if p.name.as_str().is_empty() == false {
                    out.append(" ");
                    out.append(p.name.as_str());
                }
                proof {
                    assert(ps.take(i + 1).drop_last() =~= ps.take(i as int));
                    if i == 0 {
                        assert(ps.take(1)[0] == ps[0]);
                    }
                }
                i = i + 1;
                assert(out@ =~= prefix + params_joined(ps.take(i as int), registry@));
            }
            assert(ps.take(ps.len() as int) =~= ps);
            if self.is_variadic {
                out.append(", ...");
            }
        }
        out.append(")");
        assert(out@ =~= signature_to_c(*self, registry@));
        out
    }
}


/// Order of signatures by the UTF-8 bytes of their names.
pub open spec fn name_le(a: FunctionSignature, b: FunctionSignature) -> bool {
    lex_le(utf8_of(a.name), utf8_of(b.name))
}

fn name_le_exec(a: &FunctionSignature, b: &FunctionSignature) -> (r: bool)
    ensures
        r == name_le(*a, *b),
{
    lex_le_exec(a.name.as_str().as_bytes(), b.name.as_str().as_bytes())
}

/// The signatures sorted by the UTF-8 bytes of their names, ascending.
pub fn sort_by_name(sigs: Vec<FunctionSignature>) -> (r: Vec<FunctionSignature>)
    ensures
        r@.to_multiset() == sigs@.to_multiset(),
        forall|i: int, j: int| 0 <= i < j < r@.len() ==> name_le(#[trigger] r@[i], #[trigger] r@[j]),
{
    broadcast use group_to_multiset_ensures, group_multiset_axioms;

    let mut rest = sigs;
    let mut out: Vec<FunctionSignature> = Vec::new();
    assert(rest@ + out@ =~= sigs@);
    while rest.len() > 0
        invariant
            (rest@ + out@).to_multiset() == sigs@.to_multiset(),
            forall|i: int, j: int| 0 <= i < j < out@.len() ==> name_le(#[trigger] out@[i], #[trigger] out@[j]),
        decreases rest@.len(),
    {
        let ghost r0 = rest@;
        let ghost o0 = out@;
        let s = rest.pop().unwrap();
        let mut p: usize = 0;
        while p < out.len() && !name_le_exec(&s, &out[p])
            invariant
                p <= out@.len(),
                out@ == o0,
                forall|k: int| 0 <= k < p ==> !name_le(s, #[trigger] out@[k]),
            decreases out@.len() - p,
        {
            p = p + 1;
        }
        out.insert(p, s);
        proof {
            assert(out@ =~= o0.insert(p as int, s));
            lemma_multiset_commutative(rest@, o0.insert(p as int, s));
            lemma_multiset_commutative(r0, o0);
            assert(r0 =~= rest@.push(s));
            to_multiset_insert(o0, p as int, s);
            to_multiset_build(rest@, s);
            assert((rest@ + out@).to_multiset() =~= (r0 + o0).to_multiset());
            assert forall|i: int, j: int| 0 <= i < j < out@.len() implies name_le(
                #[trigger] out@[i],
                #[trigger] out@[j],
            ) by {
                if j < p {
                    assert(out@[i] == o0[i] && out@[j] == o0[j]);
                } else if j == p {
                    assert(out@[i] == o0[i]);
                    lemma_lex_le_total(utf8_of(s.name), utf8_of(o0[i].name));
                } else if i == p {
                    assert(out@[j] == o0[j - 1]);
                    if j - 1 > p {
                        assert(name_le(o0[p as int], o0[j - 1]));
                        lemma_lex_le_transitive(utf8_of(s.name), utf8_of(o0[p as int].name), utf8_of(o0[j - 1].name));
                    }
                } else if i < p {
                    assert(out@[i] == o0[i] && out@[j] == o0[j - 1]);
                    lemma_lex_le_total(utf8_of(s.name), utf8_of(o0[i].name));
                    assert(name_le(o0[i], s));
                    if p < o0.len() {
                        assert(name_le(s, o0[p as int]));
                        lemma_lex_le_transitive(utf8_of(o0[i].name), utf8_of(s.name), utf8_of(o0[p as int].name));
                        if j - 1 > p {
                            assert(name_le(o0[p as int], o0[j - 1]));
                            lemma_lex_le_transitive(utf8_of(o0[i].name), utf8_of(o0[p as int].name), utf8_of(o0[j - 1].name));
                        }
                    }
                } else {
                    assert(out@[i] == o0[i - 1] && out@[j] == o0[j - 1]);
                }
            }
        }
    }
    assert(rest@ + out@ =~= out@);
    out
}

/// The default listing: one `RET NAME(PARAMS);` line per signature, in the
/// order given.
pub fn signature_lines(sigs: &Vec<FunctionSignature>, registry: &TypeRegistry) -> (r: Vec<String>)
    requires
        registry@.wf(),
    ensures
        r@.len() == sigs@.len(),
        forall|k: int| 0 <= k < r@.len() ==> #[trigger] r@[k]@ == signature_to_c(sigs@[k], registry@) + ";"@,
{
    let mut out: Vec<String> = Vec::new();
    let mut i: usize = 0;
    while i < sigs.len()
        invariant
            i <= sigs@.len(),
            registry@.wf(),
            out@.len() == i,
            forall|k: int| 0 <= k < i ==> #[trigger] out@[k]@ == signature_to_c(sigs@[k], registry@) + ";"@,
        decreases sigs@.len() - i,
    {
        let mut line = sigs[i].to_string(registry);
        line.append(";");
        out.push(line);
        i = i + 1;
    }
    out
}

} // verus!
