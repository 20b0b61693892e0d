//! Selection of exported function symbols from a binary's symbol tables.

use vstd::prelude::*;

verus! {

/// What export selection reads of one symbol table entry. The name is
/// `None` where it could not be read.
#[derive(Clone, Debug)]
pub struct SymbolInfo {
    pub name: Option<String>,
    /// defined in this binary, not imported
    pub is_definition: bool,
    /// a function (code) symbol
    pub is_text: bool,
    pub is_global: bool,
}

/// Dynamic symbols count when they are named function definitions.
pub open spec fn dynamic_counts(s: SymbolInfo) -> bool {
    s.is_definition && s.is_text && s.name is Some
}

/// Regular symbols count when they are named, global function definitions.
pub open spec fn regular_counts(s: SymbolInfo) -> bool {
    dynamic_counts(s) && s.is_global
}

/// Names of the entries of `s` that `pred` accepts.
pub open spec fn names_where(s: Seq<SymbolInfo>, pred: spec_fn(SymbolInfo) -> bool) -> Set<
    Seq<char>,
> {
    Set::new(
        |n: Seq<char>|
            exists|i: int| 0 <= i < s.len() && pred(#[trigger] s[i]) && s[i].name->Some_0@ == n,
    )
}

/// The exported function names: those of the dynamic table, or, where it
/// has none (a static object file), those of the regular table.
pub open spec fn exported_names(dynamic: Seq<SymbolInfo>, regular: Seq<SymbolInfo>) -> Set<
    Seq<char>,
> {
    let d = names_where(dynamic, |s: SymbolInfo| dynamic_counts(s));
    if d.is_empty() {
        names_where(regular, |s: SymbolInfo| regular_counts(s))
    } else {
        d
    }
}

/// The names of `table` that `global_only` and the definition and function
/// kind tests let through, each once.
fn collect_names(table: &Vec<SymbolInfo>, global_only: bool) -> (r: Vec<String>)
    ensures
        r@.map_values(|s: String| s@).no_duplicates(),
        r@.map_values(|s: String| s@).to_set() == names_where(
            table@,
            if global_only {
                |s: SymbolInfo| regular_counts(s)
            } else {
                |s: SymbolInfo| dynamic_counts(s)
            },
        ),
{
    let ghost pred = if global_only {
        |s: SymbolInfo| regular_counts(s)
    } else {
        |s: SymbolInfo| dynamic_counts(s)
    };
    let mut out: Vec<String> = Vec::new();
    let mut i: usize = 0;
    while i < table.len()
        invariant
            i <= table@.len(),
            pred == (if global_only {
                |s: SymbolInfo| regular_counts(s)
            } else {
                |s: SymbolInfo| dynamic_counts(s)
            }),
            out@.map_values(|s: String| s@).no_duplicates(),
            out@.map_values(|s: String| s@).to_set() == names_where(table@.take(i as int), pred),
        decreases table@.len() - i,
    {
        let ghost before = out@.map_values(|s: String| s@);
        let sym = &table[i];
        let counts = sym.is_definition && sym.is_text && (sym.is_global || !global_only);
        match &sym.name {
            Some(n) => {
                if counts {
                    let mut found = false;
                    let mut j: usize = 0;
                    while j < out.len()
                        invariant
                            j <= out@.len(),
                            before == out@.map_values(|s: String| s@),
                            found == exists|k: int| 0 <= k < j && before[k] == n@,
                        decreases out@.len() - j,
                    {
                        assert(before[j as int] == out@[j as int]@);
                        if out[j] == *n {
                            found = true;
                        }
                        j = j + 1;
                    }
                    if !found {
                        out.push(n.clone());
                        proof {
                            let after = out@.map_values(|s: String| s@);
                            assert(after =~= before.push(n@));
                            assert forall|x: Seq<char>| #[trigger] after.to_set().contains(x)
                                == before.to_set().insert(n@).contains(x) by {
                                if x == n@ {
                                    assert(after[after.len() - 1] == x);
                                } else if before.contains(x) {
                                    let q = choose|q: int| 0 <= q < before.len() && before[q] == x;
                                    assert(after[q] == x);
                                } else if after.contains(x) {
                                    let q = choose|q: int| 0 <= q < after.len() && after[q] == x;
                                    if q < before.len() {
                                        assert(before[q] == x);
                                    }
                                }
                            }
                            assert(after.to_set() =~= before.to_set().insert(n@));
                        }
                    }
                }
            },
            None => {},
        }
        proof {
            let after = out@.map_values(|s: String| s@);
            let prev = table@.take(i as int);
            let next = table@.take(i + 1);
            assert forall|x: Seq<char>| after.to_set().contains(x) == names_where(next, pred).contains(x) by {
                if names_where(next, pred).contains(x) {
                    let k = choose|k: int| 0 <= k < next.len() && pred(#[trigger] next[k]) && next[k].name->Some_0@ == x;
                    if k < i {
                        assert(prev[k] == next[k]);
                        assert(names_where(prev, pred).contains(x));
                    } else {
                        assert(next[k] == *sym);
                        if before.to_set().contains(x) {
                        } else {
                            assert(!exists|q: int| 0 <= q < before.len() && before[q] == x);
                        }
                    }
                }
                if after.to_set().contains(x) {
                    if before.to_set().contains(x) {
                        assert(names_where(prev, pred).contains(x));
                        let k = choose|k: int| 0 <= k < prev.len() && pred(#[trigger] prev[k]) && prev[k].name->Some_0@ == x;
                        assert(next[k] == prev[k]);
                    } else {
                        assert(next[i as int] == *sym);
                    }
                }
            }
            assert(after.to_set() =~= names_where(next, pred));
        }
        i = i + 1;
    }
    assert(table@.take(table@.len() as int) =~= table@);
    out
}

/// The exported function names of a binary, each once: see `exported_names`.
pub fn select_exported_symbols(dynamic: &Vec<SymbolInfo>, regular: &Vec<SymbolInfo>) -> (r: Vec<
    String,
>)
    ensures
        r@.map_values(|s: String| s@).no_duplicates(),
        r@.map_values(|s: String| s@).to_set() == exported_names(dynamic@, regular@),
{
    let names = collect_names(dynamic, false);
    if names.len() == 0 {
        proof {
            assert(names@.map_values(|s: String| s@).to_set() =~= Set::empty());
        }
        collect_names(regular, true)
    } else {
        proof {
            let v = names@.map_values(|s: String| s@);
            assert(v.to_set().contains(v[0]));
        }
        names
    }
}

} // verus!
