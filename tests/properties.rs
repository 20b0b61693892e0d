use dwarffi::{
    BaseTypeKind, EnumVariant, FfiBackend, FunctionSignature, StructField, SymbolInfo, Type,
    TypeId, TypeRegistry, UnionField, select_exported_symbols, sort_by_name,
};

fn prim(name: &str, size: usize, depth: usize, is_const: bool, offset: Option<u64>) -> Type {
    Type {
        id: TypeId(0),
        kind: BaseTypeKind::Primitive { name: name.to_string(), size, alignment: size },
        pointer_depth: depth,
        is_const,
        is_volatile: false,
        dwarf_offset: offset,
    }
}

fn status_enum(order: &[(&str, i64)], offset: Option<u64>, backing: TypeId) -> Type {
    Type {
        id: TypeId(0),
        kind: BaseTypeKind::Enum {
            name: "Status".to_string(),
            backing_id: backing,
            variants: order
                .iter()
                .map(|(n, v)| EnumVariant { name: n.to_string(), value: *v })
                .collect(),
            size: 4,
        },
        pointer_depth: 0,
        is_const: false,
        is_volatile: false,
        dwarf_offset: offset,
    }
}

#[test]
fn registering_twice_adds_one_record() {
    let mut reg = TypeRegistry::new();
    let a = reg.register_type(prim("int", 4, 0, false, Some(0x10)));
    assert_eq!(reg.len(), 1);
    let b = reg.register_type(prim("int", 4, 0, false, Some(0x10)));
    assert_eq!(a, b);
    assert_eq!(reg.len(), 1);
    // the stored record carries its content id, whatever id it was given
    assert_eq!(reg.get_type(a).unwrap().id, a);
}

#[test]
fn provenance_does_not_change_identity() {
    let mut reg = TypeRegistry::new();
    let a = reg.register_type(prim("int", 4, 0, false, Some(0x10)));
    let b = reg.register_type(prim("int", 4, 0, false, Some(0x99)));
    assert_eq!(a, b);
    assert_eq!(reg.len(), 1);
    // the second offset was not indexed: the record was already stored
    assert!(reg.get_by_dwarf_offset(0x99).is_none());
    assert_eq!(reg.get_by_dwarf_offset(0x10).unwrap().id, a);
}

#[test]
fn qualifiers_and_depth_change_identity() {
    let mut reg = TypeRegistry::new();
    let plain = reg.register_type(prim("int", 4, 0, false, None));
    let ptr = reg.register_type(prim("int", 4, 1, false, None));
    let cst = reg.register_type(prim("int", 4, 0, true, None));
    let mut vol = prim("int", 4, 0, false, None);
    vol.is_volatile = true;
    let vol = reg.register_type(vol);
    assert_ne!(plain, ptr);
    assert_ne!(plain, cst);
    assert_ne!(plain, vol);
    assert_ne!(cst, vol);
    assert_eq!(reg.get_by_name("int").len(), 4);
}

#[test]
fn union_member_order_does_not_change_identity() {
    let mut reg = TypeRegistry::new();
    let int_id = reg.register_type(prim("int", 4, 0, false, None));
    let float_id = reg.register_type(prim("float", 4, 0, false, None));
    let make = |fields: Vec<(&str, TypeId)>| Type {
        id: TypeId(0),
        kind: BaseTypeKind::Union {
            name: "Data".to_string(),
            variants: fields
                .into_iter()
                .map(|(n, t)| UnionField { name: n.to_string(), type_id: t })
                .collect(),
            size: 4,
            alignment: 4,
        },
        pointer_depth: 0,
        is_const: false,
        is_volatile: false,
        dwarf_offset: None,
    };
    let a = reg.register_type(make(vec![("i", int_id), ("f", float_id)]));
    let b = reg.register_type(make(vec![("f", float_id), ("i", int_id)]));
    assert_eq!(a, b);
    // a different member type is a different union
    let c = reg.register_type(make(vec![("f", int_id), ("i", int_id)]));
    assert_ne!(a, c);
}

#[test]
fn enums_from_two_registries_merge_into_one_record() {
    let mut left = TypeRegistry::new();
    let int_l = left.register_type(prim("int", 4, 0, false, Some(0x10)));
    let a = left.register_type(status_enum(&[("OK", 0), ("ERR", 1)], Some(0x20), int_l));
    let mut right = TypeRegistry::new();
    let int_r = right.register_type(prim("int", 4, 0, false, Some(0x110)));
    let b = right.register_type(status_enum(&[("ERR", 1), ("OK", 0)], Some(0x120), int_r));
    assert_eq!(a, b);
    let before = left.len();
    left.merge(right);
    assert_eq!(left.len(), before);
    assert_eq!(left.get_by_name("Status").len(), 1);
    // offsets from the second registry are indexed too
    assert_eq!(left.get_by_dwarf_offset(0x120).unwrap().id, a);
}

fn sample(first: bool) -> TypeRegistry {
    let mut reg = TypeRegistry::new();
    let int_id = reg.register_type(prim("int", 4, 0, false, None));
    if first {
        reg.register_type(prim("float", 4, 0, false, None));
    } else {
        reg.register_type(prim("double", 8, 0, false, None));
    }
    reg.register_type(Type {
        id: TypeId(0),
        kind: BaseTypeKind::Typedef { name: "myint".to_string(), aliased_type_id: int_id },
        pointer_depth: 0,
        is_const: false,
        is_volatile: false,
        dwarf_offset: None,
    });
    reg
}

fn ids(reg: &TypeRegistry) -> Vec<TypeId> {
    let mut v: Vec<TypeId> = reg.all_types().map(|t| t.id).collect();
    v.sort();
    v
}

#[test]
fn merge_in_either_order_holds_the_same_records() {
    let mut ab = sample(true);
    ab.merge(sample(false));
    let mut ba = sample(false);
    ba.merge(sample(true));
    assert_eq!(ids(&ab), ids(&ba));
    assert_eq!(ab.len(), 4);
    for t in ab.all_types() {
        let u = ba.get_type(t.id).unwrap();
        assert_eq!(t.to_c_string(&ab), u.to_c_string(&ba));
    }
}

#[test]
fn merging_a_registry_with_its_copy_changes_nothing() {
    let mut a = sample(true);
    let before: Vec<TypeId> = a.all_types().map(|t| t.id).collect();
    a.merge(sample(true));
    let after: Vec<TypeId> = a.all_types().map(|t| t.id).collect();
    assert_eq!(before, after);
}

#[test]
fn merge_into_empty_registry() {
    let mut empty = TypeRegistry::new();
    assert!(empty.is_empty());
    empty.merge(sample(true));
    assert_eq!(empty.len(), 3);
    let mut other = sample(true);
    other.merge(TypeRegistry::new());
    assert_eq!(other.len(), 3);
}

#[test]
fn struct_field_order_matters() {
    let mut reg = TypeRegistry::new();
    let int_id = reg.register_type(prim("int", 4, 0, false, None));
    let make = |names: [&str; 2]| Type {
        id: TypeId(0),
        kind: BaseTypeKind::Struct {
            name: "P".to_string(),
            fields: names
                .iter()
                .enumerate()
                .map(|(i, n)| StructField {
                    name: n.to_string(),
                    type_id: int_id,
                    offset: 4 * i,
                    size: 4,
                })
                .collect(),
            size: 8,
            alignment: 4,
            is_opaque: false,
        },
        pointer_depth: 0,
        is_const: false,
        is_volatile: false,
        dwarf_offset: None,
    };
    let a = reg.register_type(make(["x", "y"]));
    let b = reg.register_type(make(["y", "x"]));
    assert_ne!(a, b);
}

#[test]
fn c_text_of_qualified_and_nested_types() {
    let mut reg = TypeRegistry::new();
    let mut cv = prim("int", 4, 2, true, None);
    cv.is_volatile = true;
    assert_eq!(cv.to_c_string(&reg), "volatile const int**");
    let int_id = reg.register_type(prim("int", 4, 0, false, None));
    let inner = reg.register_type(Type {
        id: TypeId(0),
        kind: BaseTypeKind::Array { element_type_id: int_id, count: 10, size: 40 },
        pointer_depth: 0,
        is_const: false,
        is_volatile: false,
        dwarf_offset: None,
    });
    let outer = Type {
        id: TypeId(0),
        kind: BaseTypeKind::Array { element_type_id: inner, count: 123, size: 4920 },
        pointer_depth: 1,
        is_const: false,
        is_volatile: false,
        dwarf_offset: None,
    };
    assert_eq!(outer.to_c_string(&reg), "int[10][123]*");
    let dangling = Type {
        id: TypeId(0),
        kind: BaseTypeKind::Array { element_type_id: TypeId(42), count: 0, size: 0 },
        pointer_depth: 0,
        is_const: false,
        is_volatile: false,
        dwarf_offset: None,
    };
    assert_eq!(dangling.to_c_string(&reg), "void[0]");
    let union = Type {
        id: TypeId(0),
        kind: BaseTypeKind::Union { name: "U".to_string(), variants: vec![], size: 0, alignment: 1 },
        pointer_depth: 0,
        is_const: true,
        is_volatile: false,
        dwarf_offset: None,
    };
    assert_eq!(union.to_c_string(&reg), "const union U");
    let func = Type {
        id: TypeId(0),
        kind: BaseTypeKind::Function {
            return_type_id: None,
            parameter_type_ids: vec![],
            is_variadic: true,
        },
        pointer_depth: 0,
        is_const: false,
        is_volatile: false,
        dwarf_offset: None,
    };
    assert_eq!(func.to_c_string(&reg), "void (*)(...)");
    assert_eq!(func.get_name(), "<function>");
    assert_eq!(outer.get_name(), "<array>");
}

#[test]
fn signature_with_unknown_type_ids_renders_void() {
    let reg = TypeRegistry::new();
    let sig = FunctionSignature {
        name: "f".to_string(),
        return_type_id: TypeId(7),
        parameters: vec![dwarffi::Parameter { name: "p".to_string(), type_id: TypeId(8) }],
        is_variadic: false,
        is_exported: true,
    };
    assert_eq!(sig.to_string(&reg), "void f(void p)");
}

fn sig(name: &str) -> FunctionSignature {
    FunctionSignature {
        name: name.to_string(),
        return_type_id: TypeId(0),
        parameters: vec![],
        is_variadic: false,
        is_exported: true,
    }
}

#[test]
fn signatures_sort_by_name_bytes() {
    let sorted = sort_by_name(vec![sig("zeta"), sig("Alpha"), sig("alpha"), sig("al"), sig("_x")]);
    let names: Vec<&str> = sorted.iter().map(|s| s.name.as_str()).collect();
    assert_eq!(names, vec!["Alpha", "_x", "al", "alpha", "zeta"]);
    assert!(sort_by_name(vec![]).is_empty());
}

fn sym(name: &str, definition: bool, text: bool, global: bool) -> SymbolInfo {
    SymbolInfo {
        name: Some(name.to_string()),
        is_definition: definition,
        is_text: text,
        is_global: global,
    }
}

#[test]
fn dynamic_symbols_win_over_regular_ones() {
    let dynamic = vec![
        sym("exported", true, true, false),
        sym("exported", true, true, true),
        sym("data", true, false, true),
        sym("imported", false, true, true),
    ];
    let regular = vec![sym("other", true, true, true)];
    assert_eq!(select_exported_symbols(&dynamic, &regular), vec!["exported".to_string()]);
}

#[test]
fn regular_symbols_used_for_static_objects() {
    let dynamic = vec![sym("data", true, false, true)];
    let regular = vec![
        sym("global_fn", true, true, true),
        sym("local_fn", true, true, false),
        SymbolInfo { name: None, is_definition: true, is_text: true, is_global: true },
    ];
    assert_eq!(select_exported_symbols(&dynamic, &regular), vec!["global_fn".to_string()]);
    assert!(select_exported_symbols(&vec![], &vec![]).is_empty());
}

#[test]
fn backend_names() {
    assert_eq!(FfiBackend::from_str("koffi"), Some(FfiBackend::Koffi));
    assert_eq!(FfiBackend::from_str("ref-napi"), None);
    assert_eq!(FfiBackend::from_str(""), None);
    assert_eq!(FfiBackend::default(), FfiBackend::Koffi);
}
