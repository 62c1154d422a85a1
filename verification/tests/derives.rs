//! Derived implementations.

use refuse::derive::{
    derive_map_as, derive_map_as_inner, derive_trace, field_accessor, require_trace_for_generics,
    Accessor, Arm, Bound, Field, GenericParam, Item, ItemKind, MapAsDerive, TraceDerive, Variant,
    VariantFields, MISSING_TARGET, NOT_DERIVABLE,
};

fn field(ident: Option<&str>, ty: &str, ignore: bool) -> Field {
    Field { ident: ident.map(String::from), ty: String::from(ty), ignore }
}

fn names(fields: &[Accessor]) -> Vec<String> {
    fields
        .iter()
        .map(|accessor| match accessor {
            Accessor::Named(name) => name.clone(),
            Accessor::Index(index) => format!("{index}"),
        })
        .collect()
}

#[test]
fn accessors() {
    assert!(matches!(field_accessor(&field(Some("a"), "u8", false), 3), Accessor::Named(name) if name == "a"));
    assert!(matches!(field_accessor(&field(None, "u8", false), 3), Accessor::Index(3)));
}

#[test]
fn struct_fields_are_traced() {
    let item = Item::Struct(vec![
        field(Some("a"), "Ref < u32 >", false),
        field(Some("b"), "u32", true),
        field(Some("c"), "Ref < u32 >", false),
        field(Some("d"), "String", false),
    ]);
    match derive_trace(&item) {
        Ok(TraceDerive::Struct(derived)) => {
            assert_eq!(names(&derived.fields), ["a", "c", "d"]);
            assert_eq!(derived.types, ["Ref < u32 >", "String"]);
        }
        _ => panic!("a struct is traced as a struct"),
    }
}

#[test]
fn enum_variants_are_traced() {
    let item = Item::Enum(vec![
        Variant { ident: String::from("A"), fields: VariantFields::Unit, ignore: false },
        Variant {
            ident: String::from("B"),
            fields: VariantFields::Unnamed(vec![
                field(None, "u8", false),
                field(None, "u16", true),
                field(None, "u32", false),
            ]),
            ignore: false,
        },
        Variant {
            ident: String::from("C"),
            fields: VariantFields::Named(vec![field(Some("x"), "u8", false)]),
            ignore: false,
        },
        Variant {
            ident: String::from("D"),
            fields: VariantFields::Named(vec![field(Some("x"), "i8", false)]),
            ignore: true,
        },
        Variant {
            ident: String::from("E"),
            fields: VariantFields::Unnamed(vec![field(None, "i8", false)]),
            ignore: true,
        },
    ]);
    match derive_trace(&item) {
        Ok(TraceDerive::Enum(derived)) => {
            assert_eq!(derived.arms.len(), 5);
            assert!(matches!(derived.arms[0], Arm::Unit));
            assert!(matches!(&derived.arms[1], Arm::TraceUnnamed(fields, bound)
                if names(fields) == ["0", "2"] && *bound == [true, false, true]));
            assert!(matches!(&derived.arms[2], Arm::TraceNamed(fields, false) if names(fields) == ["x"]));
            assert!(matches!(derived.arms[3], Arm::IgnoreNamed));
            assert!(matches!(derived.arms[4], Arm::IgnoreUnnamed));
            assert_eq!(derived.types, ["u8", "u32"]);
        }
        _ => panic!("an enum is traced as an enum"),
    }
}

#[test]
fn fields_that_are_left_out() {
    let item = Item::Enum(vec![
        Variant {
            ident: String::from("A"),
            fields: VariantFields::Named(vec![
                field(Some("x"), "u8", true),
                field(Some("y"), "u16", false),
            ]),
            ignore: false,
        },
        Variant {
            ident: String::from("B"),
            fields: VariantFields::Unnamed(vec![field(None, "u32", true)]),
            ignore: false,
        },
    ]);
    match derive_trace(&item) {
        Ok(TraceDerive::Enum(derived)) => {
            assert!(matches!(&derived.arms[0], Arm::TraceNamed(fields, true) if names(fields) == ["y"]));
            assert!(matches!(&derived.arms[1], Arm::TraceUnnamed(fields, bound)
                if fields.is_empty() && *bound == [false]));
            assert_eq!(derived.types, ["u16"]);
        }
        _ => panic!("an enum is traced as an enum"),
    }
}

#[test]
fn empty_items_are_traced() {
    match derive_trace(&Item::Enum(vec![])) {
        Ok(TraceDerive::Enum(derived)) => assert!(derived.arms.is_empty() && derived.types.is_empty()),
        _ => panic!("an enum is traced as an enum"),
    }
    match derive_trace(&Item::Struct(vec![])) {
        Ok(TraceDerive::Struct(derived)) => assert!(derived.fields.is_empty() && derived.types.is_empty()),
        _ => panic!("a struct is traced as a struct"),
    }
}

#[test]
fn other_items_are_refused() {
    assert!(matches!(derive_trace(&Item::Other), Err(message) if message == NOT_DERIVABLE));
    assert!(matches!(derive_map_as(ItemKind::Other, None, None), Err(message) if message == NOT_DERIVABLE));
}

#[test]
fn mappings() {
    let target = || Some(String::from("dyn SomeTrait"));
    let map = || Some(String::from("& self . 0"));
    match derive_map_as(ItemKind::Struct, target(), map()) {
        Ok(MapAsDerive::Mapped(target, mapped)) => {
            assert_eq!(target, "dyn SomeTrait");
            assert_eq!(mapped, "& self . 0");
        }
        _ => panic!("a target and a mapping map"),
    }
    match derive_map_as_inner(target(), None) {
        Ok(MapAsDerive::Mapped(_, mapped)) => assert_eq!(mapped, "self"),
        _ => panic!("a target maps"),
    }
    assert!(matches!(derive_map_as(ItemKind::Enum, None, None), Ok(MapAsDerive::NoMapping)));
    assert!(matches!(derive_map_as(ItemKind::Enum, None, map()), Err(message) if message == MISSING_TARGET));
}

#[test]
fn type_parameters_are_bounded() {
    let bounds = require_trace_for_generics(&vec![
        GenericParam::Lifetime,
        GenericParam::Type,
        GenericParam::Const,
    ]);
    assert!(bounds[0].is_empty());
    assert_eq!(bounds[1], [Bound::Trace, Bound::Send, Bound::Sync, Bound::Static]);
    assert!(bounds[2].is_empty());
}
