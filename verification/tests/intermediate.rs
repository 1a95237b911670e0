use std::collections::HashMap;
use std::sync::Arc;

use jaw::intermediate::ast::{BitfldMember, EnumMember, StructMember, Type, TypeKind, VariantMember};
use jaw::intermediate::{IntermediateError, Module, Position, SourceCode, SourceLocation, TypeName};

fn variant_default_check() {
    let source = r#"
variant Bad : u8
> 0 => void
"#;

    let err = Module::from_string("file".into(), source.into()).expect_err("parse should fail");

    let IntermediateError::MalformedMember { reason, .. } = err else {
        panic!("unexpected error kind: {err:?}");
    };
    assert!(
        reason.contains("do not support default"),
        "unexpected error: {reason}"
    );
}

fn imports_check() {
    let source = r#"
from "other.jaw" use {Thing, OtherThing}
pack Local
- a : u8
"#;

    let module = Module::from_string("file".into(), source.into()).unwrap();
    assert_eq!(module.imports.len(), 1);
    let imp = &module.imports[0];
    assert_eq!(imp.path, "other.jaw");
    assert_eq!(
        imp.types.iter().map(|t| t.as_str()).collect::<Vec<_>>(),
        vec!["Thing", "OtherThing"]
    );
}

fn imports_after_declarations_check() {
    let source = r#"
pack Local
- a : u8
from "other.jaw" use {Thing}
"#;

    let err = Module::from_string("file".into(), source.into()).expect_err("parse should fail");
    let IntermediateError::ImportAfterDeclaration { .. } = err else {
        panic!("unexpected error kind: {err:?}");
    };
}

#[test]
fn intermediate_variant_default_is_rejected() {
    variant_default_check();
}

#[test]
fn tests_variant_default_is_rejected() {
    variant_default_check();
}

#[test]
fn intermediate_imports_are_parsed() {
    imports_check();
}

#[test]
fn tests_imports_are_parsed() {
    imports_check();
}

#[test]
fn intermediate_imports_after_declarations_are_rejected() {
    imports_after_declarations_check();
}

#[test]
fn tests_imports_after_declarations_are_rejected() {
    imports_after_declarations_check();
}

const EXAMPLE: &str = r#"
# A tour of the declarations the language offers.

pack MyPOD
- a_thing : u8
- b_thing : u64

fixed_array FixedString : 4 * u8

pack MyOtherPOD
- first : MyPOD
- second : FixedString

enum PlainEnum : u8
- F1 = 0
- F2 = 1

enum BetterEnum : u8
- A = 0
- B = 1
> DEFAULT = 255

bits MyFlags : u8
- 0 is_thing : u8
- 1-2 another_thing : u8
- 3-4 some_stuff : PlainEnum

dyn_array Data : u8 * f32

seq SmallSeq
- list : Data

fixed_array MyPODFixedList : 8 * MyPOD

dyn_array MyOtherPODDynList : u16 * MyOtherPOD

seq ComplexSeq
- flags : MyFlags
- list : MyPODFixedList
- other_list : MyOtherPODDynList

dyn_array ShortString : u8 * u8

variant MyVariant : u8
- 1 => MyPOD
- 2 => MyOtherPOD
- 3 => void
- 4 => SmallSeq
- 5 => ComplexSeq

seq Root
- name : ShortString
- var : MyVariant

dyn_array Blob : u32 * u8
"#;

fn struct_sig(members: &[StructMember]) -> Vec<(&str, &str)> {
    members.iter().map(|m| (m.name.as_str(), m.ty.as_str())).collect()
}

fn enum_sig(members: &[EnumMember]) -> Vec<(&str, i64)> {
    members.iter().map(|m| (m.name.as_str(), m.value)).collect()
}

fn bit_sig(members: &[BitfldMember]) -> Vec<(&str, &str, &str)> {
    members.iter().map(|m| (m.range.as_str(), m.name.as_str(), m.ty.as_str())).collect()
}

fn variant_sig(members: &[VariantMember]) -> Vec<(u64, &str)> {
    members.iter().map(|m| (m.value, m.ty.as_str())).collect()
}

fn example_check() {
    let module = Module::from_string("file".into(), EXAMPLE.into()).expect("parse module");
    let source = module.source.clone();
    let m: HashMap<TypeName, Type> = module.definitions.into_iter().map(|x| (x.ident.clone(), x)).collect();

    assert_eq!(m.len(), 15);

    let quick_typename = |name: &str| -> TypeName {
        TypeName::from_string(
            SourceLocation::new(SourceCode(Arc::new(source.clone())), Position { line: 0, column: 0 }),
            name,
        )
        .unwrap()
    };

    match &m[&quick_typename("MyPOD")].kind {
        TypeKind::Pack(pack) => {
            assert_eq!(struct_sig(&pack.members), vec![("a_thing", "u8"), ("b_thing", "u64")]);
        }
        other => panic!("MyPOD parsed as unexpected kind: {:?}", other),
    }

    match &m[&quick_typename("MyOtherPOD")].kind {
        TypeKind::Pack(pack) => {
            assert_eq!(struct_sig(&pack.members), vec![("first", "MyPOD"), ("second", "FixedString")]);
        }
        other => panic!("MyOtherPOD parsed as unexpected kind: {:?}", other),
    }

    match &m[&quick_typename("PlainEnum")].kind {
        TypeKind::Enum(e) => {
            assert_eq!(e.ty.as_str(), "u8");
            assert!(e.default.is_none());
            assert_eq!(enum_sig(&e.members), vec![("F1", 0), ("F2", 1)]);
        }
        other => panic!("PlainEnum parsed as unexpected kind: {:?}", other),
    }

    match &m[&quick_typename("BetterEnum")].kind {
        TypeKind::Enum(e) => {
            assert_eq!(e.ty.as_str(), "u8");
            assert_eq!(e.default.as_ref().map(|d| (d.name.as_str(), d.value)), Some(("DEFAULT", 255)));
            assert_eq!(enum_sig(&e.members), vec![("A", 0), ("B", 1)]);
        }
        other => panic!("BetterEnum parsed as unexpected kind: {:?}", other),
    }

    match &m[&quick_typename("MyFlags")].kind {
        TypeKind::Bitfld(bits) => {
            assert_eq!(bits.ty.as_str(), "u8");
            assert_eq!(
                bit_sig(&bits.members),
                vec![("0", "is_thing", "u8"), ("1-2", "another_thing", "u8"), ("3-4", "some_stuff", "PlainEnum")]
            );
        }
        other => panic!("MyFlags parsed as unexpected kind: {:?}", other),
    }

    match &m[&quick_typename("SmallSeq")].kind {
        TypeKind::Sequence(seq) => {
            assert_eq!(struct_sig(&seq.members), vec![("list", "Data")]);
        }
        other => panic!("SmallSeq parsed as unexpected kind: {:?}", other),
    }

    match &m[&quick_typename("MyPODFixedList")].kind {
        TypeKind::FixedArray(arr) => {
            assert_eq!(arr.count, 8);
            assert_eq!(arr.value_type.as_str(), "MyPOD");
        }
        other => panic!("MyPODFixedList parsed as unexpected kind: {:?}", other),
    }

    match &m[&quick_typename("MyOtherPODDynList")].kind {
        TypeKind::DynamicArray(arr) => {
            assert_eq!(arr.size_type.as_str(), "u16");
            assert_eq!(arr.value_type.as_str(), "MyOtherPOD");
        }
        other => panic!("MyOtherPODDynList parsed as unexpected kind: {:?}", other),
    }

    match &m[&quick_typename("ComplexSeq")].kind {
        TypeKind::Sequence(seq) => {
            assert_eq!(
                struct_sig(&seq.members),
                vec![("flags", "MyFlags"), ("list", "MyPODFixedList"), ("other_list", "MyOtherPODDynList")]
            );
        }
        other => panic!("ComplexSeq parsed as unexpected kind: {:?}", other),
    }

    match &m[&quick_typename("Root")].kind {
        TypeKind::Sequence(seq) => {
            assert_eq!(struct_sig(&seq.members), vec![("name", "ShortString"), ("var", "MyVariant")]);
        }
        other => panic!("Root parsed as unexpected kind: {:?}", other),
    }

    match &m[&quick_typename("FixedString")].kind {
        TypeKind::FixedArray(arr) => {
            assert_eq!(arr.count, 4);
            assert_eq!(arr.value_type.as_str(), "u8");
        }
        other => panic!("FixedString parsed as unexpected kind: {:?}", other),
    }

    match &m[&quick_typename("ShortString")].kind {
        TypeKind::DynamicArray(arr) => {
            assert_eq!(arr.size_type.as_str(), "u8");
            assert_eq!(arr.value_type.as_str(), "u8");
        }
        other => panic!("ShortString parsed as unexpected kind: {:?}", other),
    }

    match &m[&quick_typename("Data")].kind {
        TypeKind::DynamicArray(arr) => {
            assert_eq!(arr.size_type.as_str(), "u8");
            assert_eq!(arr.value_type.as_str(), "f32");
        }
        other => panic!("Data parsed as unexpected kind: {:?}", other),
    }

    match &m[&quick_typename("MyVariant")].kind {
        TypeKind::Variant(var) => {
            assert_eq!(var.ty.as_str(), "u8");
            assert_eq!(
                variant_sig(&var.members),
                vec![(1, "MyPOD"), (2, "MyOtherPOD"), (3, "void"), (4, "SmallSeq"), (5, "ComplexSeq")]
            );
        }
        other => panic!("MyVariant parsed as unexpected kind: {:?}", other),
    }
}

#[test]
fn intermediate_intermediate() {
    example_check();
}

#[test]
fn tests_intermediate() {
    example_check();
}

#[test]
fn type_names_are_trimmed_before_their_characters_are_checked() {
    let loc = SourceLocation::new(SourceCode(Arc::new(String::new())), Position { line: 0, column: 0 });
    let n = TypeName::from_string(loc.clone(), " Foo ").expect("trimmed name");
    assert_eq!(n.as_str(), "Foo");
    assert!(matches!(
        TypeName::from_string(loc, "Fo-o"),
        Err(IntermediateError::IllegalChar { reason: '-', .. })
    ));
}

#[test]
fn const_declarations_need_a_value() {
    let err = Module::from_string("file".into(), "\nconst X : u8\n".into()).expect_err("parse should fail");
    assert!(matches!(err, IntermediateError::MissingDeclarationDetail { kind: "const value", .. }));
    let err = Module::from_string("file".into(), "\nconst X : u8 = ten\n".into()).expect_err("parse should fail");
    assert!(matches!(err, IntermediateError::InvalidNumber { .. }));
}

#[test]
fn const_declarations_are_parsed() {
    let module = Module::from_string("file".into(), "\nconst BYTE : u8 = 10\n".into()).expect("parse module");
    assert_eq!(module.definitions.len(), 1);
    match &module.definitions[0].kind {
        TypeKind::Const(c) => {
            assert_eq!(c.ty.as_str(), "u8");
            assert_eq!(c.value, 10);
        }
        other => panic!("BYTE parsed as unexpected kind: {:?}", other),
    }
}
