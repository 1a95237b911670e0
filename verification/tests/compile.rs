use jaw::compile::{
    compile, BitWidth, Datatype, Primitive, Signedness, Type, TypeID, TypeKind, World,
};
use jaw::intermediate::{self, TypeName};

fn compile_failure(src: &str, what: &str) -> String {
    let module = intermediate::Module::from_string("file".into(), src.into()).unwrap();
    compile(module).expect_err(what).message()
}

fn bitfield_overlap_check() {
    let src = r#"
bits Bad : u8
- 0-2 a : u8
- 2-3 b : u8
"#;
    let msg = compile_failure(src, "compile should reject overlapping bit ranges");
    assert!(
        msg.contains("overlaps") || msg.contains("overlap"),
        "unexpected error message: {msg}"
    );
}

fn dynarray_void_check() {
    let src = r#"
dyn_array Bad : u8 * void
"#;
    let msg = compile_failure(src, "compile should reject void element type");
    assert!(msg.contains("void"), "unexpected error message: {msg}");
}

fn topological_sort_check() {
    let src = r#"
pack A
- a : u8

pack B
- b : u8

pack C
- a : A
- b : B
"#;

    let expected = vec!["A", "B", "C"];
    let mut seen_orders = vec![];

    for _ in 0..8 {
        let module = intermediate::Module::from_string("file".into(), src.to_string()).unwrap();
        let world = compile(module).expect("compile should succeed");
        let names: Vec<String> = world
            .iter()
            .into_iter()
            .filter(|(_, ty)| !matches!(ty.kind, TypeKind::Void | TypeKind::Primitive(_)))
            .map(|(_, ty)| ty.ident.as_str().to_string())
            .collect();

        assert_eq!(names, expected, "toposort should respect declaration order");
        seen_orders.push(names);
    }

    let first = seen_orders.first().expect("at least one order recorded");
    for order in seen_orders.iter().skip(1) {
        assert_eq!(
            order, first,
            "toposort should be deterministic across invocations"
        );
    }
}

#[test]
fn compile_bitfield_overlap_is_rejected() {
    bitfield_overlap_check();
}

#[test]
fn tests_bitfield_overlap_is_rejected() {
    bitfield_overlap_check();
}

#[test]
fn compile_dynarray_void_element_is_rejected() {
    dynarray_void_check();
}

#[test]
fn tests_dynarray_void_element_is_rejected() {
    dynarray_void_check();
}

#[test]
fn compile_cycles_are_rejected() {
    let src = r#"
alias A : B
alias B : A
"#;
    let msg = compile_failure(src, "compile should reject cycles");
    assert!(
        msg.to_lowercase().contains("cyclic"),
        "unexpected error message: {msg}"
    );
}

#[test]
fn tests_cycles_are_rejected() {
    let src = r#"
pack A
- thing : B
pack B
- other_thing : A
"#;
    let msg = compile_failure(src, "compile should reject cycles");
    assert!(
        msg.to_lowercase().contains("cyclic"),
        "unexpected error message: {msg}"
    );
}

#[test]
fn self_references_are_rejected() {
    let src = r#"
alias A : A
"#;
    let msg = compile_failure(src, "compile should reject self reference");
    assert!(
        msg.to_lowercase().contains("cyclic"),
        "unexpected error message: {msg}"
    );
}

#[test]
fn compile_topological_sort_is_stable() {
    topological_sort_check();
}

#[test]
fn tests_topological_sort_is_stable() {
    topological_sort_check();
}

#[test]
fn unknown_types_are_rejected() {
    let src = r#"
alias A : Missing
"#;
    let msg = compile_failure(src, "compile should reject unknown type names");
    assert!(
        msg.contains("Missing"),
        "unexpected error message, wanted type name: {msg}"
    );
}

#[test]
fn dynarray_cycles_are_allowed() {
    let src = r#"
dyn_array AnyBytes : u32 * u8
dyn_array AnyString : u32 * u8
dyn_array AnyArray : u32 * Any
dyn_array AnyMap : u32 * AnyKeyPair

seq AnyKeyPair
- key : Any
- value : Any

variant Any : u8
- 0 => void
- 1 => u8
- 2 => i64
- 3 => f64
- 4 => AnyString
- 5 => AnyArray
- 6 => AnyMap
- 7 => AnyBytes
"#;

    let module = intermediate::Module::from_string("file".into(), src.into()).unwrap();
    compile(module).expect("compile should accept dynarray-based recursion");
}

fn primitive_i8() -> TypeKind {
    TypeKind::Primitive(Primitive {
        width: BitWidth::W8,
        sign: Signedness::Signed,
        dtype: Datatype::Integer,
    })
}

fn named(name: &str) -> Type {
    Type {
        ident: TypeName::from_string(Default::default(), name).unwrap(),
        defined_at: Default::default(),
        kind: primitive_i8(),
    }
}

#[test]
fn merge_world_basic() {
    let world_1 = World::new(
        vec![(TypeID(100), named("type_1"))],
        vec![TypeID(100)],
        "test1".into(),
    );

    let world_2 = World::new(
        vec![(TypeID(200), named("type_2"))],
        vec![TypeID(200)],
        "test2".into(),
    );

    let merge_truth = World::new(
        vec![(TypeID(100), named("type_1")), (TypeID(300), named("type_2"))],
        vec![TypeID(100), TypeID(300)],
        "test1".into(),
    );

    let merge = world_1.merge(world_2).expect("merge worlds");

    assert_eq!(merge.sorted(), merge_truth.sorted());
    assert_eq!(merge.definitions(), merge_truth.definitions());
    assert_eq!(merge.module_name(), merge_truth.module_name());
}

#[test]
fn repeated_declaration_names_are_rejected() {
    let src = "\npack A\n- a : u8\n\nseq A\n- b : u8\n";
    let module = intermediate::Module::from_string("file".into(), src.into()).unwrap();
    match compile(module) {
        Err(jaw::compile::error::CompileError::DuplicateTypeName { name, defined_at, previous }) => {
            assert_eq!(name.as_str(), "A");
            assert_eq!(defined_at.pos().line, 4);
            assert_eq!(previous.pos().line, 1);
        }
        other => panic!("unexpected result: {:?}", other.map(|w| w.module_name().to_string())),
    }
    let msg = compile_failure(src, "compile should reject a repeated name");
    assert!(msg.contains("duplicate type name A"), "unexpected error message: {msg}");
    assert!(msg.contains("previously defined at"), "unexpected error message: {msg}");
}

#[test]
fn builtin_names_cannot_be_redeclared() {
    let msg = compile_failure("\npack u8\n- a : u16\n", "compile should reject a builtin name");
    assert!(msg.contains("duplicate type name u8"), "unexpected error message: {msg}");
    assert!(msg.contains("builtin"), "unexpected error message: {msg}");
}

#[test]
fn const_target_must_be_primitive() {
    let src = r#"
pack P
- a : u8

const Bad : P = 10
"#;
    let msg = compile_failure(src, "compile should reject non-primitive const target");
    assert!(msg.contains("not primitive"), "unexpected error message: {msg}");
}

#[test]
fn const_value_must_fit_its_type() {
    let msg = compile_failure("\nconst Big : u8 = 300\n", "compile should reject a value u8 cannot hold");
    assert!(msg.contains("value 300 cannot fit"), "unexpected error message: {msg}");
}

#[test]
fn const_through_an_alias_compiles() {
    let src = "\nalias Byte : u8\n\nconst LIMIT : Byte = 7\n";
    let module = intermediate::Module::from_string("file".into(), src.into()).unwrap();
    assert!(compile(module).is_ok());
}

#[test]
fn repeated_member_names_are_all_reported() {
    let msg = compile_failure(
        "\nseq S\n- a : u8\n- b : u8\n- a : u16\n- c : u8\n- b : u32\n- a : u8\n",
        "compile should reject repeated member names",
    );
    assert!(msg.contains("all names must be unique: a,b"), "unexpected error message: {msg}");
}

fn record(name: &str) -> Type {
    Type {
        ident: TypeName::from_string(Default::default(), name).unwrap(),
        defined_at: Default::default(),
        kind: TypeKind::Sequence(jaw::compile::Sequence { members: vec![] }),
    }
}

#[test]
fn merge_reports_a_name_repeated_in_both_worlds() {
    let world_1 = World::new(vec![(TypeID(100), record("A"))], vec![TypeID(100)], "one".into());
    let world_2 = World::new(
        vec![(TypeID(200), record("A")), (TypeID(201), record("A"))],
        vec![TypeID(200), TypeID(201)],
        "two".into(),
    );
    match world_1.merge(world_2) {
        Err(e) => assert!(e.message().contains("conflicting definitions"), "unexpected: {}", e.message()),
        Ok(_) => panic!("the repeated name should be a conflict"),
    }
}
