use jaw::module::parse::BuildOutcome;
use jaw::module::{ArrayKind, ModuleBuildError, PartialModule, Primitive, TypeID, TypeKind};
use jaw::tokens::Keyword;

const SOURCE: &str = "
enum Color : u8
- Red = 1
- Green = 2
= Unknown = 255

bits Flags : u16
- 0 lo : u8
- 4-7 color : Color

pack Pixel
- x : u16
- rgb : [3 * u8]

variant Shape : u8
- 0 => Pixel
= 1 => Color

seq Image
- count : u32
- pixels : {u32 * Pixel}
- tail : {4 * u8}
";

fn build(src: &str) -> Result<PartialModule, ModuleBuildError> {
    PartialModule::from_string(src)
}

#[test]
fn module_builds_every_declaration_kind() {
    let m = build(SOURCE).expect("module should build");
    assert_eq!(m.name, "string");
    // ten primitives, five declarations and three arrays
    let types = m.all_types();
    assert_eq!(types.len(), 10 + 5 + 3);
    let (color_id, _) = m
        .all_types()
        .iter()
        .map(|(id, _)| *id)
        .filter_map(|id| m.name_and_span_for_tid(id).ok().map(|(n, _)| (id, n.clone())))
        .find(|(_, n)| n == "Color")
        .unwrap();
    match &m.lookup(color_id).unwrap().kind {
        TypeKind::Enum(e) => {
            assert!(matches!(e.ty, Primitive::U8));
            assert_eq!(e.members, vec![("Red".to_string(), 1), ("Green".to_string(), 2)]);
            assert_eq!(e.default, Some(("Unknown".to_string(), 255)));
        }
        other => panic!("unexpected kind {other:?}"),
    }
}

#[test]
fn module_builtins_take_the_first_ids() {
    let m = build("").unwrap();
    let names: Vec<String> = (0..10)
        .map(|i| m.name_and_span_for_tid(TypeID(i)).unwrap().0.clone())
        .collect();
    assert_eq!(names, ["u8", "u16", "u32", "u64", "i8", "i16", "i32", "i64", "f32", "f64"]);
    assert!(matches!(m.lookup(TypeID(3)).unwrap().kind, TypeKind::Primitive(Primitive::U64)));
    assert!(matches!(m.lookup(TypeID(10)), Err(ModuleBuildError::UnknownType(TypeID(10)))));
}

#[test]
fn module_arrays_become_anonymous_types() {
    let m = build("pack P\n- a : [4 * u8]\n").unwrap();
    let arr = m
        .all_types()
        .iter()
        .find(|(_, t)| matches!(t.kind, TypeKind::FixedArray(_)))
        .unwrap();
    assert!(matches!(
        arr.1.kind,
        TypeKind::FixedArray(ArrayKind::Fixed { count: 4, value_type: TypeID(0) })
    ));
    assert!(m.name_and_span_for_tid(arr.0).is_err());
}

#[test]
fn module_rejects_duplicate_definitions() {
    let err = build("pack A\n- x : u8\npack A\n- y : u8\n").unwrap_err();
    match err {
        ModuleBuildError::DuplicateTypeDefinition { name, prev, .. } => {
            assert_eq!(name, "A");
            assert!(prev.starts_with(" (previous definition at: (from (offset "));
        }
        other => panic!("unexpected error {other:?}"),
    }
    let err = build("pack u8\n").unwrap_err();
    match err {
        ModuleBuildError::DuplicateTypeDefinition { name, prev, .. } => {
            assert_eq!(name, "u8");
            assert_eq!(prev, "");
        }
        other => panic!("unexpected error {other:?}"),
    }
}

#[test]
fn module_rejects_non_pod_pack_members() {
    let err = build("pack A\n- xs : {u8 * u8}\n").unwrap_err();
    assert!(matches!(err, ModuleBuildError::NonPODInPack(ref n, _) if n == "xs"));
}

#[test]
fn module_rejects_out_of_range_values() {
    let err = build("enum E : u8\n- A = 300\n").unwrap_err();
    assert!(matches!(
        err,
        ModuleBuildError::EnumValueOutOfRange { ref name, value: 300, min: 0, max: 255, .. } if name == "A"
    ));
    let err = build("enum E : i8\n- A = -129\n").unwrap_err();
    assert!(matches!(err, ModuleBuildError::EnumValueOutOfRange { value: -129, min: -128, .. }));
    let err = build("bits B : u8\n- 0-8 x : u8\n").unwrap_err();
    assert!(matches!(err, ModuleBuildError::BitfldVOutOfRange { end: 8, width: 8, .. }));
    let err = build("variant V : u8\n- 256 => u8\n").unwrap_err();
    assert!(matches!(err, ModuleBuildError::VariantValueOutOfRange { value: 256, max: 255, .. }));
}

#[test]
fn module_rejects_bad_bodies() {
    assert!(matches!(
        build("pack A\n= x : u8\n").unwrap_err(),
        ModuleBuildError::UnexpectedDefault { kind: "pack", .. }
    ));
    assert!(matches!(
        build("bits B : u8\n- 5-2 x : u8\n").unwrap_err(),
        ModuleBuildError::InvalidBitRange { start: 5, end: 2, .. }
    ));
    assert!(matches!(
        build("enum E : f32\n- A = 1\n").unwrap_err(),
        ModuleBuildError::NonIntEnum(ref n, _, Primitive::F32) if n == "E"
    ));
    assert!(matches!(
        build("variant V : -1\n").unwrap_err(),
        ModuleBuildError::UnexpectedToken { .. }
    ));
    assert!(matches!(
        build("variant V : u8\n- -1 => u8\n").unwrap_err(),
        ModuleBuildError::VariantValueNegative(_)
    ));
    assert!(matches!(
        build("pack P\n- a : [0 * u8]\npack Q\n- b : {0 * u8}\n").unwrap_err(),
        ModuleBuildError::ArrayCountNotPositive { i_m: "{I * M}", .. }
    ));
    assert!(matches!(build("pack P\n- a : Missing\n").unwrap_err(), ModuleBuildError::BadLookup(ref n, _) if n == "Missing"));
}

#[test]
fn module_reports_unsupported_keywords() {
    match PartialModule::build("m".to_string(), "alias A : u8\n") {
        BuildOutcome::Unsupported(Keyword::Alias, _) => {}
        other => panic!("unexpected outcome {other:?}"),
    }
}

#[test]
fn module_compile_orders_dependencies_first() {
    let m = build(SOURCE).unwrap();
    let compiled = m.compile();
    let pos = |id: TypeID| compiled.type_order.iter().position(|x| *x == id).unwrap();
    for (id, ty) in &compiled.types {
        let deps: Vec<TypeID> = match &ty.kind {
            TypeKind::Pack(p) => p.members.iter().map(|m| m.1).collect(),
            TypeKind::Sequence(s) => s.members.iter().map(|m| m.1).collect(),
            TypeKind::Bitfld(b) => std::iter::once(b.ty).chain(b.members.iter().map(|m| m.1)).collect(),
            TypeKind::Variant(v) => v.members.iter().map(|m| m.1).chain(v.default.iter().map(|d| d.1)).collect(),
            _ => vec![],
        };
        for d in deps {
            assert!(pos(d) < pos(*id));
        }
    }
    assert_eq!(compiled.type_order.len(), compiled.types.len());
    assert_eq!(compiled.inv_type_map.len(), compiled.type_map.len());
    assert_eq!(compiled.type_order[0], TypeID(0));
}

#[test]
fn text_emitter_indent_then_dedent_restores_it() {
    let compiled = build(SOURCE).unwrap().compile();
    let mut e = jaw::codegen::TextEmitter::new(&compiled);
    e.wln("a");
    e.indent();
    let (out, depth) = (e.out.clone(), e.indent);
    e.indent();
    assert_eq!(e.indent, depth + 1);
    assert_eq!(e.out, out);
    e.dedent();
    assert_eq!((e.out.clone(), e.indent), (out, depth));
    e.wln("b");
    assert_eq!(e.finish(), "a\n    b\n");
}
