use jaw::compile::compile;
use jaw::intermediate::loader::{gather_modules, link, ImportWalk, LinkError, WalkStep};
use jaw::intermediate::Module;

fn parse(name: &str, src: &str) -> Module {
    Module::from_string(name.into(), src.into()).expect("module should parse")
}

fn names(m: &Module) -> Vec<String> {
    m.definitions.iter().map(|d| d.ident.as_str().to_string()).collect()
}

#[test]
fn link_keeps_root_and_imported_needs() {
    // Sorted by path: a (imported), root.
    let a = parse("a", "\npack Thing\n- x : Inner\n\npack Inner\n- y : u8\n\npack Unused\n- z : u8\n");
    let root = parse("root", "\nfrom \"a.jaw\" use {Thing}\npack Local\n- t : Thing\n");
    let linked = link(vec![a, root], 1, vec![Some(0)]).expect("link should succeed");
    assert_eq!(linked.name, "root");
    assert_eq!(linked.imports.len(), 1);
    assert_eq!(names(&linked), vec!["Local", "Thing", "Inner"]);
}

#[test]
fn link_import_all_keeps_every_definition_of_the_module() {
    let a = parse("a", "\npack One\n- x : u8\n\npack Two\n- y : u8\n");
    let root = parse("root", "\nfrom \"a.jaw\" use *\npack Local\n- t : Two\n");
    let linked = link(vec![a, root], 1, vec![Some(0)]).expect("link should succeed");
    assert_eq!(names(&linked), vec!["Local", "One", "Two"]);
}

#[test]
fn link_without_imports_is_the_root() {
    let root = parse("root", "\npack Local\n- t : u8\n\npack Other\n- l : Local\n");
    let linked = link(vec![root], 0, vec![]).expect("link should succeed");
    assert_eq!(names(&linked), vec!["Local", "Other"]);
}

#[test]
fn link_rejects_duplicate_names() {
    let a = parse("a", "\npack Local\n- x : u8\n");
    let root = parse("root", "\npack Local\n- t : u8\n");
    let err = link(vec![a, root], 1, vec![]).expect_err("duplicate names");
    assert!(matches!(err, LinkError::DuplicateTypeName { .. }));
    assert!(err.message().starts_with("duplicate type name Local defined at "));
}

#[test]
fn link_rejects_unresolved_imports() {
    let root = parse("root", "\nfrom \"missing.jaw\" use {Thing}\npack Local\n- t : u8\n");
    let err = link(vec![root], 0, vec![None]).expect_err("unresolved import");
    assert!(matches!(err, LinkError::UnresolvedImport { .. }));
    assert!(err.message().starts_with("import missing.jaw at "));
    assert!(err.message().ends_with(" could not be resolved"));
}

#[test]
fn link_rejects_types_of_another_module() {
    let a = parse("a", "\npack One\n- x : u8\n");
    let b = parse("b", "\npack Two\n- x : u8\n");
    let root = parse("root", "\nfrom \"a.jaw\" use {Two}\npack Local\n- t : u8\n");
    let err = link(vec![a, b, root], 2, vec![Some(0)]).expect_err("foreign import");
    assert!(matches!(err, LinkError::ForeignImport { .. }));
    assert!(err.message().ends_with(" is defined in a different module"));
}

#[test]
fn link_rejects_missing_types() {
    let a = parse("a", "\npack One\n- x : u8\n");
    let root = parse("root", "\nfrom \"a.jaw\" use {Nope}\npack Local\n- t : u8\n");
    let err = link(vec![a, root], 1, vec![Some(0)]).expect_err("missing import");
    assert!(matches!(err, LinkError::MissingImport { .. }));
    assert!(err.message().starts_with("imported type Nope at "));
}

#[test]
fn link_rejects_uses_that_are_not_imported() {
    let a = parse("a", "\npack One\n- x : u8\n\npack Two\n- y : u8\n");
    let root = parse("root", "\nfrom \"a.jaw\" use {One}\npack Local\n- t : Two\n");
    let err = link(vec![a, root], 1, vec![Some(0)]).expect_err("not imported");
    assert!(matches!(err, LinkError::NotImported { .. }));
    assert!(err.message().starts_with("type Two used by Local at "));
    assert!(err.message().ends_with(" must be imported"));
}

#[test]
fn link_root_comes_first_whatever_its_place() {
    let root = parse("a_root", "\nfrom \"b.jaw\" use {B}\npack A\n- b : B\n");
    let b = parse("b", "\npack B\n- x : u8\n");
    let linked = link(vec![root, b], 0, vec![Some(1)]).expect("link should succeed");
    assert_eq!(names(&linked), vec!["A", "B"]);
}

#[test]
fn import_walk_loads_each_module_once_and_finds_cycles() {
    let mut walk = ImportWalk::new();
    assert_eq!(walk.enter("/a.jaw"), WalkStep::Load);
    assert_eq!(walk.enter("/b.jaw"), WalkStep::Load);
    // b imports a, which is still being loaded
    assert_eq!(walk.enter("/a.jaw"), WalkStep::Cycle);
    walk.leave("/b.jaw");
    assert_eq!(walk.enter("/b.jaw"), WalkStep::Loaded);
    walk.leave("/a.jaw");
    assert_eq!(walk.enter("/a.jaw"), WalkStep::Loaded);
    assert_eq!(walk.enter("/c.jaw"), WalkStep::Load);
}

#[test]
fn gathered_inputs_keep_every_declaration_in_order() {
    let a = parse("a", "\npack A\n- x : u8\n");
    let b = parse("b", "\npack B\n- y : u16\n\nalias C : B\n");
    let c = parse("c", "\nconst D : u8 = 1\n");
    let m = gather_modules(a, vec![b, c]);
    assert_eq!(m.name, "a");
    let names: Vec<&str> = m.definitions.iter().map(|d| d.ident.as_str()).collect();
    assert_eq!(names, vec!["A", "B", "C", "D"]);
    assert!(compile(m).is_ok());
}

#[test]
fn gathered_inputs_with_a_repeated_name_do_not_compile() {
    let a = parse("a", "\npack A\n- x : u8\n");
    let b = parse("b", "\npack A\n- y : u16\n");
    let m = gather_modules(a, vec![b]);
    match compile(m) {
        Err(e) => assert!(e.message().contains("duplicate type name A")),
        Ok(_) => panic!("a repeated name should be refused"),
    }
}
