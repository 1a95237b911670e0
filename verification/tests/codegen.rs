use jaw::codegen::rust::GlobalOptions;
use jaw::codegen::rust_emit::{emit, generate, GenerateError};
use jaw::codegen::{sanitize, sanitize_ident};
use jaw::compile::{compile, World};
use jaw::intermediate::Module;

fn world_from(src: &str) -> World {
    let module = Module::from_string("file".into(), src.into()).expect("module should parse");
    compile(module).expect("module should compile")
}

fn rust_of(src: &str, opts: &GlobalOptions) -> String {
    emit(&world_from(src), opts).expect("emit rust")
}

#[test]
fn rust_dynamic_array_write_checks_length_limits() {
    let out = rust_of("\ndyn_array Arr : u8 * u8\n", &GlobalOptions::default());
    assert!(out.contains("array length too large to encode"), "rust output missing length guard");
    assert!(out.contains("max_len"), "rust output missing max_len guard");
    assert!(out.contains("let max_len: usize = 255usize;"));
}

#[test]
fn rust_variant_case_names_are_unique() {
    let out = rust_of(
        "\npack Foo\n- a : u8\n\nvariant V : u8\n- 1 => Foo\n- 2 => Foo\n",
        &GlobalOptions::default(),
    );
    assert!(out.contains("Foo_1"), "rust output missing first case name");
    assert!(out.contains("Foo_2"), "rust output missing second case name");
}

#[test]
fn rust_optional_guard_emits_valid_code() {
    let opts = GlobalOptions { guard_array_size: Some(16) };
    let out = rust_of(
        "\ndyn_array Arr : u32 * u16\n\npack MyPOD\n- v : u8\n\ndyn_array ObjArr : u32 * MyPOD\n",
        &opts,
    );
    assert!(out.contains("array too large"));
    assert!(!out.contains("static_cast"));
    assert!(out.contains("if byte_count > 16u128 { return Err(invalid_data(\"array too large\")); }"));
}

#[test]
fn rust_guard_is_plumbed_into_the_generator() {
    let opts = GlobalOptions { guard_array_size: Some(16) };
    let out = rust_of("\npack MyPOD\n- a : u8\n\ndyn_array Pods : u32 * MyPOD\n", &opts);
    assert!(
        out.contains("checked_mul(std::mem::size_of::<MyPOD>() as u128)"),
        "rust should include checked byte-size limit"
    );
    assert!(out.contains("array too large"), "rust should mention guard");
}

#[test]
fn rust_guard_is_absent_by_default() {
    let out = rust_of("\npack MyPOD\n- a : u8\n\ndyn_array Pods : u32 * MyPOD\n", &GlobalOptions::default());
    assert!(!out.contains("byte_count"));
}

#[test]
fn rust_write_variant_payload_reference_has_declared_lifetime() {
    let out = rust_of("\npack P\n- a : u8\n\nvariant V : u8\n- 1 => P\n", &GlobalOptions::default());
    assert!(out.contains("pub enum V<'a>"));
    assert!(out.contains("P_1(&'a P),"), "write variant payload reference should use the enum lifetime");
}

#[test]
fn rust_pack_default_is_emitted_for_bulk_arrays_of_packs() {
    let out = rust_of(
        "\npack MyPOD\n- a_thing : u8\n- b_thing : u64\n\nfixed_array MyPODFixedList : 8 * MyPOD\ndyn_array MyPODDynList : u16 * MyPOD\n",
        &GlobalOptions::default(),
    );
    assert!(out.contains("unsafe impl bytemuck::Zeroable for MyPOD"), "rust should keep bytemuck impls for pack");
    assert!(out.contains("impl Default for MyPOD"), "rust should provide Default for pack");
    assert!(out.contains("let mut out : [MyPOD; 8] = Default::default();"));
    assert!(out.contains("vec![Default::default(); count]"));
}

#[test]
fn rust_output_starts_with_the_preamble() {
    let out = rust_of("\npack P\n- a : u8\n", &GlobalOptions::default());
    assert!(out.starts_with(
        "// Generated by jaw. Do not edit.\nuse std::io::{self, Read, Write};\nuse std::convert::TryInto;\n\nfn invalid_data(msg: impl Into<String>) -> io::Error\n{\n    io::Error::new(io::ErrorKind::InvalidData, msg.into())\n}\n\n#[inline]\nfn read_u8<R: Read>(reader: &mut R) -> io::Result<u8>\n{\n    let mut buf = [0u8; std::mem::size_of::<u8>()];\n    reader.read_exact(&mut buf)?;\n    Ok(u8::from_le_bytes(buf))\n}\n"
    ));
    assert!(out.contains("#[inline]\nfn write_f64<W: Write>(writer: &mut W, value: f64) -> io::Result<()>\n{\n    writer.write_all(&value.to_le_bytes())\n}\n"));
    assert!(out.contains("pub mod read\n{\n    use super::*;\n"));
    assert!(out.contains("pub mod write\n{\n    use super::*;\n"));
    assert!(out.ends_with("}\n"));
}

#[test]
fn rust_byte_array_reader_is_exact() {
    let out = rust_of("\ndyn_array Arr : u8 * u8\n", &GlobalOptions::default());
    let expected = "    #[allow(non_snake_case)]\n    pub fn read_Arr<R: Read>(reader: &mut R) -> io::Result<Vec<u8>>\n    {\n        let count_raw = read_u8(reader)?;\n        let count: usize = count_raw.try_into().map_err(|_| invalid_data(\"array length too large\"))?;\n        let mut out = vec![Default::default(); count];\n        reader.read_exact(&mut out)?;\n        Ok(out)\n    }\n";
    assert!(out.contains(expected), "unexpected reader:\n{out}");
}

#[test]
fn rust_fixed_array_writer_checks_the_length() {
    let out = rust_of("\nfixed_array Four : 4 * u16\n", &GlobalOptions::default());
    assert!(out.contains("if values.len() != 4 { return Err(invalid_data(\"unexpected fixed array length\")); }"));
    assert!(out.contains("writer.write_all(bytemuck::cast_slice(values))?;"));
}

#[test]
fn rust_bitfield_writer_masks_each_member() {
    let out = rust_of("\nbits Flags : u8\n- 0-2 a : u8\n- 3-7 b : u8\n", &GlobalOptions::default());
    assert!(out.contains("let mut raw: u128 = 0;"));
    assert!(out.contains("raw |= ((value.a as u128) & 0x7) << 0;"));
    assert!(out.contains("raw |= ((value.b as u128) & 0x1F) << 3;"));
    assert!(out.contains("write_u8(writer, raw as u8)"));
}

#[test]
fn generate_reports_compile_errors() {
    let module = Module::from_string("file".into(), "\ndyn_array Bad : u8 * void\n".into()).unwrap();
    match generate(module, &GlobalOptions::default()) {
        Err(GenerateError::Compile(e)) => assert!(e.message().contains("void")),
        _ => panic!("expected a compile error"),
    }
}

#[test]
fn generate_matches_compile_then_emit() {
    let src = "\npack P\n- a : u8\n- b : u32\n";
    let module = Module::from_string("file".into(), src.into()).unwrap();
    let via_generate = match generate(module, &GlobalOptions::default()) {
        Ok(s) => s,
        Err(_) => panic!("generation should succeed"),
    };
    assert_eq!(via_generate, rust_of(src, &GlobalOptions::default()));
}

#[test]
fn sanitize_replaces_invalid_characters() {
    assert_eq!(sanitize("foo bar"), "foo_bar");
    assert_eq!(sanitize("9lives"), "_9lives");
    assert_eq!(sanitize(""), "_t");
    assert_eq!(sanitize("ok_Name1"), "ok_Name1");
}

#[test]
fn sanitize_ident_uses_the_default_for_empty_names() {
    assert_eq!(sanitize_ident("", "fallback"), "fallback");
    assert_eq!(sanitize_ident("-x", "d"), "_x");
    assert_eq!(sanitize_ident("-a", "d"), "_a");
    assert_eq!(sanitize_ident("a b", "d"), "a_b");
    assert_eq!(sanitize_ident("1a", "d"), "_1a");
}

#[test]
fn rust_array_of_a_constant_type_is_read_and_written_in_bulk() {
    let out = rust_of("\nconst BYTE : u8 = 10\n\ndyn_array D : u8 * BYTE\n", &GlobalOptions::default());
    assert!(out.contains("pub const BYTE : u8 = 10;"));
    assert!(out.contains("let mut out = vec![Default::default(); count];\n        reader.read_exact(&mut out)?;"));
    assert!(out.contains("writer.write_all(bytemuck::cast_slice(values))?;"));
    assert!(!out.contains("for _ in 0..count"));
}

#[test]
fn rust_array_of_a_wide_constant_type_uses_a_byte_cast() {
    let out = rust_of("\nconst WORD : u32 = 7\n\ndyn_array D : u16 * WORD\n", &GlobalOptions::default());
    assert!(out.contains("reader.read_exact(bytemuck::cast_slice_mut(&mut out))?;"));
    assert!(!out.contains("for _ in 0..count"));
}
