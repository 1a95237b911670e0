use jaw::codegen::cpp_emit::{emit, generate};
use jaw::codegen::rust::GlobalOptions;
use jaw::codegen::rust_emit::GenerateError;
use jaw::compile::{compile, World};
use jaw::intermediate::Module;

fn world_from(src: &str) -> World {
    let module = Module::from_string("file".into(), src.into()).expect("module should parse");
    compile(module).expect("module should compile")
}

fn cpp_of(src: &str) -> String {
    emit(&world_from(src), &GlobalOptions::default()).expect("emit cpp")
}

#[test]
fn cpp_fixed_array_of_pack_uses_bulk_read() {
    let cpp_src = cpp_of("\npack MyPOD\n- a_thing : u8\n- b_thing : u64\n\nfixed_array MyPODFixedList : 8 * MyPOD\n");
    assert!(
        cpp_src.contains("read(Reader& reader, MyPODFixedListReader& value)")
            && cpp_src.contains("return read_scalar(reader, value);"),
        "cpp fixed array of pack should use a bulk read"
    );
}

#[test]
fn cpp_header_starts_with_includes_and_namespace() {
    let out = cpp_of("\npack P\n- a : u8\n");
    assert!(out.starts_with("#pragma once\n#include <array>\n#include <cstddef>\n"));
    assert!(out.contains(
        "// Writer concept: bool write_bytes(std::byte const*, size_t);\nnamespace file {\n    template <class T> struct ArrayRef;\n    namespace readers \n    {\n"
    ));
    assert!(out.ends_with("}\n"));
}

#[test]
fn cpp_pack_definition_is_exact() {
    let out = cpp_of("\npack P\n- a : u8\n- b : u32\n");
    let expected = "        #pragma pack(push, 1)\n        struct PReader\n        {\n            std::uint8_t a;\n            std::uint32_t b;\n        }\n        ;\n        #pragma pack(pop)\n        static_assert(std::is_trivially_copyable_v<PReader>, \"pack must be POD\");\n        \n";
    assert!(out.contains(expected), "unexpected pack:\n{out}");
    assert!(out.contains("        template <class Reader> bool read(Reader&, PReader&);\n"));
    assert!(out.contains("        template <class Writer> bool write(Writer&, PWriter const&);\n"));
    assert!(out.contains(
        "        template <class Writer> inline bool write(Writer& writer, PWriter const& value)\n        {\n            return write_scalar(writer, value);\n        }\n"
    ));
}

#[test]
fn cpp_dynamic_array_of_pods_reads_in_place() {
    let out = cpp_of("\ndyn_array Bytes : u16 * u8\n");
    assert!(out.contains("using BytesReader = ArrayRef<std::uint8_t>;"));
    assert!(out.contains("using BytesWriter = std::span<std::uint8_t>;"));
    assert!(out.contains("auto byte_count = sizeof(std::uint8_t) * static_cast<size_t>(count);"));
    assert!(out.contains("if (count > static_cast<size_t>(std::numeric_limits<uint16_t>::max())) return false;"));
}

#[test]
fn cpp_dynamic_array_of_sequences_reads_element_by_element() {
    let out = cpp_of("\nseq S\n- a : u8\n\ndyn_array List : u32 * S\n");
    assert!(out.contains("using ListReader = std::vector<SReader>;"));
    assert!(out.contains("value.push_back(std::move(elem));"));
    assert!(out.contains("std::uint8_t const& a;"));
    assert!(out.contains("std::uint8_t  a;"));
}

#[test]
fn cpp_variant_alternatives_follow_the_cases() {
    let out = cpp_of("\npack P\n- a : u8\n\nvariant V : u8\n- 1 => P\n- 2 => void\n");
    assert!(out.contains("struct VReader : std::variant<PReader, std::monostate>"));
    assert!(out.contains("struct VWriter : std::variant<PWriter const*, std::monostate>"));
    assert!(out.contains("value.emplace<0>(payload);"));
    assert!(out.contains("auto tag = static_cast<std::uint8_t>(2);"));
}

#[test]
fn cpp_bitfield_masks_each_member() {
    let out = cpp_of("\nbits Flags : u8\n- 0-2 a : u8\n- 3-7 b : u8\n");
    assert!(out.contains("value.a = static_cast<std::uint8_t>((bits >> 0) & 0x7ull);"));
    assert!(out.contains("raw |= (static_cast<uint64_t>(value.b) & 0x1Full) << 3;"));
}

#[test]
fn cpp_generate_reports_compile_errors() {
    let module = Module::from_string("file".into(), "\ndyn_array Bad : u8 * void\n".into()).unwrap();
    assert!(matches!(generate(module, &GlobalOptions::default()), Err(GenerateError::Compile(_))));
}

#[test]
fn guard_is_plumbed_into_all_generators() {
    let world = world_from("\npack MyPOD\n- a : u8\n\ndyn_array Pods : u32 * MyPOD\n");
    let opts = GlobalOptions { guard_array_size: Some(16) };

    let rust_src = jaw::codegen::rust_emit::emit(&world, &opts).expect("emit rust");
    assert!(
        rust_src.contains("checked_mul(std::mem::size_of::<MyPOD>() as u128)"),
        "rust should include checked byte-size limit"
    );
    assert!(rust_src.contains("array too large"), "rust should mention guard");

    let cpp_src = emit(&world, &opts).expect("emit cpp");
    assert!(cpp_src.contains("const uint64_t byte_limit = 16ULL;"), "cpp should include guard literal");
    assert!(cpp_src.contains("byte_limit / elem_size"), "cpp guard should use division to avoid overflow");
}

#[test]
fn cpp_guard_is_absent_by_default() {
    let cpp_src = cpp_of("\npack MyPOD\n- a : u8\n\ndyn_array Pods : u32 * MyPOD\n");
    assert!(!cpp_src.contains("byte_limit"));
}

#[test]
fn cpp_guard_checks_the_count_before_reading() {
    let world = world_from("\nseq S\n- a : u8\n\ndyn_array L : u16 * S\n");
    let out = emit(&world, &GlobalOptions { guard_array_size: Some(1024) }).expect("emit cpp");
    let flat: Vec<&str> = out.lines().map(|l| l.trim()).collect();
    assert!(flat.join("\n").contains(
        "if (count > static_cast<uint64_t>(std::numeric_limits<size_t>::max())) return false;\nconst uint64_t byte_limit = 1024ULL;\nconst uint64_t elem_size = sizeof(SReader);\nif (count > byte_limit / elem_size) return false;\nvalue.clear();"
    ));
}

#[test]
fn const_aliases_are_emitted_in_all_generators() {
    let world = world_from("\nconst BYTE : u8 = 10\n");

    let rust_src = jaw::codegen::rust_emit::emit(&world, &GlobalOptions::default()).expect("emit rust");
    assert!(rust_src.contains("pub const BYTE : u8 = 10;"), "rust should emit type alias for const");

    let cpp_src = emit(&world, &GlobalOptions::default()).expect("emit cpp");
    assert!(
        cpp_src.contains("constexpr inline std::uint8_t BYTE = 10;"),
        "cpp should emit alias for const"
    );
}

#[test]
fn negative_consts_keep_their_sign() {
    let world = world_from("\nconst LOW : i16 = -300\n");
    let rust_src = jaw::codegen::rust_emit::emit(&world, &GlobalOptions::default()).expect("emit rust");
    assert!(rust_src.contains("pub const LOW : i16 = -300;"));
    let cpp_src = emit(&world, &GlobalOptions::default()).expect("emit cpp");
    assert!(cpp_src.contains("constexpr inline std::int16_t LOW = -300;"));
    assert!(!cpp_src.contains("LOWReader"));
}
