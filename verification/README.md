# jaw

A code generator for binary message layouts described in a small DSL (`.jaw` files),
written in Verus: the parsing, linking, compiling and code generation are verified
against specifications stated over sequences of characters and the models of the
compiled types.

Layout

- `src/text.rs`, `src/strings.rs`: character and string helpers.
- `src/intermediate/`: the line-oriented parser (`parser.rs`), the parsed declarations
  (`ast.rs`), and `loader.rs`, which links a root module with the modules it imports.
- `src/compile/`: name resolution (`convert.rs`), dependency ordering (`toposort.rs`),
  the rules a compiled world satisfies (`verify.rs`) and merging of worlds (`merge.rs`).
- `src/codegen/`: an indenting text writer and two backends. `rust*.rs` render a Rust
  module with `read_*`/`write_*` functions; `cpp*.rs` render a C++ header with `read` and
  `write` templates. Each backend states the exact text it produces for a world.
- `src/tokens.rs`, `src/tokenreader.rs`, `src/module/`: a token-based lexer and a module
  builder over it (a second front end with its own type table and checks).
- `app/main.rs`: the command line (`jaw <INPUT.jaw>... --kind <cpp|rust> <OUTPUT>`): file
  reading, the import walk on disk, and writing the output. Several inputs are gathered
  into one module (`loader::gather_modules`) before it is compiled.

Declarations: `pack`, `seq`, `enum`, `bits`, `variant`, `alias`, `fixed_array`,
`dyn_array`, and `const NAME : Type = value` for an integer constant of a primitive
integer type. With `--guard-array-size N`, both backends check the byte size of every
array they read against `N` before reading it.
