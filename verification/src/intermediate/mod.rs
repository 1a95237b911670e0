//! The intermediate representation: a line-oriented parse of a `.jaw` source
//! into declarations that still refer to each other by name.
pub mod ast;
pub mod error;
pub mod loader;
pub mod parser;
pub mod source;

pub use ast::{
    Alias, Bitfld, BitfldMember, Const, DynamicArray, Enum, EnumMember, FixedArray, Import, Module,
    Pack, Sequence, StructMember, Type, TypeKind, TypeName, Variant, VariantMember,
};
pub use error::IntermediateError;
pub use source::{Position, SourceCode, SourceLocation};
