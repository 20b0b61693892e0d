//! Extraction of C function signatures, and the graph of the types they
//! use, from DWARF debugging information.
//!
//! Types live in a content-addressed registry: a record's id is a digest of
//! its canonical form, so structurally equal records share one id across
//! compilation units and merging registries is a plain union.

pub mod backend;
pub mod canonical;
pub mod die;
pub mod dwarf_analyzer;
pub mod laws;
pub mod symbols;
pub mod type_registry;
pub mod type_resolver;
pub mod types;

pub use backend::FfiBackend;
pub use die::{Die, DieTable};
pub use dwarf_analyzer::{AnalysisResult, DwarfAnalyzer, analyze_units, extract_functions_from_unit};
pub use symbols::{SymbolInfo, select_exported_symbols};
pub use type_registry::{
    BaseTypeKind, EnumVariant, StructField, Type, TypeId, TypeRegistry, UnionField,
};
pub use type_resolver::TypeResolver;
pub use types::{FunctionSignature, Parameter, signature_lines, sort_by_name};
