//! Semantic core of the Arandu compiler: type representation, interning
//! and unification, typing context and recorded types, symbol tables and
//! name-resolution results, string interning, generational slot maps,
//! definite-initialisation bitsets, the instantiation graph of generic
//! code, symbol (de)mangling, the diagnostics of failed type constraints,
//! and the use-before-initialisation and match-exhaustiveness checks.

mod member_index;
mod text;

pub mod ids;
pub mod primitive;
pub mod ar_type;
pub mod type_interner;
pub mod unify;
pub mod result_option;
pub mod type_display;
pub mod hints;
pub mod context;
pub mod type_info;
pub mod symbol_table;
pub mod resolved;
pub mod fresh;
pub mod names;
pub mod suggest;
pub mod mangle;
pub mod graph;
pub mod stable_id;
pub mod string_pool;
pub mod init_bits;
pub mod diagnostics;
pub mod constraints;
pub mod type_errors;
pub mod match_exhaust;
pub mod definite_init;

pub use ar_type::ArType;
pub use ids::{ScopeId, Span, SymbolId};
pub use primitive::Primitive;
