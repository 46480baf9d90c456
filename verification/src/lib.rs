//! An incremental evaluator for a subset of the nix language.
//!
//! Expressions live in arenas and are identified by `ArenaId`s. Every
//! expression is given a semantic hash (its `Color`), computed from its shape
//! and the colors of the expressions it refers to. Evaluation results are
//! memoized under the hash of the evaluated expression's color together with
//! the values on its callstack.
pub mod arena;
pub mod generic_lang;
pub mod lazy_arena;
pub mod mir;
pub mod coloring;
pub mod scc;
pub mod color_graph;
pub mod colorable_root;
pub mod value;
pub mod record;
pub mod thunk;
pub mod cache;
pub mod memo;
pub mod eval;
pub mod eval_laws;
pub mod cache_laws;
pub mod forcing_laws;
pub mod api;
pub mod lower;
pub mod lowering;
pub mod nix_syntax;
pub mod coloring_laws;
pub mod memo_laws;
