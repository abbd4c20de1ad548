//! The decision logic of a lint pack that looks for invariants the type
//! system could hold and does not, verified.
//!
//! What the compiler knows of a crate is given as plain data: `defs`, `ty`,
//! `hir` and `mir`. Every lint is a module over that data whose contracts say
//! what it remembers of what it visits and what it reports. `baseline` decides
//! which reports a recorded file accepts; `registry` and `config` which lints
//! run.

pub mod adt_facts;
pub mod asymmetric_guard;
pub mod baseline;
pub mod bits;
pub mod bool_beside_option;
pub mod bypassed_conversion;
pub mod bypassed_validator;
pub mod cfg;
pub mod claims;
pub mod config;
pub mod crossed_index;
pub mod ctor_facts;
pub mod ctor_flow;
pub mod ctor_verdict;
pub mod defs;
pub mod dependent_field;
pub mod discarded_error;
pub mod enum_facts;
pub mod forbidden_reach;
pub mod groups;
pub mod guard_flag;
pub mod hir;
pub mod hir_clone;
pub mod hir_shapes;
pub mod ids;
pub mod insert_then_unwrap;
pub mod mir;
pub mod mir_flow;
pub mod misbound_arg;
pub mod names;
pub mod narrowed_return;
pub mod nonidentity_key;
pub mod ordered;
pub mod overwide_parameter;
pub mod parallel_bools;
pub mod parallel_vecs;
pub mod reach;
pub mod registry;
pub mod report;
pub mod samples;
pub mod sentinel_int;
pub mod stale_safety_comment;
pub mod stored_projection;
pub mod stringified_error;
pub mod stringly_error;
pub mod table;
pub mod text;
pub mod ty;
pub mod unit_mismatch;
pub mod unread_error_variant;
pub mod unread_none;
pub mod wildcard_local_enum;
