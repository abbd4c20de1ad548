//! Small programs of the shapes the lints are about: some a lint speaks up
//! on, some it has to pass over.

pub mod bool_beside_option;
pub mod bypassed_validator;
pub mod dependent_field;
pub mod parallel_vecs;
pub mod reimplemented_helper;
