//! Experimental extensions of the egglog language and runtime.

pub mod dag_print;
pub mod engine;
pub mod extractor;
pub mod keep_best;
pub mod lists;
pub mod multi_extract;
pub mod named_args;
pub mod subst;
pub mod table_rows;
pub mod text;
pub mod types;
