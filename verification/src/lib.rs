//! Standing relations: incrementally maintained relational operators over
//! shifting collections.
pub mod count;
pub mod counts;
pub mod datum;
pub mod join;
pub mod antijoin;
pub mod fns;
pub mod value_map;
pub mod reduce;
pub mod triangles;
pub mod pipes;
pub mod rc_collection;
pub mod dirty;
pub mod handler_queue;
pub mod tracking;
pub mod error;
pub mod graph;
pub mod relation;
pub mod context;
pub mod count_map;
pub mod output;
pub mod ordered_pipe;
pub mod feedback;
pub mod execution;
pub mod saved;
pub mod laws;
pub mod combinator_laws;
pub mod relation_model;
