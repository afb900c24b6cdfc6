//! Search for five candidates whose attribute masks are pairwise disjoint,
//! built on a filterable, undoable indexed list.

pub mod combinations;
pub mod filterable_linked_list;
pub mod global_data;
pub mod links;
pub mod list_model;
pub mod parallel;
pub mod read_words;
pub mod render;
pub mod search;
pub mod seq_facts;
pub mod solver;
pub mod undo_log;
