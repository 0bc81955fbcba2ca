//! Engines for Lisp data, with their behaviour stated in contracts and
//! proved: an open-addressing hash table with pluggable key identity, and a
//! cycle-safe walker over chains of pair nodes that live in an arena. Around
//! the two stand the list, property-list, sorting, frame and arithmetic
//! operations that use them.

pub mod chains;
pub mod deletion;
pub mod equality;
pub mod frame_list;
pub mod frames;
pub mod hash_fns;
pub mod hashtable;
pub mod lisp;
pub mod list_fns;
pub mod lists;
pub mod mapping;
pub mod math;
pub mod plist_laws;
pub mod plists;
pub mod registry;
pub mod sorting;
pub mod strategies;
pub mod symbols;
pub mod table_arena;
pub mod table_laws;
pub mod table_model;
pub mod walks;
