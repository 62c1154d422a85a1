pub mod any_ref;
pub mod bin;
pub mod bin_id;
pub mod bins;
pub mod collection_laws;
pub mod collector;
pub mod command;
pub mod compare_laws;
pub mod derive;
pub mod derive_laws;
pub mod equality;
pub mod global;
pub mod guard;
pub mod guard_laws;
pub mod heap;
pub mod index_map;
pub mod info;
pub mod intern_laws;
pub mod keyed_store;
pub mod laws;
pub mod layout;
pub mod mark;
pub mod order;
pub mod pool;
pub mod reach;
pub mod reader_state;
pub mod reference;
pub mod schedule_laws;
pub mod slab;
pub mod slot_state;
pub mod store_laws;
pub mod string_equality;
pub mod string_laws;
pub mod string_table;
pub mod trace;
pub mod trace_laws;
pub mod type_index;
