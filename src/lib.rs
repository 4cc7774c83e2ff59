//! An open-addressing hash table with Robin Hood displacement, lookup with
//! early termination, backward-shift deletion and proactive growth.

pub mod growth;
pub mod key_hash;
pub mod ring;
pub mod rh_hash_table;
pub mod slots;
