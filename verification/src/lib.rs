//! Versioned state storage for a blockchain node: a copy-on-write
//! Merkle-Patricia trie over a bounded node cache and an on-demand opened
//! backing store, together with the row-building rules of the relational
//! index that mirrors committed blocks.

pub mod hex;
pub mod block_time;
pub mod decimal;
pub mod primitives;
pub mod relational_db;
pub mod block_rows;
pub mod nibbles;
pub mod node;
pub mod errors;
pub mod epoch_roots;
pub mod delta_db;
pub mod store_file;
pub mod db_manager;
pub mod single_mpt_db_manager;
pub mod cache_algorithm;
pub mod node_memory_manager;
pub mod trie;
pub mod canonical;
pub mod delta_mpt;
pub mod single_mpt_storage_manager;
