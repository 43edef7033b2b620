//! Storage primitives of the block-chain store.

use vstd::prelude::*;

pub mod annotate_laws;
pub mod annotate_turns;
pub mod bytes;
pub mod catalog_laws;
pub mod cold_progress;
pub mod compact;
pub mod crc;
pub mod error;
pub mod format_laws;
pub mod hashhead;
pub mod hashing;
pub mod head_laws;
pub mod header_laws;
pub mod host;
pub mod io_session_pool;
pub mod load_laws;
pub mod loser_tree;
pub mod merge_laws;
pub mod migrate_laws;
pub mod mlock;
pub mod number_laws;
pub mod open_address;
pub mod point_table;
pub mod primitives;
pub mod read_laws;
pub mod rebuild_headers;
pub mod rule_laws;
pub mod run_catalog;
pub mod run_dir;
pub mod run_merge;
pub mod scripthash;
pub mod scripthash_agree;
pub mod scripthash_body;
pub mod scripthash_bulk;
pub mod scripthash_check;
pub mod scripthash_cold;
pub mod scripthash_count;
pub mod scripthash_files;
pub mod scripthash_head;
pub mod scripthash_heap;
pub mod scripthash_install;
pub mod scripthash_laws;
pub mod scripthash_layout;
pub mod scripthash_live;
pub mod scripthash_load;
pub mod scripthash_materialize;
pub mod scripthash_migrate;
pub mod scripthash_open;
pub mod scripthash_pack8;
pub mod scripthash_pages;
pub mod scripthash_remap;
pub mod scripthash_slabs;
pub mod scripthash_stream;
pub mod scripthash_totals;
pub mod scripthash_values;
pub mod sealed_head;
pub mod segment_laws;
pub mod segment_meta;
pub mod segmented_head;
pub mod sharded_hashhead;
pub mod sharded_scripthash_head;
pub mod slot_table;
pub mod sorted_run;
pub mod sorting;
pub mod sp_tweaks;
pub mod spend_annotate_uring;
pub mod spender_table;
pub mod text;
pub mod view_laws;

verus! {

/// Name of this crate.
pub fn crate_name() -> (r: &'static str)
    ensures
        r@ == "rbitcoin-store"@,
{
    "rbitcoin-store"
}

} // verus!
