//! Sets, maps, interval sets and a radix tree, backed by sorted vectors.
use vstd::prelude::*;

pub mod key;
mod trusted;
pub mod sorted;
pub mod set_merge;
pub mod array_set;
pub mod total_array_set;
pub mod boundary;
pub mod range_set;
pub mod kind;
pub mod interval;
pub mod interval_seq;
pub mod flip_buffer;
pub mod text;
pub mod interval_text;
pub mod dedup;
pub mod array_map;
pub mod sonic_reducer;
pub mod total_seq;
pub mod countable_interval_set;
pub mod laws;
pub mod radix_tree;
pub mod total_array_map;
