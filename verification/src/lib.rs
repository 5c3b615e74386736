//! The rules of a local knowledge store: entries made of typed blocks, the
//! chunks they are searched by, and the memory signals that searching leaves.
#![allow(unused_imports)]

pub mod affinity_merge;
pub mod attrs;
pub mod block_model;
pub mod blocks;
pub mod chunk_model;
pub mod chunking;
pub mod chunks;
pub mod cleanup_laws;
pub mod content;
pub mod content_laws;
pub mod content_store;
pub mod conversation_laws;
pub mod conversation_model;
pub mod conversations;
pub mod editing_laws;
pub mod entries;
pub mod entry_list;
pub mod entry_model;
pub mod entry_signals;
pub mod error;
pub mod escaping;
pub mod event_model;
pub mod events;
pub mod feedback;
pub mod feedback_laws;
pub mod file_laws;
pub mod float_bits;
pub mod forgetting_laws;
pub mod format_laws;
pub mod fts_query;
pub mod fulltext;
pub mod fusion;
pub mod fusion_laws;
pub mod hashing;
pub mod ids;
pub mod learning_laws;
pub mod link_laws;
pub mod link_model;
pub mod links;
pub mod list_laws;
pub mod listing_laws;
pub mod lookup_laws;
pub mod memory_laws;
pub mod memory_model;
pub mod model;
pub mod nomai_format;
pub mod nomai_format_util;
pub mod ordering;
pub mod parsing_laws;
pub mod ranking;
pub mod ranking_laws;
pub mod reconcile;
pub mod reembedding;
pub mod reembedding_laws;
pub mod renewal_laws;
pub mod search_laws;
pub mod sessions;
pub mod signal_cleanup;
pub mod signals;
pub mod snippet;
pub mod splitting_laws;
pub mod store_laws;
pub mod sync;
pub mod sync_laws;
pub mod tables;
pub mod text;
pub mod time;
pub mod upkeep_laws;
pub mod visibility;
pub mod visibility_laws;
