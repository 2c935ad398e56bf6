//! Synchronization engine for a confidential-note wallet.
//!
//! The engine pulls an append-only stream of note records from a remote
//! ledger, re-frames the transport's byte chunks into fixed-size records,
//! decides which locally configured key owns each note, keeps a resumable
//! per-key cache of owned notes partitioned into live and spent sets, and
//! migrates notes whose nullifier has appeared on-chain from the live set
//! to the spent set.
//!
//! Transport, on-disk storage and the note cryptography are collaborators:
//! the functions here take their results as plain values and are verified
//! for every value those collaborators can hand back.

mod cache;
mod decoder;
mod error;
mod filter;
mod keys;
mod sync;

pub use cache::Cache;
pub use cache::NoteEntry;
pub use cache::NoteEntryView;
pub use cache::lemma_insert_idempotent;
pub use decoder::StreamDecoder;
pub use decoder::concat_chunks;
pub use decoder::fed_frames;
pub use decoder::frames;
pub use decoder::frames_rest;
pub use decoder::lemma_chunking_independent;
pub use decoder::lemma_frames_rest_short;
pub use decoder::lemma_frames_split;
pub use error::SyncError;
pub use filter::find_owner;
pub use filter::lemma_owner_exclusive;
pub use filter::lemma_owner_index;
pub use filter::owner_index;
pub use keys::DEFAULT_MAX_ADDRESSES;
pub use keys::KeyTuple;
pub use keys::MIN_ADDRESSES;
pub use keys::address_capacity;
pub use keys::capacity_ok;
pub use sync::CandidateRecord;
pub use sync::byte_views;
pub use sync::candidate_wf;
pub use sync::lemma_empty_run_identity;
pub use sync::lemma_position_monotone;
pub use sync::lemma_reconcile_partitions;
pub use sync::lemma_watermark_monotone;
pub use sync::live_after;
pub use sync::moved_live;
pub use sync::moved_spent;
pub use sync::moves_ok;
pub use sync::needs_remote_query;
pub use sync::no_spent_collision;
pub use sync::position_request_bytes;
pub use sync::prepare_stream_request;
pub use sync::process_records;
pub use sync::reconcile_with_confirmed;
pub use sync::resume_points;
pub use sync::spec_request_pos;
pub use sync::spec_watermark_base;
pub use sync::watermark_after;
