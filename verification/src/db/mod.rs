//! The operations on the stored rows, one transaction each.

pub mod archive_laws;
pub mod batch_laws;
pub mod batch_listing;
pub mod claim_laws;
pub mod cleanup;
pub mod cleanup_laws;
pub mod creation_laws;
pub mod dedupe_laws;
pub mod insert_laws;
pub mod listing_laws;
pub mod slot_laws;
pub mod task_crud;
pub mod task_insert;
pub mod task_lifecycle;
pub mod task_query;
pub mod webhook_execution;
pub mod webhook_outbox;
