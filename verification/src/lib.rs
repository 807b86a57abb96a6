//! Hybrid multi-tier storage core for a remote shuffle worker.
//!
//! Intermediate map-stage output arrives as blocks, is buffered in a
//! memory tier under ticketed admission control, and is spilled to
//! persistent tiers (local disk, then a remote filesystem) when usage
//! crosses a high watermark.  This crate holds the verified core: the
//! budget/ticket/buffer accounting, tier selection and spill
//! orchestration, the persistent tiers' bookkeeping and the on-disk
//! index codec.  All file and network I/O is performed by the caller,
//! which executes the plans these types produce.

pub mod bitmap;
pub mod block;
pub mod budget;
pub mod buffer;
pub mod codec;
pub mod config;
pub mod constant;
pub mod context;
pub mod disk;
pub mod error;
pub mod event_bus;
pub mod hybrid;
pub mod localfile;
pub mod memstore;
pub mod remote;
pub mod ticket;
