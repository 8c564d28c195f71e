//! In-memory vessel tracking store.
//!
//! A continuous stream of vessel reports (position and static data) is folded
//! into a map from vessel id to record.  Spatial viewport queries are served
//! from a balanced 2-D partition tree that is rebuilt lazily from the current
//! record set; stale records are reclaimed by a periodic eviction sweep.
//!
//! Coordinates are carried as scaled integers (microdegrees): a latitude of
//! 40.7128 degrees is stored as 40_712_800.  Speeds and courses are likewise
//! scaled integers; the unscaled wire values live outside this crate.

mod ais;
mod cache;
mod ingest;
mod kdtree;
mod ship;

pub use ais::{AisMessage, AuthError, AuthMessage, MessageData, Metadata, PositionReport,
              ShipStaticData, auth_reply_ok};
pub use cache::ShipCache;
pub use ingest::{process_ais_message, process_frame};
pub use ship::{Ship, ShipState};
