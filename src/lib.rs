//! A verified codec, analyzer and compaction engine for the SMMSTORE
//! append-only key/value log kept in firmware flash.
//!
//! - `codec`: decoding of the raw region, record by record.
//! - `keymap`: the ordered, last-write-wins map of keys to values.
//! - `analyze`: used size, corruption and duplicate count of a region.
//! - `compaction`: serialization, compaction and the rewrite policy.
//! - `transport`: command words and result codes of the store service.
//! - `laws`: round trip, idempotence, used size and duplicate count.

pub mod codec;
pub mod keymap;
pub mod analyze;
pub mod compaction;
pub mod transport;
pub mod laws;
