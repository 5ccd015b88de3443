//! Core engine of a personal time tracker: the event lifecycle state
//! machine, the flexible date resolver, the on-disk record codec, and the
//! report aggregation, all with verified contracts. File and terminal I/O
//! live outside this crate and hand plain values in and out.

pub mod clock;
pub mod datetime;
pub mod errors;
pub mod event;
pub mod laws;
pub mod lifecycle;
pub mod parse;
pub mod record;
pub mod report;
pub mod store;
pub mod resolver;
pub mod text;

pub use datetime::DateTime;
pub use event::Event;
pub use errors::TrackError;
