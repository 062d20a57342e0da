//! Contest contact logging: validated contact records, the logsheet export
//! text, the relay wire messages and the hub that orders persistence and
//! acknowledgements.

pub mod hub;
pub mod logsheet;
pub mod message;
pub mod model;
pub mod record;
pub mod text;
pub mod timestamp;
