//! Writer for the Arrow IPC file format: a magic header, a schema message,
//! dictionary and record-batch messages, and a footer that indexes them.
pub mod error;
pub mod format;
pub mod ledger;
pub mod tracker;
pub mod flatbuf;
pub mod layout;
pub mod writer;

pub use error::Error;
pub use writer::FileWriter;
