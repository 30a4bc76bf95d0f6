//! A single-threaded CLI chat state machine for embedded targets, with
//! fixed-capacity records and a fixed-size persisted image.
//!
//! Input bytes go through a minimal line editor into a guard-checked command
//! parser; the state is drawn on an ANSI split-screen viewport through
//! [`SerialPort`] and persisted as a CRC32-checked fixed-record image
//! through [`Storage`].

pub mod serial;
pub mod state;
pub mod storage;
pub mod types;
pub mod utils;

pub use serial::SerialPort;
pub use state::AppState;
pub use storage::Storage;
