//! The engine of a durable key-value store: an ordered map from strings to
//! strings that is kept in memory, made safe against crashes by a
//! write-ahead log and folded into snapshots from time to time.
//!
//! * [`binary`]: the wire codec of integers and strings.
//! * [`db`]: the commands with their encoding, and the store they act on.
//! * [`snapshot`]: the format of a snapshot.
//! * [`wal`]: the frames of the log and its replay.
//! * [`writer`]: the one task that writes the log, as a state machine.
//! * [`cli`]: lines of text as commands, and the replies to reads.
//! * [`config`]: the settings.
//! * [`error`]: the errors.
//! * [`order`], [`sorted`], [`text`]: the order of keys, the model of the
//!   store's contents, and tools on strings.
//! * [`laws`], [`durability`]: what holds of these parts together.
//!
//! The library does no input or output.  It takes bytes and gives bytes, and
//! it tells the task that drives it what to read and write.

pub mod binary;
pub mod cli;
pub mod config;
pub mod db;
pub mod durability;
pub mod error;
pub mod laws;
pub mod order;
pub mod snapshot;
pub mod sorted;
pub mod text;
pub mod wal;
pub mod writer;
