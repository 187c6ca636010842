//! Polling engine for a controller reached over Modbus/TCP: the register
//! codec, the coalescing of parameter ids into read requests, the worker
//! that decides, step by step, what is sent over the one connection, and
//! the text of the snapshot records of the log.

pub mod codec;
pub mod params;
pub mod ranges;
pub mod record;
pub mod text;
pub mod worker;
