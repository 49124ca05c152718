//! Real-time transit feed decoding and per-station aggregation.
pub mod csv;
pub mod datetime;
pub mod decode;
pub mod elevators;
pub mod error;
pub mod ids;
pub mod listener;
pub mod msg;
pub mod reference;
pub mod snapshot;
pub mod text;
pub mod trains;
pub mod trip;
pub mod wire;
