//! Building blocks of a load generator that reproduces stalls in a Redis or Valkey cluster.

pub mod crc;
pub mod keys;
pub mod report;
pub mod seeds;
pub mod slot;
pub mod stats;
pub mod text;
pub mod topology;
pub mod worker;
