//! Physical-scan configuration for a columnar query engine.
//!
//! The crate models the data-layout and partitioning contract that sits
//! between "a list of files or batches with a schema" and "a runnable,
//! partitioned physical scan". A [`config::FileScanConfig`] turns a
//! logical request to read a possibly partitioned, multi-file dataset
//! into the schema, statistics and orderings of the scan's output; a
//! [`repartition`] pass rebalances file byte ranges into evenly sized
//! execution partitions without dropping or duplicating a byte; a
//! [`projector::PartitionColumnProjector`] materializes constant
//! partition-derived columns into each decoded batch, reusing zero-filled
//! dictionary key buffers across batches; and a [`memtable::MemTable`]
//! presents preloaded batches as one logical table, validated by the
//! schema compatibility matcher in [`contains`].

pub mod batch;
pub mod bytes;
pub mod config;
pub mod contains;
pub mod error;
pub mod memtable;
pub mod projector;
pub mod repartition;
pub mod scalar;
pub mod schema;
pub mod stats;
