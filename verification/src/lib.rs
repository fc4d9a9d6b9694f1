//! Parallel-ready aggregation of `key;value` lines: per-key minimum, maximum,
//! sum and count over a byte region, with a line-aligned partitioner so that
//! disjoint partitions can be reduced independently and merged.

pub mod bytes;
pub mod numbers;
pub mod record;
pub mod table;
pub mod partition;
pub mod reduce;
