//! Three interchangeable min-priority queues over keyed entries: an array-backed
//! binary heap, a binomial heap and a randomized meldable heap.

pub mod binary;
pub mod binomial;
pub mod digits;
pub mod entry;
pub mod heap;
pub mod laws;
pub mod meldable;
pub mod order;
