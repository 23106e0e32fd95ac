//! Succinct bit-indexed data structures: packed bit sequences, packed integer
//! vectors, RRR-compressed bit sequences, rank/select directories and wavelet trees.
use vstd::prelude::*;

pub mod util;
pub mod profiling;
pub mod rank_select;
pub mod bitvec;
pub mod compact_int_vec;
pub mod dense_sampling_rank;
pub mod sparse_sampling_rank;
pub mod enumerative;
pub mod rrr_bitvec;
pub mod wavelet_tree;
pub mod character_sequence;

verus! {

/// Builds an output structure from some input data.
pub trait Build<T, O> {
    /// The builder takes `data`.
    spec fn accepts(&self, data: &T) -> bool;

    /// `out` is what the builder makes of `data`.
    spec fn builds(&self, data: &T, out: &O) -> bool;

    fn build(&self, data: T) -> (r: O)
        requires
            self.accepts(&data),
        ensures
            self.builds(&data, &r),
    ;
}

} // verus!
