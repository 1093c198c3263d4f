use vstd::prelude::*;

pub mod sorted;
pub mod perm;
pub mod insertion;
pub mod merge_step;
pub mod hybrid;
pub mod laws;
pub mod matrix;
pub mod top_down;
pub mod pair_sum;
pub mod inversion;
