//! Input feature sets of the network.

pub mod full_threats;
pub mod half_ka_v2_hm;
pub mod index_list;
