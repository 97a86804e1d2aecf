//! What a search is asked to respect.

pub mod time;
