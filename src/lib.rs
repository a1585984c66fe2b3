//! A solver for the numbers game: combine a list of positive integers with
//! `+`, `-`, `*` and exact `/` to reach a target value.

pub mod compute;
pub mod post_processing;
pub mod util;

