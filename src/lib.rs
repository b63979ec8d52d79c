//! Score-collecting walks on a small grid, and the search strategies that pick each move:
//! greedy one-step choice, beam search of fixed depth or bounded by time, and chokudai
//! search, which refines every depth a little on each sweep.
#![allow(non_snake_case)]

pub mod auto_move;
pub mod generate;
pub mod laws;
pub mod search;
pub mod state;
pub mod timer;
