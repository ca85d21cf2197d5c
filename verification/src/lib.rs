//! Duplicate-file review and cleanup: selection rules, cleanup planning,
//! scan bookkeeping and the persistence codec, over plain values.
use vstd::prelude::*;

pub mod path;
pub mod models;
pub mod cleanup;
pub mod scanner;
pub mod text;
pub mod storage;
pub mod review;
pub mod messages;
pub mod sizes;
pub mod screens;
pub mod cancel;
pub mod session;

verus! {

} // verus!
