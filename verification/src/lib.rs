//! The queues behind an executor for systems without `std`: an intrusive-style
//! doubly linked queue, and a rendezvous channel for many senders and many
//! receivers whose waiting operations queue up on it.
use vstd::prelude::*;

pub mod linked_list;
pub mod sync;

verus! {

} // verus!
