//! Locks and counted handles for threads that share memory.
//!
//! * [`rwlock`] has a readers-writer lock that owns its value, and [`RWLock`] is one around a
//!   value that lives elsewhere.
//! * [`arc`] has a shared value that lives as long as one of its handles.
//! * [`wait_group`] has handles to wait for.
//!
//! What a call does to the shared word of a lock is laid down in [`phase`], and [`cells`] has the
//! atomic calls that do it. [`system`] proves what that comes to when any number of calls
//! interleave, [`alone`] says what a call comes to when nobody interferes, and [`history`] ties both
//! to what the agents of a lock remember. For the handles, [`handles`] proves that their count is
//! right, and [`tallies`] ties this to what the handles remember. [`ledger`] proves what holds
//! whatever is called on a word or a count, remembered or not.
pub mod alone;
pub mod arc;
pub mod borrowed;
pub mod cells;
pub mod counter;
pub mod handles;
pub mod history;
pub mod ledger;
pub mod phase;
pub mod raw;
pub mod rwlock;
mod shared;
pub mod system;
pub mod tallies;
pub mod wait_group;
pub mod word;

pub use borrowed::RWLock;
pub use rwlock::{ReadGuard, WriteGuard};
