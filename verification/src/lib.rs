//! A content-addressed, eventually-consistent event log for time tracking.
//!
//! State is a set of immutable patches shared across devices through a plain
//! folder. Patches written concurrently by different devices merge
//! deterministically into a single linear timesheet; genuine semantic
//! conflicts are detected and reported rather than silently resolved.
use vstd::prelude::*;

pub mod order;
pub mod codec;
pub mod patch;
pub mod meta;
pub mod store;
pub mod repository;
pub mod timesheet;
pub mod sync_folder_store;

pub use crate::meta::Meta;
pub use crate::patch::Operation;
pub use crate::patch::Patch;
pub use crate::patch::PatchRef;
pub use crate::repository::Repository;
pub use crate::store::MemStore;
pub use crate::store::Store;
pub use crate::store::StoreError;
pub use crate::sync_folder_store::SyncFolderStore;
pub use crate::timesheet::Conflict;
pub use crate::timesheet::Event;
pub use crate::timesheet::EventGraph;
pub use crate::timesheet::Timesheet;

verus! {

/// A textual tag attached to an event.
pub type Tag = String;

/// An event is named by the reference of the patch that created it.
pub type EventRef = PatchRef;

} // verus!
