//! Verified core logic of the Cipollino animation editor: selections,
//! clipboard snapshots, recently opened projects, the dialog registry,
//! asset ordering, timeline arithmetic, what the layers of a graphic show
//! and play, audio clip lookup, pick-buffer lookup, export stepping, and the
//! flood and boundary tracing of the bucket fill tool.

pub mod assets;
pub mod audio;
pub mod clipboard;
pub mod dialog;
pub mod export;
pub mod fill;
pub mod flood;
pub mod keys;
pub mod layers;
pub mod new_project;
pub mod panels;
pub mod pick;
pub mod recent;
pub mod selection;
pub mod text;
pub mod timeline;

pub use selection::Selection;
