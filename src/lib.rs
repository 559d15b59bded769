//! A causal replicated text buffer: a character-level CRDT whose replicas
//! apply local edits, exchange operations and converge to the same text.
//!
//! Each inserted character is a node anchored after another node; nodes
//! sharing an anchor are ordered by identifier, and deleted nodes stay as
//! tombstones. Remote operations whose anchor has not arrived are held back
//! and integrated as soon as it does. Two edge cases are kept on purpose: a
//! local insert past the end of the text is anchored at the start of the
//! document, and a local delete past the end tombstones nothing but still
//! uses up a sequence number and yields an operation without a target.

pub mod backend;
pub mod buffer;
pub mod convergence;
pub mod delivery;
pub mod id;
pub mod laws;
pub mod merge;
pub mod sequence;
pub mod text;
pub mod version;

pub use backend::{CrdtBackend, Intent, MockBackend};
pub use buffer::{Buffer, Op};
pub use id::Id;
pub use merge::Integration;
pub use sequence::Node;
pub use version::Global;
