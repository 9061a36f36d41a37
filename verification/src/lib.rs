//! A small quick-access panel core: a disk-persisted collection of media
//! references and the visibility state machine that places the panel on
//! screen.
//!
//! The collection keeps entries newest-first under a unique-id invariant,
//! the codec reads and writes the persisted JSON form, and the panel module
//! decides show/hide and placement from tray-click and hotkey events.

pub mod clock;
pub mod codec;
pub mod collection;
pub mod digits;
pub mod entry;
pub mod panel;
pub mod reader;
pub mod strutil;
pub mod writer;
