//! A real-time MIDI note remapper.
//!
//! Incoming note-on/note-off events are looked up in a configurable
//! [`hotkey::HotkeyMap`]; a matched note is replaced by zero or more output
//! notes, an unmapped note passes through unchanged. The
//! [`engine::MidiHotkey`] block driver drains one processing block's events,
//! forwards unmapped notes immediately, queues the expansions of mapped
//! notes, and flushes the queue in insertion order at the end of the block.

pub mod engine;
pub mod event;
pub mod hotkey;
pub mod util;
