//! Tempo maps of MIDI files, the BPM object, and the decisions of the watcher
//! that keeps the editor's BPM grid in step with it.
pub mod filter;
pub mod midi;
pub mod watcher;
