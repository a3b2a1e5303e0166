//! Display-arrangement presets: a parser for the display tool's report, the
//! argument strings handed to that tool, a versioned preset store, the
//! shortcut registry that keeps hotkeys bound to presets, and the tray-menu
//! dispatch.
pub mod text;
pub mod error;
pub mod display;
pub mod preset;
pub mod hotkey;
pub mod tray;
