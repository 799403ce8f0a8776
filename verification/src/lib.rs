//! Core rules of a split-screen exploration scene: how the window is
//! divided among the cameras, how a random excerpt of a loaded text is
//! chosen for the story panel, how asset-loading progress is reported,
//! and which hint tint each kind of sprite receives.

pub mod layout;
pub mod progress;
pub mod text;
pub mod tint;
