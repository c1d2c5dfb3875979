//! Core data model of a tiling window manager: clients grouped by tags,
//! per-view split trees, tag stacks per screen, layouts, and the chord
//! based keyboard input model.

#![allow(deprecated)]

pub mod kbd;
pub mod wm;
