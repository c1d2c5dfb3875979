//! The window manager's data model.

pub mod arena;
pub mod client;
pub mod config;
pub mod controller;
pub mod layout;
pub mod screen;
pub mod status;
pub mod subset;
pub mod tags;
pub mod tagset;
pub mod tree;
pub mod tree_model;
pub mod tree_order;
pub mod util;
pub mod window_system;
