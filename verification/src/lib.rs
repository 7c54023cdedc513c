//! Key-sequence driven command launcher: layers of shortcuts, commands with parameters, and the
//! decisions of a navigation session.
pub mod color;
pub mod command;
pub mod config;
pub mod effect;
pub mod execution;
pub mod geometry;
pub mod key;
pub mod layer;
pub mod layout;
pub mod navigation;
pub mod object_store;
pub mod parameter;
pub mod parameter_input;
pub mod port;
pub mod property;
pub mod shortcut_map;
pub mod startup;
pub mod text;
pub mod window;
