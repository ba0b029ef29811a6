//! A vim-like editor library with support for multiple keyboard layouts.
//!
//! The modules hold the editor's data structures (text buffers, ranked trees), its
//! configuration language (options, key binds, layouts) and the state machines of its
//! modes, each with a contract that states what it computes.

pub mod buffer;
pub mod config;
pub mod context;
pub mod delta;
pub mod document;
pub mod editor;
pub mod grapheme_string;
pub mod keys;
pub mod layout;
pub mod options;
pub mod ranked_tree;
pub mod rb_tree;
pub mod scapegoat_tree;
pub mod terminal;
pub mod text;
pub mod window;
