//! Verified core of a static tiling window manager: the frame tree, tabbed
//! frames, workspace-to-monitor assignment, monitor identity, drop zones,
//! key binding tables and app-to-frame bindings.

pub mod text;
pub mod seqs;
pub mod layout;
pub mod pointer_ops;
pub mod workspace;
pub mod monitor_memory;
pub mod lex;
pub mod monitors;
pub mod config;
pub mod matching;
pub mod assignment;
pub mod actions;
pub mod wm;
pub mod reassign_laws;
pub mod app_bindings;
pub mod bindings;
pub mod focus;
pub mod numbers;
pub mod ipc;
pub mod control;
pub mod state;
pub mod window_actions;
pub mod bound_windows;
pub mod requests;
pub mod placement;
pub mod manage;
pub mod output_profiles;
pub mod rendering;
pub mod tree_laws;
