//! Verified core of a small status bar for the mangowc compositor: text
//! handling, the status line, workspace tags and the decisions around them.

pub mod text;
pub mod status;
pub mod clock;
pub mod tags;
pub mod layout;
pub mod volume;
pub mod args;
pub mod commands;
pub mod ipc;
pub mod logs;
