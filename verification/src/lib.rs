//! Verified core of a tool that pulls and syncs publicly shared Google Drive
//! folders: listing parsing, tree diffing, task planning and the selector model.

pub mod node;
pub mod text;
pub mod parser;
pub mod utils;
pub mod pool;
pub mod download;
pub mod drive;
pub mod cmd_sync;
pub mod reversal;
pub mod selector;
pub mod progress;
pub mod app;
