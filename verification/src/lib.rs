//! Incremental mirroring of a remote block image into a content-addressed,
//! log-structured store, with point-in-time reads of every pulled version.

pub mod blob;
pub mod buffer_writer;
pub mod cache;
pub mod cmd_list;
pub mod cmd_pull;
pub mod cmd_replay;
pub mod cmd_serve;
pub mod cmd_squash;
pub mod cmd_travel;
pub mod compress;
pub mod config;
pub mod db;
pub mod digest;
pub mod model;
pub mod plan;
pub mod remote;
pub mod shell;
pub mod text;
pub mod transmit;
pub mod undo;
pub mod util;
