//! A small folder-aware image and video viewer: the verified core.
pub mod natural;
pub mod paths;
pub mod media;
pub mod render;
pub mod text;
pub mod config;
pub mod cache;
pub mod ipc;
pub mod startup;
pub mod thumbnail;
pub mod video;
pub mod player;
pub mod viewer;
