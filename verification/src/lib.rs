//! Finding duplicate files.

pub mod app;
pub mod archive;
pub mod config;
pub mod control;
pub mod drive_fill;
pub mod flatten;
pub mod grouping;
pub mod index_db;
pub mod model;
pub mod namematch;
pub mod paths;
pub mod picture;
pub mod reencode;
pub mod reverse_search;
pub mod scanner;
pub mod selection;
pub mod sets;
pub mod sorting;
pub mod sound;
pub mod stats;
pub mod taskbar;
pub mod text;
pub mod ui;
pub mod view_cache;
pub mod volume;
