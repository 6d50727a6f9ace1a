pub mod branch;
pub mod cli;
pub mod commit;
pub mod config;
pub mod error;
pub mod git;
pub mod model;
pub mod ordered;
pub mod output;
pub mod outside;
pub mod picker;
pub mod screen;
pub mod squash;
pub mod staged;
pub mod text;
