pub mod ai;
pub mod assoc;
pub mod audio;
pub mod batch;
pub mod cache;
pub mod config;
pub mod json;
pub mod loader;
pub mod media;
pub mod natord;
pub mod overview;
pub mod paths;
pub mod progress;
pub mod scanner;
pub mod session;
pub mod tags;
pub mod text;
pub mod thumbs;
