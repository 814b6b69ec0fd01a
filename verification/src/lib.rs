pub mod text;
pub mod model;
pub mod config;
pub mod analyzer;
pub mod pipeline;
pub mod input;
pub mod media;
pub mod voicestudio;
pub mod update;
pub mod paths;
pub mod updater;
pub mod ui;
