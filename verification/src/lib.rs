pub mod config;
pub mod decimal;
pub mod search;
pub mod text;
pub mod tmux;
pub mod ui;
