pub mod cli;
pub mod json;
pub mod obsidian;
pub mod position;
pub mod text;
pub mod trello;
