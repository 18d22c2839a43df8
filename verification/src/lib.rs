pub mod cli;
pub mod config;
pub mod dto;
pub mod random;
pub mod text;
pub mod types;
pub mod util;
pub mod utils;
