pub mod cli;
pub mod frequency;
pub mod input;
pub mod parser;
