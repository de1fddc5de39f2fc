pub mod command;
pub mod data_op;
pub mod files;
pub mod json;
pub mod error;
pub mod text;
pub mod printer;
pub mod time;
pub mod walk;
