//! A small interactive Unix shell: command-line tokenizing, tab completion,
//! line editing with history, and the decisions that route a parsed command
//! to a built-in, a redirection or a pipeline.
pub mod auto_complete;
pub mod commands;
pub mod dispatch;
pub mod input;
pub mod parser;
pub mod text;
