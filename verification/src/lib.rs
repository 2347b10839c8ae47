//! Core logic of a terminal client for the Gemini language model:
//! prompt sanitising, server-sent-event framing, shell-block extraction
//! and the small decisions the command-line front end makes.

pub mod text;
pub mod word;
pub mod secrets;
pub mod numbers;
pub mod bash_runner;
pub mod gemini;
pub mod config;
pub mod cli;
