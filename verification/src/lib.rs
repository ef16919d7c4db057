//! Verified logic of four small programs: a number-guessing strategy, the
//! bookkeeping of a chatbot, an analytics query engine with its query
//! parser, and tic-tac-toe agents.
pub mod dataset;
pub mod query;
pub mod text;
pub mod query_parser;
pub mod analytics;
pub mod board;
pub mod agent3;
pub mod agent5;
pub mod guessing;
pub mod chat;
