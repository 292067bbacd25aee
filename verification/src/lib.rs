//! The verified core of `wom`: semantic search over files.
//!
//! What the program decides and computes stands here, with its contracts and laws. The program
//! around it reads files, runs models, asks the database and draws the screen.
pub mod actions;
pub mod batch;
pub mod bench;
pub mod chars;
pub mod charsmap;
pub mod cli;
pub mod commands;
pub mod config;
pub mod db;
pub mod digest;
pub mod download;
pub mod embed;
pub mod extract;
pub mod fusion;
pub mod geo;
pub mod index;
pub mod le;
pub mod lexical;
pub mod office;
pub mod order;
pub mod path;
pub mod ranking;
pub mod report;
pub mod rerank;
pub mod retrieval;
pub mod rollup;
pub mod scan;
pub mod score;
pub mod screen;
pub mod search;
pub mod settings;
pub mod sql;
pub mod text;
pub mod topk;
pub mod tui;
pub mod vectors;
pub mod walk;
