//! Verified core of a terminal client for Bruno collections.
pub mod text;
pub mod varmap;
pub mod dotenv;
pub mod model;
pub mod blocks;
pub mod paths;
pub mod parser;
pub mod interpolate;
pub mod request;
pub mod answers;
pub mod curl;
pub mod shell;
pub mod selection;
pub mod collections;
pub mod environments;
pub mod response;
pub mod prompt;
pub mod editor;
pub mod http;
pub mod order;
pub mod discovery;
pub mod app;
pub mod theme;
pub mod cli;
