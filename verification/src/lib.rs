//! NovaWeb: a small scripting language with an HTML template engine.
//!
//! The library holds the language's data model, its parser, its interpreter,
//! the template renderer and the routing rules of the page server.

pub mod ast;
pub mod database;
pub mod semantics;
pub mod template;
pub mod text;
pub mod environment;
pub mod interpreter;
pub mod laws;
pub mod lexer;
pub mod model;
pub mod parser;
pub mod server;
pub mod value;
