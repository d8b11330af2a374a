//! An actor-oriented scripting language whose unit of computation is an
//! email: a lexer, a parser, a lazily evaluated value model and a
//! single-threaded interpreter with deferred mail delivery.

pub mod environment;
pub mod error;
pub mod instruction;
pub mod interpreter;
pub mod mail;
pub mod modifier;
pub mod parser;
pub mod semantics;
pub mod server;
pub mod symbols;
pub mod table;
pub mod text;
pub mod types;
pub mod user;
