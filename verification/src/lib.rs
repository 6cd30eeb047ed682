//! Pure grammar front end (lexer, parser, protocol emitter) and the
//! relation (TDS) algorithms behind the engine's relation natives.
pub mod ast;
pub mod lexer;
pub mod text;
pub mod parser;
pub mod grammar;
pub mod expr;
pub mod tds;
pub mod window;
pub mod natives;
pub mod unclassified;
pub mod relation_accessor;
pub mod emitter;
pub mod classpath;
pub mod repos;
pub mod laws;
