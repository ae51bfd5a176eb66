//! A client-side decoder for the line-oriented IRC wire format.
//!
//! Characters arriving from a connection are fed one at a time through a
//! lexer state machine, which emits labelled tokens (prefix, command,
//! parameter, body) as soon as each field is delimited. An assembler folds
//! the tokens of one line into a [`parser::Message`].
//!
//! Both stages are stated as pure transition functions over a model of
//! their state ([`lexer::step`], [`parser::decode_step`]); the executable
//! code is proved to follow them exactly, and [`laws`] proves what that
//! means for whole lines and streams. [`session`] builds the lines that
//! open a session on the outbound side.

mod text;

pub mod lexer;
pub mod parser;
pub mod laws;
pub mod session;
