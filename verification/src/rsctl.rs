//! The API code generator: description model, semantics and generation.
pub mod apispec;
pub mod cli;
pub mod generate;
pub mod ast;
pub mod naming;
pub mod openapi;
pub mod parser;
pub mod pipeline;
pub mod semantic;
