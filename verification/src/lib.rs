pub mod text;
pub mod token;
pub mod scanner;
pub mod relation;
pub mod database;
pub mod parser;
pub mod graph;
pub mod interpreter;
pub mod scc;
pub mod model;
