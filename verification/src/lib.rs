//! Whorl: a static analyzer that proves freedom from lock-ordering deadlocks.

pub mod acceptance;
pub mod ast;
pub mod blame;
pub mod callers;
pub mod corpus;
pub mod definitive;
pub mod events;
pub mod exactness;
pub mod flow;
pub mod frontend;
pub mod grammar;
pub mod graph;
pub mod growth;
pub mod havender;
pub mod inherit;
pub mod json;
pub mod lexing;
pub mod lint;
pub mod model;
pub mod namemap;
pub mod ordset;
pub mod parser;
pub mod print;
pub mod provenance;
pub mod refusal;
pub mod report;
pub mod semantics;
pub mod solver;
pub mod soundness;
pub mod source;
pub mod spelling;
pub mod tables;
pub mod text;
pub mod unicode;
pub mod verdicts;
pub mod wording;
pub mod writing;
