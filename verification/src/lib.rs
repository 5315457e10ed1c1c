pub mod text;
pub mod numeric;
pub mod expr;
pub mod data_types;
pub mod rel_graph;
pub mod sql;
pub mod dialect;
pub mod name_check;
pub mod module;
pub mod parser;
pub mod conjecture;
pub mod table;
pub mod output;
pub mod geng;
pub mod invariants;
pub mod engine;
pub mod invariant_execs;
pub mod graph_database;
pub mod render;
pub mod config;
pub mod db_tables;
