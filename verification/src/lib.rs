pub mod chess;
pub mod text;
pub mod types;
pub mod eval;
pub mod policy;
pub mod tune;
pub mod search;
pub mod history;
pub mod uci;
pub mod laws;
