//! Gherkin tooling: a formatter for `.feature` files, Cucumber expressions as
//! regular expressions, the step indexer and the query logic of the language
//! server.

pub mod text;
pub mod classify;
pub mod table;
pub mod formatter;
pub mod expression;
pub mod indexer;
pub mod server;
pub mod laws;
