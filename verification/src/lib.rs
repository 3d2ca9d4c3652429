pub mod text;
pub mod api;
pub mod rank;
pub mod stopwords;
pub mod similarity;
pub mod candidates;
pub mod dates;
pub mod commands;
pub mod scanner;
pub mod analyze;
pub mod env;
pub mod cache;
pub mod ui;
pub mod output;
