//! Server-rendered sources for a directory of pages: which files are pages,
//! where each of them is served and built, and the regular expression that
//! requests for it match.

pub mod laws;
pub mod page_laws;
pub mod pages;
pub mod path_laws;
pub mod regular_expression;
pub mod route;
pub mod server;
pub mod text;
