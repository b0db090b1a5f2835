//! Organizing git repositories into a `<root>/<host>/<owner>/<repo>` layout:
//! repository specifier parsing, clone URL and path construction, the tree
//! layout of a repository listing, and the decisions of the batch commands.

pub mod text;
pub mod error;
pub mod config;
pub mod repo;
pub mod tree;
pub mod list;
pub mod output;
pub mod batch;
pub mod plan;
