//! The core of a viewer for Markdown files with comments on their blocks, list items
//! and table rows.
pub mod assets;
pub mod cli;
pub mod files;
pub mod html;
pub mod html_laws;
pub mod json;
pub mod markdown;
pub mod nav_history;
pub mod offsets;
pub mod page;
pub mod path;
pub mod percent;
pub mod render;
pub mod render_laws;
pub mod reply;
pub mod review;
pub mod review_laws;
pub mod routes;
pub mod routes_laws;
pub mod sanitize;
pub mod server;
pub mod shell;
pub mod shell_laws;
pub mod text;
pub mod tree;
pub mod tree_laws;
pub mod util;
pub mod watch;
pub mod window_state;
