//! Parsing and presentation logic for a `dnf` front end.
pub mod text;
pub mod float;
pub mod size;
pub mod model;
pub mod stdout;
pub mod table;
pub mod stderr;
pub mod display;
pub mod layout;
pub mod render;
pub mod cmd;
pub mod dnf;
pub mod order;
