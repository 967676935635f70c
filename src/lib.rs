//! Turns notebook cells into the pages of a presentation, driven by command
//! comments written inside the cells.
//!
//! - [`commands`]: the command language and its parser.
//! - [`path`]: image references: finding them, filling them into templates,
//!   and rewriting relative ones for another directory.
//! - [`notebook`]: cells, the automaton that processes them, and whole
//!   notebooks.
//! - [`arguments`]: the options of the command-line program.

pub mod arguments;
pub mod commands;
pub mod notebook;
pub mod path;
pub mod text;
