//! Pithy's note-vault logic: configuration, vault paths and file names, wikilinks, the app
//! menu, and the rules of the search index.
pub mod config;
pub mod fs;
pub mod menu;
pub mod paths;
pub mod search;
pub mod text;
