//! The logic of a desktop Nushell workbench: styled text, Result tables, value
//! rendering and the state of one Session.

pub mod ansi;
pub mod cells;
pub mod color;
pub mod engine;
pub mod expand;
pub mod export;
pub mod grid;
pub mod highlight;
pub mod listing;
pub mod order;
pub mod panels;
pub mod paths;
pub mod result;
pub mod scope;
pub mod settings;
pub mod text;
pub mod value;
pub mod workspace;
