//! Completion, hover and line analysis for a RouterOS script language server.
pub mod text;
pub mod menus;
pub mod string_map;
pub mod script;
pub mod hover;
pub mod completion;
pub mod server;
pub mod wire;
