pub mod display;
pub mod document;
pub mod editor;
pub mod git;
pub mod highlight;
pub mod inline;
pub mod keymap;
pub mod listing;
pub mod lexer;
pub mod pane;
pub mod parser;
pub mod roundtrip;
pub mod serializer;
pub mod session;
pub mod text;
