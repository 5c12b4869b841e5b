//! swaykeys: the sway config, read the way sway reads it.

pub mod text;
pub mod vars;
pub mod lex;
pub mod source;
pub mod model;
pub mod xkb;
pub mod group;
pub mod render;
pub mod theme;
pub mod tui;
pub mod cli;
