//! glslint: assemble luma.gl/deck.gl GLSL shaders into complete translation units,
//! map validator diagnostics back to their original lines, and index symbols.

pub mod assemble;
pub mod check;
pub mod config;
pub mod deck;
pub mod derive;
pub mod dialect;
pub mod discover;
pub mod drift;
pub mod editor;
pub mod embed;
pub mod diagnostics;
pub mod includes;
pub mod lints;
pub mod path;
pub mod preset;
pub mod symbols;
pub mod text;
pub mod workspace;
