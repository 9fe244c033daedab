//! A small terminal composition engine: text leaves and bordered containers
//! that size themselves from their children and render into a character
//! stream, plus a few self-contained sequence, graph and string utilities.
pub mod algos;
pub mod search;
pub mod tui;
