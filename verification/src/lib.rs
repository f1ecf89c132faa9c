//! The logic of a mind-map editor: the map itself, its text, its history, the
//! formats it reads and writes, and the decisions behind its window.

pub mod ascii;
pub mod convert;
pub mod coord;
pub mod cursor;
pub mod dev;
pub mod export_svg;
pub mod graph;
pub mod hash;
pub mod history;
pub mod ids;
pub mod image_bank;
pub mod images;
pub mod markdown;
pub mod paint;
pub mod paths;
pub mod perf;
pub mod pinch;
pub mod sandbox;
pub mod store;
pub mod text;
pub mod theme;
pub mod ui;
