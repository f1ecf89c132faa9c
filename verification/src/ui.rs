//! What the window decides: what each key, click and menu row means, what is
//! drawn, and what the map and its history are afterwards. Pixels, fonts and the
//! system are not decided here.

pub mod clock;
pub mod context;
pub mod document;
pub mod editor;
pub mod find;
pub mod frame;
pub mod gesture;
pub mod help;
pub mod input;
pub mod keys;
pub mod label;
pub mod laws;
pub mod menus;
pub mod motion;
pub mod pointer;
