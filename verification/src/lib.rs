//! The logic of a tool that moves files to a machine reachable only through its keyboard and
//! screen.

pub mod archive;
pub mod arq;
pub mod backend;
pub mod cli;
pub mod config;
pub mod encoder;
pub mod failsafe;
pub mod keymap;
pub mod ocr;
pub mod parts;
pub mod payload;
pub mod progress;
pub mod pull;
pub mod qr;
pub mod radix;
pub mod restore_script;
pub mod screen;
pub mod scripts;
pub mod target;
pub mod text;
pub mod utils;
pub mod web;
