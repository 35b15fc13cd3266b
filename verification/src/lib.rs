//! A personal template manager: placeholder scanning, value resolution,
//! rendering, and the state machine of the interactive selector.

pub mod binding;
pub mod commands;
pub mod draft;
pub mod engine;
pub mod order;
pub mod render;
pub mod resolver;
pub mod scan;
pub mod selector;
pub mod shape;
pub mod storage;
pub mod text;
