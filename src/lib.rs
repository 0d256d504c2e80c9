//! Interactive search over shell history: decoding of a history file, command
//! extraction, multi-term query filtering and the selection state machine.

pub mod app;
pub mod command;
pub mod decode;
pub mod filter;
pub mod text;
