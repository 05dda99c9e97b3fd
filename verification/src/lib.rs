//! Talking to MicroPython boards: the raw REPL protocol, the scripts that move
//! files over it, and the rules that decide what a sync uploads or deletes.

pub mod cli;
pub mod connection;
pub mod device;
pub mod directory_laws;
pub mod error;
pub mod exchange_laws;
pub mod files;
pub mod filter;
pub mod filter_laws;
pub mod glob_laws;
pub mod globs;
pub mod hex;
pub mod mirror_laws;
pub mod operation_laws;
pub mod program_laws;
pub mod protocol;
pub mod python;
pub mod remote;
pub mod replies;
pub mod report_laws;
pub mod scripts;
pub mod serial;
pub mod session;
pub mod session_laws;
pub mod step_laws;
pub mod sync;
pub mod sync_laws;
pub mod terminal;
pub mod terminal_laws;
pub mod text;
pub mod text_laws;
pub mod timing_laws;
pub mod transfer_laws;
pub mod tree_laws;
pub mod unicode;
pub mod upload_laws;
pub mod walk;
pub mod walk_laws;
