//! Capture and discovery logic of the PromptRail agent.
//!
//! The kernel side stashes the arguments of TLS calls and emits their plaintext
//! ([`capture`], [`event`]); the daemon reports it ([`report`]) and tells which
//! processes it covers ([`proc_watch`]). Binaries without symbols are searched for
//! the functions to attach to ([`elf`], [`pattern`], [`disasm`]). [`harness`] drives
//! traffic by which the capture is checked.

pub mod capture;
pub mod direction;
pub mod disasm;
pub mod elf;
pub mod event;
pub mod harness;
pub mod le;
pub mod pattern;
pub mod proc_watch;
pub mod report;
pub mod stat;
pub mod text;
