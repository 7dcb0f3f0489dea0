//! Enumeration of listening network sockets and forced process termination.
//!
//! The library is the platform-independent core of a port manager: it turns
//! the captured text output of OS introspection tools (`ss`, `lsof`,
//! `netstat`, the kernel's socket pseudo-tables) into a uniform set of
//! port/process records, correlates sockets with owning processes, and
//! classifies the outcome of a forced-kill request.  All input is handed in
//! as plain captured values; the process spawning and file reading that
//! produce those captures live outside the library.

pub mod commands;
pub mod scanner;
pub mod text;
