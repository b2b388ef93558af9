//! Verified logic of a small C runtime: the `printf` and `scanf` format
//! engines, the `/proc` text parsers, the path and timeout arithmetic, and the
//! decision steps of the thread primitives. The C entry points that touch raw
//! memory, system calls and variadic argument lists live in `app/`.

pub mod printf;
pub mod scanf;
pub mod maps;
pub mod elf;
pub mod status;
pub mod decimal;
pub mod environ;
pub mod exec;
pub mod sync;
pub mod fcntl;
pub mod keys;
pub mod wide;
pub mod io;
pub mod sort;
pub mod syslog;
pub mod report;
pub mod fortify;
