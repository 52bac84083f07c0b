//! Conversion of a sampling profiler's textual stack dump into a pprof profile.
//!
//! `trace` reads the dump's lines into aggregated stacks and `header` its
//! metadata; `profile` interns strings, functions and locations and assembles
//! the profile message; `gzip` compresses the encoded message; `binary` picks
//! the executable to profile.
pub mod binary;
pub mod bytes;
pub mod gzip;
pub mod header;
pub mod profile;
pub mod trace;
pub mod encode;
