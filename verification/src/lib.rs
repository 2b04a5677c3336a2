//! One-way folder mirroring: the rules that decide what is mirrored, where it
//! goes, and when a burst of change notifications is applied.
//!
//! The library never touches the file system. A driver walks the source tree,
//! probes paths and moves bytes; every decision in between is taken here, on
//! plain values, and is verified.

pub mod ignore;
pub mod path;
pub mod sync;
pub mod util;
pub mod watch;
