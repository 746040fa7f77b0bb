//! What a disk usage tool needs to know of the platform it runs on: how large a file is, what
//! identifies it, and under which other paths macOS shows a directory.

pub mod encoding;
pub mod firmlink_laws;
pub mod firmlinks;
pub mod metadata;
pub mod path;
pub mod path_laws;
pub mod text;
pub mod unix;
pub mod windows;
