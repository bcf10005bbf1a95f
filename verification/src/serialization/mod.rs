pub mod archive_layout;
pub mod dentry;
pub mod stream_archiver;
pub mod dry_run_deserializer;
pub mod ext4_deserializer;
pub mod fat_serializer;
pub mod file_records;

use vstd::prelude::*;

verus! {

/// Marks the collectors of one directory's entries while a serialized directory tree is read back: the one that
/// writes them into the ext4 filesystem and the one that only counts the blocks they need.
pub trait DirectoryWriter {
}

/// The kind of a serialized file.
#[derive(Debug, Clone, Copy, PartialEq, Eq, Structural)]
pub enum FileType {
    /// A directory, with the number of files it holds.
    Directory(u32),
    RegularFile,
}

} // verus!
