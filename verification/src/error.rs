use vstd::prelude::*;

verus! {

/// The reasons for which a conversion step can fail.
#[derive(Debug, Clone, Copy, PartialEq, Eq, Structural)]
pub enum ConvertError {
    /// A value that must be a power of two is not.
    NotPowerOfTwo,
    /// The boot sector's extended boot signature is not the one of FAT32.
    UnexpectedBootSignature,
    /// The boot sector's file system type is not "FAT32   ".
    UnexpectedFileSystemType,
    /// The boot sector describes regions that do not fit the partition or each other.
    InconsistentFileSystem,
    /// No free cluster is left in the filesystem.
    NoFreeClusters,
    /// The FAT cluster size is below 1 KiB.
    ClusterSizeTooSmall,
    /// The FAT cluster size is above 64 KiB.
    ClusterSizeTooLarge,
    /// The FAT data section does not start at a multiple of the cluster size.
    UnalignedDataSection,
    /// The ext4 filesystem would have fewer than the minimum number of usable blocks.
    FilesystemTooSmall,
    /// The ext4 filesystem would have more than 2^32 block groups.
    FilesystemTooLarge,
    /// The ext4 filesystem would have more than 2^32 inodes.
    TooManyInodes,
    /// The ext4 filesystem would have fewer inodes than the reserved ones.
    TooFewInodes,
    /// A file has more blocks than an ext4 file can address.
    FileTooLarge,
    /// A file name is longer than 255 bytes.
    NameTooLong,
    /// No free inode is left.
    NoFreeInodes,
    /// An extent tree level has no room left.
    ExtentTreeFull,
    /// A directory holds too many entries.
    DirectoryTooLarge,
    /// Not enough free blocks and inodes for the conversion.
    NotEnoughSpace { required_blocks: u64, available_blocks: u64, required_inodes: u64, available_inodes: u64 },
    /// A long file name entry is malformed.
    MalformedLongFileName,
    /// A timestamp cannot be represented.
    InvalidTimestamp,
    /// Data read back from the partition is not what was expected.
    CorruptedData,
}

/// The step of a conversion at which it failed.
#[derive(Debug, Clone, Copy, PartialEq, Eq, Structural)]
pub enum ConversionStage {
    /// Reading the FAT filesystem and deriving the ext4 layout from it.
    Setup,
    /// Archiving the directory tree in free clusters.
    Serialization,
    /// Checking that the ext4 filesystem will have room for every file.
    DryRun,
    /// Writing the ext4 filesystem.
    Conversion,
}

/// A failed conversion: the error and the step at which it came.
#[derive(Debug, Clone, Copy, PartialEq, Eq, Structural)]
pub struct ConvertFailure {
    pub stage: ConversionStage,
    pub error: ConvertError,
}

} // verus!
