# ofs_convert

Converts a FAT32 filesystem into an ext4 filesystem in place, using the free clusters of the filesystem as
temporary storage. The conversion logic is written in Verus and proved against its contracts.

## How a conversion goes

1. The FAT32 boot sector and FAT are read, and the ext4 layout (superblock, block groups) is derived from them.
2. The directory tree is archived in free clusters; data in clusters that the ext4 metadata will occupy is copied
   to free clusters first.
3. A dry run counts the inodes and blocks that the new filesystem needs. Up to here, a failure leaves every cluster
   that the FAT filesystem uses as it was.
4. The ext4 metadata is initialized, the archived tree is rebuilt as ext4 directories and inodes, and the block
   group metadata and the superblock are written. The archive lies outside the ext4 metadata blocks and before the
   clusters that the rebuilding allocates, so nothing written while rebuilding touches a record still to be read.

## Layout

- `src/` the verified library:
  - `ranges`, `bitmap`, `lohi`, `bytes`, `util`: sets of cluster ranges, bitmaps, split integers, byte encodings;
  - `fat`: the boot sector, directory entries, the FAT and directory listings;
  - `allocator`: hands out free clusters, never one in use, never one twice;
  - `ext4`: superblock, block groups, group descriptors, inodes, extent trees, directory entries;
  - `serialization`: the archive of the directory tree (writer and reader), the serializer of the FAT tree, the dry
    run and the builder of the ext4 tree;
  - `convert`: the whole conversion of a partition held in memory.
- `tests/`: tests of the library on concrete values, whole conversions of small FAT32 images among them.
- `app/`: the command-line program: argument handling, the consistency check with `fsck.fat`, mapping the
  partition into memory and writing the converted content back.
