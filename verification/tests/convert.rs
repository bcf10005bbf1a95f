use ofs_convert::convert::convert;
use ofs_convert::fat::fs::is_fat_partition_readable;
use ofs_convert::error::{ConversionStage, ConvertError, ConvertFailure};

const SECTOR: usize = 512;
const RESERVED_SECTORS: usize = 32;
const SECTORS_PER_FAT: usize = 128;

/// 2021-03-04
const DATE: u16 = (41 << 9) | (3 << 5) | 4;

fn put_u16(img: &mut [u8], off: usize, v: u16) {
    img[off..off + 2].copy_from_slice(&v.to_le_bytes());
}

fn put_u32(img: &mut [u8], off: usize, v: u32) {
    img[off..off + 4].copy_from_slice(&v.to_le_bytes());
}

fn get_u16(img: &[u8], off: usize) -> u16 {
    u16::from_le_bytes([img[off], img[off + 1]])
}

fn get_u32(img: &[u8], off: usize) -> u32 {
    u32::from_le_bytes([img[off], img[off + 1], img[off + 2], img[off + 3]])
}

struct Image {
    bytes: Vec<u8>,
    cluster_size: usize,
}

impl Image {
    /// A FAT32 image of `total_sectors` sectors with clusters of `sectors_per_cluster` sectors.
    fn new(total_sectors: usize, sectors_per_cluster: usize) -> Self {
        let mut bytes = vec![0u8; total_sectors * SECTOR];
        bytes[0..3].copy_from_slice(&[0xEB, 0x58, 0x90]);
        bytes[3..11].copy_from_slice(b"MSWIN4.1");
        put_u16(&mut bytes, 11, SECTOR as u16);
        bytes[13] = sectors_per_cluster as u8;
        put_u16(&mut bytes, 14, RESERVED_SECTORS as u16);
        bytes[16] = 2;
        bytes[21] = 0xF8;
        put_u32(&mut bytes, 32, total_sectors as u32);
        put_u32(&mut bytes, 36, SECTORS_PER_FAT as u32);
        put_u32(&mut bytes, 44, 2);
        bytes[66] = 0x29;
        bytes[71..82].copy_from_slice(b"MYVOLUME   ");
        bytes[82..90].copy_from_slice(b"FAT32   ");
        let mut image = Image { bytes, cluster_size: sectors_per_cluster * SECTOR };
        image.set_fat(0, 0x0FFF_FFF8);
        image.set_fat(1, 0x0FFF_FFFF);
        image
    }

    fn set_fat(&mut self, idx: usize, value: u32) {
        put_u32(&mut self.bytes, RESERVED_SECTORS * SECTOR + 4 * idx, value);
    }

    /// The byte offset of the cluster with FAT index `idx`.
    fn cluster_offset(&self, idx: usize) -> usize {
        (RESERVED_SECTORS + 2 * SECTORS_PER_FAT) * SECTOR + (idx - 2) * self.cluster_size
    }

    fn put_dentry(&mut self, dir_cluster: usize, slot: usize, name: &[u8; 11], attrs: u8, cluster: u32, size: u32) {
        let off = self.cluster_offset(dir_cluster) + 32 * slot;
        self.bytes[off..off + 11].copy_from_slice(name);
        self.bytes[off + 11] = attrs;
        put_u16(&mut self.bytes, off + 16, DATE);
        put_u16(&mut self.bytes, off + 18, DATE);
        put_u16(&mut self.bytes, off + 20, (cluster >> 16) as u16);
        put_u16(&mut self.bytes, off + 24, DATE);
        put_u16(&mut self.bytes, off + 26, cluster as u16);
        put_u32(&mut self.bytes, off + 28, size);
    }

    /// An image with `HELLO.TXT` and `SUBDIR/DATA.BIN` (two clusters) in its root directory.
    fn with_files(total_sectors: usize, sectors_per_cluster: usize) -> Self {
        let mut image = Image::new(total_sectors, sectors_per_cluster);
        image.set_fat(2, 0x0FFF_FFFF);
        image.set_fat(3, 0x0FFF_FFFF);
        image.set_fat(4, 0x0FFF_FFFF);
        image.set_fat(5, 6);
        image.set_fat(6, 0x0FFF_FFFF);
        image.put_dentry(2, 0, b"HELLO   TXT", 0x20, 3, 5);
        image.put_dentry(2, 1, b"SUBDIR     ", 0x10, 4, 0);
        let hello = image.cluster_offset(3);
        image.bytes[hello..hello + 5].copy_from_slice(b"hello");
        image.put_dentry(4, 0, b".          ", 0x10, 4, 0);
        image.put_dentry(4, 1, b"..         ", 0x10, 0, 0);
        let data_len = image.cluster_size + 476;
        image.put_dentry(4, 2, b"DATA    BIN", 0x20, 5, data_len as u32);
        let data = image.cluster_offset(5);
        for i in 0..data_len {
            image.bytes[data + i] = (i % 253) as u8;
        }
        image
    }
}

/// The first extent of inode `inode_no` of a converted filesystem whose first inode table starts at block
/// `inode_table_block`: its physical start and length.
fn first_extent(img: &[u8], block_size: usize, inode_table_block: usize, inode_no: usize) -> (usize, usize) {
    let inode = inode_table_block * block_size + (inode_no - 1) * 256;
    let i_block = inode + 40;
    assert_eq!(get_u16(img, i_block), 0xF30A, "extent header magic");
    let extent = i_block + 12;
    let len = get_u16(img, extent + 4) as usize;
    let start = ((get_u16(img, extent + 6) as usize) << 32) | get_u32(img, extent + 8) as usize;
    (start, len)
}

fn directory_names(img: &[u8], block_size: usize, block: usize) -> Vec<Vec<u8>> {
    let mut names = Vec::new();
    let mut pos = block * block_size;
    let end = pos + block_size;
    while pos < end {
        let rec_len = get_u16(img, pos + 4) as usize;
        let name_len = get_u16(img, pos + 6) as usize;
        names.push(img[pos + 8..pos + 8 + name_len].to_vec());
        assert!(rec_len > 0);
        pos += rec_len;
    }
    names
}

#[test]
fn converts_a_small_fat32_image() {
    // 16 MiB, 1 KiB clusters
    let mut image = Image::with_files(32768, 2);
    convert(&mut image.bytes, [0x11; 16], 1_600_000_000).unwrap();
    let img = &image.bytes;
    let sb = 1024;
    assert_eq!(get_u16(img, sb + 56), 0xEF53, "superblock magic");
    assert_eq!(get_u32(img, sb + 4), 16384, "block count");
    let inodes = get_u32(img, sb);
    assert_eq!(inodes, 1024);
    // root, lost+found, HELLO.TXT, SUBDIR, DATA.BIN: 10 reserved inodes and 4 allocated ones
    assert_eq!(get_u32(img, sb + 16), inodes - 10 - 4, "free inodes");
    // the label up to (and excluding) its last non-space character, padded with zeros
    assert_eq!(&img[sb + 120..sb + 136], b"MYVOLUM\0\0\0\0\0\0\0\0\0", "volume name");

    // group 0 starts at block 1; superblock, one GDT block, two bitmaps, then the inode table
    let inode_table = 1 + 2 + 2;
    let (root_block, root_len) = first_extent(img, 1024, inode_table, 2);
    assert_eq!(root_len, 1);
    let names = directory_names(img, 1024, root_block);
    assert_eq!(names, vec![b".".to_vec(), b"..".to_vec(), b"lost+found".to_vec(), b"HELLO.TXT".to_vec(), b"SUBDIR".to_vec()]);

    // the file data stays where it was
    let (hello_block, hello_len) = first_extent(img, 1024, inode_table, 12);
    assert_eq!(hello_len, 1);
    assert_eq!(&img[hello_block * 1024..hello_block * 1024 + 5], b"hello");
    let (data_block, data_len) = first_extent(img, 1024, inode_table, 14);
    assert_eq!(data_len, 2);
    for i in 0..1500 {
        assert_eq!(img[data_block * 1024 + i], (i % 253) as u8);
    }
}

#[test]
fn copies_data_that_ext4_metadata_will_overwrite() {
    // 64 MiB, 4 KiB clusters: the first block group's inode table covers the start of the FAT data region
    let mut image = Image::with_files(131072, 8);
    let data_offset = image.cluster_offset(5);
    convert(&mut image.bytes, [0x11; 16], 1_600_000_000).unwrap();
    let img = &image.bytes;
    assert_eq!(get_u16(img, 1024 + 56), 0xEF53);
    // one block group without padding: superblock, one GDT block, two bitmaps, then the inode table
    let inode_table = 4;
    let (data_block, data_len) = first_extent(img, 4096, inode_table, 14);
    assert_eq!(data_len, 2);
    assert_ne!(data_block * 4096, data_offset, "the data moved out of the metadata region");
    for i in 0..(4096 + 476) {
        assert_eq!(img[data_block * 4096 + i], (i % 253) as u8);
    }
    let (hello_block, _) = first_extent(img, 4096, inode_table, 12);
    assert_eq!(&img[hello_block * 4096..hello_block * 4096 + 5], b"hello");
}

#[test]
fn refuses_a_partition_that_is_not_fat32() {
    let mut image = Image::with_files(32768, 2);
    image.bytes[82..90].copy_from_slice(b"FAT16   ");
    let before = image.bytes.clone();
    assert_eq!(
        convert(&mut image.bytes, [0x11; 16], 1_600_000_000),
        Err(ConvertFailure { stage: ConversionStage::Setup, error: ConvertError::UnexpectedFileSystemType })
    );
    assert!(image.bytes == before);
}

#[test]
fn refuses_an_invalid_timestamp_and_leaves_the_fat_data_intact() {
    let mut image = Image::with_files(32768, 2);
    // a modification date in month 13
    let off = image.cluster_offset(2) + 24;
    put_u16(&mut image.bytes, off, (41 << 9) | (13 << 5) | 4);
    let before = image.bytes.clone();
    assert_eq!(
        convert(&mut image.bytes, [0x11; 16], 1_600_000_000),
        Err(ConvertFailure { stage: ConversionStage::Serialization, error: ConvertError::InvalidTimestamp })
    );
    // the boot sector, the FAT and the clusters in use are unchanged
    let data_start = image.cluster_offset(2);
    assert!(image.bytes[..data_start + 5 * 1024] == before[..data_start + 5 * 1024]);
}

#[test]
fn refuses_a_partition_without_the_fat32_boot_signature() {
    let mut image = Image::with_files(32768, 2);
    image.bytes[66] = 0x28;
    let before = image.bytes.clone();
    assert_eq!(
        convert(&mut image.bytes, [0x11; 16], 1_600_000_000),
        Err(ConvertFailure { stage: ConversionStage::Setup, error: ConvertError::UnexpectedBootSignature })
    );
    assert!(image.bytes == before);
}

#[test]
fn a_partition_shorter_than_a_boot_sector_is_not_readable() {
    assert!(!is_fat_partition_readable(&vec![0u8; 64]));
}

#[test]
fn a_partition_with_its_data_region_past_its_end_is_not_readable() {
    let image = Image::with_files(32768, 2);
    assert!(is_fat_partition_readable(&image.bytes));
    let truncated = image.bytes[..image.bytes.len() / 2].to_vec();
    assert!(!is_fat_partition_readable(&truncated));
}
