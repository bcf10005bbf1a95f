use ofs_convert::allocator::Allocator;
use ofs_convert::error::ConvertError;
use ofs_convert::ranges::Ranges;
use ofs_convert::serialization::dentry::DentryRepresentation;
use ofs_convert::serialization::stream_archiver::{Record, StreamArchiver};
use ofs_convert::serialization::dry_run_deserializer::DryRunDeserializerInternals;
use ofs_convert::serialization::FileType;

const PAGE_SIZE: usize = 1024;

fn setup() -> (Vec<u8>, Allocator) {
    let partition = vec![0u8; 64 * PAGE_SIZE];
    // the first 4 clusters are in use
    let allocator = Allocator::new(partition.len() as u64, PAGE_SIZE, Ranges::from(vec![0..4]));
    (partition, allocator)
}

fn dentry() -> DentryRepresentation {
    DentryRepresentation { access_time: 1, create_time: 2, mod_time: 3, file_size: 4, is_dir: true }
}

#[test]
fn reads_back_what_was_archived() {
    let (mut partition, mut allocator) = setup();
    let mut archiver = StreamArchiver::new(PAGE_SIZE);
    archiver.archive(&Record::FileTypes(vec![FileType::Directory(3)]), &mut partition, &mut allocator).unwrap();
    archiver.archive(&Record::Dentries(vec![dentry()]), &mut partition, &mut allocator).unwrap();
    archiver.archive(&Record::Bytes(b"a name".to_vec()), &mut partition, &mut allocator).unwrap();
    archiver.archive(&Record::Ranges(vec![5..9, 20..21]), &mut partition, &mut allocator).unwrap();
    archiver.archive(&Record::FileTypes(vec![FileType::RegularFile]), &mut partition, &mut allocator).unwrap();
    let (mut reader, _rest) = archiver.into_reader(&mut partition, allocator).unwrap();

    assert_eq!(reader.next_file_types(&partition).unwrap(), vec![FileType::Directory(3)]);
    assert_eq!(reader.next_dentries(&partition).unwrap(), vec![dentry()]);
    assert_eq!(reader.next_bytes(&partition).unwrap(), b"a name".to_vec());
    assert_eq!(reader.next_ranges(&partition).unwrap(), vec![5..9, 20..21]);
    assert_eq!(reader.next_file_types(&partition).unwrap(), vec![FileType::RegularFile]);
}

#[test]
fn reads_back_an_archive_of_several_pages() {
    let (mut partition, mut allocator) = setup();
    let mut archiver = StreamArchiver::new(PAGE_SIZE);
    let name: Vec<u8> = (0..5000u32).map(|i| (i % 251) as u8).collect();
    let ranges: Vec<std::ops::Range<u32>> = (0..300u32).map(|i| i * 10..i * 10 + 3).collect();
    archiver.archive(&Record::Bytes(name.clone()), &mut partition, &mut allocator).unwrap();
    archiver.archive(&Record::Ranges(ranges.clone()), &mut partition, &mut allocator).unwrap();
    archiver.archive(&Record::Dentries(vec![dentry(); 100]), &mut partition, &mut allocator).unwrap();
    let (mut reader, rest) = archiver.into_reader(&mut partition, allocator).unwrap();

    assert_eq!(reader.next_bytes(&partition).unwrap(), name);
    assert_eq!(reader.next_ranges(&partition).unwrap(), ranges);
    assert_eq!(reader.next_dentries(&partition).unwrap(), vec![dentry(); 100]);
    // the pages were allocated after the used clusters, and the rest of the allocator starts after them
    assert!(rest.free_block_count() < 60);
}

#[test]
fn archive_writes_only_free_clusters() {
    let (mut partition, mut allocator) = setup();
    for b in partition.iter_mut().take(4 * PAGE_SIZE) {
        *b = 0xAA;
    }
    let mut archiver = StreamArchiver::new(PAGE_SIZE);
    archiver.archive(&Record::Bytes(vec![1; 3000]), &mut partition, &mut allocator).unwrap();
    let _ = archiver.into_reader(&mut partition, allocator).unwrap();
    assert!(partition[..4 * PAGE_SIZE].iter().all(|&b| b == 0xAA));
}

#[test]
fn reading_a_record_of_another_kind_fails() {
    let (mut partition, mut allocator) = setup();
    let mut archiver = StreamArchiver::new(PAGE_SIZE);
    archiver.archive(&Record::Bytes(b"x".to_vec()), &mut partition, &mut allocator).unwrap();
    let (mut reader, _rest) = archiver.into_reader(&mut partition, allocator).unwrap();
    assert_eq!(reader.next_file_types(&partition), Err(ConvertError::CorruptedData));
}

#[test]
fn archiving_fails_without_free_clusters() {
    let mut partition = vec![0u8; 8 * PAGE_SIZE];
    let mut allocator = Allocator::new(partition.len() as u64, PAGE_SIZE, Ranges::from(vec![0..8]));
    let mut archiver = StreamArchiver::new(PAGE_SIZE);
    let r = archiver.archive(&Record::Bytes(vec![0; 2000]), &mut partition, &mut allocator);
    assert_eq!(r, Err(ConvertError::NoFreeClusters));
}

#[test]
fn a_duplicated_reader_reads_the_same_records() {
    let (mut partition, mut allocator) = setup();
    let mut archiver = StreamArchiver::new(PAGE_SIZE);
    archiver.archive(&Record::Bytes(Vec::new()), &mut partition, &mut allocator).unwrap();
    archiver.archive(&Record::Ranges(vec![1..2]), &mut partition, &mut allocator).unwrap();
    let (mut reader, _rest) = archiver.into_reader(&mut partition, allocator).unwrap();
    let mut copy = reader.duplicate();
    assert_eq!(reader.next_bytes(&partition).unwrap(), Vec::<u8>::new());
    assert_eq!(reader.next_ranges(&partition).unwrap(), vec![1..2]);
    assert_eq!(copy.next_bytes(&partition).unwrap(), Vec::<u8>::new());
    assert_eq!(copy.next_ranges(&partition).unwrap(), vec![1..2]);
}

fn archived_tree() -> (Vec<u8>, ofs_convert::serialization::stream_archiver::Reader) {
    let (mut partition, mut allocator) = setup();
    let mut archiver = StreamArchiver::new(PAGE_SIZE);
    let records = vec![
        Record::FileTypes(vec![FileType::Directory(2)]),
        Record::FileTypes(vec![FileType::RegularFile]),
        Record::Dentries(vec![dentry()]),
        Record::Bytes(b"A".to_vec()),
        Record::Ranges(vec![5..9]),
        Record::FileTypes(vec![FileType::Directory(1)]),
        Record::Dentries(vec![dentry()]),
        Record::Bytes(b"B".to_vec()),
        Record::FileTypes(vec![FileType::RegularFile]),
        Record::Dentries(vec![dentry()]),
        Record::Bytes(b"C".to_vec()),
        Record::Ranges(vec![]),
    ];
    for record in &records {
        archiver.archive(record, &mut partition, &mut allocator).unwrap();
    }
    let (reader, _rest) = archiver.into_reader(&mut partition, allocator).unwrap();
    (partition, reader)
}

#[test]
fn dry_run_counts_what_the_tree_needs() {
    // lost+found, A, B and C take four inodes; the root's entries, lost+found's and B's take a block each
    let (partition, reader) = archived_tree();
    assert_eq!(DryRunDeserializerInternals::dry_run(reader, 4, 3, 1024, &partition, 10), Ok(()));
    let (partition, reader) = archived_tree();
    assert_eq!(
        DryRunDeserializerInternals::dry_run(reader, 3, 100, 1024, &partition, 10),
        Err(ConvertError::NotEnoughSpace {
            required_blocks: 3,
            available_blocks: 100,
            required_inodes: 4,
            available_inodes: 3
        })
    );
    let (partition, reader) = archived_tree();
    assert_eq!(
        DryRunDeserializerInternals::dry_run(reader, 50, 2, 1024, &partition, 10),
        Err(ConvertError::NotEnoughSpace {
            required_blocks: 3,
            available_blocks: 2,
            required_inodes: 4,
            available_inodes: 50
        })
    );
}

#[test]
fn dry_run_refuses_an_archive_beyond_its_budget() {
    let (partition, reader) = archived_tree();
    assert_eq!(
        DryRunDeserializerInternals::dry_run(reader, 50, 50, 1024, &partition, 2),
        Err(ConvertError::CorruptedData)
    );
}
