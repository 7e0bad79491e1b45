use conserve::blockdir::validate::{check_block_hash, count_block_check};
use conserve::blockdir::listing::{select_entries, starts_with_tmp};
use conserve::blockdir::{
    block_presence, check_whole_block, publish_outcome, subdir_ready, unpack_block, Address, BlockDir,
    ValidateBlockDirStats,
};
use conserve::errors::StoreError;
use conserve::hash::hash_bytes;
use conserve::kind::Kind;
use conserve::report::Report;
use conserve::stats::Sizes;
use conserve::store_files::StoreFiles;
use conserve::transport::{Metadata, TransportEntry, TransportError, TransportRead, TransportWrite};

/// A transport on which everything fails.
struct Broken;

impl TransportRead for Broken {
    fn read_dir(&self, _path: &str) -> Result<Vec<TransportEntry>, TransportError> {
        Err(TransportError::Other)
    }

    fn read_file(&self, _path: &str) -> Result<Vec<u8>, TransportError> {
        Err(TransportError::Other)
    }

    fn metadata(&self, _path: &str) -> Result<Metadata, TransportError> {
        Err(TransportError::Other)
    }
}

impl TransportWrite for Broken {
    fn make_dir(&mut self, _path: &str) -> Result<(), TransportError> {
        Err(TransportError::Other)
    }

    fn write_file(&mut self, _path: &str, _content: &[u8]) -> Result<(), TransportError> {
        Err(TransportError::Other)
    }
}

/// A transport that sees nothing, and on which every name turns out to be
/// taken when it is written to.
struct Raced;

impl TransportRead for Raced {
    fn read_dir(&self, _path: &str) -> Result<Vec<TransportEntry>, TransportError> {
        Ok(Vec::new())
    }

    fn read_file(&self, _path: &str) -> Result<Vec<u8>, TransportError> {
        Err(TransportError::NotFound)
    }

    fn metadata(&self, _path: &str) -> Result<Metadata, TransportError> {
        Err(TransportError::NotFound)
    }
}

impl TransportWrite for Raced {
    fn make_dir(&mut self, _path: &str) -> Result<(), TransportError> {
        Err(TransportError::AlreadyExists)
    }

    fn write_file(&mut self, _path: &str, _content: &[u8]) -> Result<(), TransportError> {
        Err(TransportError::AlreadyExists)
    }
}

const HELLO_HASH: &str = "66ad1939a9289aa9f1f1d9ad7bcee694293c7623affb5979bd\
     3f844ab4adcf2145b117b7811b3cee31e130efd760e9685f208c2b2fb1d67e28262168013ba63c";

#[test]
fn a_broken_transport_gives_errors() {
    let path = format!("d/66a/{}", HELLO_HASH);
    let block_dir = BlockDir::new(Broken, "d");
    assert_eq!(
        block_dir.contains(HELLO_HASH),
        Err(StoreError::ReadBlock { path: path.clone() })
    );
    assert_eq!(
        block_dir.get_block_content(HELLO_HASH),
        Err(StoreError::ReadBlock { path: path.clone() })
    );
    assert_eq!(
        block_dir.validate_block(HELLO_HASH),
        Err(StoreError::ReadBlock { path: path.clone() })
    );
    assert_eq!(
        block_dir.compressed_block_size(HELLO_HASH),
        Err(StoreError::ReadBlock { path: path.clone() })
    );
    assert_eq!(
        block_dir.block_names(),
        Err(StoreError::ListBlocks { path: "d".to_owned() })
    );
    assert_eq!(
        block_dir.validate(),
        Err(StoreError::ListBlocks { path: "d".to_owned() })
    );
    assert!(matches!(BlockDir::create(Broken, "d"), Err(StoreError::CreateBlockDir)));

    let mut report = Report::new();
    let mut block_dir = block_dir;
    assert_eq!(
        block_dir.compress_and_store(b"hello!", HELLO_HASH, &mut report),
        Err(StoreError::StoreBlock { block_hash: HELLO_HASH.to_owned() })
    );
    let mut store = StoreFiles::new(block_dir);
    assert_eq!(
        store.store_file_content(b"hello!", &mut report),
        Err(StoreError::ReadBlock { path })
    );
    assert_eq!(report.get_count("block.write"), 0);
    assert_eq!(report.get_count("file.medium"), 0);
}

#[test]
fn a_block_that_turns_up_late_is_counted_as_present() {
    let mut report = Report::new();
    let mut store = StoreFiles::new(BlockDir::new(Raced, ""));
    let (addrs, sizes) = store.store_file_content(b"hello!", &mut report).unwrap();
    assert_eq!(addrs.len(), 1);
    assert_eq!(addrs[0].hash, HELLO_HASH);
    assert_eq!(sizes, Sizes { uncompressed: 6, compressed: 8 });
    assert_eq!(report.get_count("block.already_present"), 1);
    assert_eq!(report.get_count("block.write"), 1);
    assert_eq!(report.get_count("file.medium"), 1);
}

#[test]
fn presence_follows_what_was_found() {
    let found = Metadata { len: 8, kind: Kind::File };
    assert_eq!(block_presence(Ok(found), "p".to_owned()), Ok(true));
    assert_eq!(
        block_presence(Ok(Metadata { len: 0, kind: Kind::Dir }), "p".to_owned()),
        Ok(true)
    );
    assert_eq!(block_presence(Err(TransportError::NotFound), "p".to_owned()), Ok(false));
    assert_eq!(
        block_presence(Err(TransportError::Other), "p".to_owned()),
        Err(StoreError::ReadBlock { path: "p".to_owned() })
    );
    assert_eq!(
        block_presence(Err(TransportError::AlreadyExists), "p".to_owned()),
        Err(StoreError::ReadBlock { path: "p".to_owned() })
    );
}

#[test]
fn a_subdirectory_that_exists_is_ready() {
    assert!(subdir_ready(Ok(())));
    assert!(subdir_ready(Err(TransportError::AlreadyExists)));
    assert!(!subdir_ready(Err(TransportError::NotFound)));
    assert!(!subdir_ready(Err(TransportError::Other)));
}

#[test]
fn a_taken_name_is_no_error() {
    let mut report = Report::new();
    assert_eq!(publish_outcome(Ok(()), "abc", &mut report), Ok(()));
    assert_eq!(report.get_count("block.already_present"), 0);
    assert_eq!(
        publish_outcome(Err(TransportError::AlreadyExists), "abc", &mut report),
        Ok(())
    );
    assert_eq!(report.get_count("block.already_present"), 1);
    assert_eq!(
        publish_outcome(Err(TransportError::Other), "abc", &mut report),
        Err(StoreError::StoreBlock { block_hash: "abc".to_owned() })
    );
    assert_eq!(
        publish_outcome(Err(TransportError::NotFound), "abc", &mut report),
        Err(StoreError::StoreBlock { block_hash: "abc".to_owned() })
    );
    assert_eq!(report.get_count("block.already_present"), 1);
}

#[test]
fn unpacking_decompresses_what_was_read() {
    let packed = vec![6, 5 << 2, b'h', b'e', b'l', b'l', b'o', b'!'];
    assert_eq!(
        unpack_block(Ok(packed), "p".to_owned()),
        Ok((b"hello!".to_vec(), Sizes { uncompressed: 6, compressed: 8 }))
    );
    assert_eq!(
        unpack_block(Ok(vec![0]), "p".to_owned()),
        Ok((Vec::new(), Sizes { uncompressed: 0, compressed: 1 }))
    );
    assert_eq!(
        unpack_block(Ok(b"hello!".to_vec()), "p".to_owned()),
        Err(StoreError::Decompress { path: "p".to_owned() })
    );
    assert_eq!(
        unpack_block(Ok(Vec::new()), "p".to_owned()),
        Err(StoreError::Decompress { path: "p".to_owned() })
    );
    assert_eq!(
        unpack_block(Err(TransportError::NotFound), "p".to_owned()),
        Err(StoreError::ReadBlock { path: "p".to_owned() })
    );
}

#[test]
fn only_whole_blocks_are_read() {
    let whole = Address { hash: HELLO_HASH.to_owned(), start: 0, len: 6 };
    assert_eq!(check_whole_block(&whole, 6), Ok(()));
    assert_eq!(check_whole_block(&whole, 7), Err(StoreError::UnsupportedPartialRead));
    let shifted = Address { hash: HELLO_HASH.to_owned(), start: 2, len: 4 };
    assert_eq!(check_whole_block(&shifted, 4), Err(StoreError::UnsupportedPartialRead));
    assert_eq!(check_whole_block(&shifted, 6), Err(StoreError::UnsupportedPartialRead));
}

#[test]
fn content_must_hash_to_the_name() {
    assert_eq!(check_block_hash(HELLO_HASH, b"hello!", "p".to_owned()), Ok(()));
    assert_eq!(
        check_block_hash(HELLO_HASH, b"hello", "p".to_owned()),
        Err(StoreError::BlockCorrupt {
            path: "p".to_owned(),
            actual_hash: hash_bytes(b"hello"),
        })
    );
}

#[test]
fn failed_checks_are_counted_by_their_kind() {
    let mut stats = ValidateBlockDirStats::default();
    count_block_check(&mut stats, &Ok(()));
    assert_eq!((stats.block_hash_wrong, stats.block_decompression_failed), (0, 0));
    count_block_check(
        &mut stats,
        &Err(StoreError::BlockCorrupt { path: "p".to_owned(), actual_hash: "h".to_owned() }),
    );
    assert_eq!((stats.block_hash_wrong, stats.block_decompression_failed), (1, 0));
    count_block_check(&mut stats, &Err(StoreError::Decompress { path: "p".to_owned() }));
    count_block_check(&mut stats, &Err(StoreError::ReadBlock { path: "p".to_owned() }));
    assert_eq!((stats.block_hash_wrong, stats.block_decompression_failed), (1, 2));
}

#[test]
fn counts_are_taken_together() {
    let a = ValidateBlockDirStats { block_hash_wrong: 1, block_decompression_failed: 2 };
    let b = ValidateBlockDirStats { block_hash_wrong: 10, block_decompression_failed: 20 };
    let want = ValidateBlockDirStats { block_hash_wrong: 11, block_decompression_failed: 22 };
    assert_eq!(a.merge(b), want);
    assert_eq!(b.merge(a), want);
    assert_eq!(a.merge(ValidateBlockDirStats::default()), a);
}

#[test]
fn entries_are_selected_by_kind_and_name() {
    let long = "a".repeat(128);
    let entries = vec![
        TransportEntry::new("66a".to_owned(), Kind::Dir),
        TransportEntry::new("66ab".to_owned(), Kind::Dir),
        TransportEntry::new("abc".to_owned(), Kind::File),
        TransportEntry::new("tmp".to_owned(), Kind::Dir),
        TransportEntry::new(format!("66a/{}", long), Kind::File),
        TransportEntry::new(format!("66a/tmp{}", "a".repeat(125)), Kind::File),
        TransportEntry::new(format!("66a/{}", "b".repeat(128)), Kind::Symlink),
    ];
    let dirs = select_entries(&entries, Kind::Dir, 3, false);
    assert_eq!(
        dirs,
        vec![
            TransportEntry::new("66a".to_owned(), Kind::Dir),
            TransportEntry::new("tmp".to_owned(), Kind::Dir),
        ]
    );
    let blocks = select_entries(&entries, Kind::File, 128, true);
    assert_eq!(blocks, vec![TransportEntry::new(format!("66a/{}", long), Kind::File)]);
    let with_tmp = select_entries(&entries, Kind::File, 128, false);
    assert_eq!(with_tmp.len(), 2);
    assert!(starts_with_tmp("tmpXYZ"));
    assert!(starts_with_tmp("tmp"));
    assert!(!starts_with_tmp("tm"));
    assert!(!starts_with_tmp("atmp"));
}
