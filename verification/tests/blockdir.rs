use std::sync::Mutex;

use rayon::iter::{IntoParallelRefIterator, ParallelIterator};

use conserve::blockdir::{Address, BlockDir, MAX_BLOCK_SIZE};
use conserve::errors::StoreError;
use conserve::kind::Kind;
use conserve::report::Report;
use conserve::stats::Sizes;
use conserve::store_files::StoreFiles;
use conserve::transport::memory::MemoryTransport;
use conserve::transport::{TransportRead, TransportWrite};

const EXAMPLE_TEXT: &[u8] = b"hello!";
const EXAMPLE_BLOCK_HASH: &str = "66ad1939a9289aa9f1f1d9ad7bcee694293c7623affb5979bd\
     3f844ab4adcf2145b117b7811b3cee31e130efd760e9685f208c2b2fb1d67e28262168013ba63c";

fn setup() -> BlockDir<MemoryTransport> {
    BlockDir::new(MemoryTransport::new(), "")
}

#[test]
pub fn store_a_file() {
    let expected_hash = EXAMPLE_BLOCK_HASH.to_string();
    let mut report = Report::new();
    let block_dir = setup();

    assert_eq!(block_dir.contains(&expected_hash).unwrap(), false);
    let mut store = StoreFiles::new(block_dir);

    let (addrs, sizes) = store
        .store_file_content(EXAMPLE_TEXT, &mut report)
        .unwrap();

    // Should be in one block, and as it's currently unsalted the hash is the same.
    assert_eq!(1, addrs.len());
    assert_eq!(0, addrs[0].start);
    assert_eq!(EXAMPLE_BLOCK_HASH, addrs[0].hash);

    // Block should be the one block present in the list.
    let block_dir = store.into_block_dir();
    assert_eq!(block_dir.block_names().unwrap(), &[EXAMPLE_BLOCK_HASH]);

    // Subdirectory and file should exist
    let expected_file = format!("66a/{}", EXAMPLE_BLOCK_HASH);
    let attr = block_dir.transport.metadata(&expected_file).unwrap();
    assert!(attr.kind == Kind::File);

    assert_eq!(block_dir.contains(&expected_hash).unwrap(), true);

    assert_eq!(report.get_count("block.already_present"), 0);
    assert_eq!(report.get_count("block.write"), 1);
    assert_eq!(sizes.uncompressed, 6);
    assert_eq!(sizes.compressed, 8);

    // Will vary depending on compressor and we don't want to be too brittle.
    assert!(sizes.compressed <= 19, "{}", sizes.compressed);

    // Try to read back
    let mut read_report = Report::new();
    assert_eq!(read_report.get_count("block.read"), 0);
    let (back, sizes) = block_dir.get(&addrs[0], &mut read_report).unwrap();
    assert_eq!(back, EXAMPLE_TEXT);
    assert_eq!(read_report.get_count("block.read"), 1);
    assert_eq!(
        sizes,
        Sizes {
            uncompressed: EXAMPLE_TEXT.len() as u64,
            compressed: 8u64,
        }
    );

    let validate_stats = block_dir.validate().unwrap();
    assert_eq!(validate_stats.block_hash_wrong, 0);
    assert_eq!(validate_stats.block_decompression_failed, 0);
}

#[test]
pub fn write_same_data_again() {
    let mut report = Report::new();
    let block_dir = setup();

    let mut store = StoreFiles::new(block_dir);
    let (addrs1, sizes1) = store
        .store_file_content(EXAMPLE_TEXT, &mut report)
        .unwrap();
    assert_eq!(report.get_count("block.already_present"), 0);
    assert_eq!(report.get_count("block.write"), 1);
    assert_eq!(sizes1.uncompressed, 6);
    assert_eq!(sizes1.compressed, 8);

    let (addrs2, sizes2) = store
        .store_file_content(EXAMPLE_TEXT, &mut report)
        .unwrap();
    assert_eq!(report.get_count("block.already_present"), 1);
    assert_eq!(report.get_count("block.write"), 1);
    assert_eq!(
        sizes2,
        Sizes {
            uncompressed: 6,
            compressed: 0
        },
        "repeated write compresses to 0"
    );

    assert_eq!(addrs1, addrs2);
}

#[test]
// Large enough that it should break across blocks.
pub fn large_file() {
    let mut report = Report::new();
    let block_dir = setup();
    const N_CHUNKS: u64 = 10;
    const CHUNK_SIZE: u64 = 1 << 21;
    const TOTAL_SIZE: u64 = N_CHUNKS * CHUNK_SIZE;
    let a_chunk = vec![b'@'; CHUNK_SIZE as usize];
    let mut tf: Vec<u8> = Vec::new();
    for _i in 0..N_CHUNKS {
        tf.extend_from_slice(&a_chunk);
    }
    let tf_len = tf.len() as u64;
    println!("tf len={}", tf_len);
    assert_eq!(tf_len, TOTAL_SIZE);

    let mut store = StoreFiles::new(block_dir);
    let (addrs, sizes) = store.store_file_content(&tf, &mut report).unwrap();

    assert_eq!(sizes.uncompressed, TOTAL_SIZE);
    // Should be very compressible
    assert!(sizes.compressed < (MAX_BLOCK_SIZE as u64 / 10));
    assert_eq!(report.get_count("block.write"), 1);
    assert_eq!(
        report.get_count("block.already_present"),
        TOTAL_SIZE / (MAX_BLOCK_SIZE as u64) - 1
    );
    assert_eq!(report.get_count("file.large"), 1);

    // 10x 2MB should be twenty blocks
    assert_eq!(addrs.len(), 20);
    let block_dir = store.into_block_dir();
    let mut read_report = Report::new();
    for a in addrs {
        assert_eq!(a.len, MAX_BLOCK_SIZE as u64);
        assert_eq!(a.hash, addrs_hash_of_at_signs());
        let (retr, block_sizes) = block_dir.get(&a, &mut read_report).unwrap();
        assert_eq!(retr.len(), MAX_BLOCK_SIZE as usize);
        assert!(retr.iter().all(|b| *b == 64u8));
        assert_eq!(block_sizes.uncompressed, MAX_BLOCK_SIZE as u64);
    }
    assert_eq!(read_report.get_count("block.read"), 20);
    assert_eq!(block_dir.block_names().unwrap().len(), 1);
}

fn addrs_hash_of_at_signs() -> String {
    conserve::hash::hash_bytes(&vec![b'@'; MAX_BLOCK_SIZE])
}

#[test]
pub fn empty_file_has_no_blocks() {
    let mut report = Report::new();
    let mut store = StoreFiles::new(setup());
    let (addrs, sizes) = store.store_file_content(b"", &mut report).unwrap();
    assert_eq!(addrs.len(), 0);
    assert_eq!(sizes, Sizes { uncompressed: 0, compressed: 0 });
    assert_eq!(report.get_count("file.empty"), 1);
    assert_eq!(report.get_count("file.medium"), 0);
    assert_eq!(report.get_count("block.write"), 0);
    assert_eq!(store.into_block_dir().block_names().unwrap().len(), 0);
}

#[test]
pub fn partial_read_is_refused() {
    let mut report = Report::new();
    let mut store = StoreFiles::new(setup());
    let (addrs, _sizes) = store.store_file_content(EXAMPLE_TEXT, &mut report).unwrap();
    let block_dir = store.into_block_dir();
    let shifted = Address { hash: addrs[0].hash.clone(), start: 1, len: 5 };
    assert_eq!(block_dir.get(&shifted, &mut report), Err(StoreError::UnsupportedPartialRead));
    let short = Address { hash: addrs[0].hash.clone(), start: 0, len: 5 };
    assert_eq!(block_dir.get(&short, &mut report), Err(StoreError::UnsupportedPartialRead));
    assert_eq!(report.get_count("block.read"), 0);
}

#[test]
pub fn missing_block_cannot_be_read() {
    let block_dir = setup();
    let path = format!("66a/{}", EXAMPLE_BLOCK_HASH);
    assert_eq!(
        block_dir.get_block_content(EXAMPLE_BLOCK_HASH),
        Err(StoreError::ReadBlock { path })
    );
}

#[test]
pub fn corrupt_block_is_counted() {
    // A block whose file holds the compressed form of other data.
    let mut transport = MemoryTransport::new();
    transport.make_dir("66a").unwrap();
    let path = format!("66a/{}", EXAMPLE_BLOCK_HASH);
    // Snappy without framing: the length, then one literal.
    transport.write_file(&path, &[5, 4 << 2, b'h', b'e', b'l', b'l', b'o']).unwrap();
    let block_dir = BlockDir::new(transport, "");
    let stats = block_dir.validate().unwrap();
    assert_eq!(stats.block_hash_wrong, 1);
    assert_eq!(stats.block_decompression_failed, 0);
    match block_dir.validate_block(EXAMPLE_BLOCK_HASH) {
        Err(StoreError::BlockCorrupt { path: at, actual_hash }) => {
            assert_eq!(at, path);
            assert_eq!(actual_hash, conserve::hash::hash_bytes(b"hello"));
        }
        other => panic!("{:?}", other),
    }
}

#[test]
pub fn truncated_block_is_counted() {
    let mut report = Report::new();
    let mut store = StoreFiles::new(setup());
    store.store_file_content(EXAMPLE_TEXT, &mut report).unwrap();
    let stored = store.into_block_dir();
    let path = format!("66a/{}", EXAMPLE_BLOCK_HASH);
    let mut packed = stored.transport.read_file(&path).unwrap();
    packed.pop();

    let mut transport = MemoryTransport::new();
    transport.make_dir("66a").unwrap();
    transport.write_file(&path, &packed).unwrap();
    let block_dir = BlockDir::new(transport, "");
    let stats = block_dir.validate().unwrap();
    assert_eq!(stats.block_hash_wrong + stats.block_decompression_failed, 1);
    assert_eq!(stats.block_decompression_failed, 1);
    assert_eq!(
        block_dir.validate_block(EXAMPLE_BLOCK_HASH),
        Err(StoreError::Decompress { path })
    );
}

#[test]
pub fn enumeration_filters_tmp_files() {
    let mut report = Report::new();
    let mut store = StoreFiles::new(setup());
    store.store_file_content(EXAMPLE_TEXT, &mut report).unwrap();
    let mut block_dir = store.into_block_dir();
    block_dir.transport.write_file("66a/tmpXYZ", b"junk").unwrap();
    let long_tmp = format!("66a/tmp{}", &EXAMPLE_BLOCK_HASH[3..]);
    block_dir.transport.write_file(&long_tmp, b"junk").unwrap();
    block_dir.transport.make_dir("wxyz").unwrap();
    let stray = format!("wxyz/{}", EXAMPLE_BLOCK_HASH);
    block_dir.transport.write_file(&stray, b"junk").unwrap();
    assert_eq!(block_dir.block_names().unwrap(), &[EXAMPLE_BLOCK_HASH]);
    assert_eq!(block_dir.subdirs().unwrap(), &["66a"]);
    let stats = block_dir.validate().unwrap();
    assert_eq!(stats.block_hash_wrong, 0);
    assert_eq!(stats.block_decompression_failed, 0);
}

#[test]
pub fn create_makes_the_directory_once() {
    let block_dir = BlockDir::create(MemoryTransport::new(), "d").unwrap();
    assert_eq!(block_dir.transport.metadata("d").unwrap().kind, Kind::Dir);
    assert_eq!(block_dir.block_names().unwrap().len(), 0);
    let again = BlockDir::create(block_dir.transport, "d");
    assert!(matches!(again, Err(StoreError::CreateBlockDir)));
}

#[test]
pub fn blocks_lie_under_the_directory_path() {
    let mut report = Report::new();
    let block_dir = BlockDir::create(MemoryTransport::new(), "d").unwrap();
    assert_eq!(block_dir.subdir_for(EXAMPLE_BLOCK_HASH), "d/66a");
    assert_eq!(
        block_dir.path_for_file(EXAMPLE_BLOCK_HASH),
        format!("d/66a/{}", EXAMPLE_BLOCK_HASH)
    );
    let mut store = StoreFiles::new(block_dir);
    store.store_file_content(EXAMPLE_TEXT, &mut report).unwrap();
    let block_dir = store.into_block_dir();
    assert_eq!(block_dir.compressed_block_size(EXAMPLE_BLOCK_HASH).unwrap(), 8);
    assert_eq!(block_dir.block_names().unwrap(), &[EXAMPLE_BLOCK_HASH]);
}

#[test]
pub fn listing_a_missing_directory_fails() {
    let block_dir = BlockDir::new(MemoryTransport::new(), "nowhere");
    assert_eq!(
        block_dir.block_names(),
        Err(StoreError::ListBlocks { path: "nowhere".to_string() })
    );
    assert_eq!(
        block_dir.validate(),
        Err(StoreError::ListBlocks { path: "nowhere".to_string() })
    );
}

#[test]
pub fn concurrent_write() {
    // The transport in memory takes one writer at a time: the workers share
    // it, and the counters, behind a lock.
    let shared = Mutex::new((StoreFiles::new(setup()), Report::new(), Sizes::default()));
    let workers: Vec<usize> = (0..8).collect();
    let addresses: Vec<Address> = workers
        .par_iter()
        .map(|_| {
            let mut guard = shared.lock().unwrap();
            let (store, report, sizes) = &mut *guard;
            store.store_block(EXAMPLE_TEXT, report, sizes).unwrap()
        })
        .collect();
    let (store, report, sizes) = shared.into_inner().unwrap();
    assert_eq!(addresses.len(), 8);
    assert!(addresses.iter().all(|a| a.hash == EXAMPLE_BLOCK_HASH && a.len == 6));
    assert_eq!(report.get_count("block.write"), 1);
    assert_eq!(report.get_count("block.already_present"), 7);
    assert_eq!(sizes, Sizes { uncompressed: 48, compressed: 8 });
    let block_dir = store.into_block_dir();
    assert_eq!(block_dir.block_names().unwrap(), &[EXAMPLE_BLOCK_HASH]);
    assert_eq!(block_dir.transport.read_dir("66a").unwrap().len(), 1);
}
