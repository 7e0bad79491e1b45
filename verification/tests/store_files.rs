use conserve::blockdir::{BlockDir, MAX_BLOCK_SIZE};
use conserve::hash::hash_bytes;
use conserve::report::Report;
use conserve::stats::Sizes;
use conserve::store_files::{count_file, StoreFiles};
use conserve::transport::memory::MemoryTransport;
use conserve::transport::TransportRead;

fn new_store() -> StoreFiles<MemoryTransport> {
    StoreFiles::new(BlockDir::new(MemoryTransport::new(), ""))
}

/// Bytes that do not repeat from block to block.
fn varied(len: usize) -> Vec<u8> {
    let mut state: u32 = 12345;
    let mut bytes = Vec::with_capacity(len);
    for _ in 0..len {
        state = state.wrapping_mul(1664525).wrapping_add(1013904223);
        bytes.push((state >> 24) as u8);
    }
    bytes
}

#[test]
fn hash_is_blake2b_in_lowercase_hex() {
    assert_eq!(
        hash_bytes(b"hello!"),
        "66ad1939a9289aa9f1f1d9ad7bcee694293c7623affb5979bd\
         3f844ab4adcf2145b117b7811b3cee31e130efd760e9685f208c2b2fb1d67e28262168013ba63c"
    );
    assert_eq!(
        hash_bytes(b""),
        "786a02f742015903c6c6fd852552d272912f4740e15847618a86e217f71f5419\
         d25e1031afee585313896444934eb04b903a685b1448b755d56f701afe9be2ce"
    );
    assert_eq!(hash_bytes(&[0xab; 1000]).len(), 128);
}

#[test]
fn blocks_are_stored_compressed() {
    let mut report = Report::new();
    let mut store = new_store();
    let (addrs, sizes) = store.store_file_content(b"hello!", &mut report).unwrap();
    let path = format!("66a/{}", addrs[0].hash);
    let packed = store.block_dir.transport.read_file(&path).unwrap();
    // The length of the content, then one literal of six bytes.
    assert_eq!(packed, [6, 5 << 2, b'h', b'e', b'l', b'l', b'o', b'!']);
    assert_eq!(sizes.compressed, packed.len() as u64);
    assert_eq!(store.block_dir.compressed_block_size(&addrs[0].hash).unwrap(), 8);
}

#[test]
fn one_block_up_to_the_block_size() {
    for len in [1usize, 2, 1000, MAX_BLOCK_SIZE - 1, MAX_BLOCK_SIZE] {
        let content = varied(len);
        let mut report = Report::new();
        let mut store = new_store();
        let (addrs, sizes) = store.store_file_content(&content, &mut report).unwrap();
        assert_eq!(addrs.len(), 1);
        assert_eq!(addrs[0].len, len as u64);
        assert_eq!(addrs[0].start, 0);
        assert_eq!(addrs[0].hash, hash_bytes(&content));
        assert_eq!(sizes.uncompressed, len as u64);
        assert_eq!(report.get_count("file.medium"), 1);
        assert_eq!(report.get_count("file.large"), 0);
        assert_eq!(report.get_count("file.empty"), 0);
        assert_eq!(report.get_count("block.write"), 1);
    }
}

#[test]
fn one_byte_more_makes_a_second_block() {
    let content = varied(MAX_BLOCK_SIZE + 1);
    let mut report = Report::new();
    let mut store = new_store();
    let (addrs, sizes) = store.store_file_content(&content, &mut report).unwrap();
    assert_eq!(addrs.len(), 2);
    assert_eq!(addrs[0].len, MAX_BLOCK_SIZE as u64);
    assert_eq!(addrs[1].len, 1);
    assert_eq!(addrs[0].hash, hash_bytes(&content[..MAX_BLOCK_SIZE]));
    assert_eq!(addrs[1].hash, hash_bytes(&content[MAX_BLOCK_SIZE..]));
    assert_eq!(sizes.uncompressed, MAX_BLOCK_SIZE as u64 + 1);
    assert_eq!(report.get_count("file.large"), 1);
    assert_eq!(report.get_count("block.write"), 2);
    assert_eq!(report.get_count("block.already_present"), 0);
}

#[test]
fn stored_content_reads_back() {
    let content = varied(3 * MAX_BLOCK_SIZE + 12345);
    let mut report = Report::new();
    let mut store = new_store();
    let (addrs, sizes) = store.store_file_content(&content, &mut report).unwrap();
    assert_eq!(addrs.len(), 4);
    let block_dir = store.into_block_dir();
    let mut back = Vec::new();
    let mut compressed = 0;
    for a in &addrs {
        let (bytes, block_sizes) = block_dir.get(a, &mut report).unwrap();
        assert_eq!(hash_bytes(&bytes), a.hash);
        compressed += block_sizes.compressed;
        back.extend_from_slice(&bytes);
    }
    assert_eq!(back, content);
    assert_eq!(sizes.compressed, compressed);
    assert_eq!(report.get_count("block.read"), 4);

    let mut names = block_dir.block_names().unwrap();
    names.sort();
    let mut hashes: Vec<String> = addrs.iter().map(|a| a.hash.clone()).collect();
    hashes.sort();
    assert_eq!(names, hashes);

    let stats = block_dir.validate().unwrap();
    assert_eq!((stats.block_hash_wrong, stats.block_decompression_failed), (0, 0));

    let mut sized = block_dir.block_names_and_sizes().unwrap();
    sized.sort();
    assert_eq!(sized.len(), 4);
    assert_eq!(sized.iter().map(|s| s.1).sum::<u64>(), sizes.compressed);
}

#[test]
fn blocks_are_stored_one_by_one() {
    let mut report = Report::new();
    let mut sizes = Sizes::default();
    let mut store = new_store();
    let first = store.store_block(b"one", &mut report, &mut sizes).unwrap();
    let second = store.store_block(b"two", &mut report, &mut sizes).unwrap();
    let again = store.store_block(b"one", &mut report, &mut sizes).unwrap();
    assert_eq!(first, again);
    assert!(first != second);
    assert_eq!(first.len, 3);
    assert_eq!(report.get_count("block.write"), 2);
    assert_eq!(report.get_count("block.already_present"), 1);
    assert_eq!(sizes, Sizes { uncompressed: 9, compressed: 10 });
    let mut names = store.into_block_dir().block_names().unwrap();
    names.sort();
    let mut want = vec![hash_bytes(b"one"), hash_bytes(b"two")];
    want.sort();
    assert_eq!(names, want);
}

#[test]
fn files_are_counted_by_their_blocks() {
    let mut report = Report::new();
    count_file(0, &mut report);
    count_file(1, &mut report);
    count_file(1, &mut report);
    count_file(2, &mut report);
    count_file(20, &mut report);
    count_file(usize::MAX, &mut report);
    assert_eq!(report.get_count("file.empty"), 1);
    assert_eq!(report.get_count("file.medium"), 2);
    assert_eq!(report.get_count("file.large"), 3);
}
