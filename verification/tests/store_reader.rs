use docstore::codec::Codec;
use docstore::error::StoreError;
use docstore::index::Checkpoint;
use docstore::reader::StoreReader;

const LOREM: &str = "Lorem ipsum dolor sit amet, consectetur adipiscing elit, sed do eiusmod";

fn write_vint(mut value: u64, out: &mut Vec<u8>) {
    while value >= 128 {
        out.push((value % 128) as u8);
        value /= 128;
    }
    out.push(value as u8 + 128);
}

fn lorem_doc(i: u32) -> Vec<u8> {
    let body = &LOREM[..30 + (i as usize % 9)];
    format!("Doc {}\n{}", i, body).into_bytes()
}

fn title(doc: &[u8]) -> Option<&str> {
    let end = doc.iter().position(|b| *b == b'\n')?;
    std::str::from_utf8(&doc[..end]).ok()
}

fn write_index(checkpoints: &[Checkpoint], num_docs: u32, out: &mut Vec<u8>) {
    for checkpoint in checkpoints {
        out.extend_from_slice(&checkpoint.start_offset.to_le_bytes());
        out.extend_from_slice(&checkpoint.end_offset.to_le_bytes());
        out.extend_from_slice(&checkpoint.start_doc.to_le_bytes());
    }
    out.extend_from_slice(&num_docs.to_le_bytes());
}

fn read_index(bytes: &[u8]) -> Option<(Vec<Checkpoint>, u32)> {
    if bytes.len() < 4 || (bytes.len() - 4) % 20 != 0 {
        return None;
    }
    let (entries, tail) = bytes.split_at(bytes.len() - 4);
    let checkpoints = entries
        .chunks(20)
        .map(|c| Checkpoint {
            start_offset: u64::from_le_bytes(c[0..8].try_into().unwrap()),
            end_offset: u64::from_le_bytes(c[8..16].try_into().unwrap()),
            start_doc: u32::from_le_bytes(c[16..20].try_into().unwrap()),
        })
        .collect();
    Some((checkpoints, u32::from_le_bytes(tail.try_into().unwrap())))
}

/// A store file of `num_docs` lorem documents, `docs_per_block` to a block,
/// each block passed through `compress`.
fn write_store(num_docs: u32, docs_per_block: u32, compress: fn(&[u8]) -> Vec<u8>) -> Vec<u8> {
    let mut file = Vec::new();
    let mut checkpoints = Vec::new();
    let mut start_doc = 0;
    while start_doc < num_docs {
        let end_doc = num_docs.min(start_doc + docs_per_block);
        let mut block = Vec::new();
        for i in start_doc..end_doc {
            let doc = lorem_doc(i);
            write_vint(doc.len() as u64, &mut block);
            block.extend_from_slice(&doc);
        }
        let start_offset = file.len() as u64;
        file.extend_from_slice(&compress(&block));
        checkpoints.push(Checkpoint { start_offset, end_offset: file.len() as u64, start_doc });
        start_doc = end_doc;
    }
    let data_len = file.len() as u64;
    write_index(&checkpoints, num_docs, &mut file);
    file.extend_from_slice(&data_len.to_le_bytes());
    file
}

fn stored(block: &[u8]) -> Vec<u8> {
    block.to_vec()
}

fn write_lorem_ipsum_store(num_docs: u32) -> Vec<u8> {
    write_store(num_docs, 110, stored)
}

#[test]
fn test_store_lru_cache() {
    let store_file = write_lorem_ipsum_store(500);
    let mut store = StoreReader::open(store_file, read_index, uncompressed()).unwrap();

    assert_eq!(store.cache().len(), 0);
    assert_eq!(store.cache().hits(), 0);
    assert_eq!(store.cache().misses(), 0);

    let doc = store.get(0).unwrap();
    assert_eq!(title(&doc), Some("Doc 0"));

    assert_eq!(store.cache().len(), 1);
    assert_eq!(store.cache().hits(), 0);
    assert_eq!(store.cache().misses(), 1);
    assert_eq!(store.cache().peek_lru(), Some(0));

    let doc = store.get(499).unwrap();
    assert_eq!(title(&doc), Some("Doc 499"));

    assert_eq!(store.cache().len(), 2);
    assert_eq!(store.cache().hits(), 0);
    assert_eq!(store.cache().misses(), 2);

    assert_eq!(store.cache().peek_lru(), Some(0));

    let doc = store.get(0).unwrap();
    assert_eq!(title(&doc), Some("Doc 0"));

    assert_eq!(store.cache().len(), 2);
    assert_eq!(store.cache().hits(), 1);
    assert_eq!(store.cache().misses(), 2);
    assert_eq!(store.cache().peek_lru(), Some(18806));
}

fn unstored(bytes: &[u8]) -> Option<Vec<u8>> {
    Some(bytes.to_vec())
}

type Decompress = fn(&[u8]) -> Option<Vec<u8>>;

fn uncompressed() -> Codec<Decompress> {
    Codec::new(unstored as Decompress)
}

/// A codec that stores each byte with all its bits flipped, and rejects a
/// block that begins with a zero byte.
fn flipped(block: &[u8]) -> Vec<u8> {
    block.iter().map(|b| !b).collect()
}

fn unflipped(bytes: &[u8]) -> Option<Vec<u8>> {
    if bytes.first() == Some(&0) {
        return None;
    }
    Some(bytes.iter().map(|b| !b).collect())
}

#[test]
fn get_reads_every_document_that_was_written() {
    let mut store = StoreReader::open(write_store(500, 110, stored), read_index, uncompressed()).unwrap();
    for i in 0..500 {
        assert_eq!(store.get(i), Ok(lorem_doc(i)));
    }
    for i in (0..500).rev() {
        assert_eq!(store.get(i), Ok(lorem_doc(i)));
    }
}

#[test]
fn get_goes_through_the_codec() {
    let mut store = StoreReader::open(write_store(50, 7, flipped), read_index, Codec::new(unflipped as Decompress)).unwrap();
    for i in 0..50 {
        assert_eq!(store.get(i), Ok(lorem_doc(i)));
    }
    assert_eq!(store.cache().len(), 8);
    assert_eq!(store.cache().misses(), 8);
    assert_eq!(store.cache().hits(), 42);
}

#[test]
fn get_fails_behind_the_last_document() {
    let mut store = StoreReader::open(write_lorem_ipsum_store(500), read_index, uncompressed()).unwrap();
    assert_eq!(store.get(500), Err(StoreError::Lookup(500)));
    assert_eq!(store.get(u32::MAX), Err(StoreError::Lookup(u32::MAX)));
    assert_eq!(store.cache().len(), 0);
    assert_eq!(store.cache().hits(), 0);
    assert_eq!(store.cache().misses(), 0);
}

fn open_lorem(num_docs: u32, docs_per_block: u32) -> StoreReader<Decompress> {
    StoreReader::open(write_store(num_docs, docs_per_block, stored), read_index, uncompressed())
        .ok()
        .unwrap()
}

fn open_error<F: Fn(&[u8]) -> Option<Vec<u8>>>(r: Result<StoreReader<F>, StoreError>) -> Option<StoreError> {
    r.err()
}

/// A store file with the given data segment and checkpoints.
fn store_with(data: &[u8], checkpoints: &[Checkpoint], num_docs: u32) -> Vec<u8> {
    let mut file = data.to_vec();
    write_index(checkpoints, num_docs, &mut file);
    file.extend_from_slice(&(data.len() as u64).to_le_bytes());
    file
}

#[test]
fn open_fails_without_footer() {
    assert_eq!(
        open_error(StoreReader::open(vec![1, 2, 3], read_index, uncompressed())),
        Some(StoreError::Layout)
    );
    assert_eq!(
        open_error(StoreReader::open(Vec::new(), read_index, uncompressed())),
        Some(StoreError::Layout)
    );
}

#[test]
fn open_fails_where_the_footer_points_past_the_end() {
    let mut file = write_lorem_ipsum_store(10);
    let len = file.len();
    file[len - 8..].copy_from_slice(&(len as u64 - 7).to_le_bytes());
    assert_eq!(
        open_error(StoreReader::open(file, read_index, uncompressed())),
        Some(StoreError::Layout)
    );
}

#[test]
fn open_fails_on_an_index_that_cannot_be_decoded() {
    let mut file = b"data".to_vec();
    file.extend_from_slice(b"abc");
    file.extend_from_slice(&4u64.to_le_bytes());
    assert_eq!(
        open_error(StoreReader::open(file, read_index, uncompressed())),
        Some(StoreError::Corruption)
    );
}

#[test]
fn open_fails_on_an_index_that_is_no_sequence_of_blocks() {
    let gap = [
        Checkpoint { start_offset: 0, end_offset: 2, start_doc: 0 },
        Checkpoint { start_offset: 3, end_offset: 4, start_doc: 1 },
    ];
    assert_eq!(
        open_error(StoreReader::open(store_with(b"\x81a\x81b", &gap, 2), read_index, uncompressed())),
        Some(StoreError::Corruption)
    );
}

#[test]
fn open_hands_the_index_segment_to_the_decoder() {
    let file = write_lorem_ipsum_store(500);
    let expected = file[file.len() - 8 - 5 * 20 - 4..file.len() - 8].to_vec();
    let mut seen = Vec::new();
    let store = StoreReader::open(
        file,
        |bytes: &[u8]| {
            seen = bytes.to_vec();
            read_index(bytes)
        },
        uncompressed(),
    );
    assert!(store.is_ok());
    assert_eq!(seen, expected);
}

#[test]
fn open_empty_store() {
    let mut store = StoreReader::open(store_with(b"", &[], 0), read_index, uncompressed())
        .ok()
        .unwrap();
    assert_eq!(store.get(0), Err(StoreError::Lookup(0)));
    assert_eq!(store.get_multiple(&[]), Ok(Vec::new()));
    assert_eq!(store.space_usage().total(), 4);
    assert!(store.block_checkpoints().is_empty());
}

#[test]
fn get_fails_where_the_block_lies_outside_the_data() {
    let checkpoints = [
        Checkpoint { start_offset: 0, end_offset: 2, start_doc: 0 },
        Checkpoint { start_offset: 2, end_offset: 9, start_doc: 1 },
    ];
    let file = store_with(b"\x81a\x81b", &checkpoints, 2);
    let mut store = StoreReader::open(file, read_index, uncompressed()).ok().unwrap();
    assert_eq!(store.get(0), Ok(b"a".to_vec()));
    assert_eq!(store.get(1), Err(StoreError::Io));
    assert_eq!(store.get(1), Err(StoreError::Io));
    assert_eq!(store.cache().len(), 1);
    assert_eq!(store.cache().misses(), 3);
    assert_eq!(store.cache().hits(), 0);
}

#[test]
fn get_fails_where_the_codec_rejects_the_block() {
    let checkpoints = [
        Checkpoint { start_offset: 0, end_offset: 2, start_doc: 0 },
        Checkpoint { start_offset: 2, end_offset: 4, start_doc: 1 },
    ];
    let file = store_with(&[!0x81, !b'a', 0, !b'b'], &checkpoints, 2);
    let mut store =
        StoreReader::open(file, read_index, Codec::new(unflipped as Decompress)).ok().unwrap();
    assert_eq!(store.get(0), Ok(b"a".to_vec()));
    assert_eq!(store.get(1), Err(StoreError::Corruption));
    assert_eq!(store.cache().len(), 1);
    assert_eq!(store.cache().misses(), 2);
    assert_eq!(store.cache().peek_lru(), Some(0));
}

#[test]
fn get_fails_where_the_records_end_early() {
    let checkpoints = [Checkpoint { start_offset: 0, end_offset: 4, start_doc: 0 }];
    let file = store_with(b"\x81a\x85b", &checkpoints, 3);
    let mut store = StoreReader::open(file, read_index, uncompressed()).ok().unwrap();
    assert_eq!(store.get(0), Ok(b"a".to_vec()));
    assert_eq!(store.get(1), Err(StoreError::Corruption));
    assert_eq!(store.get(2), Err(StoreError::Corruption));
    assert_eq!(store.get(3), Err(StoreError::Lookup(3)));
    assert_eq!(store.cache().len(), 1);
    assert_eq!(store.cache().misses(), 1);
    assert_eq!(store.cache().hits(), 2);
}

#[test]
fn get_counts_one_miss_for_each_new_block() {
    let mut store = open_lorem(60, 10);
    for block in 0..6u32 {
        assert_eq!(store.get(block * 10 + 3), Ok(lorem_doc(block * 10 + 3)));
        assert_eq!(store.cache().misses(), block as usize + 1);
        assert_eq!(store.cache().len(), block as usize + 1);
        assert_eq!(store.cache().hits(), 0);
    }
    for block in 0..6u32 {
        assert_eq!(store.get(block * 10 + 9), Ok(lorem_doc(block * 10 + 9)));
        assert_eq!(store.cache().hits(), block as usize + 1);
        assert_eq!(store.cache().misses(), 6);
        assert_eq!(store.cache().len(), 6);
    }
}

#[test]
fn get_evicts_the_least_recently_used_block() {
    let mut store = open_lorem(150, 1);
    let offsets: Vec<u64> = store.block_checkpoints().iter().map(|c| c.start_offset).collect();
    for i in 0..100 {
        assert_eq!(store.get(i), Ok(lorem_doc(i)));
    }
    assert_eq!(store.cache().len(), 100);
    assert_eq!(store.cache().peek_lru(), Some(offsets[0]));
    assert_eq!(store.get(0), Ok(lorem_doc(0)));
    assert_eq!(store.cache().hits(), 1);
    assert_eq!(store.cache().peek_lru(), Some(offsets[1]));
    assert_eq!(store.get(100), Ok(lorem_doc(100)));
    assert_eq!(store.cache().len(), 100);
    assert_eq!(store.cache().misses(), 101);
    assert_eq!(store.cache().peek_lru(), Some(offsets[2]));
    assert_eq!(store.get(100), Ok(lorem_doc(100)));
    assert_eq!(store.cache().hits(), 2);
    assert_eq!(store.get(1), Ok(lorem_doc(1)));
    assert_eq!(store.cache().misses(), 102);
    assert_eq!(store.cache().hits(), 2);
    assert_eq!(store.cache().len(), 100);
    assert_eq!(store.cache().peek_lru(), Some(offsets[3]));
}

#[test]
fn get_multiple_reads_as_get_does() {
    let ids = [499, 0, 1, 250, 110, 109, 0, 499, 330, 440];
    let mut one_by_one = open_lorem(500, 110);
    let expected: Vec<Vec<u8>> = ids.iter().map(|id| one_by_one.get(*id).unwrap()).collect();
    let mut batched = open_lorem(500, 110);
    assert_eq!(batched.get_multiple(&ids), Ok(expected.clone()));
    assert_eq!(expected[0], lorem_doc(499));
    assert_eq!(expected[3], lorem_doc(250));
    assert_eq!(batched.cache().len(), one_by_one.cache().len());
    assert_eq!(batched.cache().hits(), one_by_one.cache().hits());
    assert_eq!(batched.cache().misses(), one_by_one.cache().misses());
    assert_eq!(batched.cache().peek_lru(), one_by_one.cache().peek_lru());
    assert_eq!(batched.cache().misses(), 5);
    assert_eq!(batched.cache().hits(), 5);
}

#[test]
fn get_multiple_fails_on_the_first_id_that_fails() {
    let mut store = open_lorem(500, 110);
    assert_eq!(store.get_multiple(&[0, 500, 499, 700]), Err(StoreError::Lookup(500)));
    assert_eq!(store.cache().len(), 1);
    assert_eq!(store.cache().misses(), 1);
    assert_eq!(store.cache().hits(), 0);
}

#[test]
fn get_multiple_checks_the_byte_ranges_first() {
    let checkpoints = [
        Checkpoint { start_offset: 0, end_offset: 2, start_doc: 0 },
        Checkpoint { start_offset: 2, end_offset: 9, start_doc: 1 },
    ];
    let file = store_with(b"\x81a\x81b", &checkpoints, 2);
    let mut store = StoreReader::open(file, read_index, uncompressed()).ok().unwrap();
    assert_eq!(store.get_multiple(&[0, 0]), Ok(vec![b"a".to_vec(), b"a".to_vec()]));
    assert_eq!(store.cache().misses(), 1);
    assert_eq!(store.cache().hits(), 1);
    assert_eq!(store.get_multiple(&[0, 7, 1]), Err(StoreError::Io));
    assert_eq!(store.cache().misses(), 1);
    assert_eq!(store.cache().hits(), 1);
    assert_eq!(store.get_multiple(&[0, 7]), Err(StoreError::Lookup(7)));
    assert_eq!(store.cache().hits(), 2);
}

#[test]
fn space_usage_gives_the_segment_lengths() {
    let file = write_lorem_ipsum_store(500);
    let total = file.len() as u64;
    let index_len = 5 * 20 + 4;
    let mut store = StoreReader::open(file, read_index, uncompressed()).ok().unwrap();
    let usage = store.space_usage();
    assert_eq!(usage.index_usage(), index_len);
    assert_eq!(usage.data_usage(), total - 8 - index_len);
    assert_eq!(usage.total(), total - 8);
    assert_eq!(usage.data_usage(), store.block_data().len() as u64);
    assert!(store.get(17).is_ok());
    assert!(store.get_multiple(&[1, 2, 499]).is_ok());
    assert!(store.get(1000).is_err());
    assert_eq!(store.space_usage(), usage);
    assert_eq!(store.space_usage(), store.space_usage());
}

#[test]
fn block_checkpoints_lists_the_blocks() {
    let store = open_lorem(500, 110);
    let checkpoints = store.block_checkpoints();
    assert_eq!(checkpoints.len(), 5);
    assert_eq!(checkpoints[0].start_offset, 0);
    assert_eq!(checkpoints[4], Checkpoint {
        start_offset: 18806,
        end_offset: store.block_data().len() as u64,
        start_doc: 440,
    });
    for pair in checkpoints.windows(2) {
        assert_eq!(pair[0].end_offset, pair[1].start_offset);
    }
    assert_eq!(store.block_checkpoint(439), Some(checkpoints[3]));
    assert_eq!(store.block_checkpoint(440), Some(checkpoints[4]));
    assert_eq!(store.block_checkpoint(500), None);
}

#[test]
fn compressed_block_cuts_the_byte_range() {
    let store = open_lorem(500, 110);
    let checkpoints = store.block_checkpoints();
    let data = store.block_data().to_vec();
    assert_eq!(store.compressed_block(&checkpoints[1]), Ok(&data[4613..9340]));
    assert_eq!(checkpoints[1].start_offset, 4613);
    assert_eq!(checkpoints[1].end_offset, 9340);
    let past = Checkpoint { start_offset: 0, end_offset: data.len() as u64 + 1, start_doc: 0 };
    assert_eq!(store.compressed_block(&past), Err(StoreError::Io));
    let backwards = Checkpoint { start_offset: 5, end_offset: 4, start_doc: 0 };
    assert_eq!(store.compressed_block(&backwards), Err(StoreError::Io));
    let whole = Checkpoint { start_offset: 0, end_offset: data.len() as u64, start_doc: 0 };
    assert_eq!(store.compressed_block(&whole), Ok(&data[..]));
}

#[test]
fn cache_blocks_multiple_checks_every_range() {
    let store = open_lorem(500, 110);
    let mut checkpoints = store.block_checkpoints();
    assert_eq!(store.cache_blocks_multiple(&checkpoints), Ok(()));
    assert_eq!(store.cache_blocks_multiple(&[]), Ok(()));
    checkpoints[2].end_offset = 1 << 40;
    assert_eq!(store.cache_blocks_multiple(&checkpoints), Err(StoreError::Io));
    assert_eq!(store.cache().misses(), 0);
}

#[test]
fn read_block_shares_the_block_with_the_cache() {
    let file = write_store(50, 7, flipped);
    let mut store =
        StoreReader::open(file, read_index, Codec::new(unflipped as Decompress)).ok().unwrap();
    let checkpoint = store.block_checkpoint(20).unwrap();
    let compressed = store.compressed_block(&checkpoint).unwrap().to_vec();
    let first = store.read_block(&checkpoint).ok().unwrap();
    assert_eq!(*first, flipped(&compressed));
    assert_ne!(*first, compressed);
    assert_eq!(store.cache().len(), 1);
    let second = store.read_block(&checkpoint).ok().unwrap();
    assert!(std::sync::Arc::ptr_eq(&first, &second));
    assert_eq!(store.cache().hits(), 1);
    assert_eq!(store.cache().misses(), 1);
}

#[test]
fn codec_decompress_calls_the_function() {
    let codec = Codec::new(unflipped as Decompress);
    assert_eq!(codec.decompress(&[1, 2, 255]), Some(vec![254, 253, 0]));
    assert_eq!(codec.decompress(&[0, 2]), None);
    assert_eq!(codec.decompress(&[]), Some(Vec::new()));
}

#[test]
fn fetch_and_decompress_leaves_the_cache_alone() {
    let file = write_store(50, 7, flipped);
    let store =
        StoreReader::open(file, read_index, Codec::new(unflipped as Decompress)).ok().unwrap();
    let checkpoint = store.block_checkpoint(49).unwrap();
    let block = store.fetch_and_decompress(&checkpoint).ok().unwrap();
    let mut expected = Vec::new();
    write_vint(lorem_doc(49).len() as u64, &mut expected);
    expected.extend_from_slice(&lorem_doc(49));
    assert_eq!(*block, expected);
    assert_eq!(store.cache().len(), 0);
    assert_eq!(store.cache().misses(), 0);
    let outside = Checkpoint { start_offset: 0, end_offset: 1 << 30, start_doc: 0 };
    assert_eq!(store.fetch_and_decompress(&outside), Err(StoreError::Io));
}

#[test]
fn from_parts_reads_the_given_segments() {
    let checkpoints = vec![
        Checkpoint { start_offset: 0, end_offset: 4, start_doc: 0 },
        Checkpoint { start_offset: 4, end_offset: 7, start_doc: 2 },
    ];
    let index = docstore::SkipIndex::new(checkpoints, 3).ok().unwrap();
    assert_eq!(index.num_docs(), 3);
    let mut store =
        docstore::StoreReader::from_parts(b"\x81a\x81b\x82cd".to_vec(), 44, index, uncompressed());
    assert_eq!(store.space_usage().data_usage(), 7);
    assert_eq!(store.space_usage().index_usage(), 44);
    assert_eq!(store.space_usage().total(), 51);
    assert_eq!(store.get_multiple(&[2, 1, 0]), Ok(vec![b"cd".to_vec(), b"b".to_vec(), b"a".to_vec()]));
    assert_eq!(store.cache().len(), 2);
    assert_eq!(store.cache().peek_lru(), Some(4));
}
