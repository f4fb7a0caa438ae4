use docstore::error::StoreError;
use docstore::index::Checkpoint;
use docstore::index::SkipIndex;

fn checkpoint(start_offset: u64, end_offset: u64, start_doc: u32) -> Checkpoint {
    Checkpoint { start_offset, end_offset, start_doc }
}

fn three_blocks() -> Vec<Checkpoint> {
    vec![checkpoint(0, 10, 0), checkpoint(10, 25, 4), checkpoint(25, 26, 9)]
}

fn rejected(checkpoints: Vec<Checkpoint>, num_docs: u32) -> bool {
    match SkipIndex::new(checkpoints, num_docs) {
        Ok(_) => false,
        Err(e) => e == StoreError::Corruption,
    }
}

#[test]
fn skip_index_seek_finds_the_covering_block() {
    let index = SkipIndex::new(three_blocks(), 12).ok().unwrap();
    assert_eq!(index.num_docs(), 12);
    assert_eq!(index.seek(0), Some(checkpoint(0, 10, 0)));
    assert_eq!(index.seek(3), Some(checkpoint(0, 10, 0)));
    assert_eq!(index.seek(4), Some(checkpoint(10, 25, 4)));
    assert_eq!(index.seek(8), Some(checkpoint(10, 25, 4)));
    assert_eq!(index.seek(9), Some(checkpoint(25, 26, 9)));
    assert_eq!(index.seek(11), Some(checkpoint(25, 26, 9)));
}

#[test]
fn skip_index_seek_outside_the_documents() {
    let index = SkipIndex::new(three_blocks(), 12).ok().unwrap();
    assert_eq!(index.seek(12), None);
    assert_eq!(index.seek(u32::MAX), None);
    let empty = SkipIndex::new(Vec::new(), 0).ok().unwrap();
    assert_eq!(empty.seek(0), None);
}

#[test]
fn skip_index_seek_every_document() {
    let checkpoints: Vec<Checkpoint> =
        (0..37).map(|i| checkpoint(i * 3, i * 3 + 3, i as u32 * 5)).collect();
    let index = SkipIndex::new(checkpoints.clone(), 37 * 5 - 2).ok().unwrap();
    for doc in 0..(37 * 5 - 2) {
        assert_eq!(index.seek(doc), Some(checkpoints[(doc / 5) as usize]));
    }
    assert_eq!(index.seek(37 * 5 - 2), None);
}

#[test]
fn skip_index_lists_its_checkpoints() {
    let index = SkipIndex::new(three_blocks(), 10).ok().unwrap();
    assert_eq!(index.checkpoints(), three_blocks());
}

#[test]
fn skip_index_rejects_what_is_no_sequence_of_blocks() {
    assert!(rejected(Vec::new(), 1));
    assert!(rejected(three_blocks(), 0));
    assert!(rejected(three_blocks(), 9));
    assert!(rejected(vec![checkpoint(0, 10, 1)], 5));
    assert!(rejected(vec![checkpoint(0, 10, 0), checkpoint(11, 25, 4)], 12));
    assert!(rejected(vec![checkpoint(0, 10, 0), checkpoint(9, 25, 4)], 12));
    assert!(rejected(vec![checkpoint(0, 10, 0), checkpoint(10, 10, 4)], 12));
    assert!(rejected(vec![checkpoint(0, 10, 0), checkpoint(10, 25, 0)], 12));
    assert!(rejected(
        vec![checkpoint(0, 10, 0), checkpoint(10, 25, 6), checkpoint(25, 30, 5)],
        12
    ));
    assert!(rejected(vec![checkpoint(7, 3, 0)], 1));
}

#[test]
fn skip_index_accepts_blocks_that_begin_later() {
    let index = SkipIndex::new(vec![checkpoint(5, 6, 0)], 1).ok().unwrap();
    assert_eq!(index.seek(0), Some(checkpoint(5, 6, 0)));
    assert_eq!(index.seek(1), None);
}
