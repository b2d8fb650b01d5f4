use avail_light::cells::data_chunks;
use avail_light::cells::data_positions;
use avail_light::cells::partition_verified;
use avail_light::cells::DataCell;
use avail_light::cells::Position;
use avail_light::find_overlap;

fn cell(row: u32, col: u16, data: Vec<u8>) -> DataCell {
    DataCell { position: Position { row, col }, data }
}

#[test]
fn overlap_is_the_longest_shared_run() {
    assert_eq!(find_overlap(b"abcdef", b"defxyz"), &b"def"[..]);
    assert_eq!(find_overlap(b"abcdef", b"xyz"), &b""[..]);
    assert_eq!(find_overlap(b"abc", b"abc"), &b"abc"[..]);
    assert_eq!(find_overlap(b"", b"xy"), &b""[..]);
    assert_eq!(find_overlap(b"aaab", b"b"), &b"b"[..]);
}

#[test]
fn chunks_start_with_the_overlap() {
    // the first cell's usable bytes end with [9, 9]; the data starts there
    let mut first = vec![0u8; 29];
    first.extend([9u8, 9u8]);
    first.push(255);
    assert_eq!(first.len(), 32);
    let mut data = vec![9u8, 9u8];
    data.extend((0..40u8).collect::<Vec<u8>>());
    let chunks = data_chunks(&cell(0, 0, first), data.clone());
    assert_eq!(chunks.len(), 3);
    assert_eq!(chunks[0], vec![9u8, 9u8]);
    assert_eq!(chunks[1], data[2..33].to_vec());
    assert_eq!(chunks[2], data[33..].to_vec());
}

#[test]
fn positions_found_when_every_chunk_matches() {
    // no overlap with the first cell, data fits one 31-byte chunk: the
    // chunk list is [empty, data], matched against two cells
    let data: Vec<u8> = (1..=31u8).collect();
    let mut second = data.clone();
    second.push(0);
    let cells = vec![cell(0, 0, vec![200u8; 32]), cell(0, 1, second)];
    let positions = data_positions(cells, data).unwrap();
    assert_eq!(
        positions,
        vec![Position { row: 0, col: 0 }, Position { row: 0, col: 1 }]
    );
}

#[test]
fn positions_missing_when_a_chunk_mismatches() {
    let data: Vec<u8> = (1..=31u8).collect();
    let cells = vec![cell(0, 0, vec![200u8; 32]), cell(0, 1, vec![201u8; 32])];
    assert_eq!(data_positions(cells, data), None);
}

#[test]
fn partition_splits_by_outcome() {
    let a = Position { row: 1, col: 1 };
    let b = Position { row: 1, col: 2 };
    let c = Position { row: 2, col: 1 };
    let results = vec![(a, true), (b, false), (c, true)];
    let (verified, unverified) = partition_verified(&results);
    assert_eq!(verified, vec![a, c]);
    assert_eq!(unverified, vec![b]);
}
