use s3b::chunk::{chunk_count, chunk_spans, single_put, split_chunks, PART_SIZE};

#[test]
fn single_put_up_to_threshold() {
    assert!(single_put(0));
    assert!(single_put(1));
    assert!(single_put(PART_SIZE));
    assert!(!single_put(PART_SIZE + 1));
}

#[test]
fn part_count_is_ceiling() {
    assert_eq!(chunk_count(0), 0);
    assert_eq!(chunk_count(1), 1);
    assert_eq!(chunk_count(PART_SIZE), 1);
    assert_eq!(chunk_count(PART_SIZE + 1), 2);
    assert_eq!(chunk_count(2 * PART_SIZE), 2);
    assert_eq!(chunk_count(2 * PART_SIZE + 5), 3);
    assert_eq!(chunk_count(150_000_000), 3);
}

#[test]
fn spans_cover_payload_with_full_parts_then_remainder() {
    let len = 2 * PART_SIZE + 17;
    let spans = chunk_spans(len);
    assert_eq!(spans.len(), 3);
    assert_eq!(spans[0], (0, PART_SIZE));
    assert_eq!(spans[1], (PART_SIZE, PART_SIZE));
    assert_eq!(spans[2], (2 * PART_SIZE, 17));
}

#[test]
fn spans_exact_for_evenly_divisible_payload() {
    let spans = chunk_spans(2 * PART_SIZE);
    assert_eq!(spans.len(), 2);
    assert_eq!(spans[0], (0, PART_SIZE));
    assert_eq!(spans[1], (PART_SIZE, PART_SIZE));
}

#[test]
fn split_reassembles_original_bytes() {
    // A payload one byte over the threshold: two parts, a full one and
    // a single-byte remainder, concatenating back to the original.
    let n = (PART_SIZE + 1) as usize;
    let mut data: Vec<u8> = vec![0u8; n];
    data[0] = 7;
    data[n - 2] = 9;
    data[n - 1] = 11;
    let parts = split_chunks(&data);
    assert_eq!(parts.len(), 2);
    assert_eq!(parts[0].len(), PART_SIZE as usize);
    assert_eq!(parts[1].len(), 1);
    assert_eq!(parts[0][0], 7);
    assert_eq!(parts[0][n - 2], 9);
    assert_eq!(parts[1][0], 11);
    let mut glued: Vec<u8> = Vec::with_capacity(n);
    for p in &parts {
        glued.extend_from_slice(p);
    }
    assert_eq!(glued, data);
}

#[test]
fn split_of_small_payload_is_one_part() {
    let data = vec![1u8, 2, 3];
    let parts = split_chunks(&data);
    assert_eq!(parts.len(), 1);
    assert_eq!(parts[0], data);
}

#[test]
fn split_of_empty_payload_has_no_parts() {
    let parts = split_chunks(&Vec::new());
    assert!(parts.is_empty());
}
