use chunker::{chunk_order, get_chunks, merge_order, ChunkError};

fn names(list: &[&str]) -> Vec<String> {
    list.iter().map(|name| name.to_string()).collect()
}

#[test]
fn test_get_chunks() {
    let files = names(&["file_chunk10.txt", "file_chunk1.txt", "file_chunk2.txt"]);

    let chunks = get_chunks(files);

    assert_eq!(chunks.len(), 3);
    // Verify correct ordering
    assert!(chunks[0].contains("chunk1"));
    assert!(chunks[1].contains("chunk2"));
    assert!(chunks[2].contains("chunk10"));
}

#[test]
fn chunks_are_ordered_by_number_in_whatever_order_they_are_listed() {
    let expected = names(&["x_chunk1.ext", "x_chunk2.ext", "x_chunk10.ext"]);
    let listings: [[&str; 3]; 6] = [
        ["x_chunk1.ext", "x_chunk2.ext", "x_chunk10.ext"],
        ["x_chunk1.ext", "x_chunk10.ext", "x_chunk2.ext"],
        ["x_chunk2.ext", "x_chunk1.ext", "x_chunk10.ext"],
        ["x_chunk2.ext", "x_chunk10.ext", "x_chunk1.ext"],
        ["x_chunk10.ext", "x_chunk1.ext", "x_chunk2.ext"],
        ["x_chunk10.ext", "x_chunk2.ext", "x_chunk1.ext"],
    ];
    for listing in listings {
        assert_eq!(get_chunks(names(&listing)), expected);
    }
}

#[test]
fn chunk_order_gives_positions_in_the_listing() {
    let listing = names(&["x_chunk10.ext", "x_chunk2.ext", "x_chunk1.ext"]);
    assert_eq!(chunk_order(&listing), vec![2, 1, 0]);
    assert_eq!(chunk_order(&Vec::new()), Vec::<usize>::new());
}

#[test]
fn files_with_equal_keys_stay_as_listed() {
    let listing = names(&["b", "a5", "c", "a", "x05", "z1"]);
    assert_eq!(chunk_order(&listing), vec![0, 2, 3, 5, 1, 4]);
    assert_eq!(
        get_chunks(listing),
        names(&["b", "c", "a", "z1", "a5", "x05"])
    );
}

#[test]
fn every_file_counts_as_a_chunk() {
    let listing = names(&[".hidden", "notes.txt", "data_chunk1.bin", "v2_chunk1.bin"]);
    assert_eq!(
        get_chunks(listing),
        names(&[".hidden", "notes.txt", "data_chunk1.bin", "v2_chunk1.bin"])
    );
}

#[test]
fn merging_an_empty_directory_finds_nothing() {
    assert_eq!(merge_order(&Vec::new()), Err(ChunkError::NotFound));
}

#[test]
fn merge_order_of_a_directory_with_files() {
    let listing = names(&["a_chunk3.x", "a_chunk1.x", "a_chunk2.x"]);
    assert_eq!(merge_order(&listing), Ok(vec![1, 2, 0]));
}

#[test]
fn order_matches_a_stable_sort_by_key() {
    let mut listing = Vec::new();
    let mut seed: u64 = 12345;
    for _ in 0..200 {
        seed = seed
            .wrapping_mul(6364136223846793005)
            .wrapping_add(1442695040888963407);
        listing.push(format!("f{}_chunk{}.d", seed % 3, (seed >> 33) % 17));
    }
    let mut expected = listing.clone();
    expected.sort_by_key(|name| chunker::sort_key(name));
    assert_eq!(get_chunks(listing), expected);
}
