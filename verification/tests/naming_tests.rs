use chunker::{chunk_file_name, sort_key, split_file_name, ChunkError};

#[test]
fn chunk_files_are_numbered_from_one() {
    assert_eq!(chunk_file_name("video", 0, "mp4"), "video_chunk1.mp4");
    assert_eq!(chunk_file_name("video", 9, "mp4"), "video_chunk10.mp4");
    assert_eq!(chunk_file_name("a.b", 122, ""), "a.b_chunk123.");
    assert_eq!(
        chunk_file_name("x", u64::MAX - 1, "y"),
        "x_chunk18446744073709551615.y"
    );
}

#[test]
fn file_names_split_at_the_last_dot() {
    let parts = split_file_name("test_file.txt").unwrap();
    assert_eq!(parts.stem, "test_file");
    assert_eq!(parts.extension, "txt");
    let parts = split_file_name("archive.tar.gz").unwrap();
    assert_eq!(parts.stem, "archive.tar");
    assert_eq!(parts.extension, "gz");
    let parts = split_file_name("trailing.").unwrap();
    assert_eq!(parts.stem, "trailing");
    assert_eq!(parts.extension, "");
    let parts = split_file_name("...").unwrap();
    assert_eq!(parts.stem, "..");
    assert_eq!(parts.extension, "");
    let parts = split_file_name("é.ü").unwrap();
    assert_eq!(parts.stem, "é");
    assert_eq!(parts.extension, "ü");
}

#[test]
fn file_names_without_stem_or_extension_are_refused() {
    for name in ["", "..", ".", "noextension", ".hidden", "Makefile"] {
        assert_eq!(
            split_file_name(name).unwrap_err(),
            ChunkError::InvalidArgument,
            "name {:?}",
            name
        );
    }
}

#[test]
fn file_names_split_as_paths_do() {
    for name in [
        "a.b", "a.", ".a", "a", "..", "...", "a..b", ".a.b", "a.b.c", "..a", "x_chunk1.ext",
    ] {
        let path = std::path::Path::new(name);
        let expected = match (path.file_stem(), path.extension()) {
            (Some(stem), Some(extension)) => Some((
                stem.to_str().unwrap().to_string(),
                extension.to_str().unwrap().to_string(),
            )),
            _ => None,
        };
        let actual = split_file_name(name)
            .ok()
            .map(|parts| (parts.stem, parts.extension));
        assert_eq!(actual, expected, "name {:?}", name);
    }
}

#[test]
fn sort_key_joins_every_digit_of_the_name() {
    assert_eq!(sort_key("file_chunk1.txt"), 1);
    assert_eq!(sort_key("file_chunk10.txt"), 10);
    assert_eq!(sort_key("file_chunk007.txt"), 7);
    assert_eq!(sort_key("v2_chunk3.mp4"), 234);
    assert_eq!(sort_key("1a2b3c"), 123);
    assert_eq!(sort_key("nodigits"), 0);
    assert_eq!(sort_key(""), 0);
    assert_eq!(sort_key("٣_chunk5.txt"), 5);
}

#[test]
fn sort_key_is_zero_beyond_64_bits() {
    assert_eq!(sort_key("18446744073709551615"), u64::MAX);
    assert_eq!(sort_key("18446744073709551616"), 0);
    assert_eq!(sort_key("1844674407370955161_5"), u64::MAX);
    assert_eq!(sort_key("99999999999999999999999"), 0);
    assert_eq!(sort_key("000000000000000000000000000042"), 42);
}

#[test]
fn sort_key_of_a_chunk_file_is_its_number() {
    for index in [0u64, 1, 8, 9, 10, 98, 99, 100, 12345, u64::MAX - 1] {
        let name = chunk_file_name("source", index, "bin");
        assert_eq!(sort_key(&name), index + 1);
    }
}

#[test]
fn numbers_are_written_in_base_ten() {
    assert_eq!(chunker::decimal::to_decimal(0), "0");
    assert_eq!(chunker::decimal::to_decimal(7), "7");
    assert_eq!(chunker::decimal::to_decimal(10), "10");
    assert_eq!(chunker::decimal::to_decimal(1234567890), "1234567890");
    assert_eq!(chunker::decimal::to_decimal(u64::MAX), u64::MAX.to_string());
}

#[test]
fn chunk_files_of_one_source_sort_by_index_whatever_digits_the_name_holds() {
    for (stem, extension) in [("video", "bin"), ("v2", "mp4"), ("007", "7z"), ("a1b2", "")] {
        let mut previous = 0u64;
        for index in 0u64..1200 {
            let key = sort_key(&chunk_file_name(stem, index, extension));
            assert!(key > previous || index == 0 && key >= previous);
            previous = key;
        }
    }
}
