use chunker::{
    merge_bytes, read_range, split_bytes, ChunkError, ChunkRange, MergeAction, MergeJob,
    MergeTask, SplitAction, SplitJob, WaveAction, WaveSchedule,
};

#[test]
fn test_split_and_merge() {
    // Create test data
    let test_data = "Hello, World!".repeat(1000);
    let source = test_data.as_bytes();
    let mut chunks_dir: Vec<(String, Vec<u8>)> = Vec::new();

    // Test split
    let mut job = SplitJob::new(
        "test_file.txt",
        source.len() as u64,
        1024, // chunk size in bytes
        2,    // concurrent tasks
    )
    .unwrap();
    let mut report: Vec<Option<ChunkError>> = Vec::new();
    let split_result = loop {
        match job.step(&report) {
            SplitAction::Launch(tasks) => {
                assert!(tasks.len() <= 2);
                report.clear();
                for task in tasks {
                    chunks_dir.push((task.file_name, read_range(source, task.range).unwrap()));
                    report.push(None);
                }
            }
            SplitAction::Finish { chunks } => break chunks,
            SplitAction::Abort { index, error } => panic!("chunk {} failed: {:?}", index, error),
        }
    };

    assert!(split_result > 0);
    assert_eq!(split_result, 13);

    // Verify chunks were created
    chunks_dir.sort();
    let names: Vec<String> = chunks_dir.iter().map(|(name, _)| name.clone()).collect();
    let chunks = chunker::merge_order(&names).unwrap();
    assert!(!chunks.is_empty());

    // Test merge
    let sizes: Vec<u64> = chunks
        .iter()
        .map(|&position| chunks_dir[position].1.len() as u64)
        .collect();
    let mut job = MergeJob::new(sizes, 2).unwrap();
    let mut merged = vec![0u8; job.output_size() as usize];
    let mut report: Vec<Option<ChunkError>> = Vec::new();
    loop {
        match job.step(&report) {
            MergeAction::Launch(tasks) => {
                assert!(tasks.len() <= 2);
                report.clear();
                for task in tasks {
                    let bytes = &chunks_dir[chunks[task.index]].1;
                    assert_eq!(bytes.len() as u64, task.len);
                    let offset = task.offset as usize;
                    merged[offset..offset + bytes.len()].copy_from_slice(bytes);
                    report.push(None);
                }
            }
            MergeAction::Finish { chunks, bytes } => {
                assert_eq!(chunks, 13);
                assert_eq!(bytes, 13000);
                break;
            }
            MergeAction::Abort { index, error } => panic!("chunk {} failed: {:?}", index, error),
        }
    }

    // Verify merged content matches the source data
    let merged_content = String::from_utf8(merged).unwrap();
    assert_eq!(merged_content, test_data);
}

#[test]
fn split_and_merge_in_memory() {
    let test_data = "Hello, World!".repeat(1000);
    let chunks = split_bytes(test_data.as_bytes(), 1024).unwrap();
    assert_eq!(chunks.len(), 13);
    assert_eq!(chunks[12].len(), 13000 - 12 * 1024);
    let merged = merge_bytes(&chunks);
    assert_eq!(String::from_utf8(merged).unwrap(), test_data);
}

#[test]
fn split_then_merge_gives_the_data_back() {
    for len in 0usize..70 {
        let data: Vec<u8> = (0..len).map(|i| (i * 7 + 3) as u8).collect();
        for chunk_size in 1u64..75 {
            let chunks = split_bytes(&data, chunk_size).unwrap();
            assert_eq!(
                chunks.len() as u64,
                (len as u64 + chunk_size - 1) / chunk_size
            );
            assert_eq!(merge_bytes(&chunks), data);
        }
    }
}

#[test]
fn split_bytes_cuts_at_the_planned_offsets() {
    let data: Vec<u8> = (0..10).collect();
    assert_eq!(
        split_bytes(&data, 4).unwrap(),
        vec![vec![0, 1, 2, 3], vec![4, 5, 6, 7], vec![8, 9]]
    );
    assert_eq!(split_bytes(&data, 10).unwrap(), vec![data.clone()]);
    assert_eq!(split_bytes(&[], 4).unwrap(), Vec::<Vec<u8>>::new());
    assert_eq!(split_bytes(&data, 0), Err(ChunkError::InvalidArgument));
}

#[test]
fn merge_bytes_keeps_the_order_given() {
    assert_eq!(
        merge_bytes(&vec![vec![3, 4], vec![], vec![1], vec![2, 2]]),
        vec![3, 4, 1, 2, 2]
    );
    assert_eq!(merge_bytes(&Vec::new()), Vec::<u8>::new());
}

#[test]
fn read_range_copies_the_bytes_of_the_range() {
    let data: Vec<u8> = (10..20).collect();
    let range = ChunkRange {
        index: 1,
        byte_start: 3,
        byte_end: 7,
    };
    assert_eq!(read_range(&data, range), Ok(vec![13, 14, 15, 16]));
    let whole = ChunkRange {
        index: 0,
        byte_start: 0,
        byte_end: 10,
    };
    assert_eq!(read_range(&data, whole), Ok(data.clone()));
    let empty = ChunkRange {
        index: 0,
        byte_start: 10,
        byte_end: 10,
    };
    assert_eq!(read_range(&data, empty), Ok(Vec::new()));
}

#[test]
fn read_range_of_a_source_that_is_too_short() {
    let data: Vec<u8> = (10..20).collect();
    let range = ChunkRange {
        index: 1,
        byte_start: 8,
        byte_end: 11,
    };
    assert_eq!(read_range(&data, range), Err(ChunkError::UnexpectedEof));
    let beyond = ChunkRange {
        index: 1,
        byte_start: 20,
        byte_end: 30,
    };
    assert_eq!(read_range(&data, beyond), Err(ChunkError::UnexpectedEof));
    let backwards = ChunkRange {
        index: 1,
        byte_start: 5,
        byte_end: 4,
    };
    assert_eq!(read_range(&data, backwards), Err(ChunkError::InvalidArgument));
}

fn ok_report(count: usize) -> Vec<Option<ChunkError>> {
    vec![None; count]
}

#[test]
fn schedule_launches_waves_of_at_most_the_concurrency() {
    let mut schedule = WaveSchedule::new(7, 3);
    assert_eq!(schedule.total(), 7);
    assert_eq!(schedule.in_flight(), 0);
    assert_eq!(
        schedule.step(&ok_report(0)),
        WaveAction::Launch { first: 0, last: 3 }
    );
    assert_eq!(schedule.in_flight(), 3);
    assert_eq!(
        schedule.step(&ok_report(3)),
        WaveAction::Launch { first: 3, last: 6 }
    );
    assert_eq!(schedule.in_flight(), 3);
    assert_eq!(
        schedule.step(&ok_report(3)),
        WaveAction::Launch { first: 6, last: 7 }
    );
    assert_eq!(schedule.in_flight(), 1);
    assert_eq!(schedule.step(&ok_report(1)), WaveAction::Finish);
    assert_eq!(schedule.in_flight(), 0);
    assert_eq!(schedule.step(&ok_report(0)), WaveAction::Finish);
}

#[test]
fn schedule_never_has_more_in_flight_than_allowed() {
    for total in 0u64..25 {
        for concurrency in 1usize..9 {
            let mut schedule = WaveSchedule::new(total, concurrency);
            let mut launched = 0u64;
            let mut report = ok_report(0);
            loop {
                match schedule.step(&report) {
                    WaveAction::Launch { first, last } => {
                        assert_eq!(first, launched);
                        assert!(first < last);
                        assert!(last - first <= concurrency as u64);
                        assert_eq!(schedule.in_flight(), last - first);
                        launched = last;
                        report = ok_report((last - first) as usize);
                    }
                    WaveAction::Finish => {
                        assert_eq!(launched, total);
                        break;
                    }
                    WaveAction::Abort { .. } => panic!("no unit failed"),
                }
            }
        }
    }
}

#[test]
fn schedule_with_nothing_to_do_finishes_at_once() {
    let mut schedule = WaveSchedule::new(0, 4);
    assert_eq!(schedule.step(&ok_report(0)), WaveAction::Finish);
}

#[test]
fn schedule_stops_at_the_first_failure_of_a_wave() {
    let mut schedule = WaveSchedule::new(10, 4);
    assert_eq!(
        schedule.step(&ok_report(0)),
        WaveAction::Launch { first: 0, last: 4 }
    );
    assert_eq!(
        schedule.step(&ok_report(4)),
        WaveAction::Launch { first: 4, last: 8 }
    );
    let report = vec![
        None,
        Some(ChunkError::UnexpectedEof),
        None,
        Some(ChunkError::Io),
    ];
    let abort = WaveAction::Abort {
        index: 5,
        error: ChunkError::UnexpectedEof,
    };
    assert_eq!(schedule.step(&report), abort);
    assert_eq!(schedule.in_flight(), 0);
    assert_eq!(schedule.step(&ok_report(0)), abort);
}

fn launched(action: SplitAction) -> Vec<(u64, u64, u64, String)> {
    match action {
        SplitAction::Launch(tasks) => tasks
            .into_iter()
            .map(|task| {
                (
                    task.range.index,
                    task.range.byte_start,
                    task.range.byte_end,
                    task.file_name,
                )
            })
            .collect(),
        other => panic!("expected a wave, got {:?}", other),
    }
}

#[test]
fn split_job_hands_out_ranges_and_names_in_waves() {
    let mut job = SplitJob::new("test_file.txt", 2500, 1000, 2).unwrap();
    assert_eq!(job.in_flight(), 0);
    assert_eq!(
        launched(job.step(&ok_report(0))),
        vec![
            (0, 0, 1000, "test_file_chunk1.txt".to_string()),
            (1, 1000, 2000, "test_file_chunk2.txt".to_string()),
        ]
    );
    assert_eq!(job.in_flight(), 2);
    assert_eq!(
        launched(job.step(&ok_report(2))),
        vec![(2, 2000, 2500, "test_file_chunk3.txt".to_string())]
    );
    assert_eq!(job.in_flight(), 1);
    match job.step(&ok_report(1)) {
        SplitAction::Finish { chunks } => assert_eq!(chunks, 3),
        other => panic!("expected the end, got {:?}", other),
    }
}

#[test]
fn split_job_of_an_empty_file_finishes_with_no_chunks() {
    let mut job = SplitJob::new("empty.bin", 0, 1000, 2).unwrap();
    match job.step(&ok_report(0)) {
        SplitAction::Finish { chunks } => assert_eq!(chunks, 0),
        other => panic!("expected the end, got {:?}", other),
    }
}

#[test]
fn split_job_refuses_bad_arguments() {
    assert_eq!(
        SplitJob::new("test_file.txt", 2500, 0, 2).unwrap_err(),
        ChunkError::InvalidArgument
    );
    assert_eq!(
        SplitJob::new("noextension", 2500, 1000, 2).unwrap_err(),
        ChunkError::InvalidArgument
    );
    assert_eq!(
        SplitJob::new("", 2500, 1000, 2).unwrap_err(),
        ChunkError::InvalidArgument
    );
    assert_eq!(
        SplitJob::new(".hidden", 2500, 1000, 2).unwrap_err(),
        ChunkError::InvalidArgument
    );
}

#[test]
fn split_job_reports_the_first_failure() {
    let mut job = SplitJob::new("a.b", 100, 10, 4).unwrap();
    assert_eq!(launched(job.step(&ok_report(0))).len(), 4);
    let report = vec![None, None, Some(ChunkError::Io), Some(ChunkError::NotFound)];
    match job.step(&report) {
        SplitAction::Abort { index, error } => {
            assert_eq!(index, 2);
            assert_eq!(error, ChunkError::Io);
        }
        other => panic!("expected a failure, got {:?}", other),
    }
}

#[test]
fn split_job_drives_a_whole_split() {
    let data: Vec<u8> = (0..=255u8).cycle().take(1000).collect();
    for concurrency in 1usize..6 {
        let mut job = SplitJob::new("data.bin", data.len() as u64, 64, concurrency).unwrap();
        let mut files: Vec<(String, Vec<u8>)> = Vec::new();
        let mut report = ok_report(0);
        let count = loop {
            match job.step(&report) {
                SplitAction::Launch(tasks) => {
                    assert!(tasks.len() <= concurrency);
                    report = Vec::new();
                    for task in tasks {
                        let bytes = read_range(&data, task.range).unwrap();
                        files.push((task.file_name, bytes));
                        report.push(None);
                    }
                }
                SplitAction::Finish { chunks } => break chunks,
                SplitAction::Abort { .. } => panic!("no unit failed"),
            }
        };
        assert_eq!(count, 16);
        assert_eq!(files.len(), 16);
        files.reverse();
        let listing: Vec<String> = files.iter().map(|(name, _)| name.clone()).collect();
        let order = chunker::merge_order(&listing).unwrap();
        let chunks: Vec<Vec<u8>> = order.iter().map(|&i| files[i].1.clone()).collect();
        assert_eq!(merge_bytes(&chunks), data);
    }
}

#[test]
fn merge_job_places_each_chunk_behind_the_one_before() {
    let mut job = MergeJob::new(vec![1000, 1000, 500], 2).unwrap();
    assert_eq!(job.output_size(), 2500);
    assert_eq!(job.in_flight(), 0);
    match job.step(&ok_report(0)) {
        MergeAction::Launch(tasks) => assert_eq!(
            tasks,
            vec![
                MergeTask {
                    index: 0,
                    offset: 0,
                    len: 1000
                },
                MergeTask {
                    index: 1,
                    offset: 1000,
                    len: 1000
                },
            ]
        ),
        other => panic!("expected a wave, got {:?}", other),
    }
    assert_eq!(job.in_flight(), 2);
    match job.step(&ok_report(2)) {
        MergeAction::Launch(tasks) => assert_eq!(
            tasks,
            vec![MergeTask {
                index: 2,
                offset: 2000,
                len: 500
            }]
        ),
        other => panic!("expected a wave, got {:?}", other),
    }
    match job.step(&ok_report(1)) {
        MergeAction::Finish { chunks, bytes } => {
            assert_eq!(chunks, 3);
            assert_eq!(bytes, 2500);
        }
        other => panic!("expected the end, got {:?}", other),
    }
}

#[test]
fn merge_job_stops_at_the_first_failure() {
    let mut job = MergeJob::new(vec![5, 0, 7, 9], 3).unwrap();
    match job.step(&ok_report(0)) {
        MergeAction::Launch(tasks) => assert_eq!(tasks.len(), 3),
        other => panic!("expected a wave, got {:?}", other),
    }
    let report = vec![None, Some(ChunkError::NotFound), Some(ChunkError::Io)];
    match job.step(&report) {
        MergeAction::Abort { index, error } => {
            assert_eq!(index, 1);
            assert_eq!(error, ChunkError::NotFound);
        }
        other => panic!("expected a failure, got {:?}", other),
    }
}

#[test]
fn merge_job_of_no_chunks_makes_an_empty_output() {
    let mut job = MergeJob::new(Vec::new(), 4).unwrap();
    assert_eq!(job.output_size(), 0);
    match job.step(&ok_report(0)) {
        MergeAction::Finish { chunks, bytes } => {
            assert_eq!(chunks, 0);
            assert_eq!(bytes, 0);
        }
        other => panic!("expected the end, got {:?}", other),
    }
}

#[test]
fn merge_job_refuses_sizes_that_no_file_holds() {
    assert_eq!(
        MergeJob::new(vec![u64::MAX, 1], 2).unwrap_err(),
        ChunkError::InvalidArgument
    );
    assert_eq!(
        MergeJob::new(vec![u64::MAX - 1, 1], 2).unwrap().output_size(),
        u64::MAX
    );
}

#[test]
fn merge_offsets_place_chunks_whatever_the_order_of_writing() {
    let chunks: Vec<Vec<u8>> = vec![vec![1, 2, 3], vec![], vec![4], vec![5, 6], vec![7, 8, 9, 10]];
    let sizes: Vec<u64> = chunks.iter().map(|chunk| chunk.len() as u64).collect();
    let mut job = MergeJob::new(sizes, 3).unwrap();
    let mut output = vec![0u8; job.output_size() as usize];
    let mut report = ok_report(0);
    loop {
        match job.step(&report) {
            MergeAction::Launch(mut tasks) => {
                report = ok_report(tasks.len());
                tasks.reverse();
                for task in tasks {
                    let offset = task.offset as usize;
                    let bytes = &chunks[task.index];
                    assert_eq!(task.len, bytes.len() as u64);
                    output[offset..offset + bytes.len()].copy_from_slice(bytes);
                }
            }
            MergeAction::Finish { chunks, bytes } => {
                assert_eq!(chunks, 5);
                assert_eq!(bytes, 10);
                break;
            }
            MergeAction::Abort { .. } => panic!("no unit failed"),
        }
    }
    assert_eq!(output, merge_bytes(&chunks));
    assert_eq!(output, vec![1, 2, 3, 4, 5, 6, 7, 8, 9, 10]);
}
