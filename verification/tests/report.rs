use filesplit::format::format_bytes;
use filesplit::cli::FileFormat;
use filesplit::report::{chunk_listing, format_number, summarize, total_rows, ChunkInfo};
use filesplit::splitter::SplitMode;

#[test]
fn numbers_get_commas_every_three_digits() {
    assert_eq!(format_number(0), "0");
    assert_eq!(format_number(999), "999");
    assert_eq!(format_number(1000), "1,000");
    assert_eq!(format_number(2500000), "2,500,000");
    assert_eq!(format_number(u64::MAX), "18,446,744,073,709,551,615");
}

#[test]
fn bytes_for_people() {
    assert_eq!(format_bytes(0), "0 B");
    assert_eq!(format_bytes(500), "500 B");
    assert_eq!(format_bytes(1023), "1023 B");
    assert_eq!(format_bytes(1024), "1 KiB");
    assert_eq!(format_bytes(1536), "1.50 KiB");
}

#[test]
fn modes_are_described() {
    assert_eq!(SplitMode::ByRows(500000).describe(), "500000 rows/chunk");
    assert_eq!(SplitMode::BySize(1024).describe(), "size \u{2264} 1 KiB");
    assert_eq!(SplitMode::BySize(100).describe(), "size \u{2264} 100 B");
}

#[test]
fn chunk_info_records_its_size_for_people() {
    let c = ChunkInfo::new(3, "out/data_part_0003.csv".to_string(), 10, 2048);
    assert_eq!(c.part, 3);
    assert_eq!(c.path, "out/data_part_0003.csv");
    assert_eq!(c.rows, 10);
    assert_eq!(c.bytes_human, "2 KiB");
}

#[test]
fn total_rows_adds_up_or_reports_overflow() {
    let a = ChunkInfo::new(1, "a".to_string(), 300, 1);
    let b = ChunkInfo::new(2, "b".to_string(), 100, 1);
    assert_eq!(total_rows(&vec![a.clone(), b.clone()]), Some(400));
    assert_eq!(total_rows(&Vec::new()), Some(0));
    let big = ChunkInfo::new(3, "c".to_string(), u64::MAX, 1);
    assert_eq!(total_rows(&vec![a, big]), None);
}

#[test]
fn formatted_numbers_keep_their_digits() {
    for n in [0u64, 12, 1234, 987654321, u64::MAX] {
        let plain: String = format_number(n).chars().filter(|c| *c != ',').collect();
        assert_eq!(plain, n.to_string());
    }
}

#[test]
fn formatted_numbers_have_groups_of_three() {
    for n in [0u64, 7, 12, 123, 1234, 12345, 123456, 1234567, u64::MAX] {
        let s = format_number(n);
        let d = n.to_string().len();
        assert_eq!(s.len(), d + (d - 1) / 3);
        let groups: Vec<&str> = s.split(',').collect();
        assert!((1..=3).contains(&groups[0].len()));
        assert!(groups[1..].iter().all(|g| g.len() == 3));
    }
}

#[test]
fn summary_lists_all_or_the_ends() {
    let l = chunk_listing(3);
    assert_eq!(l.head, vec![0, 1, 2]);
    assert!(l.tail.is_empty() && l.more.is_none());
    let l = chunk_listing(20);
    assert_eq!(l.head.len(), 20);
    assert!(l.more.is_none());
    let l = chunk_listing(21);
    assert_eq!(l.head, vec![0, 1, 2, 3, 4]);
    assert_eq!(l.tail, vec![16, 17, 18, 19, 20]);
    assert_eq!(l.more, Some(16));
    let l = chunk_listing(0);
    assert!(l.head.is_empty() && l.more.is_none());
}

#[test]
fn summary_facts_gather_the_split() {
    let chunks = vec![
        ChunkInfo::new(1, "a_part_0001.csv".to_string(), 300, 3000),
        ChunkInfo::new(2, "a_part_0002.csv".to_string(), 200, 2000),
    ];
    let f = summarize("a.csv".to_string(), 5100, &FileFormat::Tsv, &SplitMode::ByRows(300), ".".to_string(), chunks)
        .unwrap();
    assert_eq!(f.input_file, "a.csv");
    assert_eq!(f.input_size_bytes, 5100);
    assert_eq!(f.input_size_human, "4.98 KiB");
    assert_eq!(f.format, "TSV");
    assert_eq!(f.split_mode, "300 rows/chunk");
    assert_eq!(f.output_dir, ".");
    assert_eq!(f.total_chunks, 2);
    assert_eq!(f.total_rows_written, 500);
    assert_eq!(f.chunks[1].path, "a_part_0002.csv");
    let big = vec![
        ChunkInfo::new(1, "x".to_string(), u64::MAX, 1),
        ChunkInfo::new(2, "y".to_string(), 1, 1),
    ];
    assert!(summarize("a".to_string(), 0, &FileFormat::Csv, &SplitMode::ByRows(1), ".".to_string(), big).is_none());
}
