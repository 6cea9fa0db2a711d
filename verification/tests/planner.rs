use filesplit::planner::{ChunkPlanner, ChunkTally};
use filesplit::splitter::SplitMode;

fn plan_with_header(mode: SplitMode, header: u64, lens: &[u64]) -> (Vec<ChunkTally>, bool, Vec<bool>) {
    let mut p = ChunkPlanner::new(mode, header);
    let mut starts = Vec::new();
    for &len in lens {
        assert!(p.can_take(len));
        let before = p.starts_new_chunk(len);
        let started = p.push_row(len);
        assert_eq!(before, started);
        starts.push(started);
    }
    let (chunks, empty) = p.finish();
    (chunks, empty, starts)
}

fn plan(mode: SplitMode, lens: &[u64]) -> (Vec<ChunkTally>, bool, Vec<bool>) {
    plan_with_header(mode, 0, lens)
}

fn rows_of(c: &[ChunkTally]) -> Vec<u64> {
    c.iter().map(|t| t.rows).collect()
}

#[test]
fn rows_mode_makes_full_chunks_and_a_remainder() {
    let lens = vec![10u64; 1000];
    let (chunks, empty, _) = plan(SplitMode::ByRows(300), &lens);
    assert!(!empty);
    assert_eq!(rows_of(&chunks), vec![300, 300, 300, 100]);
    assert_eq!(chunks.iter().map(|t| t.part).collect::<Vec<_>>(), vec![1, 2, 3, 4]);
    assert_eq!(chunks.iter().map(|t| t.bytes).sum::<u64>(), 10_000);
}

#[test]
fn rows_mode_on_text_lines() {
    let lens = vec![48u64; 500];
    let (chunks, _, _) = plan(SplitMode::ByRows(100), &lens);
    assert_eq!(rows_of(&chunks), vec![100; 5]);
}

#[test]
fn size_mode_never_cuts_a_row_and_keeps_under_the_limit() {
    let lens = [40u64, 30, 30, 50, 10, 200, 5];
    let (chunks, _, starts) = plan(SplitMode::BySize(100), &lens);
    assert_eq!(rows_of(&chunks), vec![3, 2, 1, 1]);
    assert_eq!(chunks.iter().map(|t| t.bytes).collect::<Vec<_>>(), vec![100, 60, 200, 5]);
    assert_eq!(starts, vec![false, false, false, true, false, true, true]);
}

#[test]
fn no_rows_give_no_chunk() {
    let (chunks, empty, _) = plan(SplitMode::ByRows(10), &[]);
    assert!(chunks.is_empty());
    assert!(empty);
    let (chunks, empty, _) = plan(SplitMode::BySize(10), &[]);
    assert!(chunks.is_empty());
    assert!(empty);
}

#[test]
fn zero_row_limit_closes_an_empty_first_chunk() {
    let (chunks, _, _) = plan(SplitMode::ByRows(0), &[1, 1, 1]);
    assert_eq!(rows_of(&chunks), vec![0, 1, 1, 1]);
}

#[test]
fn planner_reports_its_part_and_last_closed_chunk() {
    let mut p = ChunkPlanner::new(SplitMode::ByRows(2), 0);
    assert_eq!(p.current_part(), 1);
    assert!(p.last_closed().is_none());
    p.push_row(5);
    p.push_row(6);
    assert!(p.push_row(7));
    assert_eq!(p.current_part(), 2);
    let last = p.last_closed().unwrap();
    assert_eq!((last.part, last.rows, last.bytes), (1, 2, 11));
}

#[test]
fn planner_refuses_rows_that_would_overflow() {
    let mut p = ChunkPlanner::new(SplitMode::BySize(u64::MAX), 0);
    assert!(p.can_take(u64::MAX));
    p.push_row(u64::MAX);
    assert!(!p.can_take(1));
}

#[test]
fn size_mode_counts_the_copied_header() {
    // A header of 6 bytes leaves room for one 4-byte row under a limit of 10.
    let (chunks, _, starts) = plan_with_header(SplitMode::BySize(10), 6, &[4, 4]);
    assert_eq!(rows_of(&chunks), vec![1, 1]);
    assert_eq!(starts, vec![false, true]);
    let (chunks, _, _) = plan_with_header(SplitMode::BySize(14), 6, &[4, 4]);
    assert_eq!(rows_of(&chunks), vec![2]);
    // A header longer than the limit still lets each chunk take one row.
    let (chunks, _, _) = plan_with_header(SplitMode::BySize(8), 20, &[4, 4, 4]);
    assert_eq!(rows_of(&chunks), vec![1, 1, 1]);
}

#[test]
fn rows_mode_ignores_the_header() {
    let (chunks, _, _) = plan_with_header(SplitMode::ByRows(2), 100, &[4, 4, 4]);
    assert_eq!(rows_of(&chunks), vec![2, 1]);
}

#[test]
fn text_chunks_concatenate_back_to_the_input() {
    let lines = ["alpha", "", "\u{e9}t\u{e9}", "a much longer line of text", "z"];
    let rows: Vec<Vec<u8>> = lines.iter().map(|l| filesplit::splitter::text_row_bytes(l)).collect();
    let lens: Vec<u64> = rows.iter().map(|r| r.len() as u64).collect();
    let (chunks, _, _) = plan(SplitMode::BySize(12), &lens);
    let mut at = 0usize;
    let mut joined = Vec::new();
    for c in &chunks {
        let data: Vec<u8> = rows[at..at + c.rows as usize].concat();
        assert_eq!(data.len() as u64, c.bytes);
        joined.extend(data);
        at += c.rows as usize;
    }
    assert_eq!(at, lines.len());
    let input: Vec<u8> = lines.iter().flat_map(|l| format!("{}\n", l).into_bytes()).collect();
    assert_eq!(joined, input);
}
