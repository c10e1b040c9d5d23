use litephoton::read_util::{chunk_ranges, scan_normal};
use litephoton::file_util::{line_action, LineAction, LineCursor, LineFilter, LineRead};

#[test]
fn every_filter_writes_every_line() {
    assert_eq!(line_action(&LineFilter::Every, &LineRead::Line(b"x\n"), b"zzz"), LineAction::Write);
}

#[test]
fn containing_filter() {
    assert_eq!(line_action(&LineFilter::Containing, &LineRead::Line(b"a key\n"), b"key"), LineAction::Write);
    assert_eq!(line_action(&LineFilter::Containing, &LineRead::Line(b"a kez\n"), b"key"), LineAction::Skip);
    assert_eq!(line_action(&LineFilter::Containing, &LineRead::Line(b"any\n"), b""), LineAction::Write);
}

#[test]
fn long_enough_containing_filter() {
    assert_eq!(line_action(&LineFilter::LongEnoughContaining, &LineRead::Line(b"ab"), b"abc"), LineAction::Skip);
    assert_eq!(line_action(&LineFilter::LongEnoughContaining, &LineRead::Line(b"xabc"), b"abc"), LineAction::Write);
}

#[test]
fn end_and_failure_actions() {
    assert_eq!(line_action(&LineFilter::Every, &LineRead::End, b""), LineAction::Stop);
    assert_eq!(line_action(&LineFilter::Containing, &LineRead::Failed, b""), LineAction::Flush);
}

#[test]
fn cursor_skips_first_line_inside_chunk() {
    let mut cursor = LineCursor::start(5, 10, false);
    assert!(cursor.skipping);
    assert!(cursor.wants_line());
    assert_eq!(cursor.on_read(&LineRead::Line(b"xx\n"), b"key"), LineAction::Skip);
    assert_eq!(cursor.pos, 8);
    assert!(cursor.wants_line());
    assert_eq!(cursor.on_read(&LineRead::Line(b"key\n"), b"key"), LineAction::Write);
    assert_eq!(cursor.pos, 12);
    assert!(!cursor.wants_line());
}

#[test]
fn cursor_at_start_does_not_skip() {
    let mut cursor = LineCursor::start(0, 4, true);
    assert!(!cursor.skipping);
    assert_eq!(cursor.on_read(&LineRead::Line(b"no\n"), b"key"), LineAction::Skip);
    assert_eq!(cursor.on_read(&LineRead::Failed, b"key"), LineAction::Skip);
    assert_eq!(cursor.on_read(&LineRead::End, b"key"), LineAction::Stop);
}

#[test]
fn cursor_gives_up_when_first_read_fails() {
    let mut cursor = LineCursor::start(3, 9, false);
    assert_eq!(cursor.on_read(&LineRead::Failed, b""), LineAction::Abort);
    assert!(!cursor.skipping);
}

#[test]
fn cursor_offset_saturates() {
    let mut cursor = LineCursor::start(u64::MAX - 1, u64::MAX, true);
    cursor.on_read(&LineRead::Line(b"abc"), b"");
    assert_eq!(cursor.pos, u64::MAX);
}

#[test]
fn length_test_never_changes_the_outcome() {
    let lines: [&[u8]; 4] = [b"", b"ab", b"abc\n", b"xxabcxx"];
    let keywords: [&[u8]; 4] = [b"", b"abc", b"x", b"abcd"];
    for line in lines {
        for keyword in keywords {
            assert_eq!(
                line_action(&LineFilter::LongEnoughContaining, &LineRead::Line(line), keyword),
                line_action(&LineFilter::Containing, &LineRead::Line(line), keyword)
            );
        }
    }
}

#[test]
fn cursor_on_a_line_start_reads_that_line() {
    // "abc\ntest\n" with two workers: the second starts right after a newline.
    let mut cursor = LineCursor::start(4, 9, true);
    assert!(!cursor.skipping);
    assert_eq!(cursor.on_read(&LineRead::Line(b"test\n"), b"test"), LineAction::Write);
    assert!(!cursor.wants_line());
}

#[test]
fn longer_keyword_keeps_fewer_lines() {
    let lines: [&[u8]; 4] = [b"alpha beta\n", b"alpha\n", b"beta\n", b""];
    for line in lines {
        let long = line_action(&LineFilter::Containing, &LineRead::Line(line), b"alpha b");
        let short = line_action(&LineFilter::Containing, &LineRead::Line(line), b"alpha");
        if long == LineAction::Write {
            assert_eq!(short, LineAction::Write);
        }
    }
}

fn read_line_at(data: &[u8], pos: usize) -> &[u8] {
    match data[pos..].iter().position(|&b| b == b'\n') {
        Some(i) => &data[pos..pos + i + 1],
        None => &data[pos..],
    }
}

#[test]
fn line_workers_write_each_kept_line_once() {
    let data: &[u8] = b"key one\nnone\n\nkey two\nx\nkey three";
    let expected = scan_normal(data, b"key");
    for workers in 1..=8u64 {
        let mut joined = Vec::new();
        for (begin, end) in chunk_ranges(data.len() as u64, workers) {
            let follows_newline = begin == 0 || data[begin as usize - 1] == b'\n';
            let mut cursor = LineCursor::start(begin, end, follows_newline);
            while cursor.wants_line() {
                let pos = cursor.pos as usize;
                let line = if pos < data.len() { Some(read_line_at(data, pos)) } else { None };
                let event = match line {
                    Some(l) => LineRead::Line(l),
                    None => LineRead::End,
                };
                match cursor.on_read(&event, b"key") {
                    LineAction::Write => joined.extend_from_slice(line.unwrap()),
                    LineAction::Stop => break,
                    _ => {}
                }
            }
        }
        assert_eq!(joined, expected);
    }
}
