use litephoton::read_util::common::{fail, flush, write_all};
use litephoton::read_util::{
    chunk_plan, chunk_ranges, line_matches, next_line_start, open_failure_is_fatal, scan_chunk,
    scan_normal, scan_window,
    worker_count, workers_for_cpus, Mode, ModeParseError, OpenFailure, ReadEvent, StdinScanner,
};
use std::io::BufWriter;
use std::str::FromStr;

#[test]
fn line_matches_keyword_anywhere() {
    assert!(line_matches(b"hello world\n", b"world"));
    assert!(line_matches(b"hello world\n", b"hello"));
    assert!(!line_matches(b"hello world\n", b"planet"));
}

#[test]
fn line_matches_empty_keyword() {
    assert!(line_matches(b"anything\n", b""));
    assert!(line_matches(b"", b""));
}

#[test]
fn line_matches_keyword_longer_than_line() {
    assert!(!line_matches(b"ab", b"abc"));
}

#[test]
fn normal_writes_kept_lines() {
    let data = b"foo\nbar\nfoo bar\nbaz\n";
    assert_eq!(scan_normal(data, b"foo"), b"foo\nfoo bar\n".to_vec());
}

#[test]
fn normal_empty_keyword_writes_all_lines() {
    let data = b"one\ntwo\nthree\n";
    assert_eq!(scan_normal(data, b""), data.to_vec());
}

#[test]
fn normal_goes_on_past_empty_lines() {
    assert_eq!(scan_normal(b"a test\n\nb test\n", b"test"), b"a test\nb test\n".to_vec());
    assert_eq!(scan_normal(b"a\n\nb\n", b""), b"a\n\nb\n".to_vec());
    assert_eq!(scan_normal(b"\nabc\n", b"abc"), b"abc\n".to_vec());
}

#[test]
fn normal_writes_unfinished_last_line() {
    assert_eq!(scan_normal(b"a\nb test", b"test"), b"b test".to_vec());
    assert_eq!(scan_normal(b"abc\nabcd", b"abc"), b"abc\nabcd".to_vec());
    assert_eq!(scan_normal(b"abc\nzz", b"abc"), b"abc\n".to_vec());
}

#[test]
fn normal_empty_keyword_writes_whole_file() {
    let data = b"one\n\ntwo\nlast";
    assert_eq!(scan_normal(data, b""), data.to_vec());
}

#[test]
fn normal_empty_file() {
    assert_eq!(scan_normal(b"", b""), Vec::<u8>::new());
}

#[test]
fn chunk_writes_whole_lines_that_begin_in_it() {
    let data = b"ab test\ncd\n";
    assert_eq!(chunk_ranges(data.len() as u64, 2), vec![(0, 5), (5, 11)]);
    assert_eq!(scan_chunk(data, 0, 5, b"test"), b"ab test\n\n".to_vec());
    assert_eq!(scan_chunk(data, 5, 11, b"test"), b"\n".to_vec());
}

#[test]
fn chunk_starting_on_a_line_start_keeps_it() {
    let data = b"abc\ntest\n";
    assert_eq!(scan_chunk(data, 4, 9, b"test"), b"test\n\n".to_vec());
    assert_eq!(scan_chunk(data, 0, 4, b"test"), b"\n".to_vec());
}

#[test]
fn next_line_start_moves_to_line_starts() {
    let data = b"ab\ncd\nef";
    assert_eq!(next_line_start(data, 0), 0);
    assert_eq!(next_line_start(data, 1), 3);
    assert_eq!(next_line_start(data, 3), 3);
    assert_eq!(next_line_start(data, 7), 8);
    assert_eq!(next_line_start(data, 8), 8);
}

#[test]
fn chunk_of_nothing_writes_newline() {
    assert_eq!(scan_chunk(b"", 0, 0, b"key"), b"\n".to_vec());
    assert_eq!(scan_chunk(b"abc", 1, 2, b""), b"\n".to_vec());
}

#[test]
fn chunks_write_each_kept_line_once() {
    let data = b"key one\nnone\n\nkey two\nx\nkey three";
    let whole = scan_normal(data, b"key");
    for workers in 1..=8u64 {
        let mut joined = Vec::new();
        for (begin, end) in chunk_ranges(data.len() as u64, workers) {
            let mut out = scan_chunk(data, begin as usize, end as usize, b"key");
            assert_eq!(out.pop(), Some(b'\n'));
            joined.extend(out);
        }
        assert_eq!(joined, whole);
    }
}

#[test]
fn windows_at_any_cuts_write_the_whole_text() {
    let data = b"a key\nb\nkey c\n\nd key";
    let whole = scan_normal(data, b"key");
    for cut in 0..=data.len() {
        let mut joined = scan_window(data, 0, cut, b"key");
        joined.extend(scan_window(data, cut, data.len(), b"key"));
        assert_eq!(joined, whole);
    }
}

#[test]
fn stdin_scanner_joins_pieces() {
    let mut scanner = StdinScanner::new();
    let first = scanner.step(ReadEvent::Bytes(b"fo"), b"foo");
    assert!(first.output.is_empty());
    assert!(!first.stop);
    assert_eq!(scanner.pending(), b"fo");
    let second = scanner.step(ReadEvent::Bytes(b"o\nbar\nfoo2"), b"foo");
    assert_eq!(second.output, b"foo\n".to_vec());
    assert_eq!(scanner.pending(), b"foo2");
    let end = scanner.step(ReadEvent::End, b"foo");
    assert_eq!(end.output, b"foo2\n".to_vec());
    assert!(end.stop);
}

#[test]
fn stdin_scanner_keeps_empty_lines() {
    let mut scanner = StdinScanner::new();
    let action = scanner.step(ReadEvent::Bytes(b"\n\nx\n"), b"");
    assert_eq!(action.output, b"\n\nx\n".to_vec());
    assert!(scanner.pending().is_empty());
}

#[test]
fn stdin_scanner_stops_on_failure() {
    let mut scanner = StdinScanner::new();
    scanner.step(ReadEvent::Bytes(b"partial"), b"");
    let action = scanner.step(ReadEvent::Failed, b"");
    assert_eq!(action.output, b"\n".to_vec());
    assert!(action.stop);
    assert_eq!(scanner.pending(), b"partial");
}

#[test]
fn stdin_scanner_writes_kept_last_line_at_end() {
    let mut scanner = StdinScanner::new();
    let first = scanner.step(ReadEvent::Bytes(b"x test\ny\nz test"), b"test");
    assert_eq!(first.output, b"x test\n".to_vec());
    let end = scanner.step(ReadEvent::End, b"test");
    assert_eq!(end.output, b"z test\n".to_vec());
    let mut other = StdinScanner::new();
    other.step(ReadEvent::Bytes(b"x test\nnope"), b"test");
    assert_eq!(other.step(ReadEvent::End, b"test").output, b"\n".to_vec());
}

#[test]
fn stdin_pieces_scan_as_one() {
    let text = b"alpha key\nbeta\nkey gamma\ndelta key\ntail key";
    let mut whole = StdinScanner::new();
    let at_once = whole.step(ReadEvent::Bytes(text), b"key").output;
    for cut in 0..=text.len() {
        let mut split = StdinScanner::new();
        let mut out = split.step(ReadEvent::Bytes(&text[..cut]), b"key").output;
        out.extend(split.step(ReadEvent::Bytes(&text[cut..]), b"key").output);
        assert_eq!(out, at_once);
        assert_eq!(split.pending(), whole.pending());
    }
    assert_eq!(at_once, b"alpha key\nkey gamma\ndelta key\n".to_vec());
    assert_eq!(whole.pending(), b"tail key");
}

#[test]
fn normal_agrees_with_stdin() {
    let text = b"a key\n\nb\nkey c\nd key";
    let mut scanner = StdinScanner::new();
    let mut streamed = scanner.step(ReadEvent::Bytes(text), b"key").output;
    streamed.extend(scanner.step(ReadEvent::End, b"key").output);
    let mut expected = scan_normal(text, b"key");
    expected.push(b'\n');
    assert_eq!(streamed, expected);
}

#[test]
fn mode_names_parse() {
    assert_eq!(Mode::from_name("normal"), Ok(Mode::Normal));
    assert_eq!(Mode::from_name("chunk"), Ok(Mode::Chunk));
    assert_eq!(Mode::from_str("chunk"), Ok(Mode::Chunk));
}

#[test]
fn mode_names_are_exact() {
    assert_eq!(Mode::from_name("Normal"), Err(ModeParseError::VariantNotFound));
    assert_eq!(Mode::from_name("chunks"), Err(ModeParseError::VariantNotFound));
    assert_eq!(Mode::from_name(""), Err(ModeParseError::VariantNotFound));
}

#[test]
fn open_failures() {
    assert!(open_failure_is_fatal(&OpenFailure::NotFound));
    assert!(open_failure_is_fatal(&OpenFailure::PermissionDenied));
    assert!(open_failure_is_fatal(&OpenFailure::IsADirectory));
    assert!(!open_failure_is_fatal(&OpenFailure::Other));
}

#[test]
fn chunk_ranges_split_evenly() {
    assert_eq!(chunk_ranges(10, 3), vec![(0, 3), (3, 6), (6, 10)]);
    assert_eq!(chunk_ranges(10, 1), vec![(0, 10)]);
}

#[test]
fn chunk_ranges_small_files() {
    assert_eq!(chunk_ranges(0, 4), vec![(0, 0), (0, 0), (0, 0), (0, 0)]);
    assert_eq!(chunk_ranges(2, 4), vec![(0, 0), (0, 0), (0, 0), (0, 2)]);
}

#[test]
fn chunk_plan_tiles_file() {
    let ranges = chunk_plan(1000);
    assert!(!ranges.is_empty());
    assert_eq!(ranges.len() as u64, worker_count());
    assert_eq!(ranges[0].0, 0);
    assert_eq!(ranges[ranges.len() - 1].1, 1000);
    for pair in ranges.windows(2) {
        assert_eq!(pair[0].1, pair[1].0);
    }
}

#[test]
fn worker_count_at_least_one() {
    assert!(worker_count() >= 1);
}

#[test]
fn writer_helpers_write_and_flush() {
    let mut writer = BufWriter::new(Vec::new());
    assert!(!write_all(&mut writer, b"line\n"));
    assert!(!flush(&mut writer));
    assert_eq!(writer.get_ref(), &b"line\n".to_vec());
    assert_eq!(fail(&mut writer, b"end"), (false, false));
    assert_eq!(writer.get_ref(), &b"line\nend".to_vec());
}

#[test]
fn workers_follow_cpus() {
    assert_eq!(workers_for_cpus(0), 1);
    assert_eq!(workers_for_cpus(1), 1);
    assert_eq!(workers_for_cpus(8), 8);
}

#[test]
fn stdin_empty_keyword_writes_every_complete_line() {
    let mut scanner = StdinScanner::new();
    let action = scanner.step(ReadEvent::Bytes(b"a\n\nb\nc"), b"");
    assert_eq!(action.output, b"a\n\nb\n".to_vec());
    assert_eq!(scanner.pending(), b"c");
}

#[test]
fn keyword_spanning_pieces_is_found() {
    let mut scanner = StdinScanner::new();
    assert!(scanner.step(ReadEvent::Bytes(b"xx ke"), b"key").output.is_empty());
    assert_eq!(scanner.step(ReadEvent::Bytes(b"y yy\n"), b"key").output, b"xx key yy\n".to_vec());
}
