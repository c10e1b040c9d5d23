//! Reading a text and writing the lines that hold the keyword: the normal and chunk
//! methods over a mapped file, and the scanner that reads standard input piece by piece.
use vstd::prelude::*;
use vstd::string::StringSliceAdditionalSpecFns;
use crate::lines::{
    keeps_line, kept, kept_tail, kept_text, lemma_adjacent_windows, lemma_kept_text_first_line,
    lemma_line_end_unique, lemma_line_start_from, lemma_line_start_from_monotone,
    lemma_newline_free_text, lemma_selected_lines_split, lemma_whole_window, line_end,
    line_start_from, lines_window, newline_free, selected_lines, unfinished_line,
};
use crate::search::{first_byte, is_first_byte, memmem_find, NEWLINE};

pub mod common;

verus! {

/// Tells whether `line` is written: when `keyword` is empty or occurs in `line`.
pub fn line_matches(line: &[u8], keyword: &[u8]) -> (keep: bool)
    ensures
        keep == keeps_line(line@, keyword@),
{
    keyword.is_empty() || memmem_find(line, keyword).is_some()
}

/// What `memchr` reports for a newline is the end of the first line.
proof fn lemma_found_newline_is_line_end(s: Seq<u8>, found: Option<usize>)
    requires
        is_first_byte(s, NEWLINE, found),
    ensures
        match found {
            Some(p) => line_end(s) == p && p < s.len(),
            None => line_end(s) == s.len(),
        },
{
    match found {
        Some(p) => {
            assert forall|j: int| 0 <= j < p implies s.take(p as int)[j] != NEWLINE by {
                assert(s.take(p as int)[j] == s[j]);
            }
            lemma_line_end_unique(s, p as int);
        },
        None => {
            assert(s.take(s.len() as int) =~= s);
            lemma_line_end_unique(s, s.len() as int);
        },
    }
}

/// The kept lines of `text`, the last one included when it has no newline.
fn scan_text(text: &[u8], keyword: &[u8]) -> (written: Vec<u8>)
    ensures
        written@ == kept_text(text@, keyword@),
{
    let mut written: Vec<u8> = Vec::new();
    let mut pos: usize = 0;
    assert(text@.skip(0) =~= text@);
    while pos < text.len()
        invariant
            pos <= text.len(),
            kept_text(text@, keyword@) == written@ + kept_text(text@.skip(pos as int), keyword@),
        decreases text.len() - pos,
    {
        let rest = &text[pos..text.len()];
        let ghost s = text@.skip(pos as int);
        assert(rest@ =~= s);
        let found = first_byte(NEWLINE, rest);
        proof {
            lemma_found_newline_is_line_end(s, found);
            lemma_kept_text_first_line(s, keyword@);
        }
        let ghost before = written@;
        match found {
            Some(at) => {
                let next = pos + at + 1;
                let line = &text[pos..next];
                assert(line@ =~= s.take(at + 1));
                assert(s.skip(at + 1) =~= text@.skip(next as int));
                if line_matches(line, keyword) {
                    written.extend_from_slice(line);
                    assert(written@ =~= before + line@);
                } else {
                    assert(written@ =~= before + Seq::<u8>::empty());
                }
                assert(before + kept_text(s, keyword@) =~= written@ + kept_text(
                    text@.skip(next as int),
                    keyword@,
                ));
                pos = next;
            },
            None => {
                if line_matches(rest, keyword) {
                    written.extend_from_slice(rest);
                    assert(written@ =~= before + s);
                } else {
                    assert(written@ =~= before + Seq::<u8>::empty());
                }
                proof {
                    lemma_newline_free_text(Seq::<u8>::empty(), keyword@);
                }
                assert(text@.skip(text.len() as int) =~= Seq::<u8>::empty());
                assert(written@ + kept_text(Seq::<u8>::empty(), keyword@) =~= written@);
                pos = text.len();
            },
        }
    }
    proof {
        lemma_newline_free_text(Seq::<u8>::empty(), keyword@);
    }
    assert(text@.skip(pos as int) =~= Seq::<u8>::empty());
    assert(written@ + kept_text(Seq::<u8>::empty(), keyword@) =~= written@);
    written
}

/// Scans a mapped file the way the normal method does, and returns what it writes: every
/// line that holds the keyword (every line when it is empty), in order, the last line
/// included when it has no newline.
pub fn scan_normal(data: &[u8], keyword: &[u8]) -> (written: Vec<u8>)
    ensures
        written@ == kept_text(data@, keyword@),
{
    scan_text(data, keyword)
}

/// The start of the first line of `data` that begins at or after offset `at`.
pub fn next_line_start(data: &[u8], at: usize) -> (start: usize)
    requires
        at <= data.len(),
    ensures
        start == line_start_from(data@, at as int),
{
    if at == 0 {
        0
    } else if at >= data.len() {
        data.len()
    } else if data[at - 1] == NEWLINE {
        at
    } else {
        let rest = &data[at..data.len()];
        assert(rest@ =~= data@.skip(at as int));
        let found = first_byte(NEWLINE, rest);
        proof {
            lemma_found_newline_is_line_end(rest@, found);
        }
        match found {
            Some(p) => at + p + 1,
            None => data.len(),
        }
    }
}

/// The kept lines of `data` that begin at or after `begin` and before `end`: a line that
/// begins before `begin` belongs to the window before, and a line that begins before `end`
/// is written whole, though it goes on past `end`.
pub fn scan_window(data: &[u8], begin: usize, end: usize, keyword: &[u8]) -> (written: Vec<u8>)
    requires
        begin <= end <= data.len(),
    ensures
        written@ == kept_text(lines_window(data@, begin as int, end as int), keyword@),
{
    let start = next_line_start(data, begin);
    let stop = next_line_start(data, end);
    proof {
        lemma_line_start_from(data@, begin as int);
        lemma_line_start_from(data@, end as int);
        lemma_line_start_from_monotone(data@, begin as int, end as int);
    }
    let window = &data[start..stop];
    assert(window@ =~= lines_window(data@, begin as int, end as int));
    scan_text(window, keyword)
}

/// Scans the chunk `begin..end` of a mapped file the way a worker of the chunk method does,
/// and returns what it writes: the kept lines that begin in the chunk, then a closing
/// newline.
pub fn scan_chunk(data: &[u8], begin: usize, end: usize, keyword: &[u8]) -> (written: Vec<u8>)
    requires
        begin <= end <= data.len(),
    ensures
        written@ == kept_text(lines_window(data@, begin as int, end as int), keyword@) + seq![
            NEWLINE,
        ],
{
    let mut written = scan_window(data, begin, end, keyword);
    let ghost lines = written@;
    written.push(NEWLINE);
    assert(written@ =~= lines + seq![NEWLINE]);
    written
}

/// What standard input delivers to the scanner: a piece of bytes, the end of the input,
/// or a failed read.
pub enum ReadEvent<'a> {
    Bytes(&'a [u8]),
    End,
    Failed,
}

/// What the reader of standard input does after an event: write `output`, then stop
/// reading when `stop` is set.
pub struct ScanAction {
    pub output: Vec<u8>,
    pub stop: bool,
}

/// The state of a scan of standard input: the bytes read after the last newline.
pub struct StdinScanner {
    pending: Vec<u8>,
}

impl View for StdinScanner {
    type V = Seq<u8>;

    closed spec fn view(&self) -> Seq<u8> {
        self.pending@
    }
}

impl StdinScanner {
    /// A scanner that has read nothing yet.
    pub fn new() -> (scanner: Self)
        ensures
            scanner@ == Seq::<u8>::empty(),
    {
        StdinScanner { pending: Vec::new() }
    }

    /// The bytes read after the last newline, which are not written yet.
    pub fn pending(&self) -> (bytes: &[u8])
        ensures
            bytes@ == self@,
    {
        self.pending.as_slice()
    }

    /// Takes one event of standard input. A piece of bytes completes the lines that the
    /// pending bytes began; the kept complete lines are written and the bytes after the
    /// last newline stay pending. At the end of the input the pending last line is written
    /// when it is not empty and is kept, then a newline, and reading stops. When a read
    /// fails, only a newline is written and reading stops.
    pub fn step(&mut self, event: ReadEvent, keyword: &[u8]) -> (action: ScanAction)
        ensures
            match event {
                ReadEvent::Bytes(piece) => {
                    &&& action.output@ == selected_lines(old(self)@ + piece@, keyword@)
                    &&& !action.stop
                    &&& final(self)@ == unfinished_line(old(self)@ + piece@)
                    &&& newline_free(final(self)@)
                },
                ReadEvent::End => {
                    &&& action.output@ == kept_tail(old(self)@, keyword@) + seq![NEWLINE]
                    &&& action.stop
                    &&& final(self)@ == Seq::<u8>::empty()
                },
                ReadEvent::Failed => {
                    &&& action.output@ == seq![NEWLINE]
                    &&& action.stop
                    &&& final(self)@ == old(self)@
                },
            },
    {
        match event {
            ReadEvent::Bytes(piece) => {
                let output = self.feed(piece, keyword);
                ScanAction { output, stop: false }
            },
            ReadEvent::Failed => {
                let mut output: Vec<u8> = Vec::new();
                output.push(NEWLINE);
                assert(output@ =~= seq![NEWLINE]);
                ScanAction { output, stop: true }
            },
            ReadEvent::End => {
                let mut output: Vec<u8> = Vec::new();
                let mut last: Vec<u8> = Vec::new();
                std::mem::swap(&mut last, &mut self.pending);
                if !last.is_empty() && line_matches(last.as_slice(), keyword) {
                    output.extend_from_slice(last.as_slice());
                }
                let ghost tail = output@;
                assert(tail =~= kept_tail(old(self)@, keyword@));
                output.push(NEWLINE);
                assert(output@ =~= tail + seq![NEWLINE]);
                ScanAction { output, stop: true }
            },
        }
    }

    fn feed(&mut self, piece: &[u8], keyword: &[u8]) -> (written: Vec<u8>)
        ensures
            written@ == selected_lines(old(self)@ + piece@, keyword@),
            final(self)@ == unfinished_line(old(self)@ + piece@),
            newline_free(final(self)@),
    {
        let mut buf: Vec<u8> = Vec::new();
        std::mem::swap(&mut buf, &mut self.pending);
        buf.extend_from_slice(piece);
        let ghost all = buf@;
        assert(all =~= old(self)@ + piece@);
        let mut written: Vec<u8> = Vec::new();
        let mut begin: usize = 0;
        let mut i: usize = 0;
        assert(all.take(0) =~= Seq::<u8>::empty());
        assert(selected_lines(Seq::<u8>::empty(), keyword@) == Seq::<u8>::empty());
        assert(unfinished_line(Seq::<u8>::empty()) == Seq::<u8>::empty());
        while i < buf.len()
            invariant
                buf@ == all,
                begin <= i <= buf.len(),
                written@ == selected_lines(all.take(begin as int), keyword@),
                unfinished_line(all.take(begin as int)) == Seq::<u8>::empty(),
                newline_free(all.subrange(begin as int, i as int)),
            decreases buf.len() - i,
        {
            if buf[i] == NEWLINE {
                let line = &buf[begin..i + 1];
                let ghost before = written@;
                if line_matches(line, keyword) {
                    written.extend_from_slice(line);
                    assert(written@ =~= before + line@);
                } else {
                    assert(written@ =~= before + Seq::<u8>::empty());
                }
                proof {
                    assert(all.take(i + 1) =~= all.take(begin as int) + line@);
                    lemma_append_line(all.take(begin as int), line@, keyword@);
                }
                begin = i + 1;
                assert(all.subrange(begin as int, begin as int) =~= Seq::<u8>::empty());
            } else {
                assert(all.subrange(begin as int, i + 1) =~= all.subrange(begin as int, i as int).push(
                    buf@[i as int],
                ));
            }
            i = i + 1;
        }
        let rest = vstd::slice::slice_to_vec(&buf[begin..buf.len()]);
        proof {
            let head = all.take(begin as int);
            assert(rest@ =~= all.subrange(begin as int, all.len() as int));
            assert(all =~= head + rest@);
            lemma_selected_lines_split(head, rest@, keyword@);
            assert(unfinished_line(head) + rest@ =~= rest@);
            lemma_newline_free_text(rest@, keyword@);
            assert(selected_lines(head, keyword@) + Seq::<u8>::empty() =~= selected_lines(head, keyword@));
        }
        self.pending = rest;
        written
    }
}

/// A complete line appended after complete lines is written after them, and leaves no
/// unfinished line.
proof fn lemma_append_line(head: Seq<u8>, line: Seq<u8>, keyword: Seq<u8>)
    requires
        unfinished_line(head) == Seq::<u8>::empty(),
        line.len() > 0,
        line.last() == NEWLINE,
        newline_free(line.drop_last()),
    ensures
        selected_lines(head + line, keyword) == selected_lines(head, keyword) + kept(line, keyword),
        unfinished_line(head + line) == Seq::<u8>::empty(),
{
    lemma_selected_lines_split(head, line, keyword);
    assert(Seq::<u8>::empty() + line =~= line);
    let n = line.len() - 1;
    assert(line.take(n) =~= line.drop_last());
    lemma_line_end_unique(line, n);
    assert(line.take(n + 1) =~= line);
    assert(line.skip(n + 1) =~= Seq::<u8>::empty());
    lemma_newline_free_text(Seq::<u8>::empty(), keyword);
    assert(selected_lines(line, keyword) =~= kept(line, keyword) + Seq::<u8>::empty());
}

/// Methods of reading a file: `normal` scans the whole mapped file in one pass, `chunk`
/// splits it among workers that scan their chunks in parallel.
#[derive(Debug, PartialEq, Eq, Structural)]
pub enum Mode {
    Normal,
    Chunk,
}

/// The error of parsing a name that names no method.
#[derive(Debug, PartialEq, Eq, Structural)]
pub enum ModeParseError {
    VariantNotFound,
}

/// The name of a method, as bytes: `normal` or `chunk`, in lower case.
pub open spec fn mode_name(mode: Mode) -> Seq<u8> {
    match mode {
        Mode::Normal => seq![110u8, 111u8, 114u8, 109u8, 97u8, 108u8],
        Mode::Chunk => seq![99u8, 104u8, 117u8, 110u8, 107u8],
    }
}

/// The result of parsing the name `name` (as bytes): the method of that name, or
/// `VariantNotFound` when no method has it.
pub open spec fn mode_named(name: Seq<u8>) -> Result<Mode, ModeParseError> {
    if name == mode_name(Mode::Normal) {
        Ok(Mode::Normal)
    } else if name == mode_name(Mode::Chunk) {
        Ok(Mode::Chunk)
    } else {
        Err(ModeParseError::VariantNotFound)
    }
}

impl Mode {
    /// The method with the given name; names are matched exactly, in lower case.
    pub fn from_name(name: &str) -> (parsed: Result<Mode, ModeParseError>)
        ensures
            parsed == mode_named(name.spec_bytes()),
            match parsed {
                Ok(mode) => name.spec_bytes() == mode_name(mode),
                Err(e) => {
                    &&& e == ModeParseError::VariantNotFound
                    &&& name.spec_bytes() != mode_name(Mode::Normal)
                    &&& name.spec_bytes() != mode_name(Mode::Chunk)
                },
            },
    {
        let b = name.as_bytes();
        if b.len() == 6 && b[0] == 110 && b[1] == 111 && b[2] == 114 && b[3] == 109 && b[4] == 97
            && b[5] == 108 {
            assert(b@ =~= mode_name(Mode::Normal));
            Ok(Mode::Normal)
        } else if b.len() == 5 && b[0] == 99 && b[1] == 104 && b[2] == 117 && b[3] == 110 && b[4]
            == 107 {
            assert(b@ =~= mode_name(Mode::Chunk));
            Ok(Mode::Chunk)
        } else {
            assert(b@ != mode_name(Mode::Normal) && b@ != mode_name(Mode::Chunk)) by {
                if b@ == mode_name(Mode::Normal) {
                    assert(b@[5] == 108);
                }
                if b@ == mode_name(Mode::Chunk) {
                    assert(b@[4] == 107);
                }
            }
            Err(ModeParseError::VariantNotFound)
        }
    }
}

impl std::str::FromStr for Mode {
    type Err = ModeParseError;

    fn from_str(name: &str) -> (parsed: Result<Mode, ModeParseError>)
        ensures
            parsed == mode_named(name.spec_bytes()),
    {
        Mode::from_name(name)
    }
}

/// Why the metadata of an input file could not be read.
#[derive(Debug, PartialEq, Eq, Structural)]
pub enum OpenFailure {
    NotFound,
    PermissionDenied,
    IsADirectory,
    Other,
}

/// A file that is missing, unreadable or a directory cannot be read at all; other
/// failures to read its metadata are let through to the mapping of the file.
pub fn open_failure_is_fatal(failure: &OpenFailure) -> (fatal: bool)
    ensures
        fatal == (*failure != OpenFailure::Other),
{
    match failure {
        OpenFailure::NotFound => true,
        OpenFailure::PermissionDenied => true,
        OpenFailure::IsADirectory => true,
        OpenFailure::Other => false,
    }
}

/// The length of every chunk but the last, for a file of `size` bytes and `workers`
/// workers.
pub open spec fn chunk_len(size: nat, workers: nat) -> nat {
    if size == 0 {
        0
    } else {
        size / workers
    }
}

/// Where the chunk of worker `id` begins.
pub open spec fn chunk_begin(size: nat, workers: nat, id: nat) -> nat {
    id * chunk_len(size, workers)
}

/// Where the chunk of worker `id` ends: the last worker takes the rest of the file.
pub open spec fn chunk_end(size: nat, workers: nat, id: nat) -> nat {
    if id + 1 == workers {
        size
    } else {
        chunk_begin(size, workers, id) + chunk_len(size, workers)
    }
}

proof fn lemma_chunk_fits(size: nat, workers: nat, id: nat)
    requires
        workers >= 1,
        id < workers,
    ensures
        chunk_begin(size, workers, id) + chunk_len(size, workers) <= size || id + 1 == workers,
        chunk_begin(size, workers, id) <= size,
{
    let c = chunk_len(size, workers);
    assert(c * workers <= size) by (nonlinear_arith)
        requires
            c == (if size == 0 { 0 } else { size / workers }),
            workers >= 1,
    ;
    assert((id + 1) * c <= workers * c) by (nonlinear_arith)
        requires
            id + 1 <= workers,
    ;
    assert(id * c + c == (id + 1) * c) by (nonlinear_arith);
    assert(workers * c == c * workers) by (nonlinear_arith);
}

/// The chunks tile the file: the first begins at its start, the last ends at its end,
/// each ends where the next begins, and none ends before it begins.
pub proof fn lemma_chunks_tile_file(size: nat, workers: nat)
    requires
        workers >= 1,
    ensures
        chunk_begin(size, workers, 0) == 0,
        chunk_end(size, workers, (workers - 1) as nat) == size,
        forall|id: nat|
            id + 1 < workers ==> #[trigger] chunk_end(size, workers, id) == chunk_begin(
                size,
                workers,
                id + 1,
            ),
        forall|id: nat|
            id < workers ==> chunk_begin(size, workers, id) <= #[trigger] chunk_end(
                size,
                workers,
                id,
            ) <= size,
{
    assert forall|id: nat| id + 1 < workers implies #[trigger] chunk_end(size, workers, id)
        == chunk_begin(size, workers, id + 1) by {
        let c = chunk_len(size, workers);
        assert(id * c + c == (id + 1) * c) by (nonlinear_arith);
    }
    assert forall|id: nat| id < workers implies chunk_begin(size, workers, id) <= #[trigger] chunk_end(
        size,
        workers,
        id,
    ) <= size by {
        lemma_chunk_fits(size, workers, id);
    }
}

/// The chunks of a file of `file_size` bytes for `workers` workers, as (begin, end) pairs
/// in order of the workers.
pub fn chunk_ranges(file_size: u64, workers: u64) -> (ranges: Vec<(u64, u64)>)
    requires
        workers >= 1,
        workers <= usize::MAX,
    ensures
        ranges.len() == workers,
        forall|id: int|
            0 <= id < workers ==> #[trigger] ranges@[id] == (
                chunk_begin(file_size as nat, workers as nat, id as nat) as u64,
                chunk_end(file_size as nat, workers as nat, id as nat) as u64,
            ),
{
    let chunk_size: u64 = if file_size == 0 {
        0
    } else {
        file_size / workers
    };
    let mut ranges: Vec<(u64, u64)> = Vec::new();
    let mut id: u64 = 0;
    while id < workers
        invariant
            id <= workers <= usize::MAX,
            workers >= 1,
            chunk_size == chunk_len(file_size as nat, workers as nat),
            ranges.len() == id,
            forall|k: int|
                0 <= k < id ==> #[trigger] ranges@[k] == (
                    chunk_begin(file_size as nat, workers as nat, k as nat) as u64,
                    chunk_end(file_size as nat, workers as nat, k as nat) as u64,
                ),
        decreases workers - id,
    {
        proof {
            lemma_chunk_fits(file_size as nat, workers as nat, id as nat);
        }
        let begin: u64 = id * chunk_size;
        let candidate: u64 = if id == workers - 1 {
            file_size
        } else {
            begin + chunk_size
        };
        let end: u64 = if candidate >= begin {
            candidate
        } else {
            begin
        };
        ranges.push((begin, end));
        id = id + 1;
    }
    ranges
}

/// Calls `num_cpus::get`, the number of CPUs available to this process. It depends on the
/// machine, so nothing is stated of what it returns.
#[verifier::external_body]
fn available_cpus() -> (cpus: usize) {
    num_cpus::get()
}

/// The number of workers for `cpus` available CPUs: one per CPU, and at least one.
pub fn workers_for_cpus(cpus: usize) -> (workers: u64)
    ensures
        workers == (if cpus > 1 { cpus } else { 1 }),
        1 <= workers <= usize::MAX,
{
    let n: usize = if cpus > 1 {
        cpus
    } else {
        1
    };
    n as u64
}

/// The number of workers of the chunk method on this machine: one per available CPU, and
/// at least one.
pub fn worker_count() -> (workers: u64)
    ensures
        1 <= workers <= usize::MAX,
{
    workers_for_cpus(available_cpus())
}

/// The chunks of a file of `file_size` bytes among the workers of this machine: one
/// chunk per worker, as `chunk_ranges` lays them out.
pub fn chunk_plan(file_size: u64) -> (ranges: Vec<(u64, u64)>)
    ensures
        ranges.len() >= 1,
        forall|id: int|
            0 <= id < ranges.len() ==> #[trigger] ranges@[id] == (
                chunk_begin(file_size as nat, ranges.len() as nat, id as nat) as u64,
                chunk_end(file_size as nat, ranges.len() as nat, id as nat) as u64,
            ),
{
    let workers = worker_count();
    chunk_ranges(file_size, workers)
}

/// Feeding the scanner one piece of input and then another writes the same bytes, and
/// leaves the same bytes pending, as feeding both pieces at once: how standard input is cut
/// into reads does not change what is written. When the input then ends, all that was
/// written is every kept line of the input, the last one included, and a closing newline.
pub proof fn lemma_pieces_scan_as_one(pending: Seq<u8>, first: Seq<u8>, second: Seq<u8>, keyword: Seq<u8>)
    ensures
        selected_lines(pending + first, keyword) + selected_lines(
            unfinished_line(pending + first) + second,
            keyword,
        ) == selected_lines(pending + (first + second), keyword),
        unfinished_line(unfinished_line(pending + first) + second) == unfinished_line(
            pending + (first + second),
        ),
        selected_lines(pending + first, keyword) + selected_lines(
            unfinished_line(pending + first) + second,
            keyword,
        ) + (kept_tail(unfinished_line(unfinished_line(pending + first) + second), keyword)
            + seq![NEWLINE]) == kept_text(pending + (first + second), keyword) + seq![NEWLINE],
{
    lemma_selected_lines_split(pending + first, second, keyword);
    assert(pending + first + second =~= pending + (first + second));
    let whole = pending + (first + second);
    assert(selected_lines(whole, keyword) + (kept_tail(unfinished_line(whole), keyword) + seq![
        NEWLINE,
    ]) =~= kept_text(whole, keyword) + seq![NEWLINE]);
}

/// What the workers of the chunk method write for their chunks, without their closing
/// newlines, in order of the first `n` workers.
pub open spec fn chunks_text(s: Seq<u8>, keyword: Seq<u8>, workers: nat, n: nat) -> Seq<u8>
    decreases n,
{
    if n == 0 {
        Seq::empty()
    } else {
        chunks_text(s, keyword, workers, (n - 1) as nat) + kept_text(
            lines_window(
                s,
                chunk_begin(s.len(), workers, (n - 1) as nat) as int,
                chunk_end(s.len(), workers, (n - 1) as nat) as int,
            ),
            keyword,
        )
    }
}

proof fn lemma_first_chunks_text(s: Seq<u8>, keyword: Seq<u8>, workers: nat, n: nat)
    requires
        1 <= n <= workers,
    ensures
        chunks_text(s, keyword, workers, n) == kept_text(
            lines_window(s, 0, chunk_end(s.len(), workers, (n - 1) as nat) as int),
            keyword,
        ),
    decreases n,
{
    lemma_chunks_tile_file(s.len(), workers);
    let last = (n - 1) as nat;
    assert(chunk_begin(s.len(), workers, last) <= chunk_end(s.len(), workers, last) <= s.len());
    if n == 1 {
        assert(chunk_begin(s.len(), workers, 0) == 0);
        assert(chunks_text(s, keyword, workers, 0) == Seq::<u8>::empty());
        assert(chunks_text(s, keyword, workers, 1) =~= kept_text(
            lines_window(s, 0, chunk_end(s.len(), workers, 0) as int),
            keyword,
        ));
    } else {
        let prev = (n - 2) as nat;
        lemma_first_chunks_text(s, keyword, workers, (n - 1) as nat);
        assert(chunk_end(s.len(), workers, prev) == chunk_begin(s.len(), workers, prev + 1));
        assert(prev + 1 == last);
        lemma_adjacent_windows(
            s,
            keyword,
            0,
            chunk_end(s.len(), workers, prev) as int,
            chunk_end(s.len(), workers, last) as int,
        );
    }
}

/// The workers of the chunk method together write every kept line of the file exactly once,
/// in order: what they write for their chunks, one after the other, is the kept text of the
/// whole file.
pub proof fn lemma_chunks_write_each_kept_line_once(s: Seq<u8>, keyword: Seq<u8>, workers: nat)
    requires
        workers >= 1,
    ensures
        chunks_text(s, keyword, workers, workers) == kept_text(s, keyword),
{
    lemma_first_chunks_text(s, keyword, workers, workers);
    lemma_chunks_tile_file(s.len(), workers);
    lemma_whole_window(s);
}

} // verus!
