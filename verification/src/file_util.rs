//! Line-by-line reading of standard input or a file: what each method does with every
//! line that its reader hands over.
use vstd::prelude::*;
use crate::lines::{
    keeps_line, kept_text, lemma_kept_text_first_line, lemma_line_end, lemma_line_end_unique,
    lemma_line_start_from, lemma_line_start_from_monotone, lemma_newline_free_text, line_end,
    line_start_from, lines_window,
};
use crate::read_util::{
    chunk_begin, chunk_end, chunks_text, lemma_chunks_tile_file,
    lemma_chunks_write_each_kept_line_once,
};
use crate::search::{
    contains_bytes, lemma_contained_needle_fits, lemma_occurrence_transitive, occurs_at,
    twoway_find, NEWLINE,
};

verus! {

/// What a line reader reports: a line (with its newline, unless it is the last line of an
/// input that does not end with one), the end of the input, or a failed read.
pub enum LineRead<'a> {
    Line(&'a [u8]),
    End,
    Failed,
}

/// What the reading loop does next.
#[derive(Debug, PartialEq, Eq, Structural)]
pub enum LineAction {
    /// Write the line, then read the next one.
    Write,
    /// Read the next line without writing this one.
    Skip,
    /// Flush what was written, then read again.
    Flush,
    /// Flush what was written and stop reading.
    Stop,
    /// Give up: the input cannot be read.
    Abort,
}

/// Which lines a line-by-line method writes.
#[derive(Debug, PartialEq, Eq, Structural)]
pub enum LineFilter {
    /// Every line (the echo method).
    Every,
    /// The lines in which the keyword occurs (the tty method).
    Containing,
    /// The lines at least as long as the keyword in which the keyword occurs (the normal
    /// method).
    LongEnoughContaining,
}

/// The lines that `filter` writes.
pub open spec fn filter_keeps(filter: LineFilter, line: Seq<u8>, keyword: Seq<u8>) -> bool {
    match filter {
        LineFilter::Every => true,
        LineFilter::Containing => contains_bytes(line, keyword),
        LineFilter::LongEnoughContaining => keyword.len() <= line.len() && contains_bytes(
            line,
            keyword,
        ),
    }
}

/// Decides what the reading loop of a line-by-line method does with one report of its
/// reader: a line is written when the filter keeps it; at the end of the input the writer
/// is flushed and reading stops; after a failed read the writer is flushed and reading
/// goes on.
pub fn line_action(filter: &LineFilter, event: &LineRead, keyword: &[u8]) -> (action: LineAction)
    ensures
        match *event {
            LineRead::Line(line) => action == (if filter_keeps(*filter, line@, keyword@) {
                LineAction::Write
            } else {
                LineAction::Skip
            }),
            LineRead::End => action == LineAction::Stop,
            LineRead::Failed => action == LineAction::Flush,
        },
{
    match event {
        LineRead::Line(line) => {
            let keep = match filter {
                LineFilter::Every => true,
                LineFilter::Containing => twoway_find(line, keyword).is_some(),
                LineFilter::LongEnoughContaining => keyword.len() <= line.len() && twoway_find(
                    line,
                    keyword,
                ).is_some(),
            };
            if keep {
                LineAction::Write
            } else {
                LineAction::Skip
            }
        },
        LineRead::End => LineAction::Stop,
        LineRead::Failed => LineAction::Flush,
    }
}

/// The length test of the normal method never changes which lines it writes: a keyword
/// that occurs in a line is never longer than the line.
pub proof fn lemma_length_test_is_redundant(line: Seq<u8>, keyword: Seq<u8>)
    ensures
        filter_keeps(LineFilter::LongEnoughContaining, line, keyword) == filter_keeps(
            LineFilter::Containing,
            line,
            keyword,
        ),
{
    if contains_bytes(line, keyword) {
        lemma_contained_needle_fits(line, keyword);
    }
}

/// A keyword that holds another keeps, under any filter, no line that the other does not
/// keep: searching for more gives fewer lines.
pub proof fn lemma_longer_keyword_keeps_fewer_lines_under(
    filter: LineFilter,
    line: Seq<u8>,
    shorter: Seq<u8>,
    longer: Seq<u8>,
)
    requires
        contains_bytes(longer, shorter),
        filter_keeps(filter, line, longer),
    ensures
        filter_keeps(filter, line, shorter),
{
    lemma_contained_needle_fits(longer, shorter);
    match filter {
        LineFilter::Every => {},
        _ => {
            lemma_occurrence_transitive(line, longer, shorter);
        },
    }
}

/// Where a worker of the line-by-line chunk method stands in its file: the offset reached,
/// the end of its chunk, and whether it still has to pass over the line that it started
/// inside of.
pub struct LineCursor {
    pub pos: u64,
    pub end: u64,
    pub skipping: bool,
}

impl LineCursor {
    /// A worker placed at `begin`, where `follows_newline` tells whether the byte before
    /// `begin` is a newline. A worker that starts inside a line first passes over the rest
    /// of it, which the worker before it writes; one that starts where a line starts (at the
    /// beginning of the file or right after a newline) reads that line itself.
    pub fn start(begin: u64, end: u64, follows_newline: bool) -> (cursor: Self)
        ensures
            cursor.pos == begin,
            cursor.end == end,
            cursor.skipping == (begin > 0 && !follows_newline),
    {
        LineCursor { pos: begin, end, skipping: begin > 0 && !follows_newline }
    }

    /// The worker reads another line while it has a line to pass over or has not reached
    /// the end of its chunk.
    pub fn wants_line(&self) -> (more: bool)
        ensures
            more == (self.skipping || self.pos < self.end),
    {
        self.skipping || self.pos < self.end
    }

    /// Takes one report of the reader. The line passed over at the start is never
    /// written, and a failure to read it gives up; after that, every line read moves the
    /// offset on by its length (saturating) and is written when it is at least as long as
    /// the keyword and holds it; the end of the file stops the worker, and a failed read
    /// is tried again.
    pub fn on_read(&mut self, event: &LineRead, keyword: &[u8]) -> (action: LineAction)
        ensures
            final(self).end == old(self).end,
            !final(self).skipping,
            old(self).skipping ==> match *event {
                LineRead::Line(line) => {
                    &&& action == LineAction::Skip
                    &&& final(self).pos == (if old(self).pos + line@.len() > u64::MAX {
                        u64::MAX as int
                    } else {
                        old(self).pos + line@.len()
                    })
                },
                LineRead::End => action == LineAction::Skip && final(self).pos == old(self).pos,
                LineRead::Failed => action == LineAction::Abort && final(self).pos == old(
                    self,
                ).pos,
            },
            match *event {
                LineRead::Line(line) => (*final(self), action) == cursor_step(
                    *old(self),
                    Some(line@),
                    keyword@,
                ),
                LineRead::End => (*final(self), action) == cursor_step(*old(self), None, keyword@),
                LineRead::Failed => true,
            },
            !old(self).skipping ==> match *event {
                LineRead::Line(line) => {
                    &&& action == (if filter_keeps(
                        LineFilter::LongEnoughContaining,
                        line@,
                        keyword@,
                    ) {
                        LineAction::Write
                    } else {
                        LineAction::Skip
                    })
                    &&& final(self).pos == (if old(self).pos + line@.len() > u64::MAX {
                        u64::MAX as int
                    } else {
                        old(self).pos + line@.len()
                    })
                },
                LineRead::End => action == LineAction::Stop && final(self).pos == old(self).pos,
                LineRead::Failed => action == LineAction::Skip && final(self).pos == old(
                    self,
                ).pos,
            },
    {
        if self.skipping {
            self.skipping = false;
            match event {
                LineRead::Line(line) => {
                    self.pos = self.pos.saturating_add(line.len() as u64);
                    LineAction::Skip
                },
                LineRead::End => LineAction::Skip,
                LineRead::Failed => LineAction::Abort,
            }
        } else {
            match event {
                LineRead::Line(line) => {
                    self.pos = self.pos.saturating_add(line.len() as u64);
                    if keyword.len() <= line.len() && twoway_find(line, keyword).is_some() {
                        LineAction::Write
                    } else {
                        LineAction::Skip
                    }
                },
                LineRead::End => LineAction::Stop,
                LineRead::Failed => LineAction::Skip,
            }
        }
    }
}

/// One step of a worker of the line-by-line chunk method, for a reader that hands over the
/// line `read` (`None` at the end of the file): the cursor after it and what the worker
/// does.
pub open spec fn cursor_step(cursor: LineCursor, read: Option<Seq<u8>>, keyword: Seq<u8>) -> (
    LineCursor,
    LineAction,
) {
    match read {
        Some(line) => {
            let pos = if cursor.pos + line.len() > u64::MAX {
                u64::MAX
            } else {
                (cursor.pos + line.len()) as u64
            };
            let next = LineCursor { pos, end: cursor.end, skipping: false };
            if cursor.skipping {
                (next, LineAction::Skip)
            } else if filter_keeps(LineFilter::LongEnoughContaining, line, keyword) {
                (next, LineAction::Write)
            } else {
                (next, LineAction::Skip)
            }
        },
        None => {
            let next = LineCursor { pos: cursor.pos, end: cursor.end, skipping: false };
            if cursor.skipping {
                (next, LineAction::Skip)
            } else {
                (next, LineAction::Stop)
            }
        },
    }
}

/// What a line reader placed at offset `pos` of the file `s` hands over: the bytes up to
/// and including the next newline, or up to the end of the file when no newline follows;
/// `None` at the end of the file.
pub open spec fn line_read_at(s: Seq<u8>, pos: int) -> Option<Seq<u8>> {
    if pos < 0 || pos >= s.len() {
        None
    } else {
        let rest = s.skip(pos);
        let e = line_end(rest);
        if e < rest.len() {
            Some(rest.take(e + 1))
        } else {
            Some(rest)
        }
    }
}

/// A read at an offset inside the file hands over at least one byte, the bytes at that
/// offset, and ends where the next line starts.
pub proof fn lemma_line_read_at(s: Seq<u8>, pos: int)
    requires
        0 <= pos < s.len(),
    ensures
        line_read_at(s, pos) is Some,
        1 <= line_read_at(s, pos)->0.len() <= s.len() - pos,
        line_read_at(s, pos)->0 == s.subrange(pos, pos + line_read_at(s, pos)->0.len()),
        pos + line_read_at(s, pos)->0.len() == line_start_from(s, pos + 1),
{
    let rest = s.skip(pos);
    lemma_line_end(rest);
    let e = line_end(rest);
    let l = line_read_at(s, pos)->0;
    if e < rest.len() {
        assert(l =~= s.subrange(pos, pos + e + 1));
        if pos + e + 1 < s.len() {
            assert(s[pos + e] == rest[e]);
        }
        if e > 0 {
            assert(rest.take(e)[0] == s[pos]);
        }
    } else {
        assert(l =~= s.subrange(pos, s.len() as int));
        if e > 0 && pos + 1 < s.len() {
            assert(rest.take(e)[0] == s[pos]);
            let t = s.skip(pos + 1);
            lemma_line_end(t);
            let f = line_end(t);
            if f < t.len() {
                assert(rest.take(e)[f + 1] == t[f]);
            }
        }
    }
    lemma_line_start_from(s, pos + 1);
    let r = line_start_from(s, pos + 1);
    if e < rest.len() {
        if r < pos + e + 1 {
            assert(rest.take(e)[r - 1 - pos] == s[r - 1]);
        }
        if r > pos + e + 1 {
            assert(s[pos + e] == rest[e]);
        }
    } else {
        if r < s.len() {
            assert(rest.take(e)[r - 1 - pos] == s[r - 1]);
        }
    }
}

/// What a worker of the line-by-line chunk method writes from the state `cursor` on, when
/// its reader hands over the lines of the file `s` and no read fails: it reads while it
/// has a line to pass over or has not reached the end of its chunk, and writes the lines it
/// keeps.
pub open spec fn worker_output(s: Seq<u8>, cursor: LineCursor, keyword: Seq<u8>) -> Seq<u8>
    decreases s.len() - cursor.pos, if cursor.skipping { 1int } else { 0int },
{
    if s.len() > u64::MAX || !(cursor.skipping || cursor.pos < cursor.end) {
        Seq::empty()
    } else {
        let read = line_read_at(s, cursor.pos as int);
        let (next, action) = cursor_step(cursor, read, keyword);
        if action == LineAction::Stop {
            Seq::empty()
        } else {
            proof {
                if cursor.pos < s.len() {
                    lemma_line_read_at(s, cursor.pos as int);
                }
            }
            if action == LineAction::Write {
                read->0 + worker_output(s, next, keyword)
            } else {
                worker_output(s, next, keyword)
            }
        }
    }
}

/// The cursor that `LineCursor::start` gives worker `id` of `workers` for the file `s`.
pub open spec fn worker_start(s: Seq<u8>, workers: nat, id: nat) -> LineCursor {
    let begin = chunk_begin(s.len(), workers, id);
    LineCursor {
        pos: begin as u64,
        end: chunk_end(s.len(), workers, id) as u64,
        skipping: begin > 0 && s[begin - 1] != NEWLINE,
    }
}

/// What the first `n` workers of the line-by-line chunk method write, one after the other.
pub open spec fn line_chunks_text(s: Seq<u8>, keyword: Seq<u8>, workers: nat, n: nat) -> Seq<u8>
    decreases n,
{
    if n == 0 {
        Seq::empty()
    } else {
        line_chunks_text(s, keyword, workers, (n - 1) as nat) + worker_output(
            s,
            worker_start(s, workers, (n - 1) as nat),
            keyword,
        )
    }
}

/// The filter of the line-by-line normal and chunk methods keeps the lines that the mapped
/// methods keep.
pub proof fn lemma_long_enough_filter_keeps_kept_lines(line: Seq<u8>, keyword: Seq<u8>)
    ensures
        filter_keeps(LineFilter::LongEnoughContaining, line, keyword) == keeps_line(line, keyword),
{
    if keyword.len() == 0 {
        assert(line.subrange(0, 0) =~= keyword);
        assert(occurs_at(line, keyword, 0));
    } else if contains_bytes(line, keyword) {
        lemma_contained_needle_fits(line, keyword);
    }
}

/// A worker that reads from a line start `p` on, without a line to pass over, writes the
/// kept lines that begin in `p..line_start_from(s, end)`.
proof fn lemma_worker_from_line_start(s: Seq<u8>, p: int, end: u64, keyword: Seq<u8>)
    requires
        s.len() <= u64::MAX,
        0 <= p <= s.len(),
        end <= s.len(),
        p == 0 || p == s.len() || s[p - 1] == NEWLINE,
        p <= line_start_from(s, end as int),
    ensures
        worker_output(s, LineCursor { pos: p as u64, end, skipping: false }, keyword) == kept_text(
            s.subrange(p, line_start_from(s, end as int)),
            keyword,
        ),
    decreases s.len() - p,
{
    let c = LineCursor { pos: p as u64, end, skipping: false };
    lemma_line_start_from(s, end as int);
    let stop = line_start_from(s, end as int);
    if p >= end {
        if stop > p {
            if p > 0 && p < s.len() && p - 1 >= end {
                assert(s[p - 1] != NEWLINE);
            }
        }
        assert(stop == p);
        assert(s.subrange(p, stop) =~= Seq::<u8>::empty());
        lemma_newline_free_text(Seq::<u8>::empty(), keyword);
        assert(kept_text(Seq::<u8>::empty(), keyword) =~= Seq::<u8>::empty());
    } else {
        lemma_line_read_at(s, p);
        let l = line_read_at(s, p)->0;
        let q = p + l.len();
        lemma_line_start_from(s, p + 1);
        lemma_line_start_from_monotone(s, p + 1, end as int);
        lemma_line_start_from_monotone(s, end as int, end as int);
        assert(q <= stop);
        if q < s.len() {
            assert(s[q - 1] == NEWLINE) by {
                assert(line_start_from(s, p + 1) == q);
            }
        }
        lemma_worker_from_line_start(s, q, end, keyword);
        let next = LineCursor { pos: q as u64, end, skipping: false };
        assert(cursor_step(c, Some(l), keyword).0 == next);
        lemma_long_enough_filter_keeps_kept_lines(l, keyword);
        let t = s.subrange(p, stop);
        let rest = s.skip(p);
        lemma_line_end(rest);
        let e = line_end(rest);
        assert(t =~= rest.take(stop - p));
        if e < rest.len() {
            assert(l == rest.take(e + 1));
            assert(t.take(e) =~= rest.take(e));
            assert(t[e] == rest[e]);
            lemma_line_end_unique(t, e);
            lemma_kept_text_first_line(t, keyword);
            assert(t.take(e + 1) =~= l);
            assert(t.skip(e + 1) =~= s.subrange(q, stop));
        } else {
            assert(q == s.len());
            assert(t =~= rest);
            assert(s.subrange(q, stop) =~= Seq::<u8>::empty());
            lemma_newline_free_text(Seq::<u8>::empty(), keyword);
            assert(kept_text(Seq::<u8>::empty(), keyword) =~= Seq::<u8>::empty());
            lemma_kept_text_first_line(t, keyword);
        }
        if keeps_line(l, keyword) {
            assert(kept_text(t, keyword) =~= l + kept_text(s.subrange(q, stop), keyword));
        } else {
            assert(kept_text(t, keyword) =~= kept_text(s.subrange(q, stop), keyword));
        }
    }
}

/// Worker `id` of the line-by-line chunk method writes the kept lines that begin in its
/// chunk, as the worker of the mapped chunk method does.
pub proof fn lemma_line_worker_writes_its_window(s: Seq<u8>, keyword: Seq<u8>, workers: nat, id: nat)
    requires
        s.len() <= u64::MAX,
        id < workers,
    ensures
        worker_output(s, worker_start(s, workers, id), keyword) == kept_text(
            lines_window(
                s,
                chunk_begin(s.len(), workers, id) as int,
                chunk_end(s.len(), workers, id) as int,
            ),
            keyword,
        ),
{
    lemma_chunks_tile_file(s.len(), workers);
    let b = chunk_begin(s.len(), workers, id) as int;
    let e = chunk_end(s.len(), workers, id) as int;
    assert(b <= e <= s.len());
    lemma_line_start_from(s, b);
    lemma_line_start_from_monotone(s, b, e);
    let c = worker_start(s, workers, id);
    let start = line_start_from(s, b);
    if c.skipping {
        if b < s.len() {
            lemma_line_read_at(s, b);
            let l = line_read_at(s, b)->0;
            assert(b + l.len() == line_start_from(s, b + 1));
            assert(line_start_from(s, b + 1) == start);
        } else {
            assert(start == s.len());
        }
        let next = LineCursor { pos: start as u64, end: e as u64, skipping: false };
        assert(cursor_step(c, line_read_at(s, b), keyword).0 == next);
        lemma_worker_from_line_start(s, start, e as u64, keyword);
    } else {
        assert(start == b);
        lemma_worker_from_line_start(s, b, e as u64, keyword);
    }
}

/// The workers of the line-by-line chunk method together write every kept line of the file
/// exactly once, in order, when their readers hand over the lines of the file and no read
/// fails.
pub proof fn lemma_line_workers_write_each_kept_line_once(s: Seq<u8>, keyword: Seq<u8>, workers: nat)
    requires
        s.len() <= u64::MAX,
        workers >= 1,
    ensures
        line_chunks_text(s, keyword, workers, workers) == kept_text(s, keyword),
{
    lemma_line_chunks_as_mapped_chunks(s, keyword, workers, workers);
    lemma_chunks_write_each_kept_line_once(s, keyword, workers);
}

proof fn lemma_line_chunks_as_mapped_chunks(s: Seq<u8>, keyword: Seq<u8>, workers: nat, n: nat)
    requires
        s.len() <= u64::MAX,
        n <= workers,
    ensures
        line_chunks_text(s, keyword, workers, n) == chunks_text(s, keyword, workers, n),
    decreases n,
{
    if n > 0 {
        lemma_line_chunks_as_mapped_chunks(s, keyword, workers, (n - 1) as nat);
        lemma_line_worker_writes_its_window(s, keyword, workers, (n - 1) as nat);
    }
}

/// The echo filter keeps every line, the last line of a file without newline included, so
/// echo writes every line it reads.
pub proof fn lemma_every_filter_keeps_every_line(line: Seq<u8>, keyword: Seq<u8>)
    ensures
        filter_keeps(LineFilter::Every, line, keyword),
{
}

/// A line in which the keyword occurs at some offset is kept by the tty and normal filters,
/// and written by a worker of the chunk method that is not passing over a line, however long
/// the line and the keyword are and wherever in the line the keyword stands.
pub proof fn lemma_line_holding_keyword_is_written(
    line: Seq<u8>,
    keyword: Seq<u8>,
    at: int,
    cursor: LineCursor,
)
    requires
        0 <= at,
        at + keyword.len() <= line.len(),
        forall|k: int| 0 <= k < keyword.len() ==> line[at + k] == #[trigger] keyword[k],
        !cursor.skipping,
    ensures
        filter_keeps(LineFilter::Containing, line, keyword),
        filter_keeps(LineFilter::LongEnoughContaining, line, keyword),
        cursor_step(cursor, Some(line), keyword).1 == LineAction::Write,
{
    assert(line.subrange(at, at + keyword.len()) =~= keyword);
    assert(occurs_at(line, keyword, at));
}

/// A line that the tty or normal filter keeps holds the keyword at some offset.
pub proof fn lemma_filtered_line_holds_keyword(filter: LineFilter, line: Seq<u8>, keyword: Seq<u8>)
    requires
        filter != LineFilter::Every,
        filter_keeps(filter, line, keyword),
    ensures
        exists|at: int| occurs_at(line, keyword, at),
{
    let at = choose|at: int| occurs_at(line, keyword, at);
    assert(occurs_at(line, keyword, at));
}

} // verus!
