//! The meaning of a text as lines: which of its lines a scan keeps, and the laws that
//! relate the ways of reading it.
use vstd::prelude::*;
use crate::search::{
    contains_bytes, lemma_contained_needle_fits, lemma_occurrence_transitive, occurs_at, NEWLINE,
};

verus! {

/// `s` holds no newline.
pub open spec fn newline_free(s: Seq<u8>) -> bool {
    forall|i: int| 0 <= i < s.len() ==> s[i] != NEWLINE
}

/// The index of the first newline of `s`, or `s.len()` when `s` holds none.
pub open spec fn line_end(s: Seq<u8>) -> int
    decreases s.len(),
{
    if s.len() == 0 {
        0
    } else if s[0] == NEWLINE {
        0
    } else {
        1 + line_end(s.drop_first())
    }
}

/// A line is kept when the keyword is empty or occurs in it.
pub open spec fn keeps_line(line: Seq<u8>, keyword: Seq<u8>) -> bool {
    keyword.len() == 0 || contains_bytes(line, keyword)
}

/// What a scan writes for one line: the line itself when it is kept, nothing otherwise.
pub open spec fn kept(line: Seq<u8>, keyword: Seq<u8>) -> Seq<u8> {
    if keeps_line(line, keyword) {
        line
    } else {
        Seq::empty()
    }
}

/// The complete lines of `s` (each with its newline) that contain `keyword`, in order.
/// Bytes after the last newline do not form a complete line and are not written.
pub open spec fn selected_lines(s: Seq<u8>, keyword: Seq<u8>) -> Seq<u8>
    decreases s.len(),
{
    let e = line_end(s);
    if e >= s.len() {
        Seq::empty()
    } else {
        proof {
            lemma_line_end(s);
        }
        kept(s.take(e + 1), keyword) + selected_lines(s.skip(e + 1), keyword)
    }
}

/// The bytes of `s` after its last newline: the line that is not finished yet.
pub open spec fn unfinished_line(s: Seq<u8>) -> Seq<u8>
    decreases s.len(),
{
    let e = line_end(s);
    if e >= s.len() {
        s
    } else {
        proof {
            lemma_line_end(s);
        }
        unfinished_line(s.skip(e + 1))
    }
}

/// What is written for the last piece of a text, which has no newline: nothing when it is
/// empty, the piece itself when it is kept.
pub open spec fn kept_tail(tail: Seq<u8>, keyword: Seq<u8>) -> Seq<u8> {
    if tail.len() == 0 {
        Seq::empty()
    } else {
        kept(tail, keyword)
    }
}

/// The lines of `s` that hold `keyword` (every line when it is empty), in order: its complete
/// lines with their newlines, and its last piece when that has no newline.
pub open spec fn kept_text(s: Seq<u8>, keyword: Seq<u8>) -> Seq<u8> {
    selected_lines(s, keyword) + kept_tail(unfinished_line(s), keyword)
}

/// The start of the first line of `s` that begins at or after offset `at`: `at` itself when a
/// line begins there, the end of `s` when no line begins after it.
pub open spec fn line_start_from(s: Seq<u8>, at: int) -> int {
    if at <= 0 {
        0
    } else if at >= s.len() {
        s.len() as int
    } else if s[at - 1] == NEWLINE {
        at
    } else if at + line_end(s.skip(at)) < s.len() {
        at + line_end(s.skip(at)) + 1
    } else {
        s.len() as int
    }
}

/// The lines of `s` that a worker given the offsets `begin..end` is responsible for: those
/// that begin at or after `begin` and before `end`.
pub open spec fn lines_window(s: Seq<u8>, begin: int, end: int) -> Seq<u8> {
    s.subrange(line_start_from(s, begin), line_start_from(s, end))
}

/// The first newline of `s` is at `line_end(s)`, when there is one.
pub proof fn lemma_line_end(s: Seq<u8>)
    ensures
        0 <= line_end(s) <= s.len(),
        newline_free(s.take(line_end(s))),
        line_end(s) < s.len() ==> s[line_end(s)] == NEWLINE,
    decreases s.len(),
{
    if s.len() > 0 && s[0] != NEWLINE {
        let t = s.drop_first();
        lemma_line_end(t);
        let e = line_end(s);
        assert forall|i: int| 0 <= i < e implies s.take(e)[i] != NEWLINE by {
            if i > 0 {
                assert(s.take(e)[i] == t.take(e - 1)[i - 1]);
            }
        }
        if e < s.len() {
            assert(s[e] == t[e - 1]);
        }
    }
}

/// Any position that ends a newline-free prefix and holds a newline (or is the end of
/// `s`) is `line_end(s)`.
pub proof fn lemma_line_end_unique(s: Seq<u8>, i: int)
    requires
        0 <= i <= s.len(),
        newline_free(s.take(i)),
        i == s.len() || s[i] == NEWLINE,
    ensures
        line_end(s) == i,
{
    lemma_line_end(s);
    let e = line_end(s);
    if e < i {
        assert(s.take(i)[e] == s[e]);
    } else if e > i {
        assert(s.take(e)[i] == s[i]);
    }
}

/// A newline-free text has no complete line, and all of it is unfinished.
pub proof fn lemma_newline_free_text(s: Seq<u8>, keyword: Seq<u8>)
    requires
        newline_free(s),
    ensures
        line_end(s) == s.len(),
        selected_lines(s, keyword) == Seq::<u8>::empty(),
        unfinished_line(s) == s,
{
    assert(s.take(s.len() as int) =~= s);
    lemma_line_end_unique(s, s.len() as int);
}

/// The unfinished line of a text holds no newline.
pub proof fn lemma_unfinished_line_newline_free(s: Seq<u8>)
    ensures
        newline_free(unfinished_line(s)),
    decreases s.len(),
{
    lemma_line_end(s);
    let e = line_end(s);
    if e >= s.len() {
        assert(s.take(e) =~= s);
    } else {
        lemma_unfinished_line_newline_free(s.skip(e + 1));
    }
}

/// When `a` holds a newline, the first line of `a + b` is the first line of `a`.
proof fn lemma_first_line_of_concat(a: Seq<u8>, b: Seq<u8>)
    requires
        line_end(a) < a.len(),
    ensures
        line_end(a + b) == line_end(a),
        (a + b).take(line_end(a) + 1) == a.take(line_end(a) + 1),
        (a + b).skip(line_end(a) + 1) == a.skip(line_end(a) + 1) + b,
{
    lemma_line_end(a);
    let e = line_end(a);
    assert((a + b).take(e) =~= a.take(e));
    assert((a + b)[e] == a[e]);
    lemma_line_end_unique(a + b, e);
    assert((a + b).take(e + 1) =~= a.take(e + 1));
    assert((a + b).skip(e + 1) =~= a.skip(e + 1) + b);
}

/// Splitting a text anywhere: the complete lines of `a + b` are those of `a`, followed by
/// those that the unfinished line of `a` forms with `b`; and both ways leave the same
/// unfinished line.
pub proof fn lemma_selected_lines_split(a: Seq<u8>, b: Seq<u8>, keyword: Seq<u8>)
    ensures
        selected_lines(a + b, keyword) == selected_lines(a, keyword) + selected_lines(
            unfinished_line(a) + b,
            keyword,
        ),
        unfinished_line(a + b) == unfinished_line(unfinished_line(a) + b),
    decreases a.len(),
{
    lemma_line_end(a);
    let e = line_end(a);
    if e >= a.len() {
        assert(selected_lines(a, keyword) == Seq::<u8>::empty());
        assert(selected_lines(a + b, keyword) =~= Seq::<u8>::empty() + selected_lines(a + b, keyword));
    } else {
        let rest = a.skip(e + 1);
        lemma_first_line_of_concat(a, b);
        lemma_selected_lines_split(rest, b, keyword);
        let line = a.take(e + 1);
        assert(selected_lines(a + b, keyword) == kept(line, keyword) + selected_lines(rest + b, keyword));
        assert(selected_lines(a, keyword) == kept(line, keyword) + selected_lines(rest, keyword));
        assert(unfinished_line(a) == unfinished_line(rest));
        assert(unfinished_line(a + b) == unfinished_line(rest + b));
        assert(selected_lines(a + b, keyword) =~= selected_lines(a, keyword) + selected_lines(
            unfinished_line(a) + b,
            keyword,
        ));
    }
}

/// With an empty keyword every complete line is written: what is written, followed by the
/// unfinished line, is the whole text.
pub proof fn lemma_empty_keyword_writes_every_line(s: Seq<u8>)
    ensures
        selected_lines(s, Seq::<u8>::empty()) + unfinished_line(s) == s,
    decreases s.len(),
{
    lemma_line_end(s);
    let e = line_end(s);
    if e >= s.len() {
        assert(Seq::<u8>::empty() + s =~= s);
    } else {
        lemma_empty_keyword_writes_every_line(s.skip(e + 1));
        assert(s.take(e + 1) + s.skip(e + 1) =~= s);
        assert(selected_lines(s, Seq::<u8>::empty()) + unfinished_line(s) =~= s.take(e + 1) + (
        selected_lines(s.skip(e + 1), Seq::<u8>::empty()) + unfinished_line(s.skip(e + 1))));
    }
}

/// With an empty keyword the whole text is written.
pub proof fn lemma_empty_keyword_keeps_whole_text(s: Seq<u8>)
    ensures
        kept_text(s, Seq::<u8>::empty()) == s,
{
    lemma_empty_keyword_writes_every_line(s);
    let u = unfinished_line(s);
    if u.len() == 0 {
        assert(selected_lines(s, Seq::<u8>::empty()) + Seq::<u8>::empty() =~= selected_lines(
            s,
            Seq::<u8>::empty(),
        ));
        assert(selected_lines(s, Seq::<u8>::empty()) + u =~= selected_lines(s, Seq::<u8>::empty()));
    }
}

/// A keyword that holds another keeps no line that the other does not keep.
pub proof fn lemma_longer_keyword_keeps_fewer_lines(line: Seq<u8>, shorter: Seq<u8>, longer: Seq<u8>)
    requires
        contains_bytes(longer, shorter),
        keeps_line(line, longer),
    ensures
        keeps_line(line, shorter),
{
    if shorter.len() > 0 {
        if longer.len() == 0 {
            lemma_contained_needle_fits(longer, shorter);
        }
        lemma_occurrence_transitive(line, longer, shorter);
    }
}

/// The kept text of a text that has a newline is its first line, if kept, followed by the
/// kept text of the rest; the kept text of a text without newline is its kept last piece.
pub proof fn lemma_kept_text_first_line(s: Seq<u8>, keyword: Seq<u8>)
    ensures
        line_end(s) < s.len() ==> kept_text(s, keyword) == kept(s.take(line_end(s) + 1), keyword)
            + kept_text(s.skip(line_end(s) + 1), keyword),
        line_end(s) >= s.len() ==> kept_text(s, keyword) == kept_tail(s, keyword),
{
    lemma_line_end(s);
    let e = line_end(s);
    if e < s.len() {
        let line = s.take(e + 1);
        let rest = s.skip(e + 1);
        assert(kept_text(s, keyword) =~= kept(line, keyword) + kept_text(rest, keyword));
    } else {
        assert(kept_text(s, keyword) =~= kept_tail(s, keyword));
    }
}

/// A text that is empty or ends with a newline leaves no unfinished line.
pub proof fn lemma_terminated_text_has_no_unfinished_line(t: Seq<u8>)
    requires
        t.len() == 0 || t.last() == NEWLINE,
    ensures
        unfinished_line(t) == Seq::<u8>::empty(),
    decreases t.len(),
{
    lemma_line_end(t);
    let e = line_end(t);
    if e >= t.len() {
        if t.len() > 0 {
            assert(t.take(e)[t.len() - 1] == t.last());
        }
        assert(t =~= Seq::<u8>::empty());
    } else {
        let rest = t.skip(e + 1);
        if rest.len() > 0 {
            assert(rest.last() == t.last());
        }
        lemma_terminated_text_has_no_unfinished_line(rest);
    }
}

/// The kept text of two texts one after the other, the first empty or ending with a newline,
/// is the kept text of the first followed by that of the second.
pub proof fn lemma_kept_text_split(a: Seq<u8>, b: Seq<u8>, keyword: Seq<u8>)
    requires
        a.len() == 0 || a.last() == NEWLINE,
    ensures
        kept_text(a + b, keyword) == kept_text(a, keyword) + kept_text(b, keyword),
{
    lemma_terminated_text_has_no_unfinished_line(a);
    lemma_selected_lines_split(a, b, keyword);
    assert(Seq::<u8>::empty() + b =~= b);
    assert(kept_text(a, keyword) =~= selected_lines(a, keyword));
    assert(kept_text(a + b, keyword) =~= kept_text(a, keyword) + kept_text(b, keyword));
}

/// `line_start_from(s, at)` is the first line start at or after `at`.
pub proof fn lemma_line_start_from(s: Seq<u8>, at: int)
    requires
        0 <= at <= s.len(),
    ensures
        at <= line_start_from(s, at) <= s.len(),
        line_start_from(s, at) == 0 || line_start_from(s, at) == s.len() || s[line_start_from(s, at)
            - 1] == NEWLINE,
        forall|j: int| at <= j < line_start_from(s, at) - 1 ==> s[j] != NEWLINE,
{
    if 0 < at < s.len() && s[at - 1] != NEWLINE {
        let t = s.skip(at);
        lemma_line_end(t);
        let e = line_end(t);
        assert forall|j: int| at <= j < at + e implies s[j] != NEWLINE by {
            assert(t.take(e)[j - at] == s[j]);
        }
        if at + e < s.len() {
            assert(s[at + e] == t[e]);
        }
    }
}

/// Line starts found from later offsets are not earlier.
pub proof fn lemma_line_start_from_monotone(s: Seq<u8>, x: int, y: int)
    requires
        0 <= x <= y <= s.len(),
    ensures
        line_start_from(s, x) <= line_start_from(s, y),
{
    lemma_line_start_from(s, x);
    lemma_line_start_from(s, y);
    let rx = line_start_from(s, x);
    let ry = line_start_from(s, y);
    if ry < rx {
        assert(x < ry);
        assert(s[ry - 1] == NEWLINE);
    }
}

/// Two windows side by side write what the window over both writes: splitting a text at any
/// offsets and scanning the windows one after the other writes every kept line of the text
/// exactly once, in order.
pub proof fn lemma_adjacent_windows(s: Seq<u8>, keyword: Seq<u8>, a: int, b: int, c: int)
    requires
        0 <= a <= b <= c <= s.len(),
    ensures
        kept_text(lines_window(s, a, b), keyword) + kept_text(lines_window(s, b, c), keyword)
            == kept_text(lines_window(s, a, c), keyword),
{
    lemma_line_start_from(s, a);
    lemma_line_start_from(s, b);
    lemma_line_start_from(s, c);
    lemma_line_start_from_monotone(s, a, b);
    lemma_line_start_from_monotone(s, b, c);
    let ra = line_start_from(s, a);
    let rb = line_start_from(s, b);
    let rc = line_start_from(s, c);
    let first = s.subrange(ra, rb);
    let second = s.subrange(rb, rc);
    assert(first + second =~= s.subrange(ra, rc));
    if rb == s.len() as int {
        assert(second =~= Seq::<u8>::empty());
        lemma_newline_free_text(Seq::<u8>::empty(), keyword);
        assert(kept_text(second, keyword) =~= Seq::<u8>::empty());
        assert(first + second =~= first);
        assert(kept_text(first, keyword) + kept_text(second, keyword) =~= kept_text(first, keyword));
    } else {
        if first.len() > 0 {
            assert(first.last() == s[rb - 1]);
        }
        lemma_kept_text_split(first, second, keyword);
    }
}

/// The window from the start to the end of a text is the whole text.
pub proof fn lemma_whole_window(s: Seq<u8>)
    ensures
        lines_window(s, 0, s.len() as int) == s,
{
    assert(s.subrange(0, s.len() as int) =~= s);
}

/// A line in which the keyword occurs at some offset is kept, however long the line and the
/// keyword are and wherever in the line the keyword stands.
pub proof fn lemma_line_holding_keyword_is_kept(line: Seq<u8>, keyword: Seq<u8>, at: int)
    requires
        0 <= at,
        at + keyword.len() <= line.len(),
        forall|k: int| 0 <= k < keyword.len() ==> line[at + k] == #[trigger] keyword[k],
    ensures
        keeps_line(line, keyword),
{
    assert(line.subrange(at, at + keyword.len()) =~= keyword);
    assert(occurs_at(line, keyword, at));
}

/// Every line is kept for the empty keyword.
pub proof fn lemma_empty_keyword_keeps_every_line(line: Seq<u8>)
    ensures
        keeps_line(line, Seq::<u8>::empty()),
{
}

/// A line kept for a non-empty keyword holds the keyword at some offset.
pub proof fn lemma_kept_line_holds_keyword(line: Seq<u8>, keyword: Seq<u8>)
    requires
        keyword.len() > 0,
        keeps_line(line, keyword),
    ensures
        exists|at: int| occurs_at(line, keyword, at),
{
    let at = choose|at: int| occurs_at(line, keyword, at);
    assert(occurs_at(line, keyword, at));
}

} // verus!
