//! Byte searching: the primitives the scanners are built on, and what they mean.
use vstd::prelude::*;

verus! {

/// The byte that ends a line.
pub const NEWLINE: u8 = 10;

/// `needle` occurs in `hay` at position `at`.
pub open spec fn occurs_at(hay: Seq<u8>, needle: Seq<u8>, at: int) -> bool {
    &&& 0 <= at
    &&& at + needle.len() <= hay.len()
    &&& hay.subrange(at, at + needle.len()) == needle
}

/// `needle` occurs somewhere in `hay`.
pub open spec fn contains_bytes(hay: Seq<u8>, needle: Seq<u8>) -> bool {
    exists|at: int| occurs_at(hay, needle, at)
}

/// `found` is the position of the first occurrence of `needle` in `hay`, or `None` when
/// `needle` does not occur in `hay`.
pub open spec fn is_first_occurrence(hay: Seq<u8>, needle: Seq<u8>, found: Option<usize>) -> bool {
    match found {
        Some(at) => {
            &&& occurs_at(hay, needle, at as int)
            &&& forall|j: int| 0 <= j < at ==> !occurs_at(hay, needle, j)
        },
        None => !contains_bytes(hay, needle),
    }
}

/// `found` is the position of the first `byte` in `hay`, or `None` when `hay` holds no `byte`.
pub open spec fn is_first_byte(hay: Seq<u8>, byte: u8, found: Option<usize>) -> bool {
    match found {
        Some(at) => {
            &&& at < hay.len()
            &&& hay[at as int] == byte
            &&& forall|j: int| 0 <= j < at ==> hay[j] != byte
        },
        None => forall|j: int| 0 <= j < hay.len() ==> hay[j] != byte,
    }
}

/// Calls `memchr::memchr`, which returns the index of the first occurrence of `needle`
/// in `haystack`, or `None` when there is none; the contract states exactly that.
#[verifier::external_body]
pub(crate) fn first_byte(needle: u8, haystack: &[u8]) -> (found: Option<usize>)
    ensures
        is_first_byte(haystack@, needle, found),
{
    memchr::memchr(needle, haystack)
}

/// Calls `memchr::memmem::find`, which returns the index of the first occurrence of
/// `needle` in `haystack` (0 for an empty needle), or `None` when there is none; the
/// contract states exactly that.
#[verifier::external_body]
pub(crate) fn memmem_find(haystack: &[u8], needle: &[u8]) -> (found: Option<usize>)
    ensures
        is_first_occurrence(haystack@, needle@, found),
{
    memchr::memmem::find(haystack, needle)
}

/// Calls `twoway::find_bytes`, which returns the index of the first occurrence of
/// `pattern` in `text` (`Some(0)` for an empty pattern), or `None` when there is none;
/// the contract states exactly that.
#[verifier::external_body]
pub(crate) fn twoway_find(text: &[u8], pattern: &[u8]) -> (found: Option<usize>)
    ensures
        is_first_occurrence(text@, pattern@, found),
{
    twoway::find_bytes(text, pattern)
}

/// A needle that occurs in a haystack is no longer than it.
pub proof fn lemma_contained_needle_fits(hay: Seq<u8>, needle: Seq<u8>)
    requires
        contains_bytes(hay, needle),
    ensures
        needle.len() <= hay.len(),
{
    let at = choose|at: int| occurs_at(hay, needle, at);
    assert(occurs_at(hay, needle, at));
}

/// An occurrence of an occurrence is an occurrence: when `inner` occurs in `outer` and
/// `outer` occurs in `hay`, `inner` occurs in `hay`.
pub proof fn lemma_occurrence_transitive(hay: Seq<u8>, outer: Seq<u8>, inner: Seq<u8>)
    requires
        contains_bytes(hay, outer),
        contains_bytes(outer, inner),
    ensures
        contains_bytes(hay, inner),
{
    let i = choose|at: int| occurs_at(hay, outer, at);
    let j = choose|at: int| occurs_at(outer, inner, at);
    assert(occurs_at(hay, outer, i));
    assert(occurs_at(outer, inner, j));
    assert forall|k: int| 0 <= k < inner.len() implies hay.subrange(i + j, i + j + inner.len())[k]
        == inner[k] by {
        assert(hay.subrange(i, i + outer.len())[j + k] == outer[j + k]);
        assert(outer.subrange(j, j + inner.len())[k] == inner[k]);
    }
    assert(hay.subrange(i + j, i + j + inner.len()) =~= inner);
    assert(occurs_at(hay, inner, i + j));
}

} // verus!
