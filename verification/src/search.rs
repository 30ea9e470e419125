//! Byte-level substring search and UTF-8 char-boundary validation.

use vstd::prelude::*;

verus! {

/// True when `needle` occurs in `haystack` as a contiguous subsequence
/// starting exactly at offset `i`.
pub open spec fn matches_at(haystack: Seq<u8>, needle: Seq<u8>, i: int) -> bool {
    0 <= i && i + needle.len() <= haystack.len() && haystack.subrange(
        i,
        i + needle.len(),
    ) == needle
}

/// The lowest offset `>= from` at which `needle` occurs in `haystack`,
/// or `None` when there is no such offset.  An empty needle never matches.
pub open spec fn find_spec(haystack: Seq<u8>, needle: Seq<u8>, from: int) -> Option<int>
    decreases haystack.len() - from,
{
    if needle.len() == 0 {
        None
    } else if from + needle.len() > haystack.len() {
        None
    } else if matches_at(haystack, needle, from) {
        Some(from)
    } else {
        find_spec(haystack, needle, from + 1)
    }
}

/// A found match is the first one: no offset in `[from, i)` matches.
pub proof fn lemma_find_spec_found(haystack: Seq<u8>, needle: Seq<u8>, from: int, i: int)
    requires
        0 <= from <= i,
        needle.len() > 0,
        matches_at(haystack, needle, i),
        forall|j: int| from <= j < i ==> !matches_at(haystack, needle, j),
    ensures
        find_spec(haystack, needle, from) == Some(i),
    decreases i - from,
{
    if from < i {
        lemma_find_spec_found(haystack, needle, from + 1, i);
    }
}

/// When no offset `>= from` matches, the search comes back empty.
pub proof fn lemma_find_spec_none(haystack: Seq<u8>, needle: Seq<u8>, from: int)
    requires
        0 <= from,
        forall|j: int| from <= j ==> !matches_at(haystack, needle, j),
    ensures
        find_spec(haystack, needle, from) is None,
    decreases haystack.len() - from,
{
    if needle.len() != 0 && from + needle.len() <= haystack.len() {
        lemma_find_spec_none(haystack, needle, from + 1);
    }
}

/// Every match returned by the search lies at or after `from`, fits inside
/// the haystack, and is the leftmost match.
pub proof fn lemma_find_spec_some(haystack: Seq<u8>, needle: Seq<u8>, from: int, i: int)
    requires
        0 <= from,
        find_spec(haystack, needle, from) == Some(i),
    ensures
        from <= i,
        matches_at(haystack, needle, i),
        needle.len() > 0,
        forall|j: int| from <= j < i ==> !matches_at(haystack, needle, j),
    decreases haystack.len() - from,
{
    if needle.len() == 0 || from + needle.len() > haystack.len() {
    } else if matches_at(haystack, needle, from) {
    } else {
        lemma_find_spec_some(haystack, needle, from + 1, i);
    }
}

/// Compares `needle` against the bytes of `haystack` starting at `i`.
fn match_at(haystack: &[u8], needle: &[u8], i: usize) -> (r: bool)
    requires
        i + needle@.len() <= haystack@.len(),
    ensures
        r == matches_at(haystack@, needle@, i as int),
{
    let n = needle.len();
    let hlen = haystack.len();
    let mut j: usize = 0;
    while j < n
        invariant
            n == needle@.len(),
            hlen == haystack@.len(),
            i + n <= haystack@.len(),
            0 <= j <= n,
            forall|k: int| 0 <= k < j ==> haystack@[i + k] == needle@[k],
        decreases n - j,
    {
        if haystack[i + j] != needle[j] {
            assert(haystack@.subrange(i as int, i + needle@.len())[j as int] != needle@[j as int]);
            return false;
        }
        j += 1;
    }
    assert(haystack@.subrange(i as int, i + needle@.len()) =~= needle@);
    true
}

/// Returns the lowest byte offset `>= from` at which `needle` occurs as a
/// contiguous subsequence of `haystack`, or `None` when it does not occur.
/// An empty needle is reported as absent; callers treat empty patterns
/// specially.
pub fn bytes_find(haystack: &[u8], needle: &[u8], from: usize) -> (r: Option<usize>)
    ensures
        match r {
            Some(i) => find_spec(haystack@, needle@, from as int) == Some(i as int),
            None => find_spec(haystack@, needle@, from as int) is None,
        },
{
    if needle.len() == 0 || needle.len() > haystack.len() {
        return None;
    }
    let last = haystack.len() - needle.len();
    if from > last {
        return None;
    }
    let mut i = from;
    while i <= last
        invariant
            needle@.len() > 0,
            haystack@.len() <= usize::MAX,
            last == haystack@.len() - needle@.len(),
            from <= i <= last + 1,
            forall|j: int| from <= j < i ==> !matches_at(haystack@, needle@, j),
        decreases last + 1 - i,
    {
        if match_at(haystack, needle, i) {
            proof {
                lemma_find_spec_found(haystack@, needle@, from as int, i as int);
            }
            return Some(i);
        }
        i += 1;
    }
    proof {
        lemma_find_spec_none(haystack@, needle@, from as int);
    }
    None
}

/// True iff `i` is `0`, the length of `text`, or the offset of a byte that is
/// not a UTF-8 continuation byte (top two bits `10`).
pub open spec fn is_boundary(text: Seq<u8>, i: int) -> bool {
    i == 0 || i == text.len() || (0 < i < text.len() && !(0x80 <= text[i] < 0xc0))
}

/// True when `s` is empty or begins with a byte that starts a char — as
/// every valid UTF-8 sequence does.
pub open spec fn starts_on_char(s: Seq<u8>) -> bool {
    s.len() == 0 || !(0x80 <= s[0] < 0xc0)
}

/// Char-boundary test over UTF-8 text held as bytes.
pub fn is_char_boundary(text: &[u8], i: usize) -> (r: bool)
    ensures
        r == is_boundary(text@, i as int),
{
    if i == 0 || i == text.len() {
        true
    } else if i < text.len() {
        let b = text[i];
        !(b >= 0x80 && b < 0xc0)
    } else {
        false
    }
}

} // verus!
