//! Indexing, slicing and splicing of UTF-8 text held as bytes: a span
//! description is resolved eagerly against the text — checking bounds and
//! char boundaries — before a single output byte is produced.

use vstd::prelude::*;
use crate::TextError;
use crate::search::{is_boundary, is_char_boundary, starts_on_char};
use crate::replace::push_bytes;
use vstd::slice::{slice_subrange, slice_to_vec};

verus! {

/// A span description over a subject text: a single char position, one of
/// the range forms, or the full text.
#[derive(Clone, Copy, Debug, PartialEq, Eq, Structural)]
pub enum IndexSpec {
    /// The starting byte offset of one char; the span covers that char only.
    Single(usize),
    /// A half-open span `[a, b)`.
    Range(usize, usize),
    /// An open-ended span `[a, len)`.
    RangeFrom(usize),
    /// An open-start span `[0, b)`.
    RangeTo(usize),
    /// A closed span `[a, b]`, covering the byte at `b`.
    RangeInclusive(usize, usize),
    /// A closed-end span `[0, b]`.
    RangeToInclusive(usize),
    /// The whole text.
    Full,
}

/// The first char boundary strictly after `p`, at most `t.len()`.
pub open spec fn next_boundary_spec(t: Seq<u8>, p: int) -> int
    decreases t.len() - p,
    when 0 <= p < t.len()
{
    if is_boundary(t, p + 1) {
        p + 1
    } else {
        next_boundary_spec(t, p + 1)
    }
}

/// The next boundary lies strictly after `p`, within the text, and is a
/// char boundary.
pub proof fn lemma_next_boundary(t: Seq<u8>, p: int)
    requires
        0 <= p < t.len(),
    ensures
        p < next_boundary_spec(t, p) <= t.len(),
        is_boundary(t, next_boundary_spec(t, p)),
    decreases t.len() - p,
{
    if !is_boundary(t, p + 1) {
        lemma_next_boundary(t, p + 1);
    }
}

/// A scan that stopped at the first boundary after `p` found the next
/// boundary.
proof fn lemma_next_boundary_char(t: Seq<u8>, p: int, q: int)
    requires
        0 <= p < q <= t.len(),
        is_boundary(t, q),
        forall|j: int| p < j < q ==> !is_boundary(t, j),
    ensures
        next_boundary_spec(t, p) == q,
    decreases q - p,
{
    if p + 1 < q {
        lemma_next_boundary_char(t, p + 1, q);
    }
}

/// A concrete span `[start, end)`, accepted only when it lies inside the
/// text with both endpoints on char boundaries; never clamped.
pub open spec fn checked_span(t: Seq<u8>, a: int, b: int) -> Option<(int, int)> {
    if 0 <= a <= b <= t.len() && is_boundary(t, a) && is_boundary(t, b) {
        Some((a, b))
    } else {
        None
    }
}

/// Normalizes a span description to a concrete `(start, end)` byte-offset
/// pair over `t`, or `None` when it is out of range or off a char boundary.
pub open spec fn resolve_spec(t: Seq<u8>, s: IndexSpec) -> Option<(int, int)> {
    match s {
        IndexSpec::Single(p) => if p < t.len() && is_boundary(t, p as int) {
            Some((p as int, next_boundary_spec(t, p as int)))
        } else {
            None
        },
        IndexSpec::Range(a, b) => checked_span(t, a as int, b as int),
        IndexSpec::RangeFrom(a) => checked_span(t, a as int, t.len() as int),
        IndexSpec::RangeTo(b) => checked_span(t, 0, b as int),
        IndexSpec::RangeInclusive(a, b) => checked_span(t, a as int, b + 1),
        IndexSpec::RangeToInclusive(b) => checked_span(t, 0, b + 1),
        IndexSpec::Full => checked_span(t, 0, t.len() as int),
    }
}

/// Every resolved span is ordered and bounded by the text, with both
/// endpoints on char boundaries.
pub proof fn lemma_resolve_spec_valid(t: Seq<u8>, s: IndexSpec)
    ensures
        resolve_spec(t, s) matches Some(se) ==> 0 <= se.0 <= se.1 <= t.len() && is_boundary(t, se.0)
            && is_boundary(t, se.1),
{
    if let IndexSpec::Single(p) = s {
        if p < t.len() && is_boundary(t, p as int) {
            lemma_next_boundary(t, p as int);
        }
    }
}

/// Checks an explicit span against the text.
fn check_span(text: &[u8], a: usize, b: usize) -> (r: Option<(usize, usize)>)
    ensures
        match r {
            Some(se) => checked_span(text@, a as int, b as int) == Some((se.0 as int, se.1 as int)),
            None => checked_span(text@, a as int, b as int) is None,
        },
{
    if a <= b && b <= text.len() && is_char_boundary(text, a) && is_char_boundary(text, b) {
        Some((a, b))
    } else {
        None
    }
}

/// Resolves a span description against `text`; eager validation, performed
/// before any buffer is touched.
pub fn resolve_index_spec(text: &[u8], spec: &IndexSpec) -> (r: Option<(usize, usize)>)
    ensures
        match r {
            Some(se) => resolve_spec(text@, *spec) == Some((se.0 as int, se.1 as int)),
            None => resolve_spec(text@, *spec) is None,
        },
{
    match spec {
        IndexSpec::Single(p) => {
            let p = *p;
            if p < text.len() && is_char_boundary(text, p) {
                let n = text.len();
                let mut q: usize = p + 1;
                while q < n && !is_char_boundary(text, q)
                    invariant
                        n == text@.len(),
                        p < q <= n,
                        forall|j: int| p < j < q ==> !is_boundary(text@, j),
                    decreases n - q,
                {
                    q += 1;
                }
                proof {
                    lemma_next_boundary_char(text@, p as int, q as int);
                }
                Some((p, q))
            } else {
                None
            }
        },
        IndexSpec::Range(a, b) => check_span(text, *a, *b),
        IndexSpec::RangeFrom(a) => check_span(text, *a, text.len()),
        IndexSpec::RangeTo(b) => check_span(text, 0, *b),
        IndexSpec::RangeInclusive(a, b) => {
            if *b >= text.len() {
                None
            } else {
                check_span(text, *a, *b + 1)
            }
        },
        IndexSpec::RangeToInclusive(b) => {
            if *b >= text.len() {
                None
            } else {
                check_span(text, 0, *b + 1)
            }
        },
        IndexSpec::Full => check_span(text, 0, text.len()),
    }
}

/// A subject text split into the three contiguous regions around a resolved
/// span: the bytes before it, the span itself, and the bytes after it.
pub struct DecomposedString {
    pub prefix: Vec<u8>,
    pub middle: Vec<u8>,
    pub suffix: Vec<u8>,
}

/// Splits `text` at the resolved span `[start, end)`.
pub fn decompose(text: &[u8], start: usize, end: usize) -> (r: DecomposedString)
    requires
        start <= end <= text@.len(),
    ensures
        r.prefix@ == text@.subrange(0, start as int),
        r.middle@ == text@.subrange(start as int, end as int),
        r.suffix@ == text@.subrange(end as int, text@.len() as int),
{
    DecomposedString {
        prefix: slice_to_vec(slice_subrange(text, 0, start)),
        middle: slice_to_vec(slice_subrange(text, start, end)),
        suffix: slice_to_vec(slice_subrange(text, end, text.len())),
    }
}

/// The whole new text and the excised span returned by a splice.
pub struct SplicedStr {
    pub output: Vec<u8>,
    pub removed: Vec<u8>,
}

/// What indexing is owed on each input: the resolved span's bytes, or a
/// span failure.
pub open spec fn index_result(t: Seq<u8>, s: IndexSpec) -> Result<Seq<u8>, TextError> {
    match resolve_spec(t, s) {
        Some(se) => Ok(t.subrange(se.0, se.1)),
        None => Err(TextError::InvalidSpan),
    }
}

/// What the non-fatal lookup is owed on each input: the resolved span's
/// bytes, or an absent marker.
pub open spec fn get_result(t: Seq<u8>, s: IndexSpec) -> Option<Seq<u8>> {
    match resolve_spec(t, s) {
        Some(se) => Some(t.subrange(se.0, se.1)),
        None => None,
    }
}

/// Returns the span of `text` selected by `spec`; fails when the span does
/// not resolve.
pub fn str_index(text: &[u8], spec: &IndexSpec) -> (r: Result<Vec<u8>, TextError>)
    ensures
        match r {
            Ok(v) => index_result(text@, *spec) == Ok::<Seq<u8>, TextError>(v@),
            Err(e) => index_result(text@, *spec) == Err::<Seq<u8>, TextError>(e),
        },
{
    match resolve_index_spec(text, spec) {
        Some((start, end)) => {
            proof {
                lemma_resolve_spec_valid(text@, *spec);
            }
            let d = decompose(text, start, end);
            Ok(d.middle)
        },
        None => Err(TextError::InvalidSpan),
    }
}

/// The non-fatal variant of `str_index`: identical on success, absent —
/// rather than failing — when the span does not resolve.
pub fn str_get(text: &[u8], spec: &IndexSpec) -> (r: Option<Vec<u8>>)
    ensures
        match r {
            Some(v) => get_result(text@, *spec) == Some(v@),
            None => get_result(text@, *spec) is None,
        },
{
    match resolve_index_spec(text, spec) {
        Some((start, end)) => {
            proof {
                lemma_resolve_spec_valid(text@, *spec);
            }
            let d = decompose(text, start, end);
            Some(d.middle)
        },
        None => None,
    }
}

/// `str_index` and `str_get` agree everywhere: both are answered by the one
/// span resolver, so whenever indexing succeeds the lookup holds the
/// identical value, and whenever indexing fails the lookup is absent.
pub proof fn lemma_index_get_agree(t: Seq<u8>, s: IndexSpec)
    ensures
        index_result(t, s) is Ok <==> get_result(t, s) is Some,
        index_result(t, s) matches Ok(v) ==> get_result(t, s) == Some(v),
        index_result(t, s) is Err ==> get_result(t, s) is None,
{
}

/// Replaces the span of `text` selected by `spec` with `replace_with`,
/// returning both the new whole text and the removed span; fails when the
/// span does not resolve.
pub fn str_splice(text: &[u8], spec: &IndexSpec, replace_with: &[u8]) -> (r: Result<
    SplicedStr,
    TextError,
>)
    ensures
        match r {
            Ok(sp) => resolve_spec(text@, *spec) matches Some(se) && sp.output@ == text@.subrange(
                0,
                se.0,
            ) + replace_with@ + text@.subrange(se.1, text@.len() as int) && sp.removed@
                == text@.subrange(se.0, se.1),
            Err(e) => resolve_spec(text@, *spec) is None && e == TextError::InvalidSpan,
        },
{
    match resolve_index_spec(text, spec) {
        Some((start, end)) => {
            proof {
                lemma_resolve_spec_valid(text@, *spec);
            }
            let d = decompose(text, start, end);
            let mut output = d.prefix;
            push_bytes(&mut output, replace_with);
            push_bytes(&mut output, d.suffix.as_slice());
            Ok(SplicedStr { output, removed: d.middle })
        },
        None => Err(TextError::InvalidSpan),
    }
}

/// Splicing, then re-splicing the removed text back at the same resolved
/// span of the output, reproduces the original text exactly.  The span is
/// the one the first splice resolved; subject and replacement must begin on
/// a char boundary (as any valid UTF-8 text does) so that the span of the
/// output resolves again.
pub proof fn lemma_splice_round_trip(t: Seq<u8>, start: usize, end: usize, r: Seq<u8>)
    requires
        start <= end <= t.len(),
        is_boundary(t, start as int),
        is_boundary(t, end as int),
        starts_on_char(t),
        starts_on_char(r),
        start + r.len() <= usize::MAX,
    ensures
        ({
            let output = t.subrange(0, start as int) + r + t.subrange(end as int, t.len() as int);
            let removed = t.subrange(start as int, end as int);
            &&& resolve_spec(output, IndexSpec::Range(start, (start + r.len()) as usize)) == Some(
                (start as int, start + r.len()),
            )
            &&& output.subrange(0, start as int) + removed + output.subrange(
                start + r.len(),
                output.len() as int,
            ) == t
        }),
{
    let output = t.subrange(0, start as int) + r + t.subrange(end as int, t.len() as int);
    let removed = t.subrange(start as int, end as int);
    let m = start + r.len();
    assert(output.len() == start + r.len() + (t.len() - end));
    if 0 < start < output.len() {
        if r.len() > 0 {
            assert(output[start as int] == r[0]);
        } else {
            assert(end < t.len());
            assert(output[start as int] == t[end as int]);
        }
    }
    assert(is_boundary(output, start as int));
    if 0 < m < output.len() {
        assert(end < t.len());
        assert(output[m as int] == t[end as int]);
    }
    assert(is_boundary(output, m as int));
    assert(output.subrange(0, start as int) =~= t.subrange(0, start as int));
    assert(output.subrange(m as int, output.len() as int) =~= t.subrange(
        end as int,
        t.len() as int,
    ));
    assert(output.subrange(0, start as int) + removed + output.subrange(
        m as int,
        output.len() as int,
    ) =~= t);
}

} // verus!
