//! Pattern replacement over UTF-8 text held as bytes, split into an exact
//! length computation and a write step that together form one two-pass edit.

use vstd::prelude::*;
use vstd::string::StringSliceAdditionalSpecFns;
use crate::search::{bytes_find, find_spec, lemma_find_spec_some, matches_at};

verus! {

/// An ASCII byte value, guaranteed below 128.
#[derive(Clone, Copy)]
pub struct AsciiByte {
    byte: u8,
}

impl AsciiByte {
    /// Every `AsciiByte` holds an ASCII value; violating this is a
    /// construction-time error.
    #[verifier::type_invariant]
    pub closed spec fn inv(self) -> bool {
        self.byte < 128
    }

    pub closed spec fn spec_get(self) -> u8 {
        self.byte
    }

    pub fn new(byte: u8) -> (r: AsciiByte)
        requires
            byte < 128,
        ensures
            r.spec_get() == byte,
    {
        AsciiByte { byte }
    }

    pub fn get(self) -> (r: u8)
        ensures
            r == self.spec_get(),
            r < 128,
    {
        proof {
            use_type_invariant(self);
        }
        self.byte
    }
}

/// A replacement site description: either a single ASCII byte value or a
/// literal byte sequence.
pub enum ReplaceInput<'a> {
    AsciiByte(AsciiByte),
    Str(&'a [u8]),
}

/// Mathematical form of a `ReplaceInput`.
pub enum ReplacePattern {
    Byte(u8),
    Bytes(Seq<u8>),
}

impl<'a> View for ReplaceInput<'a> {
    type V = ReplacePattern;

    open spec fn view(&self) -> ReplacePattern {
        match self {
            ReplaceInput::AsciiByte(a) => ReplacePattern::Byte(a.spec_get()),
            ReplaceInput::Str(s) => ReplacePattern::Bytes(s@),
        }
    }
}

/// Conversion helper that turns either pattern form into a `ReplaceInput`.
pub struct ReplaceInputConv<T>(pub T);

impl ReplaceInputConv<u8> {
    /// The byte form: accepted only for ASCII values.
    pub fn conv(self) -> (r: ReplaceInput<'static>)
        requires
            self.0 < 128,
        ensures
            r@ == ReplacePattern::Byte(self.0),
    {
        ReplaceInput::AsciiByte(AsciiByte::new(self.0))
    }
}

impl<'a> ReplaceInputConv<&'a str> {
    /// The string form, viewed as its UTF-8 bytes.
    pub fn conv(self) -> (r: ReplaceInput<'a>)
        ensures
            r@ == ReplacePattern::Bytes(self.0.spec_bytes()),
    {
        ReplaceInput::Str(self.0.as_bytes())
    }
}

/// Replacement of every byte equal to `byte` by `rep`, all other bytes kept.
pub open spec fn byte_replace_spec(inp: Seq<u8>, byte: u8, rep: Seq<u8>) -> Seq<u8>
    decreases inp.len(),
{
    if inp.len() == 0 {
        Seq::empty()
    } else {
        byte_replace_spec(inp.drop_last(), byte, rep) + (if inp.last() == byte {
            rep
        } else {
            seq![inp.last()]
        })
    }
}

/// Replacement of the leftmost non-overlapping occurrences of `pat` by `rep`
/// in `inp[i..]`: each unmatched gap is kept verbatim, each match is replaced,
/// and the tail after the last match is kept verbatim.
pub open spec fn str_replace_from(inp: Seq<u8>, pat: Seq<u8>, rep: Seq<u8>, i: int) -> Seq<u8>
    decreases inp.len() - i,
    when 0 <= i && pat.len() > 0
    via str_replace_from_decreases
{
    match find_spec(inp, pat, i) {
        None => inp.subrange(i, inp.len() as int),
        Some(m) => inp.subrange(i, m) + rep + str_replace_from(inp, pat, rep, m + pat.len()),
    }
}

#[via_fn]
proof fn str_replace_from_decreases(inp: Seq<u8>, pat: Seq<u8>, rep: Seq<u8>, i: int) {
    match find_spec(inp, pat, i) {
        Some(m) => lemma_find_spec_some(inp, pat, i, m),
        None => {},
    }
}

/// The full replacement result.  An empty string pattern leaves the input
/// unchanged; a byte pattern maps each byte independently.
pub open spec fn replace_spec(inp: Seq<u8>, r: ReplacePattern, rep: Seq<u8>) -> Seq<u8> {
    match r {
        ReplacePattern::Byte(b) => byte_replace_spec(inp, b, rep),
        ReplacePattern::Bytes(pat) => if pat.len() == 0 {
            inp
        } else {
            str_replace_from(inp, pat, rep, 0)
        },
    }
}

/// One step of the byte-pattern replacement, phrased over a growing prefix.
proof fn lemma_byte_replace_extend(inp: Seq<u8>, byte: u8, rep: Seq<u8>, i: int)
    requires
        0 <= i < inp.len(),
    ensures
        byte_replace_spec(inp.take(i + 1), byte, rep) == byte_replace_spec(
            inp.take(i),
            byte,
            rep,
        ) + (if inp[i] == byte {
            rep
        } else {
            seq![inp[i]]
        }),
{
    assert(inp.take(i + 1).drop_last() =~= inp.take(i));
    assert(inp.take(i + 1).last() == inp[i]);
}

/// The replacement of a prefix is never longer than the replacement of a
/// longer prefix.
proof fn lemma_byte_replace_prefix_le(inp: Seq<u8>, byte: u8, rep: Seq<u8>, i: int, j: int)
    requires
        0 <= i <= j <= inp.len(),
    ensures
        byte_replace_spec(inp.take(i), byte, rep).len() <= byte_replace_spec(
            inp.take(j),
            byte,
            rep,
        ).len(),
    decreases j - i,
{
    if i < j {
        lemma_byte_replace_extend(inp, byte, rep, j - 1);
        lemma_byte_replace_prefix_le(inp, byte, rep, i, j - 1);
    }
}

/// Exact output length of the replacement described by `r`: the length the
/// write step is trusted to fill exactly.
pub fn str_replace_length(inp: &[u8], r: &ReplaceInput<'_>, replaced_with: &[u8]) -> (out_len:
    usize)
    requires
        replace_spec(inp@, r@, replaced_with@).len() <= usize::MAX,
    ensures
        out_len == replace_spec(inp@, r@, replaced_with@).len(),
{
    let replaced_len = replaced_with.len();
    let n = inp.len();
    match r {
        ReplaceInput::AsciiByte(byte) => {
            let byte = byte.get();
            let mut out_len: usize = 0;
            let mut i: usize = 0;
            while i < n
                invariant
                    n == inp@.len(),
                    replaced_len == replaced_with@.len(),
                    0 <= i <= n,
                    out_len == byte_replace_spec(inp@.take(i as int), byte, replaced_with@).len(),
                    byte_replace_spec(inp@, byte, replaced_with@).len() <= usize::MAX,
                decreases n - i,
            {
                proof {
                    lemma_byte_replace_extend(inp@, byte, replaced_with@, i as int);
                    lemma_byte_replace_prefix_le(inp@, byte, replaced_with@, i + 1, n as int);
                    assert(inp@.take(n as int) =~= inp@);
                }
                if inp[i] == byte {
                    out_len += replaced_len;
                } else {
                    out_len += 1;
                }
                i += 1;
            }
            proof {
                assert(inp@.take(n as int) =~= inp@);
            }
            out_len
        },
        ReplaceInput::Str(pat) => {
            if pat.len() == 0 {
                return n;
            }
            let pat_len = pat.len();
            let mut out_len: usize = 0;
            let mut i: usize = 0;
            loop
                invariant
                    n == inp@.len(),
                    pat_len == pat@.len(),
                    pat_len > 0,
                    replaced_len == replaced_with@.len(),
                    0 <= i <= n,
                    replace_spec(inp@, r@, replaced_with@).len() <= usize::MAX,
                    replace_spec(inp@, r@, replaced_with@).len() == out_len + str_replace_from(
                        inp@,
                        pat@,
                        replaced_with@,
                        i as int,
                    ).len(),
                ensures
                    find_spec(inp@, pat@, i as int) is None,
                    0 <= i <= n,
                    replace_spec(inp@, r@, replaced_with@).len() == out_len + str_replace_from(
                        inp@,
                        pat@,
                        replaced_with@,
                        i as int,
                    ).len(),
                decreases n - i,
            {
                match bytes_find(inp, pat, i) {
                    Some(next_match) => {
                        proof {
                            lemma_find_spec_some(inp@, pat@, i as int, next_match as int);
                        }
                        out_len += (next_match - i) + replaced_len;
                        i = next_match + pat_len;
                    },
                    None => {
                        break ;
                    },
                }
            }
            out_len + (n - i)
        },
    }
}

/// Appends every byte of `src` to `out`.
pub(crate) fn push_bytes(out: &mut Vec<u8>, src: &[u8])
    ensures
        final(out)@ == old(out)@ + src@,
{
    let n = src.len();
    let mut j: usize = 0;
    while j < n
        invariant
            n == src@.len(),
            0 <= j <= n,
            out@ == old(out)@ + src@.take(j as int),
        decreases n - j,
    {
        out.push(src[j]);
        proof {
            assert(old(out)@ + src@.take(j + 1) =~= (old(out)@ + src@.take(j as int)).push(
                src@[j as int],
            ));
        }
        j += 1;
    }
    proof {
        assert(src@.take(n as int) =~= src@);
    }
}

/// The write step of the replacement: emits, into a fresh buffer, exactly the
/// bytes whose count `str_replace_length` computed.  `length` is that count.
pub fn str_replace(inp: &[u8], r: &ReplaceInput<'_>, replaced_with: &[u8], length: usize) -> (out:
    Vec<u8>)
    requires
        length == replace_spec(inp@, r@, replaced_with@).len(),
    ensures
        out@ == replace_spec(inp@, r@, replaced_with@),
        out@.len() == length,
{
    let n = inp.len();
    let mut out: Vec<u8> = Vec::new();
    match r {
        ReplaceInput::AsciiByte(byte) => {
            let byte = byte.get();
            let mut i: usize = 0;
            while i < n
                invariant
                    n == inp@.len(),
                    0 <= i <= n,
                    out@ == byte_replace_spec(inp@.take(i as int), byte, replaced_with@),
                decreases n - i,
            {
                proof {
                    lemma_byte_replace_extend(inp@, byte, replaced_with@, i as int);
                }
                if inp[i] == byte {
                    push_bytes(&mut out, replaced_with);
                } else {
                    out.push(inp[i]);
                    proof {
                        assert(seq![inp@[i as int]] =~= Seq::empty().push(inp@[i as int]));
                    }
                }
                i += 1;
            }
            proof {
                assert(inp@.take(n as int) =~= inp@);
            }
            out
        },
        ReplaceInput::Str(pat) => {
            if pat.len() == 0 {
                push_bytes(&mut out, inp);
                return out;
            }
            let pat_len = pat.len();
            let mut i: usize = 0;
            loop
                invariant
                    n == inp@.len(),
                    pat_len == pat@.len(),
                    pat_len > 0,
                    0 <= i <= n,
                    replace_spec(inp@, r@, replaced_with@) == out@ + str_replace_from(
                        inp@,
                        pat@,
                        replaced_with@,
                        i as int,
                    ),
                ensures
                    find_spec(inp@, pat@, i as int) is None,
                    0 <= i <= n,
                    replace_spec(inp@, r@, replaced_with@) == out@ + str_replace_from(
                        inp@,
                        pat@,
                        replaced_with@,
                        i as int,
                    ),
                decreases n - i,
            {
                match bytes_find(inp, pat, i) {
                    Some(next_match) => {
                        proof {
                            lemma_find_spec_some(inp@, pat@, i as int, next_match as int);
                        }
                        let gap = vstd::slice::slice_subrange(inp, i, next_match);
                        push_bytes(&mut out, gap);
                        push_bytes(&mut out, replaced_with);
                        i = next_match + pat_len;
                    },
                    None => {
                        break ;
                    },
                }
            }
            let tail = vstd::slice::slice_subrange(inp, i, n);
            push_bytes(&mut out, tail);
            proof {
                assert(out@ =~= replace_spec(inp@, r@, replaced_with@));
            }
            out
        },
    }
}

/// Count of the bytes of `inp` equal to `byte`.
pub open spec fn count_byte(inp: Seq<u8>, byte: u8) -> nat
    decreases inp.len(),
{
    if inp.len() == 0 {
        0
    } else {
        count_byte(inp.drop_last(), byte) + (if inp.last() == byte {
            1nat
        } else {
            0nat
        })
    }
}

/// Count of the leftmost non-overlapping occurrences of `pat` in `inp[i..]`.
pub open spec fn count_matches_from(inp: Seq<u8>, pat: Seq<u8>, i: int) -> nat
    decreases inp.len() - i,
    when 0 <= i && pat.len() > 0
    via count_matches_from_decreases
{
    match find_spec(inp, pat, i) {
        None => 0,
        Some(m) => 1 + count_matches_from(inp, pat, m + pat.len()),
    }
}

#[via_fn]
proof fn count_matches_from_decreases(inp: Seq<u8>, pat: Seq<u8>, i: int) {
    match find_spec(inp, pat, i) {
        Some(m) => lemma_find_spec_some(inp, pat, i, m),
        None => {},
    }
}

/// Replacing a byte present `k` times turns an input of `n` bytes into an
/// output of `n - k + k * rep.len()` bytes, stated without subtraction.
pub proof fn lemma_byte_replace_length_formula(inp: Seq<u8>, byte: u8, rep: Seq<u8>)
    ensures
        byte_replace_spec(inp, byte, rep).len() + count_byte(inp, byte) == inp.len() + count_byte(
            inp,
            byte,
        ) * rep.len(),
    decreases inp.len(),
{
    if inp.len() > 0 {
        let head = inp.drop_last();
        assert(head.len() == inp.len() - 1);
        lemma_byte_replace_length_formula(head, byte, rep);
        if inp.last() == byte {
            let k = count_byte(head, byte);
            assert(count_byte(inp, byte) == k + 1);
            assert(byte_replace_spec(inp, byte, rep).len() == byte_replace_spec(
                head,
                byte,
                rep,
            ).len() + rep.len());
            assert((k + 1) * rep.len() == k * rep.len() + rep.len()) by (nonlinear_arith);
            assert(byte_replace_spec(inp, byte, rep).len() + count_byte(inp, byte) == inp.len()
                + count_byte(inp, byte) * rep.len());
        } else {
            assert(count_byte(inp, byte) == count_byte(head, byte));
            assert(byte_replace_spec(inp, byte, rep).len() == byte_replace_spec(
                head,
                byte,
                rep,
            ).len() + 1);
            assert(byte_replace_spec(inp, byte, rep).len() + count_byte(inp, byte) == inp.len()
                + count_byte(inp, byte) * rep.len());
        }
    } else {
        assert(count_byte(inp, byte) == 0);
        assert(byte_replace_spec(inp, byte, rep).len() == 0);
        assert(count_byte(inp, byte) * rep.len() == 0) by (nonlinear_arith)
            requires
                count_byte(inp, byte) == 0,
        ;
    }
}

proof fn lemma_str_replace_length_from(inp: Seq<u8>, pat: Seq<u8>, rep: Seq<u8>, i: int)
    requires
        0 <= i <= inp.len(),
        pat.len() > 0,
    ensures
        str_replace_from(inp, pat, rep, i).len() + count_matches_from(inp, pat, i) * pat.len()
            == inp.len() - i + count_matches_from(inp, pat, i) * rep.len(),
    decreases inp.len() - i,
{
    match find_spec(inp, pat, i) {
        None => {},
        Some(m) => {
            lemma_find_spec_some(inp, pat, i, m);
            lemma_str_replace_length_from(inp, pat, rep, m + pat.len());
            let k = count_matches_from(inp, pat, m + pat.len());
            assert(count_matches_from(inp, pat, i) == k + 1);
            assert(str_replace_from(inp, pat, rep, i).len() == (m - i) + rep.len()
                + str_replace_from(inp, pat, rep, m + pat.len()).len());
            assert((k + 1) * pat.len() == k * pat.len() + pat.len()) by (nonlinear_arith);
            assert((k + 1) * rep.len() == k * rep.len() + rep.len()) by (nonlinear_arith);
        },
    }
}

/// Replacing a string pattern present `k` times (leftmost, non-overlapping)
/// turns an input of `n` bytes into an output of `n - k * pat.len() +
/// k * rep.len()` bytes, stated without subtraction.
pub proof fn lemma_str_replace_length_formula(inp: Seq<u8>, pat: Seq<u8>, rep: Seq<u8>)
    requires
        pat.len() > 0,
    ensures
        replace_spec(inp, ReplacePattern::Bytes(pat), rep).len() + count_matches_from(inp, pat, 0)
            * pat.len() == inp.len() + count_matches_from(inp, pat, 0) * rep.len(),
{
    lemma_str_replace_length_from(inp, pat, rep, 0);
}

/// Replacement with an empty string pattern is the identity, whatever the
/// replacement text.
pub proof fn lemma_replace_empty_pattern(inp: Seq<u8>, rep: Seq<u8>)
    ensures
        replace_spec(inp, ReplacePattern::Bytes(Seq::empty()), rep) == inp,
{
}

} // verus!
