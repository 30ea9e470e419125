//! Repetition of a byte text, with the output size checked before any byte
//! is written.

use vstd::prelude::*;
use crate::TextError;
use crate::replace::push_bytes;

verus! {

/// `n` concatenated copies of `s`.
pub open spec fn repeat_spec(s: Seq<u8>, n: nat) -> Seq<u8>
    decreases n,
{
    if n == 0 {
        Seq::empty()
    } else {
        repeat_spec(s, (n - 1) as nat) + s
    }
}

/// The repeated text is exactly `n` times as long as its template.
pub proof fn lemma_repeat_len(s: Seq<u8>, n: nat)
    ensures
        repeat_spec(s, n).len() == n * s.len(),
    decreases n,
{
    if n == 0 {
        assert(0 * s.len() == 0) by (nonlinear_arith);
    } else {
        lemma_repeat_len(s, (n - 1) as nat);
        assert(n * s.len() == (n - 1) * s.len() + s.len()) by (nonlinear_arith);
    }
}

/// Splitting the repeated text into `n` chunks of `s.len()` bytes each
/// reproduces `s` in every chunk.
pub proof fn lemma_repeat_chunks(s: Seq<u8>, n: nat, i: nat)
    requires
        i < n,
    ensures
        repeat_spec(s, n).subrange(i * s.len() as int, i * s.len() + s.len() as int) == s,
    decreases n,
{
    lemma_repeat_len(s, n);
    lemma_repeat_len(s, (n - 1) as nat);
    let whole = repeat_spec(s, n);
    let head = repeat_spec(s, (n - 1) as nat);
    let lo = i * s.len();
    if i == n - 1 {
        assert(lo == head.len());
        assert(whole.subrange(lo as int, (lo + s.len()) as int) =~= s);
    } else {
        lemma_repeat_chunks(s, (n - 1) as nat, i);
        assert(lo + s.len() <= head.len()) by (nonlinear_arith)
            requires
                i + 1 <= n - 1,
                lo == i * s.len(),
                head.len() == (n - 1) * s.len(),
        ;
        assert(whole.subrange(lo as int, (lo + s.len()) as int) =~= head.subrange(lo as int, (lo + s.len()) as int));
    }
}

/// Produces `times` concatenated copies of `text`, or fails — without
/// wrapping — when the exact output length `text.len() * times` does not fit
/// the platform's size representation.
pub fn str_repeat(text: &[u8], times: usize) -> (r: Result<Vec<u8>, TextError>)
    ensures
        match r {
            Ok(v) => text@.len() * times <= usize::MAX && v@ == repeat_spec(text@, times as nat),
            Err(e) => e == TextError::LengthOverflow && text@.len() * times > usize::MAX,
        },
{
    let len = text.len();
    if len.checked_mul(times).is_none() {
        return Err(TextError::LengthOverflow);
    }
    let mut out: Vec<u8> = Vec::new();
    let mut k: usize = 0;
    while k < times
        invariant
            0 <= k <= times,
            out@ == repeat_spec(text@, k as nat),
        decreases times - k,
    {
        push_bytes(&mut out, text);
        k += 1;
    }
    Ok(out)
}

} // verus!
