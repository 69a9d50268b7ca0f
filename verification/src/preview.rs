//! Session previews: the first user-authored message, shortened for display.
use vstd::prelude::*;

use crate::chars::{chars_str, str_chars};

verus! {

/// Previews keep at most this many Unicode scalar values.
pub const PREVIEW_LIMIT: usize = 50;

/// The first `PREVIEW_LIMIT` scalar values of `s`: truncation acts on
/// characters, never inside one.
pub open spec fn crop(s: Seq<char>) -> Seq<char> {
    if s.len() <= PREVIEW_LIMIT {
        s
    } else {
        s.take(PREVIEW_LIMIT as int)
    }
}

/// Truncates a preview to at most `PREVIEW_LIMIT` scalar values.
pub fn truncate_preview(s: &str) -> (r: String)
    ensures
        r@ == crop(s@),
{
    let cs = str_chars(s);
    if cs.len() <= PREVIEW_LIMIT {
        proof {
            assert(cs@ =~= crop(s@));
        }
        chars_str(&cs)
    } else {
        let mut out: Vec<char> = Vec::new();
        let mut i: usize = 0;
        while i < PREVIEW_LIMIT
            invariant
                i <= PREVIEW_LIMIT < cs@.len(),
                cs@ == s@,
                out@ =~= s@.take(i as int),
            decreases PREVIEW_LIMIT - i,
        {
            out.push(cs[i]);
            i = i + 1;
        }
        chars_str(&out)
    }
}

/// Truncation never yields more than `PREVIEW_LIMIT` scalar values, is a
/// prefix of the original (so it cannot split or alter any character), and
/// is idempotent: an already-short string passes through unchanged.
pub proof fn lemma_crop_properties(s: Seq<char>)
    ensures
        crop(s).len() <= PREVIEW_LIMIT,
        crop(s) =~= s.take(crop(s).len() as int),
        s.len() <= PREVIEW_LIMIT ==> crop(s) == s,
        crop(crop(s)) == crop(s),
{
    assert(crop(s) =~= s.take(crop(s).len() as int));
}

} // verus!
