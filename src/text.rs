//! Small helpers on text: keyword matching that ignores ASCII case.

use vstd::prelude::*;

verus! {

/// `c` equals the lowercase ASCII keyword character `k`, ignoring ASCII case.
pub open spec fn char_matches_lower(c: char, k: char) -> bool {
    c == k || ('a' <= k && k <= 'z' && (c as u32) + 32 == (k as u32))
}

/// `s` spells the lowercase ASCII keyword `kw`, ignoring ASCII case.
pub open spec fn matches_keyword(s: Seq<char>, kw: Seq<char>) -> bool {
    s.len() == kw.len() && forall|i: int| 0 <= i < s.len() ==> char_matches_lower(#[trigger] s[i], kw[i])
}

/// Compares `s` with the lowercase ASCII keyword `kw`, ignoring ASCII case.
pub fn keyword_is(s: &str, kw: &str) -> (r: bool)
    ensures
        r == matches_keyword(s@, kw@),
{
    let n = s.unicode_len();
    if n != kw.unicode_len() {
        return false;
    }
    let mut i: usize = 0;
    while i < n
        invariant
            n == s@.len(),
            n == kw@.len(),
            i <= n,
            forall|j: int| 0 <= j < i ==> char_matches_lower(#[trigger] s@[j], kw@[j]),
        decreases n - i,
    {
        let c = s.get_char(i);
        let k = kw.get_char(i);
        let same = c == k || ('a' <= k && k <= 'z' && (c as u32) + 32 == (k as u32));
        if !same {
            return false;
        }
        i = i + 1;
    }
    true
}

} // verus!
