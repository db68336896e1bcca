//! String reversal, two ways: by peeling one-character slices off the back,
//! and by collecting the characters first and reading them out backwards.
//! Either way the result holds the input's characters in opposite order.

use vstd::prelude::*;
use vstd::string::StrSliceExecFns;
use vstd::string::StringExecFns;

verus! {

/// Reverses `s` by appending its one-character substrings back to front.
pub fn reverse_a(s: &str) -> (r: String)
    ensures
        r@ == s@.reverse(),
{
    let n = s.unicode_len();
    let mut out = String::new();
    let mut i: usize = n;
    while i > 0
        invariant
            i <= n,
            n == s@.len(),
            out@.len() == n - i,
            forall|k: int| 0 <= k < out@.len() ==> out@[k] == s@[n - 1 - k],
        decreases i,
    {
        i = i - 1;
        let piece = s.substring_char(i, i + 1);
        out.append(piece);
    }
    proof {
        assert(out@ =~= s@.reverse());
    }
    out
}

/// Relies on `String: FromIterator<char>`: collecting characters yields the
/// string made of exactly those characters in order.
#[verifier::external_body]
fn string_from_chars(v: &Vec<char>) -> (r: String)
    ensures
        r@ == v@,
{
    v.iter().copied().collect()
}

/// Reverses `s` by collecting its characters and reading them out backwards.
pub fn reverse_b(s: &str) -> (r: String)
    ensures
        r@ == s@.reverse(),
{
    let n = s.unicode_len();
    let mut chars: Vec<char> = Vec::new();
    let mut i: usize = 0;
    while i < n
        invariant
            i <= n,
            n == s@.len(),
            chars@.len() == i,
            forall|k: int| 0 <= k < i ==> chars@[k] == s@[k],
        decreases n - i,
    {
        chars.push(s.get_char(i));
        i = i + 1;
    }
    let mut rev_string: Vec<char> = Vec::new();
    let mut k: usize = n;
    while k > 0
        invariant
            k <= n,
            n == s@.len(),
            chars@.len() == n,
            forall|j: int| 0 <= j < n ==> chars@[j] == s@[j],
            rev_string@.len() == n - k,
            forall|j: int| 0 <= j < rev_string@.len() ==> rev_string@[j] == s@[n - 1 - j],
        decreases k,
    {
        k = k - 1;
        rev_string.push(chars[k]);
    }
    proof {
        assert(rev_string@ =~= s@.reverse());
    }
    string_from_chars(&rev_string)
}

} // verus!
