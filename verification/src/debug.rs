//! Whether tracing is wanted, as the `DEBUG` variable of the environment
//! tells it.

use vstd::prelude::*;
use vstd::utf8::encode_utf8;
use crate::text::bytes_equal;

verus! {

/// `needle` stands in `haystack` at position `i`.
pub open spec fn occurs_at(needle: Seq<u8>, haystack: Seq<u8>, i: int) -> bool {
    0 <= i && i + needle.len() <= haystack.len() && haystack.subrange(i, i + needle.len())
        == needle
}

/// `needle` stands somewhere in `haystack`.
pub open spec fn occurs_in(needle: Seq<u8>, haystack: Seq<u8>) -> bool {
    exists|i: int| occurs_at(needle, haystack, i)
}

/// Whether `needle` stands somewhere in `haystack`.
pub fn bytes_contain(haystack: &[u8], needle: &[u8]) -> (found: bool)
    ensures
        found == occurs_in(needle@, haystack@),
{
    let n: usize = haystack.len();
    let m: usize = needle.len();
    if m > n {
        assert forall|i: int| !occurs_at(needle@, haystack@, i) by {}
        return false;
    }
    if m == 0 {
        assert(occurs_at(needle@, haystack@, 0)) by {
            assert(haystack@.subrange(0, 0) =~= needle@);
        }
        return true;
    }
    let mut i: usize = 0;
    while i <= n - m
        invariant
            n == haystack@.len(),
            m == needle@.len(),
            1 <= m <= n,
            0 <= i <= n - m + 1,
            forall|k: int| 0 <= k < i ==> !occurs_at(needle@, haystack@, k),
        decreases n - m + 1 - i,
    {
        let window = vstd::slice::slice_subrange(haystack, i, i + m);
        if bytes_equal(window, needle) {
            assert(occurs_at(needle@, haystack@, i as int));
            return true;
        }
        i = i + 1;
    }
    assert forall|k: int| !occurs_at(needle@, haystack@, k) by {}
    false
}

/// Tracing is wanted where the variable is exactly `*`, or names
/// `tailwindcss:oxide` and nowhere `-tailwindcss:oxide`.
pub open spec fn tracing_wanted(value: Seq<char>) -> bool {
    value == "*"@ || (occurs_in(encode_utf8("tailwindcss:oxide"@), encode_utf8(value))
        && !occurs_in(encode_utf8("-tailwindcss:oxide"@), encode_utf8(value)))
}

/// Whether tracing is wanted, given the value of `DEBUG`; it is not where the
/// variable is not set.
pub fn should_trace(debug: Option<&str>) -> (wanted: bool)
    ensures
        wanted == match debug {
            Some(value) => tracing_wanted(value@),
            None => false,
        },
{
    match debug {
        Some(value) => {
            if crate::text::str_equal(value, "*") {
                return true;
            }
            bytes_contain(value.as_bytes(), "tailwindcss:oxide".as_bytes()) && !bytes_contain(
                value.as_bytes(),
                "-tailwindcss:oxide".as_bytes(),
            )
        },
        None => false,
    }
}

} // verus!
