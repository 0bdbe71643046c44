//! ASCII case folding on bytes, the basis of the engine's case-insensitive
//! matching.

use vstd::prelude::*;

verus! {

/// ASCII upper-casing of a single byte; bytes outside `a..=z` are unchanged.
pub open spec fn upper(c: u8) -> u8 {
    if 97 <= c && c <= 122 {
        (c - 32) as u8
    } else {
        c
    }
}

/// A byte is an ASCII letter.
pub open spec fn is_ascii_letter(c: u8) -> bool {
    (65 <= c && c <= 90) || (97 <= c && c <= 122)
}

/// A sequence of bytes, upper-cased byte by byte.
pub open spec fn upcase(s: Seq<u8>) -> Seq<u8> {
    s.map_values(|c: u8| upper(c))
}

/// Executable mirror of [`upper`].
pub fn upper_byte(c: u8) -> (r: u8)
    ensures
        r == upper(c),
{
    if 97 <= c && c <= 122 {
        c - 32
    } else {
        c
    }
}

/// Case folding commutes with concatenation.
pub proof fn lemma_upcase_add(a: Seq<u8>, b: Seq<u8>)
    ensures
        upcase(a + b) == upcase(a) + upcase(b),
{
    assert(upcase(a + b) =~= upcase(a) + upcase(b));
}

/// Case folding commutes with taking a sub-range.
pub proof fn lemma_upcase_subrange(s: Seq<u8>, i: int, j: int)
    requires
        0 <= i <= j <= s.len(),
    ensures
        upcase(s.subrange(i, j)) == upcase(s).subrange(i, j),
{
    assert(upcase(s.subrange(i, j)) =~= upcase(s).subrange(i, j));
}

} // verus!
