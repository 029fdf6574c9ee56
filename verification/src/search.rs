//! Finding a byte among bytes.

use vstd::prelude::*;

verus! {

/// The position of the first `needle` in `s`, or the length of `s` where it
/// holds none.
pub open spec fn first_index(s: Seq<u8>, needle: u8) -> int
    decreases s.len(),
{
    if s.len() == 0 {
        0
    } else if s[0] == needle {
        0
    } else {
        1 + first_index(s.skip(1), needle)
    }
}

/// `first_index` is the one position before which there is no `needle` and
/// at which there is one, or the length.
pub proof fn lemma_first_index(s: Seq<u8>, needle: u8, i: int)
    requires
        0 <= i <= s.len(),
        forall|j: int| 0 <= j < i ==> s[j] != needle,
        i < s.len() ==> s[i] == needle,
    ensures
        first_index(s, needle) == i,
    decreases s.len(),
{
    if s.len() > 0 && s[0] != needle {
        lemma_first_index(s.skip(1), needle, i - 1);
    }
}

/// The position of the first `needle` in `haystack`, if it holds one.
///
/// This is `memchr::memchr`. Its documentation promises the index of the
/// first occurrence, which is below the length, or `None` if there is no
/// occurrence; the contract says the same.
#[verifier::external_body]
fn find_byte(needle: u8, haystack: &[u8]) -> (r: Option<usize>)
    ensures
        match r {
            Some(i) => i < haystack@.len() && haystack@[i as int] == needle && forall|j: int|
                0 <= j < i ==> haystack@[j] != needle,
            None => forall|j: int| 0 <= j < haystack@.len() ==> haystack@[j] != needle,
        },
{
    memchr::memchr(needle, haystack)
}

/// The position of the first `needle` in `haystack`, or the length of
/// `haystack` where it holds none.
pub fn position_of(needle: u8, haystack: &[u8]) -> (r: usize)
    ensures
        r == first_index(haystack@, needle),
        r <= haystack@.len(),
        r < haystack@.len() ==> haystack@[r as int] == needle,
        forall|j: int| 0 <= j < r ==> haystack@[j] != needle,
{
    let r = match find_byte(needle, haystack) {
        Some(i) => i,
        None => haystack.len(),
    };
    proof {
        lemma_first_index(haystack@, needle, r as int);
    }
    r
}

} // verus!
