//! Choice of a release asset. The self-updater downloads the first asset
//! of the latest release whose file name mentions the running platform;
//! the choice of that asset is made here, from the plain list of asset
//! names. Fetching the release and streaming the download stay in the
//! surrounding binary.

use vstd::prelude::*;

verus! {

/// Whether `needle` occurs in `hay` starting at position `i`.
pub open spec fn occurs_at(hay: Seq<char>, needle: Seq<char>, i: int) -> bool {
    0 <= i && i + needle.len() <= hay.len() && hay.subrange(i, i + needle.len()) == needle
}

/// Whether `needle` occurs somewhere in `hay`.
pub open spec fn contains_seq(hay: Seq<char>, needle: Seq<char>) -> bool {
    exists|i: int| occurs_at(hay, needle, i)
}

/// Whether `needle` occurs in `hay` exactly at `at`.
fn match_at(hay: &str, needle: &str, at: usize) -> (r: bool)
    requires
        at + needle@.len() <= hay@.len(),
    ensures
        r == occurs_at(hay@, needle@, at as int),
{
    let nn = needle.unicode_len();
    let hl = hay.unicode_len();
    let mut k: usize = 0;
    while k < nn
        invariant
            nn == needle@.len(),
            hl == hay@.len(),
            at + nn <= hl,
            0 <= k <= nn,
            forall|j: int| 0 <= j < k ==> hay@[at + j] == needle@[j],
        decreases nn - k,
    {
        if hay.get_char(at + k) != needle.get_char(k) {
            proof {
                assert(hay@.subrange(at as int, at + nn)[k as int] == hay@[at + k]);
            }
            return false;
        }
        k += 1;
    }
    proof {
        assert(hay@.subrange(at as int, at + nn) =~= needle@);
    }
    true
}

/// Substring search, character for character.
pub fn str_contains(hay: &str, needle: &str) -> (r: bool)
    ensures
        r == contains_seq(hay@, needle@),
{
    let hn = hay.unicode_len();
    let nn = needle.unicode_len();
    if nn > hn {
        proof {
            assert forall|i: int| !occurs_at(hay@, needle@, i) by {}
        }
        return false;
    }
    if nn == 0 {
        proof {
            assert(hay@.subrange(0, 0) =~= needle@);
            assert(occurs_at(hay@, needle@, 0));
        }
        return true;
    }
    let mut i: usize = 0;
    while i <= hn - nn
        invariant
            hn == hay@.len(),
            nn == needle@.len(),
            0 < nn <= hn,
            0 <= i <= hn - nn + 1,
            forall|j: int| 0 <= j < i ==> !occurs_at(hay@, needle@, j),
        decreases hn - nn + 1 - i,
    {
        if match_at(hay, needle, i) {
            proof {
                assert(occurs_at(hay@, needle@, i as int));
            }
            return true;
        }
        i += 1;
    }
    proof {
        assert forall|j: int| !occurs_at(hay@, needle@, j) by {
            if 0 <= j <= hn - nn {
                assert(!occurs_at(hay@, needle@, j));
            }
        }
    }
    false
}

/// The asset the self-updater downloads: the first name that mentions the
/// platform tag, or nothing when no name does.
pub fn select_asset(names: &Vec<String>, platform: &str) -> (r: Option<usize>)
    ensures
        match r {
            Some(i) => i < names.len() && contains_seq(names@[i as int]@, platform@)
                && forall|j: int| 0 <= j < i ==> !contains_seq(names@[j]@, platform@),
            None => forall|j: int|
                0 <= j < names@.len() ==> !contains_seq(names@[j]@, platform@),
        },
{
    let mut i: usize = 0;
    while i < names.len()
        invariant
            0 <= i <= names.len(),
            forall|j: int| 0 <= j < i ==> !contains_seq(names@[j]@, platform@),
        decreases names.len() - i,
    {
        if str_contains(names[i].as_str(), platform) {
            return Some(i);
        }
        i += 1;
    }
    None
}

} // verus!
