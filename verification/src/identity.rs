//! Resolution of the source-control identity: the repository-local user
//! name, falling back to the global one, both trimmed of surrounding
//! whitespace; an error when both are empty. The surrounding binary reads
//! the two raw configuration values and hands them in as plain strings.

use crate::error::GoatError;
use vstd::prelude::*;

verus! {

/// The whitespace trimmed from around an identity.
pub open spec fn is_space(c: char) -> bool {
    c == ' ' || c == '\t' || c == '\r' || c == '\n'
}

/// `s` without its leading whitespace.
pub open spec fn drop_leading(s: Seq<char>) -> Seq<char>
    decreases s.len(),
{
    if s.len() > 0 && is_space(s[0]) {
        drop_leading(s.skip(1))
    } else {
        s
    }
}

/// `s` without its trailing whitespace.
pub open spec fn drop_trailing(s: Seq<char>) -> Seq<char>
    decreases s.len(),
{
    if s.len() > 0 && is_space(s[s.len() - 1]) {
        drop_trailing(s.take(s.len() - 1))
    } else {
        s
    }
}

/// `s` without surrounding whitespace.
pub open spec fn trimmed(s: Seq<char>) -> Seq<char> {
    drop_trailing(drop_leading(s))
}

/// Dropping leading whitespace skips exactly to the first non-space index.
proof fn lemma_drop_leading_skip(s: Seq<char>, lo: int)
    requires
        0 <= lo <= s.len(),
        forall|j: int| 0 <= j < lo ==> is_space(s[j]),
        lo == s.len() || !is_space(s[lo]),
    ensures
        drop_leading(s) == s.skip(lo),
    decreases lo,
{
    if lo == 0 {
        assert(drop_leading(s) =~= s.skip(0));
    } else {
        assert(is_space(s[0]));
        lemma_drop_leading_skip(s.skip(1), lo - 1);
        assert(s.skip(1).skip(lo - 1) =~= s.skip(lo));
    }
}

/// Dropping trailing whitespace takes exactly up to the last non-space
/// index.
proof fn lemma_drop_trailing_take(s: Seq<char>, hi: int)
    requires
        0 <= hi <= s.len(),
        forall|j: int| hi <= j < s.len() ==> is_space(s[j]),
        hi == 0 || !is_space(s[hi - 1]),
    ensures
        drop_trailing(s) == s.take(hi),
    decreases s.len() - hi,
{
    if hi == s.len() {
        assert(drop_trailing(s) =~= s.take(hi));
    } else {
        assert(is_space(s[s.len() - 1]));
        lemma_drop_trailing_take(s.take(s.len() - 1), hi);
        assert(s.take(s.len() - 1).take(hi) =~= s.take(hi));
    }
}

/// Whether `c` counts as whitespace.
fn is_space_char(c: char) -> (r: bool)
    ensures
        r == is_space(c),
{
    c == ' ' || c == '\t' || c == '\r' || c == '\n'
}

/// `s` without surrounding whitespace, as a fresh string.
pub fn trim_str(s: &str) -> (r: String)
    ensures
        r@ == trimmed(s@),
{
    let n = s.unicode_len();
    let mut lo: usize = 0;
    while lo < n && is_space_char(s.get_char(lo))
        invariant
            n == s@.len(),
            0 <= lo <= n,
            forall|j: int| 0 <= j < lo ==> is_space(s@[j]),
        decreases n - lo,
    {
        lo += 1;
    }
    let mut hi: usize = n;
    while hi > lo && is_space_char(s.get_char(hi - 1))
        invariant
            n == s@.len(),
            0 <= lo <= hi <= n,
            forall|j: int| hi <= j < n ==> is_space(s@[j]),
        decreases hi - lo,
    {
        hi -= 1;
    }
    proof {
        lemma_drop_leading_skip(s@, lo as int);
        let t = s@.skip(lo as int);
        if hi == lo {
            assert(hi == lo ==> forall|j: int| lo <= j < n ==> is_space(s@[j]));
            lemma_drop_trailing_take(t, 0);
            assert(trimmed(s@) =~= s@.subrange(lo as int, hi as int));
        } else {
            assert(!is_space(s@[hi - 1]));
            lemma_drop_trailing_take(t, hi - lo);
            assert(t.take(hi - lo) =~= s@.subrange(lo as int, hi as int));
        }
    }
    let piece = s.substring_char(lo, hi);
    String::from_str(piece)
}

/// The identity-resolution rule: the trimmed local name when non-empty,
/// else the trimmed global name when non-empty, else nothing.
pub open spec fn resolve_spec(local: Seq<char>, global: Seq<char>) -> Option<Seq<char>> {
    if trimmed(local).len() > 0 {
        Some(trimmed(local))
    } else if trimmed(global).len() > 0 {
        Some(trimmed(global))
    } else {
        None
    }
}

/// Resolve the source-control identity from the raw repository-local and
/// global configuration values. Fails with `NoIdentityConfigured` exactly
/// when both trim to nothing.
pub fn resolve_identity(local: &str, global: &str) -> (r: Result<String, GoatError>)
    ensures
        match r {
            Ok(u) => resolve_spec(local@, global@) == Some(u@),
            Err(e) => resolve_spec(local@, global@) is None && e
                == GoatError::NoIdentityConfigured,
        },
{
    let lt = trim_str(local);
    if !lt.as_str().is_empty() {
        return Ok(lt);
    }
    let gt = trim_str(global);
    if !gt.as_str().is_empty() {
        return Ok(gt);
    }
    Err(GoatError::NoIdentityConfigured)
}

} // verus!
