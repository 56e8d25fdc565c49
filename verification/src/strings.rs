//! Character-level string helpers with exact specifications.

use vstd::prelude::*;
use vstd::string::*;

verus! {

/// `pattern` occurs in `text` starting at character index `start`.
pub open spec fn occurs_at(text: Seq<char>, start: int, pattern: Seq<char>) -> bool {
    &&& 0 <= start
    &&& start + pattern.len() <= text.len()
    &&& text.subrange(start, start + pattern.len()) == pattern
}

/// Replaces, from left to right, every non-overlapping occurrence of a
/// non-empty `pattern` in `text` by `with`.
pub open spec fn replace_all_spec(text: Seq<char>, pattern: Seq<char>, with: Seq<char>) -> Seq<char>
    decreases text.len(),
{
    if pattern.len() == 0 || text.len() == 0 {
        text
    } else if occurs_at(text, 0, pattern) {
        with + replace_all_spec(text.subrange(pattern.len() as int, text.len() as int), pattern, with)
    } else {
        seq![text[0]] + replace_all_spec(text.subrange(1, text.len() as int), pattern, with)
    }
}

/// Decides `occurs_at` on the characters of `text` and `pattern`.
pub fn occurs_at_exec(text: &str, n: usize, start: usize, pattern: &str, m: usize) -> (r: bool)
    requires
        n == text@.len(),
        m == pattern@.len(),
        start <= n,
    ensures
        r == occurs_at(text@, start as int, pattern@),
{
    if m > n - start {
        return false;
    }
    let mut k: usize = 0;
    while k < m
        invariant
            k <= m,
            start + m <= n,
            n == text@.len(),
            m == pattern@.len(),
            forall|j: int| 0 <= j < k ==> text@[start + j] == pattern@[j],
        decreases m - k,
    {
        let a = text.get_char(start + k);
        let b = pattern.get_char(k);
        if a != b {
            proof {
                let sub = text@.subrange(start as int, start + m);
                assert(sub[k as int] != pattern@[k as int]);
            }
            return false;
        }
        k = k + 1;
    }
    assert(text@.subrange(start as int, start + m) =~= pattern@);
    true
}

/// Decides whether two strings have the same characters.
pub fn str_equal(a: &str, b: &str) -> (r: bool)
    ensures
        r == (a@ == b@),
{
    let n = a.unicode_len();
    let m = b.unicode_len();
    if n != m {
        return false;
    }
    let r = occurs_at_exec(a, n, 0, b, m);
    proof {
        if r {
            assert(a@ =~= a@.subrange(0, n as int));
        } else {
            assert(a@.subrange(0, n as int) =~= a@);
        }
    }
    r
}

/// Replaces every non-overlapping occurrence of `pattern` in `text`,
/// scanning from left to right.
pub fn replace_all(text: &str, pattern: &str, with: &str) -> (r: String)
    requires
        pattern@.len() > 0,
    ensures
        r@ == replace_all_spec(text@, pattern@, with@),
{
    let n = text.unicode_len();
    let m = pattern.unicode_len();
    let mut res = String::new();
    let mut i: usize = 0;
    assert(text@.subrange(0, n as int) =~= text@);
    while i < n
        invariant
            i <= n,
            n == text@.len(),
            m == pattern@.len(),
            m > 0,
            res@ + replace_all_spec(text@.subrange(i as int, n as int), pattern@, with@)
                == replace_all_spec(text@, pattern@, with@),
        decreases n - i,
    {
        let ghost rest = text@.subrange(i as int, n as int);
        let ghost old_res = res@;
        if occurs_at_exec(text, n, i, pattern, m) {
            assert(rest.subrange(0, m as int) =~= text@.subrange(i as int, i + m));
            assert(rest.subrange(m as int, rest.len() as int) =~= text@.subrange(i + m, n as int));
            res.append(with);
            assert(res@ + replace_all_spec(text@.subrange(i + m, n as int), pattern@, with@)
                =~= old_res + replace_all_spec(rest, pattern@, with@));
            i = i + m;
        } else {
            assert(!occurs_at(rest, 0, pattern@)) by {
                if i + m <= n {
                    assert(rest.subrange(0, m as int) =~= text@.subrange(i as int, i + m));
                }
            }
            let c = text.substring_char(i, i + 1);
            assert(c@ =~= seq![rest[0]]);
            assert(rest.subrange(1, rest.len() as int) =~= text@.subrange(i + 1, n as int));
            res.append(c);
            assert(res@ + replace_all_spec(text@.subrange(i + 1, n as int), pattern@, with@)
                =~= old_res + replace_all_spec(rest, pattern@, with@));
            i = i + 1;
        }
    }
    assert(res@ + replace_all_spec(text@.subrange(n as int, n as int), pattern@, with@) =~= res@);
    res
}

/// A text in which the pattern does not occur is left as it is.
pub proof fn lemma_replace_absent(text: Seq<char>, pattern: Seq<char>, with: Seq<char>)
    requires
        forall|i: int| 0 <= i < text.len() ==> !occurs_at(text, i, pattern),
    ensures
        replace_all_spec(text, pattern, with) == text,
    decreases text.len(),
{
    if pattern.len() > 0 && text.len() > 0 {
        let rest = text.subrange(1, text.len() as int);
        assert forall|i: int| 0 <= i < rest.len() implies !occurs_at(rest, i, pattern) by {
            if occurs_at(rest, i, pattern) {
                assert(text.subrange(i + 1, i + 1 + pattern.len()) =~= rest.subrange(i, i + pattern.len()));
                assert(occurs_at(text, i + 1, pattern));
            }
        }
        lemma_replace_absent(rest, pattern, with);
        assert(!occurs_at(text, 0, pattern));
        assert(seq![text[0]] + rest =~= text);
    }
}

} // verus!
