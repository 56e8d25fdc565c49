//! Final clean-up of a rendered sequence diagram.

use vstd::prelude::*;
use vstd::string::*;
use crate::strings::{occurs_at, replace_all, replace_all_spec};

verus! {

/// The text without its first character when that character is a space.
pub open spec fn strip_leading_space(s: Seq<char>) -> Seq<char> {
    if s.len() > 0 && s[0] == ' ' {
        s.subrange(1, s.len() as int)
    } else {
        s
    }
}

/// What `output_cleaner` makes of `s`: one leading space is dropped, every
/// `e->z:` becomes `e<->z:`, and the line `z->e:` is put in front.
pub open spec fn cleaned_output(s: Seq<char>) -> Seq<char> {
    "z->e:"@ + replace_all_spec(strip_leading_space(s), "e->z:"@, "e<->z:"@)
}

/// Prepares a rendered diagram for sequencediagram.org.
pub fn output_cleaner(output: String) -> (r: String)
    ensures
        r@ == cleaned_output(output@),
        forall|i: int| !occurs_at(r@, i, "e->z:"@),
{
    let n = output.as_str().unicode_len();
    let stripped: String = if n > 0 && output.as_str().get_char(0) == ' ' {
        String::from_str(output.as_str().substring_char(1, n))
    } else {
        output
    };
    proof {
        reveal_strlit("e->z:");
    }
    let replaced = replace_all(stripped.as_str(), "e->z:", "e<->z:");
    let mut result = String::from_str("z->e:");
    result.append(replaced.as_str());
    proof {
        lemma_cleaned_has_no_env_arrow(output@);
    }
    result
}

/// A text that does not start with a space and has no `e->z:` only gets
/// the `z->e:` line in front.
pub proof fn lemma_clean_text_kept(s: Seq<char>)
    requires
        !(s.len() > 0 && s[0] == ' '),
        forall|i: int| 0 <= i < s.len() ==> !crate::strings::occurs_at(s, i, "e->z:"@),
    ensures
        cleaned_output(s) == "z->e:"@ + s,
{
    crate::strings::lemma_replace_absent(s, "e->z:"@, "e<->z:"@);
}


/// The text with every `e->z:` widened to `e<->z:`, scanning from the left.
pub open spec fn widened(t: Seq<char>) -> Seq<char> {
    replace_all_spec(t, "e->z:"@, "e<->z:"@)
}

proof fn lemma_occurs_chars(text: Seq<char>, j: int, pattern: Seq<char>)
    requires
        occurs_at(text, j, pattern),
    ensures
        forall|k: int| 0 <= k < pattern.len() ==> text[j + k] == #[trigger] pattern[k],
{
    assert forall|k: int| 0 <= k < pattern.len() implies text[j + k] == #[trigger] pattern[k] by {
        assert(text.subrange(j, j + pattern.len())[k] == text[j + k]);
    }
}

/// A beginning of the widened text that holds no `e` was already the
/// beginning of the text.
proof fn lemma_widened_prefix(t: Seq<char>, u: Seq<char>)
    requires
        u.len() <= widened(t).len(),
        widened(t).subrange(0, u.len() as int) == u,
        forall|k: int| 0 <= k < u.len() ==> u[k] != 'e',
    ensures
        u.len() <= t.len(),
        t.subrange(0, u.len() as int) == u,
    decreases t.len(),
{
    reveal_strlit("e->z:");
    reveal_strlit("e<->z:");
    if u.len() == 0 {
        assert(t.subrange(0, 0) =~= u);
    } else {
        assert(u[0] == widened(t)[0]);
        if t.len() == 0 {
            assert(widened(t) == t);
        } else if occurs_at(t, 0, "e->z:"@) {
            let rest = t.subrange(5, t.len() as int);
            assert(widened(t) == "e<->z:"@ + widened(rest));
            assert(widened(t)[0] == 'e');
        } else {
            let rest = t.subrange(1, t.len() as int);
            assert(widened(t) == seq![t[0]] + widened(rest));
            let u2 = u.subrange(1, u.len() as int);
            assert forall|k: int| 0 <= k < u2.len() implies widened(rest).subrange(0, u2.len() as int)[k] == u2[k] by {
                assert(widened(t)[k + 1] == widened(rest)[k]);
                assert(widened(t).subrange(0, u.len() as int)[k + 1] == widened(t)[k + 1]);
            }
            assert(widened(rest).subrange(0, u2.len() as int) =~= u2);
            lemma_widened_prefix(rest, u2);
            assert forall|k: int| 0 <= k < u.len() implies t.subrange(0, u.len() as int)[k] == u[k] by {
                if k > 0 {
                    assert(rest.subrange(0, u2.len() as int)[k - 1] == u2[k - 1]);
                }
            }
            assert(t.subrange(0, u.len() as int) =~= u);
        }
    }
}

/// No `e->z:` is left in a widened text.
proof fn lemma_widened_has_no_arrow(t: Seq<char>)
    ensures
        forall|i: int| !occurs_at(widened(t), i, "e->z:"@),
    decreases t.len(),
{
    reveal_strlit("e->z:");
    reveal_strlit("e<->z:");
    let p = "e->z:"@;
    let w = "e<->z:"@;
    if t.len() == 0 {
        assert(widened(t) == t);
    } else if occurs_at(t, 0, p) {
        let rest = t.subrange(5, t.len() as int);
        lemma_widened_has_no_arrow(rest);
        assert(widened(t) == w + widened(rest));
        assert forall|i: int| !occurs_at(widened(t), i, p) by {
            if occurs_at(widened(t), i, p) {
                lemma_occurs_chars(widened(t), i, p);
                if i < 6 {
                    assert(widened(t)[i] == p[0]);
                    assert(widened(t)[i + 1] == p[1]);
                    assert(widened(t)[i] == w[i]);
                } else {
                    assert(widened(t).subrange(i, i + 5) =~= widened(rest).subrange(i - 6, i - 1));
                    assert(occurs_at(widened(rest), i - 6, p));
                }
            }
        }
    } else {
        let rest = t.subrange(1, t.len() as int);
        lemma_widened_has_no_arrow(rest);
        assert(widened(t) == seq![t[0]] + widened(rest));
        assert forall|i: int| !occurs_at(widened(t), i, p) by {
            if occurs_at(widened(t), i, p) {
                lemma_occurs_chars(widened(t), i, p);
                if i == 0 {
                    let u = p.subrange(1, 5);
                    assert forall|k: int| 0 <= k < 4 implies widened(rest).subrange(0, 4)[k] == u[k] by {
                        assert(widened(t)[k + 1] == widened(rest)[k]);
                        assert(widened(t)[0int + (k + 1)] == p[k + 1]);
                    }
                    assert(widened(rest).subrange(0, 4) =~= u);
                    lemma_widened_prefix(rest, u);
                    assert forall|k: int| 0 <= k < 5 implies t.subrange(0, 5)[k] == p[k] by {
                        if k > 0 {
                            assert(rest.subrange(0, 4)[k - 1] == u[k - 1]);
                        } else {
                            assert(widened(t)[0] == t[0]);
                            assert(widened(t)[0int + 0int] == p[0]);
                        }
                    }
                    assert(t.subrange(0, 5) =~= p);
                } else {
                    assert(widened(t).subrange(i, i + 5) =~= widened(rest).subrange(i - 1, i + 4));
                    assert(occurs_at(widened(rest), i - 1, p));
                }
            }
        }
    }
}

/// No `e->z:` is left in a cleaned diagram: every one was widened to
/// `e<->z:`, whatever stood before it.
pub proof fn lemma_cleaned_has_no_env_arrow(s: Seq<char>)
    ensures
        forall|i: int| !occurs_at(cleaned_output(s), i, "e->z:"@),
{
    reveal_strlit("e->z:");
    reveal_strlit("z->e:");
    let p = "e->z:"@;
    let h = "z->e:"@;
    let body = widened(strip_leading_space(s));
    lemma_widened_has_no_arrow(strip_leading_space(s));
    assert(cleaned_output(s) == h + body);
    assert forall|i: int| !occurs_at(cleaned_output(s), i, p) by {
        if occurs_at(cleaned_output(s), i, p) {
            lemma_occurs_chars(cleaned_output(s), i, p);
            if i < 5 {
                assert(cleaned_output(s)[i] == p[0]);
                assert(cleaned_output(s)[i + 1] == p[1]);
                assert(cleaned_output(s)[i] == h[i]);
                if i == 3 {
                    assert(cleaned_output(s)[4] == h[4]);
                }
            } else {
                assert(cleaned_output(s).subrange(i, i + 5) =~= body.subrange(i - 5, i));
                assert(occurs_at(body, i - 5, p));
            }
        }
    }
}

} // verus!
