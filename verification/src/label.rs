//! Display-label derivation for topology nodes: the last `::` segment
//! of a span name, each `_`-separated word capitalized, joined by
//! spaces.

use vstd::prelude::*;

verus! {

/// Uppercase mapping of one character, as the standard library yields
/// it (one or more characters).
pub uninterp spec fn upper_of(c: char) -> Seq<char>;

/// Relies on char::to_uppercase: the uppercase mapping of a character,
/// which depends on the character alone.
#[verifier::external_body]
fn char_uppercase(c: char) -> (r: String)
    ensures
        r@ == upper_of(c),
{
    c.to_uppercase().collect()
}

/// Is position `i` the start of a `::` separator in `s`?
pub open spec fn sep_at(s: Seq<char>, i: int) -> bool {
    0 <= i && i + 2 <= s.len() && s[i] == ':' && s[i + 1] == ':'
}

pub open spec fn has_sep(s: Seq<char>) -> bool {
    exists|i: int| sep_at(s, i)
}

/// The last segment of `s` under a left-to-right, non-overlapping split
/// on `::`; `s` itself when no separator occurs.
pub open spec fn last_segment(s: Seq<char>) -> Seq<char>
    decreases s.len(),
{
    if s.len() < 2 {
        s
    } else if s[0] == ':' && s[1] == ':' {
        last_segment(s.skip(2))
    } else if has_sep(s) {
        last_segment(s.skip(1))
    } else {
        s
    }
}

/// Length of the `_`-free prefix of `s`: the index of the first
/// underscore, or `s.len()` when there is none.
pub open spec fn word_end(s: Seq<char>) -> int
    decreases s.len(),
{
    if s.len() == 0 {
        0
    } else if s[0] == '_' {
        0
    } else {
        1 + word_end(s.skip(1))
    }
}

/// A word with its first character uppercased.
pub open spec fn capitalized(w: Seq<char>) -> Seq<char> {
    if w.len() == 0 {
        w
    } else {
        upper_of(w[0]) + w.skip(1)
    }
}

/// Every `_`-separated word of `s` capitalized, joined by single
/// spaces (empty words stay empty, as the underlying split yields
/// them).
pub open spec fn cap_words(s: Seq<char>) -> Seq<char>
    decreases s.len(),
{
    let f = word_end(s);
    if 0 <= f && f < s.len() {
        capitalized(s.take(f)) + " "@ + cap_words(s.skip(f + 1))
    } else {
        capitalized(s)
    }
}

/// The display label derived from a span name.
pub open spec fn label_of(name: Seq<char>) -> Seq<char> {
    cap_words(last_segment(name))
}

proof fn lemma_word_end_at(t: Seq<char>, k: int)
    requires
        0 <= k <= t.len(),
        forall|j: int| 0 <= j < k ==> t[j] != '_',
        k < t.len() ==> t[k] == '_',
    ensures
        word_end(t) == k,
    decreases k,
{
    if k == 0 {
    } else {
        assert(t[0] != '_');
        lemma_word_end_at(t.skip(1), k - 1);
    }
}

proof fn lemma_last_segment_skip(t: Seq<char>, k: int)
    requires
        0 <= k <= t.len(),
        forall|j: int| 0 <= j < k ==> !sep_at(t, j),
        has_sep(t),
    ensures
        last_segment(t) == last_segment(t.skip(k)),
    decreases k,
{
    if k == 0 {
        assert(t.skip(0) =~= t);
    } else {
        let w = choose|i: int| sep_at(t, i);
        assert(t.len() >= 2);
        assert(!sep_at(t, 0));
        assert(!(t[0] == ':' && t[1] == ':'));
        assert(last_segment(t) == last_segment(t.skip(1)));
        let t1 = t.skip(1);
        assert forall|j: int| 0 <= j < k - 1 implies !sep_at(t1, j) by {
            assert(t1[j] == t[j + 1]);
            assert(j + 1 < t1.len() ==> t1[j + 1] == t[j + 2]);
            assert(!sep_at(t, j + 1));
        }
        assert(w >= k);
        assert(sep_at(t1, w - 1)) by {
            assert(t1[w - 1] == t[w]);
            assert(t1[w] == t[w + 1]);
        }
        lemma_last_segment_skip(t1, k - 1);
        assert(t1.skip(k - 1) =~= t.skip(k));
    }
}

/// The last `::` segment of `s`, as `split("::").last()` yields it.
fn last_segment_of(s: &str) -> (r: &str)
    ensures
        r@ == last_segment(s@),
{
    let n = s.unicode_len();
    let mut seg_start: usize = 0;
    let mut i: usize = 0;
    proof {
        assert(s@.skip(0) =~= s@);
    }
    while i < n && i + 1 < n
        invariant
            seg_start <= i,
            i <= n,
            n == s@.len(),
            last_segment(s@) == last_segment(s@.skip(seg_start as int)),
            forall|j: int| seg_start <= j < i ==> !sep_at(s@, j),
        decreases n - i,
    {
        if s.get_char(i) == ':' && s.get_char(i + 1) == ':' {
            proof {
                let t = s@.skip(seg_start as int);
                let k = i - seg_start;
                assert(sep_at(s@, i as int));
                assert forall|j: int| 0 <= j < k implies !sep_at(t, j) by {
                    assert(t[j] == s@[seg_start + j]);
                    assert(j + 1 < t.len() ==> t[j + 1] == s@[seg_start + j + 1]);
                    assert(!sep_at(s@, seg_start + j));
                }
                assert(sep_at(t, k)) by {
                    assert(t[k] == s@[i as int]);
                    assert(t[k + 1] == s@[i + 1]);
                }
                lemma_last_segment_skip(t, k);
                let u = t.skip(k);
                assert(u =~= s@.skip(i as int));
                assert(u[0] == ':' && u[1] == ':');
                assert(last_segment(u) == last_segment(u.skip(2)));
                assert(u.skip(2) =~= s@.skip(i + 2));
            }
            seg_start = i + 2;
            i = i + 2;
        } else {
            proof {
                assert(!sep_at(s@, i as int));
            }
            i = i + 1;
        }
    }
    proof {
        let t = s@.skip(seg_start as int);
        assert forall|j: int| 0 <= j implies !sep_at(t, j) by {
            if sep_at(t, j) {
                assert(t[j] == s@[seg_start + j]);
                assert(t[j + 1] == s@[seg_start + j + 1]);
                assert(sep_at(s@, seg_start + j));
                assert(seg_start + j < i);
            }
        }
        assert(!has_sep(t));
        if t.len() >= 2 {
            assert(!(t[0] == ':' && t[1] == ':')) by {
                assert(!sep_at(t, 0));
            }
        }
        assert(last_segment(t) == t);
        assert(s@.subrange(seg_start as int, n as int) =~= t);
    }
    s.substring_char(seg_start, n)
}

/// Append `w` with its first character uppercased.
fn push_capitalized(out: &mut String, w: &str)
    ensures
        final(out)@ == old(out)@ + capitalized(w@),
{
    let n = w.unicode_len();
    if n == 0 {
        proof {
            assert(old(out)@ + capitalized(w@) =~= old(out)@);
        }
    } else {
        let c = w.get_char(0);
        let u = char_uppercase(c);
        out.append(u.as_str());
        let rest = w.substring_char(1, n);
        out.append(rest);
        proof {
            assert(rest@ =~= w@.skip(1));
            assert(old(out)@ + upper_of(w@[0]) + w@.skip(1)
                =~= old(out)@ + capitalized(w@));
        }
    }
}

/// Derive a node's display label from a span name: the last `::`
/// segment, each `_`-separated word capitalized, joined by spaces.
pub fn short_label(name: &str) -> (r: String)
    ensures
        r@ == label_of(name@),
{
    let seg = last_segment_of(name);
    let n = seg.unicode_len();
    let mut out = String::new();
    let mut p: usize = 0;
    proof {
        assert(seg@.skip(0) =~= seg@);
        assert(out@ + cap_words(seg@) =~= cap_words(seg@));
    }
    loop
        invariant
            p <= n,
            n == seg@.len(),
            seg@ == last_segment(name@),
            out@ + cap_words(seg@.skip(p as int)) == cap_words(seg@),
        decreases n - p,
    {
        let mut i: usize = p;
        while i < n && seg.get_char(i) != '_'
            invariant
                p <= i <= n,
                n == seg@.len(),
                forall|j: int| p <= j < i ==> seg@[j] != '_',
            decreases n - i,
        {
            i = i + 1;
        }
        let ghost t = seg@.skip(p as int);
        proof {
            assert forall|j: int| 0 <= j < i - p implies t[j] != '_' by {
                assert(t[j] == seg@[p + j]);
            }
            if i < n {
                assert(t[i - p] == seg@[i as int]);
            }
            lemma_word_end_at(t, i - p);
        }
        let word = seg.substring_char(p, i);
        proof {
            assert(word@ =~= t.take(i - p));
        }
        if i < n {
            push_capitalized(&mut out, word);
            out.append(" ");
            proof {
                assert(t.skip(i - p + 1) =~= seg@.skip(i + 1));
            }
            p = i + 1;
        } else {
            push_capitalized(&mut out, word);
            proof {
                assert(t.take(i - p) =~= t);
                assert(cap_words(t) == capitalized(t));
                assert(out@ =~= cap_words(seg@));
            }
            return out;
        }
    }
}

} // verus!
