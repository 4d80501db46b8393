//! Splitting a path string into tokens on a separator.
//!
//! The model is [`spec_split`]: the leftmost occurrence of the separator ends
//! the current token, and the remainder is split in turn. An empty input
//! yields one empty token, so every string splits into at least one token.
//! Two adjacent separators enclose an empty token; empty tokens are ordinary
//! tokens here. The separator must be non-empty.

use vstd::prelude::*;
use vstd::string::StrSliceExecFns;
use vstd::string::StringExecFns;

verus! {

/// The separator `sep` occurs in `s` at character position `i`.
pub open spec fn occurs_at(s: Seq<char>, sep: Seq<char>, i: int) -> bool {
    0 <= i && i + sep.len() <= s.len() && s.subrange(i, i + sep.len()) == sep
}

/// The tokens of `s` split on `sep`, leftmost occurrence first.
pub open spec fn spec_split(s: Seq<char>, sep: Seq<char>) -> Seq<Seq<char>>
    decreases s.len(),
{
    if sep.len() == 0 {
        seq![s]
    } else if s.len() >= sep.len() && s.subrange(0, sep.len() as int) == sep {
        seq![Seq::<char>::empty()] + spec_split(s.skip(sep.len() as int), sep)
    } else if s.len() == 0 {
        seq![s]
    } else {
        let rest = spec_split(s.drop_first(), sep);
        rest.update(0, seq![s[0]] + rest[0])
    }
}

/// A split yields at least one token, even of the empty string.
pub proof fn lemma_split_len(s: Seq<char>, sep: Seq<char>)
    ensures
        spec_split(s, sep).len() >= 1,
    decreases s.len(),
{
    if sep.len() == 0 {
    } else if s.len() >= sep.len() && s.subrange(0, sep.len() as int) == sep {
        lemma_split_len(s.skip(sep.len() as int), sep);
    } else if s.len() == 0 {
    } else {
        lemma_split_len(s.drop_first(), sep);
    }
}

/// A string free of the separator is a single token.
pub proof fn lemma_split_none(s: Seq<char>, sep: Seq<char>)
    requires
        sep.len() > 0,
        forall|i: int| !occurs_at(s, sep, i),
    ensures
        spec_split(s, sep) == seq![s],
    decreases s.len(),
{
    if s.len() >= sep.len() && s.subrange(0, sep.len() as int) == sep {
        assert(occurs_at(s, sep, 0));
    } else if s.len() == 0 {
    } else {
        assert forall|i: int| !occurs_at(s.drop_first(), sep, i) by {
            if occurs_at(s.drop_first(), sep, i) {
                assert(s.subrange(i + 1, i + 1 + sep.len()) =~= s.drop_first().subrange(
                    i,
                    i + sep.len(),
                ));
                assert(occurs_at(s, sep, i + 1));
            }
        }
        lemma_split_none(s.drop_first(), sep);
        assert(spec_split(s, sep) == seq![s].update(0, seq![s[0]] + s.drop_first()));
        assert(seq![s[0]] + s.drop_first() =~= s);
        assert(seq![s].update(0, seq![s[0]] + s.drop_first()) =~= seq![s]);
    }
}

/// The token before the leftmost separator occurrence, and the split of what
/// follows it, together make up the whole split.
pub proof fn lemma_split_at(s: Seq<char>, sep: Seq<char>, k: int)
    requires
        sep.len() > 0,
        occurs_at(s, sep, k),
        forall|i: int| 0 <= i < k ==> !occurs_at(s, sep, i),
    ensures
        spec_split(s, sep) == seq![s.subrange(0, k)] + spec_split(s.skip(k + sep.len()), sep),
    decreases s.len(),
{
    if k == 0 {
        assert(s.subrange(0, sep.len() as int) == sep);
        assert(spec_split(s, sep) == seq![Seq::<char>::empty()] + spec_split(
            s.skip(sep.len() as int),
            sep,
        ));
        assert(s.subrange(0, 0) =~= Seq::<char>::empty());
    } else {
        assert(!occurs_at(s, sep, 0));
        if s.len() >= sep.len() && s.subrange(0, sep.len() as int) == sep {
            assert(occurs_at(s, sep, 0));
        }
        assert(s.len() > 0) by {
            assert(k + sep.len() <= s.len());
        }
        let t = s.drop_first();
        assert(occurs_at(t, sep, k - 1)) by {
            assert(t.subrange(k - 1, k - 1 + sep.len()) =~= s.subrange(k, k + sep.len()));
        }
        assert forall|i: int| 0 <= i < k - 1 implies !occurs_at(t, sep, i) by {
            if occurs_at(t, sep, i) {
                assert(s.subrange(i + 1, i + 1 + sep.len()) =~= t.subrange(i, i + sep.len()));
                assert(occurs_at(s, sep, i + 1));
            }
        }
        lemma_split_at(t, sep, k - 1);
        let rest = spec_split(t, sep);
        assert(rest == seq![t.subrange(0, k - 1)] + spec_split(t.skip(k - 1 + sep.len()), sep));
        assert(spec_split(s, sep) == rest.update(0, seq![s[0]] + rest[0]));
        assert(rest[0] == t.subrange(0, k - 1));
        assert(seq![s[0]] + t.subrange(0, k - 1) =~= s.subrange(0, k));
        assert(t.skip(k - 1 + sep.len()) =~= s.skip(k + sep.len()));
        assert(rest.update(0, s.subrange(0, k)) =~= seq![s.subrange(0, k)] + spec_split(
            s.skip(k + sep.len()),
            sep,
        ));
    }
}

/// `sep` occurs at character position `i` of `s`.
fn matches_at(s: &str, n: usize, i: usize, sep: &str, m: usize) -> (r: bool)
    requires
        n == s@.len(),
        m == sep@.len(),
        i <= n,
    ensures
        r == occurs_at(s@, sep@, i as int),
{
    if m > n - i {
        assert(!occurs_at(s@, sep@, i as int));
        return false;
    }
    let mut j: usize = 0;
    while j < m
        invariant
            j <= m,
            i + m <= n,
            n == s@.len(),
            m == sep@.len(),
            forall|t: int| 0 <= t < j ==> s@[i + t] == sep@[t],
        decreases m - j,
    {
        if s.get_char(i + j) != sep.get_char(j) {
            assert(s@.subrange(i as int, i + m) != sep@) by {
                assert(s@.subrange(i as int, i + m)[j as int] == s@[i + j]);
            }
            return false;
        }
        j += 1;
    }
    assert(s@.subrange(i as int, i + m) =~= sep@);
    true
}

/// The tokens of `path` split on `sep`, per [`spec_split`].
pub fn split_path(path: &str, sep: &str) -> (r: Vec<String>)
    requires
        sep@.len() > 0,
    ensures
        r.deep_view() == spec_split(path@, sep@),
        r.len() >= 1,
{
    let n = path.unicode_len();
    let m = sep.unicode_len();
    let mut parts: Vec<String> = Vec::new();
    let mut start: usize = 0;
    let mut i: usize = 0;
    proof {
        assert(parts.deep_view() =~= Seq::<Seq<char>>::empty());
        assert(path@.skip(0) =~= path@);
        assert(parts.deep_view() + spec_split(path@, sep@) =~= spec_split(path@, sep@));
    }
    while m <= n - i
        invariant
            start <= i <= n,
            n == path@.len(),
            m == sep@.len(),
            m > 0,
            parts.deep_view() + spec_split(path@.skip(start as int), sep@) == spec_split(
                path@,
                sep@,
            ),
            forall|t: int| 0 <= t < i - start ==> !occurs_at(path@.skip(start as int), sep@, t),
        decreases n - i,
    {
        if matches_at(path, n, i, sep, m) {
            let piece = String::from_str(path.substring_char(start, i));
            let ghost pre = parts.deep_view();
            proof {
                let tail = path@.skip(start as int);
                assert(occurs_at(tail, sep@, i - start)) by {
                    assert(tail.subrange(i - start, i - start + m) =~= path@.subrange(
                        i as int,
                        i + m,
                    ));
                }
                lemma_split_at(tail, sep@, i - start);
                assert(tail.subrange(0, i - start) =~= path@.subrange(start as int, i as int));
                assert(tail.skip(i - start + m) =~= path@.skip(i + m));
                assert(piece@ == tail.subrange(0, i - start));
            }
            parts.push(piece);
            proof {
                assert(parts.deep_view() =~= pre.push(piece@));
                assert(parts.deep_view() + spec_split(path@.skip(i + m), sep@) =~= pre
                    + spec_split(path@.skip(start as int), sep@));
            }
            start = i + m;
            i = start;
        } else {
            proof {
                let tail = path@.skip(start as int);
                if occurs_at(tail, sep@, i - start) {
                    assert(path@.subrange(i as int, i + m) =~= tail.subrange(
                        i - start,
                        i - start + m,
                    ));
                }
            }
            i += 1;
        }
    }
    let last = String::from_str(path.substring_char(start, n));
    let ghost pre = parts.deep_view();
    proof {
        let tail = path@.skip(start as int);
        assert forall|t: int| !occurs_at(tail, sep@, t) by {
            if occurs_at(tail, sep@, t) {
                assert(t + m <= n - start);
                assert(t < i - start);
            }
        }
        lemma_split_none(tail, sep@);
        assert(last@ =~= tail);
    }
    parts.push(last);
    proof {
        assert(parts.deep_view() =~= pre.push(last@));
        assert(pre.push(last@) =~= pre + seq![path@.skip(start as int)]);
        assert(parts.deep_view() =~= spec_split(path@, sep@));
    }
    parts
}

} // verus!
