//! Verified text scanning: whitespace tokenization, splitting on a
//! separator, and trimming, each exec function proved against a spec
//! function over the string's characters.
//!
//! Whitespace here is ASCII whitespace; the provider protocol and the
//! IP-discovery responses use no other.

use vstd::prelude::*;

verus! {

/// The ASCII whitespace characters.
pub open spec fn is_ws_char(c: char) -> bool {
    c == ' ' || c == '\t' || c == '\n' || c == '\r' || c == '\u{000b}' || c == '\u{000c}'
}

fn is_ws(c: char) -> (r: bool)
    ensures
        r == is_ws_char(c),
{
    c == ' ' || c == '\t' || c == '\n' || c == '\r' || c == '\u{000b}' || c == '\u{000c}'
}

/// The whitespace-delimited tokens of `s`, in order, defined by folding
/// over the characters from the left: a non-whitespace character either
/// starts a new token or extends the one before it.
pub open spec fn tokens(s: Seq<char>) -> Seq<Seq<char>>
    decreases s.len(),
{
    if s.len() == 0 {
        Seq::empty()
    } else {
        let rest = tokens(s.drop_last());
        let c = s.last();
        if is_ws_char(c) {
            rest
        } else if s.len() >= 2 && !is_ws_char(s[s.len() - 2]) {
            rest.update(rest.len() - 1, rest.last().push(c))
        } else {
            rest.push(seq![c])
        }
    }
}

/// The parts of `s` around each occurrence of `sep`, empty parts kept:
/// splitting the empty string gives one empty part.
pub open spec fn split_on(s: Seq<char>, sep: char) -> Seq<Seq<char>>
    decreases s.len(),
{
    if s.len() == 0 {
        seq![Seq::empty()]
    } else {
        let rest = split_on(s.drop_last(), sep);
        let c = s.last();
        if c == sep {
            rest.push(Seq::empty())
        } else {
            rest.update(rest.len() - 1, rest.last().push(c))
        }
    }
}

/// `s` without leading and trailing whitespace.
pub open spec fn trim_spec(s: Seq<char>) -> Seq<char>
    decreases s.len(),
{
    if s.len() == 0 {
        s
    } else if is_ws_char(s.first()) {
        trim_spec(s.drop_first())
    } else if is_ws_char(s.last()) {
        trim_spec(s.drop_last())
    } else {
        s
    }
}

proof fn lemma_split_on_nonempty(s: Seq<char>, sep: char)
    ensures
        split_on(s, sep).len() >= 1,
    decreases s.len(),
{
    if s.len() > 0 {
        lemma_split_on_nonempty(s.drop_last(), sep);
    }
}

/// Split `s` into its whitespace-delimited tokens.
pub fn split_whitespace_tokens(s: &str) -> (toks: Vec<String>)
    ensures
        toks.deep_view() == tokens(s@),
{
    let n = s.unicode_len();
    let mut toks: Vec<String> = Vec::new();
    let mut start: usize = 0;
    let mut in_token: bool = false;
    let mut i: usize = 0;
    while i < n
        invariant
            n == s@.len(),
            i <= n,
            in_token ==> start < i && (start == 0 || is_ws_char(s@[start - 1])) && (forall|k: int|
                start <= k < i ==> !is_ws_char(s@[k])),
            !in_token ==> (i == 0 || is_ws_char(s@[i - 1])),
            !in_token ==> toks.deep_view() == tokens(s@.take(i as int)),
            in_token ==> toks.deep_view().push(s@.subrange(start as int, i as int)) == tokens(
                s@.take(i as int),
            ),
        decreases n - i,
    {
        let ghost pre = s@.take(i as int);
        let ghost post = s@.take(i + 1 as int);
        proof {
            assert(post.drop_last() =~= pre);
            assert(post.last() == s@[i as int]);
        }
        let c = s.get_char(i);
        if is_ws(c) {
            if in_token {
                let tok = s.substring_char(start, i);
                toks.push(String::from_str(tok));
                in_token = false;
                proof {
                    assert(toks.deep_view() =~= tokens(post));
                }
            } else {
                proof {
                    assert(toks.deep_view() =~= tokens(post));
                }
            }
        } else {
            if !in_token {
                start = i;
                in_token = true;
                proof {
                    assert(post.len() >= 2 ==> is_ws_char(post[post.len() - 2]));
                    assert(tokens(post) == tokens(pre).push(seq![s@[i as int]]));
                    assert(s@.subrange(i as int, i + 1 as int) =~= seq![s@[i as int]]);
                    assert(toks.deep_view().push(s@.subrange(start as int, i + 1 as int)) =~= tokens(
                        post,
                    ));
                }
            } else {
                proof {
                    assert(!is_ws_char(post[post.len() - 2]));
                    let t = tokens(pre);
                    assert(t == toks.deep_view().push(s@.subrange(start as int, i as int)));
                    assert(t.len() >= 1);
                    assert(tokens(post) == t.update(t.len() - 1, t.last().push(s@[i as int])));
                    assert(t.last() == s@.subrange(start as int, i as int));
                    assert(s@.subrange(start as int, i as int).push(s@[i as int]) =~= s@.subrange(
                        start as int,
                        i + 1 as int,
                    ));
                    assert(toks.deep_view().push(s@.subrange(start as int, i + 1 as int)) =~= tokens(
                        post,
                    ));
                }
            }
        }
        i += 1;
    }
    proof {
        assert(s@.take(n as int) =~= s@);
    }
    if in_token {
        let tok = s.substring_char(start, n);
        toks.push(String::from_str(tok));
        proof {
            assert(toks.deep_view() =~= tokens(s@));
        }
    }
    toks
}

/// Split `s` on each occurrence of `sep`, keeping empty parts.
pub fn split_char(s: &str, sep: char) -> (parts: Vec<String>)
    ensures
        parts.deep_view() == split_on(s@, sep),
        parts.len() >= 1,
{
    let n = s.unicode_len();
    let mut parts: Vec<String> = Vec::new();
    let mut start: usize = 0;
    let mut i: usize = 0;
    proof {
        assert(s@.subrange(0, 0) =~= Seq::<char>::empty());
        assert(s@.take(0) =~= Seq::<char>::empty());
        assert(parts.deep_view().push(s@.subrange(0, 0)) =~= split_on(s@.take(0), sep));
    }
    while i < n
        invariant
            n == s@.len(),
            i <= n,
            start <= i,
            parts.deep_view().push(s@.subrange(start as int, i as int)) == split_on(
                s@.take(i as int),
                sep,
            ),
        decreases n - i,
    {
        let ghost pre = s@.take(i as int);
        let ghost post = s@.take(i + 1 as int);
        proof {
            assert(post.drop_last() =~= pre);
            assert(post.last() == s@[i as int]);
        }
        let c = s.get_char(i);
        if c == sep {
            let part = s.substring_char(start, i);
            parts.push(String::from_str(part));
            start = i + 1;
            proof {
                assert(s@.subrange(i + 1 as int, i + 1 as int) =~= Seq::<char>::empty());
                assert(parts.deep_view().push(s@.subrange(start as int, i + 1 as int)) =~= split_on(
                    post,
                    sep,
                ));
            }
        } else {
            proof {
                let t = split_on(pre, sep);
                lemma_split_on_nonempty(pre, sep);
                assert(t.last() == s@.subrange(start as int, i as int));
                assert(s@.subrange(start as int, i as int).push(s@[i as int]) =~= s@.subrange(
                    start as int,
                    i + 1 as int,
                ));
                assert(parts.deep_view().push(s@.subrange(start as int, i + 1 as int)) =~= split_on(
                    post,
                    sep,
                ));
            }
        }
        i += 1;
    }
    let last = s.substring_char(start, n);
    parts.push(String::from_str(last));
    proof {
        assert(s@.take(n as int) =~= s@);
        assert(parts.deep_view() =~= split_on(s@, sep));
    }
    parts
}

/// Trim leading and trailing whitespace from `s`.
pub fn trim(s: &str) -> (r: &str)
    ensures
        r@ == trim_spec(s@),
{
    let n = s.unicode_len();
    let mut lo: usize = 0;
    let mut hi: usize = n;
    proof {
        assert(s@.subrange(0, n as int) =~= s@);
    }
    while lo < hi
        invariant
            n == s@.len(),
            lo <= hi <= n,
            trim_spec(s@) == trim_spec(s@.subrange(lo as int, hi as int)),
        ensures
            lo <= hi <= n,
            trim_spec(s@) == trim_spec(s@.subrange(lo as int, hi as int)),
            lo < hi ==> !is_ws_char(s@[lo as int]),
        decreases hi - lo,
    {
        let c = s.get_char(lo);
        if !is_ws(c) {
            break;
        }
        proof {
            let cur = s@.subrange(lo as int, hi as int);
            assert(cur.drop_first() =~= s@.subrange(lo + 1 as int, hi as int));
        }
        lo += 1;
    }
    while lo < hi
        invariant
            n == s@.len(),
            lo <= hi <= n,
            trim_spec(s@) == trim_spec(s@.subrange(lo as int, hi as int)),
            lo < hi ==> !is_ws_char(s@[lo as int]),
        ensures
            lo <= hi <= n,
            trim_spec(s@) == trim_spec(s@.subrange(lo as int, hi as int)),
            lo < hi ==> !is_ws_char(s@[lo as int]) && !is_ws_char(s@[hi - 1]),
        decreases hi - lo,
    {
        let c = s.get_char(hi - 1);
        if !is_ws(c) {
            break;
        }
        proof {
            let cur = s@.subrange(lo as int, hi as int);
            assert(cur.drop_last() =~= s@.subrange(lo as int, hi - 1 as int));
        }
        hi -= 1;
    }
    proof {
        let cur = s@.subrange(lo as int, hi as int);
        assert(trim_spec(cur) == cur);
    }
    s.substring_char(lo, hi)
}

} // verus!
