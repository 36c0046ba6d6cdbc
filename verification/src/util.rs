//! Small text utilities: comparing, sorting and joining strings.

use vstd::prelude::*;
use vstd::multiset::Multiset;
use vstd::relations::sorted_by;

use crate::text::split_on;

verus! {

/// Compare two strings character by character.
pub fn str_eq(a: &str, b: &str) -> (r: bool)
    ensures
        r == (a@ == b@),
{
    let an = a.unicode_len();
    let bn = b.unicode_len();
    if an != bn {
        return false;
    }
    let mut i: usize = 0;
    while i < an
        invariant
            an == a@.len(),
            an == b@.len(),
            i <= an,
            forall|k: int| 0 <= k < i ==> a@[k] == b@[k],
        decreases an - i,
    {
        if a.get_char(i) != b.get_char(i) {
            return false;
        }
        i += 1;
    }
    proof {
        assert(a@ =~= b@);
    }
    true
}

/// Lexicographic order on character sequences by code point, the order
/// `str` and `String` compare in.
pub open spec fn lex_leq(a: Seq<char>, b: Seq<char>) -> bool
    decreases a.len(),
{
    if a.len() == 0 {
        true
    } else if b.len() == 0 {
        false
    } else if (a[0] as u32) < (b[0] as u32) {
        true
    } else if (a[0] as u32) > (b[0] as u32) {
        false
    } else {
        lex_leq(a.drop_first(), b.drop_first())
    }
}

/// The order as a value, for `sorted_by`.
pub open spec fn lex_leq_f() -> spec_fn(Seq<char>, Seq<char>) -> bool {
    |a: Seq<char>, b: Seq<char>| lex_leq(a, b)
}

/// The order is reflexive.
pub proof fn lemma_lex_leq_refl(a: Seq<char>)
    ensures
        lex_leq(a, a),
    decreases a.len(),
{
    if a.len() > 0 {
        lemma_lex_leq_refl(a.drop_first());
    }
}

/// The order is antisymmetric: a sorted permutation of given strings is
/// therefore unique.
pub proof fn lemma_lex_leq_antisym(a: Seq<char>, b: Seq<char>)
    requires
        lex_leq(a, b),
        lex_leq(b, a),
    ensures
        a == b,
    decreases a.len(),
{
    if a.len() > 0 {
        assert(a[0] as u32 == b[0] as u32);
        vstd::utf8::char_u32_cast(a[0], a[0] as u32);
        vstd::utf8::char_u32_cast(b[0], b[0] as u32);
        assert(a[0] == b[0]);
        lemma_lex_leq_antisym(a.drop_first(), b.drop_first());
        assert(a =~= seq![a[0]] + a.drop_first());
        assert(b =~= seq![b[0]] + b.drop_first());
    }
}

/// The order is total.
pub proof fn lemma_lex_leq_total(a: Seq<char>, b: Seq<char>)
    ensures
        lex_leq(a, b) || lex_leq(b, a),
    decreases a.len(),
{
    if a.len() > 0 && b.len() > 0 && !((a[0] as u32) < (b[0] as u32)) && !((a[0] as u32) > (
    b[0] as u32)) {
        lemma_lex_leq_total(a.drop_first(), b.drop_first());
    }
}

/// The order is transitive.
pub proof fn lemma_lex_leq_trans(a: Seq<char>, b: Seq<char>, c: Seq<char>)
    requires
        lex_leq(a, b),
        lex_leq(b, c),
    ensures
        lex_leq(a, c),
    decreases a.len(),
{
    if a.len() > 0 && b.len() > 0 && c.len() > 0 && !((a[0] as u32) < (b[0] as u32)) && !((
    b[0] as u32) < (c[0] as u32)) {
        lemma_lex_leq_trans(a.drop_first(), b.drop_first(), c.drop_first());
    }
}

/// Compare two strings in lexicographic order.
pub fn str_le(a: &str, b: &str) -> (r: bool)
    ensures
        r == lex_leq(a@, b@),
{
    let an = a.unicode_len();
    let bn = b.unicode_len();
    let mut i: usize = 0;
    proof {
        assert(a@.skip(0) =~= a@);
        assert(b@.skip(0) =~= b@);
    }
    while i < an && i < bn
        invariant
            an == a@.len(),
            bn == b@.len(),
            i <= an,
            i <= bn,
            lex_leq(a@, b@) == lex_leq(a@.skip(i as int), b@.skip(i as int)),
        decreases an - i,
    {
        let ca = a.get_char(i);
        let cb = b.get_char(i);
        proof {
            assert(a@.skip(i as int)[0] == a@[i as int]);
            assert(b@.skip(i as int)[0] == b@[i as int]);
        }
        if (ca as u32) < (cb as u32) {
            return true;
        }
        if (ca as u32) > (cb as u32) {
            return false;
        }
        proof {
            assert(a@.skip(i as int).drop_first() =~= a@.skip(i + 1 as int));
            assert(b@.skip(i as int).drop_first() =~= b@.skip(i + 1 as int));
        }
        i += 1;
    }
    proof {
        if i >= an {
            assert(a@.skip(i as int).len() == 0);
        } else {
            assert(b@.skip(i as int).len() == 0);
            assert(a@.skip(i as int).len() > 0);
        }
    }
    an <= bn
}

/// Sort strings into lexicographic order. The result is ordered and
/// holds exactly the same strings, multiplicity kept.
fn sorted_strings(input: Vec<String>) -> (r: Vec<String>)
    ensures
        r.deep_view().to_multiset() == input.deep_view().to_multiset(),
        sorted_by(r.deep_view(), lex_leq_f()),
{
    broadcast use vstd::seq_lib::group_to_multiset_ensures;

    let ghost total = input.deep_view().to_multiset();
    let mut rest = input;
    let mut out: Vec<String> = Vec::new();
    while rest.len() > 0
        invariant
            out.deep_view().to_multiset().add(rest.deep_view().to_multiset()) == total,
            sorted_by(out.deep_view(), lex_leq_f()),
            forall|i: int, j: int|
                0 <= i < out.deep_view().len() && 0 <= j < rest.deep_view().len() ==> lex_leq(
                    #[trigger] out.deep_view()[i],
                    #[trigger] rest.deep_view()[j],
                ),
        decreases rest.len(),
    {
        let ghost rdv = rest.deep_view();
        // Find the least remaining string.
        let mut m: usize = 0;
        let mut k: usize = 1;
        proof {
            lemma_lex_leq_refl(rdv[0]);
        }
        while k < rest.len()
            invariant
                rdv == rest.deep_view(),
                rest@.len() == rdv.len(),
                m < k <= rdv.len(),
                k >= 1,
                forall|q: int| 0 <= q < k ==> lex_leq(rdv[m as int], #[trigger] rdv[q]),
            decreases rest@.len() - k,
        {
            proof {
                assert(rdv[k as int] == rest@[k as int]@);
                assert(rdv[m as int] == rest@[m as int]@);
            }
            if str_le(rest[k].as_str(), rest[m].as_str()) {
                proof {
                    assert forall|q: int| 0 <= q < k implies lex_leq(
                        rdv[k as int],
                        #[trigger] rdv[q],
                    ) by {
                        lemma_lex_leq_trans(rdv[k as int], rdv[m as int], rdv[q]);
                    }
                    lemma_lex_leq_refl(rdv[k as int]);
                }
                m = k;
            } else {
                proof {
                    lemma_lex_leq_total(rdv[m as int], rdv[k as int]);
                }
            }
            k += 1;
        }
        let x = rest.remove(m);
        let ghost odv = out.deep_view();
        out.push(x);
        proof {
            odv.to_multiset_ensures();
            rdv.to_multiset_ensures();
            assert(x@ == rdv[m as int]);
            // The views follow the vector operations.
            assert(out.deep_view() =~= odv.push(x@));
            assert(rest.deep_view() =~= rdv.remove(m as int));
            // The removed-and-pushed string keeps the multiset balance.
            assert(odv.push(x@).to_multiset() =~= odv.to_multiset().insert(x@));
            assert(rdv.remove(m as int).to_multiset() =~= rdv.to_multiset().remove(x@));
            assert(rdv.to_multiset().count(x@) >= 1) by {
                assert(rdv.contains(rdv[m as int]));
            }
            assert(odv.to_multiset().insert(x@).add(rdv.to_multiset().remove(x@)) =~= odv
                .to_multiset().add(rdv.to_multiset()));
            // The new last element is ordered after everything before it,
            // and before everything that remains.
            assert(sorted_by(out.deep_view(), lex_leq_f())) by {
                assert(forall|i: int|
                    0 <= i < odv.len() ==> lex_leq(#[trigger] odv[i], x@));
            }
            assert forall|i: int, j: int|
                0 <= i < out.deep_view().len() && 0 <= j < rest.deep_view().len() implies lex_leq(
                #[trigger] out.deep_view()[i],
                #[trigger] rest.deep_view()[j],
            ) by {
                let nout = out.deep_view();
                let nrest = rest.deep_view();
                assert(nrest[j] == if j < m { rdv[j] } else { rdv[j + 1] });
                if i < odv.len() {
                    assert(nout[i] == odv[i]);
                } else {
                    assert(nout[i] == x@);
                }
            }
        }
    }
    proof {
        assert(rest.deep_view().to_multiset() =~= Multiset::<Seq<char>>::empty()) by {
            assert(rest.deep_view().len() == 0);
        }
        assert(out.deep_view().to_multiset() =~= total);
    }
    out
}

/// Split a comma-separated list into its parts and sort them. An empty
/// string gives no parts at all; otherwise the result holds exactly the
/// parts of the split, in lexicographic order.
pub fn split_to_sorted_vec(s: &str) -> (r: Vec<String>)
    ensures
        s@.len() == 0 ==> r@.len() == 0,
        s@.len() > 0 ==> r.deep_view().to_multiset() == split_on(s@, ',').to_multiset(),
        sorted_by(r.deep_view(), lex_leq_f()),
{
    if s.is_empty() {
        let r: Vec<String> = Vec::new();
        return r;
    }
    let parts = crate::text::split_char(s, ',');
    sorted_strings(parts)
}

/// The parts joined by commas, in order.
pub open spec fn join_comma(parts: Seq<Seq<char>>) -> Seq<char>
    decreases parts.len(),
{
    if parts.len() == 0 {
        Seq::empty()
    } else if parts.len() == 1 {
        parts[0]
    } else {
        join_comma(parts.drop_last()) + seq![','] + parts.last()
    }
}

/// Join the configured hostnames by commas, in configured order, as the
/// update endpoint's `hostname` parameter wants them.
pub fn join_hostnames(hostnames: &Vec<String>) -> (r: String)
    ensures
        r@ == join_comma(hostnames.deep_view()),
{
    let ghost hv = hostnames.deep_view();
    let mut out = String::new();
    let n = hostnames.len();
    let mut i: usize = 0;
    proof {
        reveal_strlit(",");
        assert(hv.take(0) =~= Seq::<Seq<char>>::empty());
    }
    while i < n
        invariant
            hv == hostnames.deep_view(),
            n == hostnames@.len(),
            hv.len() == n,
            i <= n,
            out@ == join_comma(hv.take(i as int)),
        decreases n - i,
    {
        proof {
            assert(hv[i as int] == hostnames@[i as int]@);
            assert(hv.take(i + 1 as int).drop_last() =~= hv.take(i as int));
            assert(hv.take(i + 1 as int).last() == hv[i as int]);
        }
        if i > 0 {
            out.append(",");
            proof {
                reveal_strlit(",");
                assert(","@ =~= seq![',']);
            }
        } else {
            proof {
                assert(join_comma(hv.take(1)) == hv[0]);
            }
        }
        out.append(hostnames[i].as_str());
        i += 1;
    }
    proof {
        assert(hv.take(n as int) =~= hv);
    }
    out
}

} // verus!
