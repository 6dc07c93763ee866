//! Sorting of path strings, for deterministic scanner output independent of
//! host directory-iteration order.

use vstd::prelude::*;
use vstd::relations::sorted_by;
use vstd::seq_lib::group_to_multiset_ensures;

use crate::text::{lemma_lex_total, lemma_lex_trans, lex_leq, str_leq};

verus! {

/// The views of a sequence of strings.
pub open spec fn views_of(v: Seq<String>) -> Seq<Seq<char>> {
    v.map_values(|s: String| s@)
}

/// The lexicographic order as a relation value.
pub open spec fn lex_leq_rel() -> spec_fn(Seq<char>, Seq<char>) -> bool {
    |a: Seq<char>, b: Seq<char>| lex_leq(a, b)
}

/// Removing an element commutes with taking views.
proof fn lemma_views_remove(s: Seq<String>, j: int)
    requires
        0 <= j < s.len(),
    ensures
        views_of(s.remove(j)) =~= views_of(s).remove(j),
{
}

/// Inserting an element commutes with taking views.
proof fn lemma_views_insert(s: Seq<String>, j: int, x: String)
    requires
        0 <= j <= s.len(),
    ensures
        views_of(s.insert(j, x)) =~= views_of(s).insert(j, x@),
{
}

/// Sort the strings lexicographically: the result is ordered and holds the
/// same paths, each as often as before.
pub fn sort_strings(v: &mut Vec<String>)
    ensures
        sorted_by(views_of(final(v)@), lex_leq_rel()),
        views_of(final(v)@).to_multiset() == views_of(old(v)@).to_multiset(),
        final(v)@.len() == old(v)@.len(),
{
    broadcast use group_to_multiset_ensures;
    broadcast use vstd::multiset::group_multiset_axioms;

    let n = v.len();
    if n <= 1 {
        return;
    }
    let mut i: usize = 1;
    while i < n
        invariant
            n == v@.len(),
            n == old(v)@.len(),
            1 <= i <= n,
            sorted_by(views_of(v@).take(i as int), lex_leq_rel()),
            views_of(v@).to_multiset() == views_of(old(v)@).to_multiset(),
        decreases n - i,
    {
        let ghost s0 = v@;
        let ghost vs0 = views_of(s0);
        let ghost a = vs0[i as int];
        let mut k: usize = i;
        while k > 0 && !str_leq(v[k - 1].as_str(), v[i].as_str())
            invariant
                v@ == s0,
                n == s0.len(),
                vs0 == views_of(s0),
                a == vs0[i as int],
                k <= i < n,
                forall|m: int| k <= m < i ==> !lex_leq(vs0[m], a),
            decreases k,
        {
            proof {
                assert(vs0[k - 1] == s0[k - 1]@);
            }
            k -= 1;
        }
        proof {
            assert(vs0[i as int] == s0[i as int]@);
            if k > 0 {
                assert(vs0[k - 1] == s0[k - 1]@);
                assert(lex_leq(vs0[k - 1], a));
            }
            // everything before the insertion point stays at or below the
            // moved element, everything from it up to i sits strictly after
            assert forall|m: int| 0 <= m < k implies lex_leq(vs0[m], a) by {
                if m < k - 1 {
                    assert(lex_leq_rel()(vs0.take(i as int)[m], vs0.take(i as int)[k - 1]));
                    lemma_lex_trans(vs0[m], vs0[k - 1], a);
                }
            }
            assert forall|m: int| k <= m < i implies lex_leq(a, vs0[m]) by {
                lemma_lex_total(vs0[m], a);
            }
        }
        let x = v.remove(i);
        v.insert(k, x);
        proof {
            lemma_views_remove(s0, i as int);
            lemma_views_insert(s0.remove(i as int), k as int, x);
            let vs1 = views_of(v@);
            assert(vs1 =~= vs0.remove(i as int).insert(k as int, a));
            // pointwise shape of the reordered prefix
            assert forall|p: int| 0 <= p < n implies vs1[p] == (if p < k {
                vs0[p]
            } else if p == k {
                a
            } else if p <= i {
                vs0[p - 1]
            } else {
                vs0[p]
            }) by {}
            // the extended prefix is sorted
            assert forall|p: int, q: int|
                #![trigger vs1.take(i + 1)[p], vs1.take(i + 1)[q]]
                0 <= p < q < i + 1 implies lex_leq_rel()(
                vs1.take(i + 1)[p],
                vs1.take(i + 1)[q],
            ) by {
                let old_sorted = vs0.take(i as int);
                assert(sorted_by(old_sorted, lex_leq_rel()));
                if p < k && q < k {
                    assert(lex_leq_rel()(old_sorted[p], old_sorted[q]));
                } else if p < k && q == k {
                    assert(lex_leq(vs0[p], a));
                } else if p < k && q > k {
                    assert(lex_leq_rel()(old_sorted[p], old_sorted[q - 1]));
                } else if p == k && q > k {
                    if q - 1 < i {
                        assert(lex_leq(a, vs0[q - 1]));
                    }
                } else {
                    if p > k && q > k && q - 1 < i {
                        assert(lex_leq_rel()(old_sorted[p - 1], old_sorted[q - 1]));
                    }
                }
            }
            assert(sorted_by(vs1.take(i + 1), lex_leq_rel()));
            // the multiset is untouched: one removal, one reinsertion
            assert(vs0.contains(a));
            vstd::seq_lib::to_multiset_contains(vs0, a);
            vstd::seq_lib::to_multiset_remove(vs0, i as int);
            vstd::seq_lib::to_multiset_insert(vs0.remove(i as int), k as int, a);
            assert(vs1.to_multiset() =~= vs0.to_multiset().remove(a).insert(a));
            assert(vs0.to_multiset().remove(a).insert(a) =~= vs0.to_multiset());
        }
        i += 1;
    }
    proof {
        assert(views_of(v@).take(n as int) =~= views_of(v@));
    }
}

} // verus!
