//! Fixed-size combinations of a candidate list, drawn through itertools.

use vstd::prelude::*;

use itertools::Itertools;

verus! {

/// Every `k`-element combination of `s`. Each combination keeps the order
/// of `s`, and the combinations are listed in lexicographic order of the
/// chosen positions: first all that keep `s`'s head, then all that drop it.
pub open spec fn combos(s: Seq<u32>, k: nat) -> Seq<Seq<u32>>
    decreases s.len(),
{
    if k == 0 {
        seq![Seq::empty()]
    } else if s.len() < k {
        Seq::empty()
    } else {
        combos(s.drop_first(), (k - 1) as nat).map_values(|t: Seq<u32>| seq![s.first()] + t)
            + combos(s.drop_first(), k)
    }
}

/// Relies on itertools' `Itertools::combinations`: it yields every
/// `k`-element combination of the input exactly once, each keeping the
/// input's order, in lexicographic order of the chosen positions.
#[verifier::external_body]
pub(crate) fn combinations_of(items: &Vec<u32>, k: usize) -> (r: Vec<Vec<u32>>)
    ensures
        r@.map_values(|c: Vec<u32>| c@) == combos(items@, k as nat),
{
    items.iter().copied().combinations(k).collect()
}

/// Each combination of a duplicate-free list has exactly `k` elements, all
/// drawn from the list, without repetition.
pub proof fn lemma_combos_elem(s: Seq<u32>, k: nat, i: int)
    requires
        s.no_duplicates(),
        0 <= i < combos(s, k).len(),
    ensures
        combos(s, k)[i].len() == k,
        combos(s, k)[i].no_duplicates(),
        forall|j: int| 0 <= j < k ==> s.contains(#[trigger] combos(s, k)[i][j]),
    decreases s.len(),
{
    let c = combos(s, k)[i];
    if k == 0 {
        assert(c =~= Seq::<u32>::empty());
    } else if s.len() < k {
    } else {
        let d = s.drop_first();
        assert(d.no_duplicates()) by {
            assert forall|i1: int, j1: int|
                0 <= i1 < d.len() && 0 <= j1 < d.len() && i1 != j1 implies d[i1] != d[j1] by {
                assert(d[i1] == s[i1 + 1]);
                assert(d[j1] == s[j1 + 1]);
            }
        }
        assert forall|x: u32| d.contains(x) implies s.contains(x) by {
            let m = choose|m: int| 0 <= m < d.len() && d[m] == x;
            assert(s[m + 1] == x);
        }
        let a = combos(d, (k - 1) as nat).map_values(|t: Seq<u32>| seq![s.first()] + t);
        let b = combos(d, k);
        if i < a.len() {
            let t = combos(d, (k - 1) as nat)[i];
            lemma_combos_elem(d, (k - 1) as nat, i);
            assert(c == seq![s.first()] + t);
            assert(c[0] == s.first());
            assert(s.contains(s.first())) by {
                assert(s[0] == s.first());
            }
            assert forall|j: int| 0 <= j < k implies s.contains(#[trigger] c[j]) by {
                if j >= 1 {
                    assert(c[j] == t[j - 1]);
                    assert(d.contains(t[j - 1]));
                }
            }
            assert(c.no_duplicates()) by {
                assert forall|i1: int, j1: int|
                    0 <= i1 < c.len() && 0 <= j1 < c.len() && i1 != j1 implies c[i1] != c[j1] by {
                    if i1 >= 1 && j1 >= 1 {
                        assert(c[i1] == t[i1 - 1]);
                        assert(c[j1] == t[j1 - 1]);
                    } else {
                        let other = if i1 == 0 {
                            j1
                        } else {
                            i1
                        };
                        assert(c[other] == t[other - 1]);
                        assert(d.contains(t[other - 1]));
                        let m = choose|m: int| 0 <= m < d.len() && d[m] == t[other - 1];
                        assert(s[m + 1] == t[other - 1]);
                        assert(s[0] == s.first());
                    }
                }
            }
        } else {
            lemma_combos_elem(d, k, i - a.len());
            assert(c == combos(d, k)[i - a.len()]);
            assert forall|j: int| 0 <= j < k implies s.contains(#[trigger] c[j]) by {
                assert(d.contains(c[j]));
            }
        }
    }
}

} // verus!
