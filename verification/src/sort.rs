//! Sorting the record set with the configured comparison.
//!
//! A stable insertion sort: ties keep their input order, which is what
//! stable and unique modes rely on, and with the last-resort comparison
//! active ties only occur between byte-identical records anyway.

use vstd::multiset::Multiset;
use vstd::prelude::*;
use vstd::seq_lib::lemma_multiset_commutative;

use core::cmp::Ordering;

use crate::compare::{compare_records, lemma_compare_flip, lemma_compare_le_trans,
    spec_compare_records};
use crate::config::Config;
use crate::views_of;

verus! {

broadcast use vstd::seq_lib::group_to_multiset_ensures;

/// Adjacent records are in order: no record compares Greater than its
/// successor.
pub open spec fn sorted_by_cmp(rs: Seq<Seq<u8>>, c: Config) -> bool {
    forall|i: int|
        0 <= i < rs.len() - 1 ==> #[trigger] spec_compare_records(rs[i], rs[i + 1], c)
            != Ordering::Greater
}

/// All pairs of records are in order: no earlier record compares Greater
/// than any later one.
pub open spec fn sorted_pairwise(rs: Seq<Seq<u8>>, c: Config) -> bool {
    forall|i: int, j: int|
        0 <= i < j < rs.len() ==> #[trigger] spec_compare_records(rs[i], rs[j], c)
            != Ordering::Greater
}

proof fn lemma_chain_le(rs: Seq<Seq<u8>>, c: Config, i: int, j: int)
    requires
        sorted_by_cmp(rs, c),
        0 <= i < j < rs.len(),
    ensures
        spec_compare_records(rs[i], rs[j], c) != Ordering::Greater,
    decreases j - i,
{
    if j == i + 1 {
    } else {
        lemma_chain_le(rs, c, i, j - 1);
        let k = j - 1;
        assert(spec_compare_records(rs[k], rs[k + 1], c) != Ordering::Greater);
        lemma_compare_le_trans(rs[i], rs[j - 1], rs[j], c);
    }
}

/// Because the comparison is transitive, an adjacent-ordered sequence is
/// ordered in every pair.
pub proof fn lemma_sorted_pairwise(rs: Seq<Seq<u8>>, c: Config)
    requires
        sorted_by_cmp(rs, c),
    ensures
        sorted_pairwise(rs, c),
{
    assert forall|i: int, j: int|
        0 <= i < j < rs.len() implies #[trigger] spec_compare_records(rs[i], rs[j], c)
        != Ordering::Greater by {
        lemma_chain_le(rs, c, i, j);
    }
}

proof fn lemma_views_remove(s: Seq<Vec<u8>>, i: int)
    requires
        0 <= i < s.len(),
    ensures
        views_of(s.remove(i)) =~= views_of(s).remove(i),
{
    s.remove_ensures(i);
    views_of(s).remove_ensures(i);
    assert forall|k: int| 0 <= k < s.len() - 1 implies views_of(s.remove(i))[k] == views_of(
        s,
    ).remove(i)[k] by {
        if k < i {
            assert(s.remove(i)[k] == s[k]);
            assert(views_of(s).remove(i)[k] == views_of(s)[k]);
        } else {
            assert(s.remove(i)[k] == s[k + 1]);
            assert(views_of(s).remove(i)[k] == views_of(s)[k + 1]);
        }
    }
}

proof fn lemma_views_insert(s: Seq<Vec<u8>>, i: int, v: Vec<u8>)
    requires
        0 <= i <= s.len(),
    ensures
        views_of(s.insert(i, v)) =~= views_of(s).insert(i, v@),
{
    s.insert_ensures(i, v);
    views_of(s).insert_ensures(i, v@);
    assert forall|k: int| 0 <= k < s.len() + 1 implies views_of(s.insert(i, v))[k] == views_of(
        s,
    ).insert(i, v@)[k] by {
        if k < i {
            assert(s.insert(i, v)[k] == s[k]);
            assert(views_of(s).insert(i, v@)[k] == views_of(s)[k]);
        } else if k == i {
            assert(s.insert(i, v)[k] == v);
            assert(views_of(s).insert(i, v@)[k] == v@);
        } else {
            assert(s.insert(i, v)[(k - 1) + 1] == s[k - 1]);
            assert(views_of(s).insert(i, v@)[(k - 1) + 1] == views_of(s)[k - 1]);
        }
    }
}

/// Inserting an element anywhere adds exactly it to the multiset.
proof fn lemma_insert_to_multiset(s: Seq<Seq<u8>>, j: int, v: Seq<u8>)
    requires
        0 <= j <= s.len(),
    ensures
        s.insert(j, v).to_multiset() == s.to_multiset().insert(v),
{
    let single = seq![v];
    assert(s.insert(j, v) =~= s.take(j) + (single + s.skip(j)));
    lemma_multiset_commutative(s.take(j), single + s.skip(j));
    lemma_multiset_commutative(single, s.skip(j));
    assert(s =~= s.take(j) + s.skip(j));
    lemma_multiset_commutative(s.take(j), s.skip(j));
    assert(single.to_multiset() =~= Multiset::empty().insert(v)) by {
        assert(single =~= Seq::<Seq<u8>>::empty().push(v));
        assert(Seq::<Seq<u8>>::empty().to_multiset() =~= Multiset::<Seq<u8>>::empty());
    }
    assert(s.take(j).to_multiset().add(single.to_multiset().add(s.skip(j).to_multiset()))
        =~= s.take(j).to_multiset().add(s.skip(j).to_multiset()).insert(v));
}

/// `after` is `before` rearranged by `perm` — position `k` of `after`
/// holds the record from position `perm[k]` of `before` — and records the
/// comparison ties appear in their original order: the sort was stable.
pub open spec fn stable_arrangement(
    before: Seq<Seq<u8>>,
    after: Seq<Seq<u8>>,
    perm: Seq<int>,
    c: Config,
) -> bool {
    &&& perm.len() == after.len()
    &&& after.len() == before.len()
    &&& forall|k: int| 0 <= k < perm.len() ==> 0 <= #[trigger] perm[k] < before.len()
    &&& forall|k: int, l: int|
        #![trigger perm[k], perm[l]]
        0 <= k < l < perm.len() ==> perm[k] != perm[l]
    &&& forall|k: int| 0 <= k < perm.len() ==> after[k] == before[#[trigger] perm[k]]
    &&& forall|k: int, l: int|
        0 <= k < l < perm.len() && #[trigger] spec_compare_records(after[k], after[l], c)
            == Ordering::Equal ==> perm[k] < perm[l]
}

/// Sort the records in place under the configured comparison.
///
/// Afterwards the records are the same multiset, ordered in every pair by
/// the comparison, and the sort is stable: some permutation witnesses that
/// records the comparison ties keep their relative input order.
pub fn sort_records(records: &mut Vec<Vec<u8>>, config: &Config)
    ensures
        sorted_by_cmp(views_of(final(records)@), *config),
        sorted_pairwise(views_of(final(records)@), *config),
        views_of(final(records)@).to_multiset() == views_of(old(records)@).to_multiset(),
        exists|perm: Seq<int>|
            stable_arrangement(views_of(old(records)@), views_of(final(records)@), perm, *config),
{
    let ghost orig = views_of(old(records)@);
    let n = records.len();
    let ghost mut perm: Seq<int> = Seq::new(n as nat, |k: int| k);
    let mut i: usize = 1;
    while i < n
        invariant
            1 <= i,
            n == records@.len(),
            views_of(records@).to_multiset() == orig.to_multiset(),
            orig.len() == n,
            perm.len() == n,
            forall|k: int| 0 <= k < n ==> 0 <= #[trigger] perm[k] < n,
            forall|k: int, l: int|
                #![trigger perm[k], perm[l]]
                0 <= k < l < n ==> perm[k] != perm[l],
            forall|k: int| 0 <= k < n ==> views_of(records@)[k] == orig[#[trigger] perm[k]],
            forall|k: int| i <= k < n ==> #[trigger] perm[k] == k,
            forall|k: int| 0 <= k < i && k < n ==> #[trigger] perm[k] < i,
            forall|k: int, l: int|
                0 <= k < l < i && l < n && #[trigger] spec_compare_records(
                    views_of(records@)[k],
                    views_of(records@)[l],
                    *config,
                ) == Ordering::Equal ==> perm[k] < perm[l],
            forall|k: int|
                0 <= k < i - 1 ==> #[trigger] spec_compare_records(
                    views_of(records@)[k],
                    views_of(records@)[k + 1],
                    *config,
                ) != Ordering::Greater,
        decreases n - i,
    {
        let ghost rv0 = records@;
        let ghost dv = views_of(records@);
        let x = records.remove(i);
        let ghost dvr = views_of(records@);
        proof {
            lemma_views_remove(rv0, i as int);
            assert(dvr =~= dv.remove(i as int));
            assert(x@ == dv[i as int]);
            assert(dv.contains(dv[i as int]));
            assert(dv.to_multiset().count(dv[i as int]) > 0);
            dv.remove_ensures(i as int);
        }
        let mut j: usize = i;
        while j > 0
            invariant
                j <= i,
                i < n,
                n - 1 == records@.len(),
                views_of(records@) == dvr,
                x@ == dv[i as int],
                forall|m: int|
                    j <= m < i ==> #[trigger] spec_compare_records(dvr[m], x@, *config)
                        == Ordering::Greater,
            ensures
                j <= i,
                views_of(records@) == dvr,
                forall|m: int|
                    j <= m < i ==> #[trigger] spec_compare_records(dvr[m], x@, *config)
                        == Ordering::Greater,
                j > 0 ==> spec_compare_records(dvr[j - 1], x@, *config) != Ordering::Greater,
            decreases j,
        {
            let c = compare_records(records[j - 1].as_slice(), x.as_slice(), config);
            proof {
                assert(dvr[j - 1] == records@[j - 1]@);
            }
            if !matches!(c, Ordering::Greater) {
                break;
            }
            j = j - 1;
        }
        let ghost rv_before = records@;
        let ghost xg = x;
        records.insert(j, x);
        proof {
            let dvn = views_of(records@);
            lemma_views_insert(rv_before, j as int, xg);
            assert(records@ == rv_before.insert(j as int, xg));
            assert(dvn =~= dvr.insert(j as int, dv[i as int]));
            lemma_insert_to_multiset(dvr, j as int, dv[i as int]);
            assert(dvn.to_multiset() == orig.to_multiset()) by {
                assert(dvr.to_multiset() == dv.to_multiset().remove(dv[i as int]));
                assert(dvr.to_multiset().insert(dv[i as int]) =~= dv.to_multiset());
            }
            dvr.insert_ensures(j as int, dv[i as int]);
            // positions of the new arrangement against the old one: a
            // shared index mapping for both records and permutation
            let pold = perm;
            let pr = pold.remove(i as int);
            pold.remove_ensures(i as int);
            pr.insert_ensures(j as int, i as int);
            perm = pr.insert(j as int, i as int);
            assert(perm.len() == n);
            let src = |k: int|
                if k < j {
                    k
                } else if k == j {
                    i as int
                } else if k <= i {
                    k - 1
                } else {
                    k
                };
            assert forall|k: int| 0 <= k < n implies #[trigger] perm[k] == pold[src(k)] && dvn[k]
                == dv[src(k)] by {
                if k < j {
                    assert(perm[k] == pr[k]);
                    assert(dvn[k] == dvr[k]);
                } else if k == j {
                    assert(perm[k] == i as int);
                    assert(pold[i as int] == i as int);
                    assert(dvn[k] == dv[i as int]);
                } else {
                    assert(perm[(k - 1) + 1] == pr[k - 1]);
                    assert(dvn[(k - 1) + 1] == dvr[k - 1]);
                    if k - 1 < i {
                        assert(pr[k - 1] == pold[k - 1]);
                        assert(dvr[k - 1] == dv[k - 1]);
                    } else {
                        assert(pr[k - 1] == pold[(k - 1) + 1]);
                        assert(dvr[k - 1] == dv[(k - 1) + 1]);
                    }
                }
            }
            assert forall|k: int| 0 <= k < n implies 0 <= #[trigger] perm[k] < n by {
                assert(perm[k] == pold[src(k)]);
            }
            assert forall|k: int, l: int|
                #![trigger perm[k], perm[l]]
                0 <= k < l < n implies perm[k] != perm[l] by {
                assert(perm[k] == pold[src(k)] && perm[l] == pold[src(l)]);
                assert(src(k) != src(l)) by {
                    if k < j && l == j {
                        assert(pold[k] < i);
                    }
                }
                if k == j && src(l) < i {
                    assert(pold[src(l)] < i);
                } else if l == j && src(k) < i {
                    assert(pold[src(k)] < i);
                } else if k == j && src(l) > i {
                    assert(pold[src(l)] == src(l));
                }
            }
            assert forall|k: int| 0 <= k < n implies dvn[k] == orig[#[trigger] perm[k]] by {
                assert(perm[k] == pold[src(k)] && dvn[k] == dv[src(k)]);
                assert(dv[src(k)] == orig[pold[src(k)]]);
            }
            assert forall|k: int| i + 1 <= k < n implies #[trigger] perm[k] == k by {
                assert(perm[k] == pold[src(k)]);
            }
            assert forall|k: int| 0 <= k < i + 1 implies #[trigger] perm[k] < i + 1 by {
                assert(perm[k] == pold[src(k)]);
                if k != j {
                    assert(src(k) < i);
                    assert(pold[src(k)] < i);
                }
            }
            // ties keep their original order: the inserted record was
            // placed after every record it ties with
            assert forall|k: int, l: int|
                0 <= k < l < i + 1 && #[trigger] spec_compare_records(dvn[k], dvn[l], *config)
                    == Ordering::Equal implies perm[k] < perm[l] by {
                assert(perm[k] == pold[src(k)] && dvn[k] == dv[src(k)]);
                assert(perm[l] == pold[src(l)] && dvn[l] == dv[src(l)]);
                if l == j {
                    // records tying with the inserted one sit to its left
                    // and came earlier in the input
                    assert(pold[src(k)] < i);
                    assert(perm[l] == i as int);
                } else if k == j {
                    // everything to the right of the inserted record
                    // compares Greater than it, so it ties with nothing
                    assert(l - 1 < i);
                    assert(dvn[l] == dvr[l - 1]);
                    assert(spec_compare_records(dvr[l - 1], dv[i as int], *config)
                        == Ordering::Greater);
                    lemma_compare_flip(dvr[l - 1], dv[i as int], *config);
                    assert(false);
                } else {
                    // a pair of old records: their relative order and
                    // their permutation entries are unchanged
                    assert(src(k) < src(l) < i);
                }
            }
            assert forall|k: int|
                0 <= k < i implies #[trigger] spec_compare_records(dvn[k], dvn[k + 1], *config)
                != Ordering::Greater by {
                if k < j - 1 {
                    assert(dvn[k] == dvr[k] && dvn[k + 1] == dvr[k + 1]);
                } else if k == j - 1 {
                    assert(dvn[k] == dvr[k] && dvn[k + 1] == dv[i as int]);
                } else if k == j {
                    assert(dvn[k] == dv[i as int]);
                    assert(dvn[(k) + 1] == dvr[k]);
                    assert(spec_compare_records(dvr[k], dv[i as int], *config)
                        == Ordering::Greater);
                    lemma_compare_flip(dvr[k], dv[i as int], *config);
                } else {
                    assert(dvn[(k - 1) + 1] == dvr[k - 1]);
                    assert(dvn[(k) + 1] == dvr[k]);
                }
            }
        }
        i = i + 1;
    }
    proof {
        lemma_sorted_pairwise(views_of(records@), *config);
        assert(stable_arrangement(orig, views_of(records@), perm, *config));
    }
}

} // verus!
