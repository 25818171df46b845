//! Turns the completed outcomes of one run into the report's ranked list:
//! every address returned by a successful query is collected, each distinct
//! address is paired with the number of servers that returned it, and the
//! pairs are ordered descending by that count, ties broken by ascending
//! address value. The ranking of a given outcome list is unique, and depends
//! only on which outcomes were fed in, not on their order.

use vstd::prelude::*;
use vstd::multiset::Multiset;
use vstd::relations::sorted_by;
use vstd::relations::total_ordering;
use vstd::pervasive::VecAdditionalExecFns;

use crate::outcome::QueryOutcome;
use crate::outcome::addresses_of;

verus! {

/// All addresses the successful outcomes contributed, in outcome order;
/// errors contribute nothing. Duplicates across servers are kept: they mean
/// agreement, and they are what the ranking counts.
pub open spec fn flatten_outcomes(s: Seq<QueryOutcome>) -> Seq<u32>
    decreases s.len(),
{
    if s.len() == 0 {
        Seq::<u32>::empty()
    } else {
        flatten_outcomes(s.drop_last()) + addresses_of(s.last())
    }
}

/// How many times address `a` occurs in `addrs`.
pub open spec fn addr_count(addrs: Seq<u32>, a: u32) -> nat
    decreases addrs.len(),
{
    if addrs.len() == 0 {
        0
    } else {
        addr_count(addrs.drop_last(), a) + (if addrs.last() == a {
            1nat
        } else {
            0nat
        })
    }
}

/// An address occurs at most as often as the list is long.
pub proof fn lemma_addr_count_le_len(addrs: Seq<u32>, a: u32)
    ensures
        addr_count(addrs, a) <= addrs.len(),
    decreases addrs.len(),
{
    if addrs.len() > 0 {
        lemma_addr_count_le_len(addrs.drop_last(), a);
    }
}

/// The occurrence count is the multiset count: how often an address occurs
/// does not depend on the order of the list.
pub proof fn lemma_addr_count_is_multiset_count(addrs: Seq<u32>, a: u32)
    ensures
        addr_count(addrs, a) == addrs.to_multiset().count(a),
    decreases addrs.len(),
{
    broadcast use vstd::seq_lib::group_to_multiset_ensures;
    broadcast use vstd::multiset::group_multiset_axioms;

    if addrs.len() == 0 {
        assert(addrs.to_multiset() =~= Multiset::<u32>::empty());
    } else {
        lemma_addr_count_is_multiset_count(addrs.drop_last(), a);
        assert(addrs =~= addrs.drop_last().push(addrs.last()));
    }
}

/// Extending the flattened prefix by one outcome appends that outcome's
/// addresses.
pub proof fn lemma_flatten_outcomes_take_step(s: Seq<QueryOutcome>, i: int)
    requires
        0 <= i < s.len(),
    ensures
        flatten_outcomes(s.take(i + 1)) == flatten_outcomes(s.take(i)) + addresses_of(s[i]),
{
    assert(s.take(i + 1).drop_last() =~= s.take(i));
    assert(s.take(i + 1).last() == s[i]);
}

/// Extending the counted prefix by one address raises exactly that address's
/// count by one.
pub proof fn lemma_addr_count_take_step(addrs: Seq<u32>, i: int, x: u32)
    requires
        0 <= i < addrs.len(),
    ensures
        addr_count(addrs.take(i + 1), x) == addr_count(addrs.take(i), x) + (if addrs[i] == x {
            1nat
        } else {
            0nat
        }),
{
    assert(addrs.take(i + 1).drop_last() =~= addrs.take(i));
    assert(addrs.take(i + 1).last() == addrs[i]);
}

/// `p` may stand at or before `q` in the report: strictly more occurrences,
/// or equally many and a numerically smaller or equal address.
pub open spec fn rank_le(p: (u32, usize), q: (u32, usize)) -> bool {
    p.1 > q.1 || (p.1 == q.1 && p.0 <= q.0)
}

/// The report order as a relation value, for vstd's ordering vocabulary.
pub open spec fn rank_order() -> spec_fn((u32, usize), (u32, usize)) -> bool {
    |p: (u32, usize), q: (u32, usize)| rank_le(p, q)
}

/// Descending-count with ascending-address tie-break is a total order on
/// (address, count) pairs.
pub proof fn lemma_rank_order_total()
    ensures
        total_ordering(rank_order()),
{
}

/// `pairs` is a frequency table of `addrs`: every entry pairs an address
/// with its exact, positive occurrence count; every occurring address has an
/// entry; and no address has two entries.
pub open spec fn freq_table_for(pairs: Seq<(u32, usize)>, addrs: Seq<u32>) -> bool {
    &&& forall|i: int|
        0 <= i < pairs.len() ==> (#[trigger] pairs[i]).1 == addr_count(addrs, pairs[i].0)
            && pairs[i].1 > 0
    &&& forall|a: u32|
        addr_count(addrs, a) > 0 ==> exists|i: int|
            0 <= i < pairs.len() && (#[trigger] pairs[i]).0 == a
    &&& forall|i: int, j: int|
        0 <= i < j < pairs.len() ==> (#[trigger] pairs[i]).0 != (#[trigger] pairs[j]).0
}

/// `r` is the report's ranking of the address list `addrs`: a frequency
/// table of `addrs`, ordered descending by count with ties broken by
/// ascending address.
pub open spec fn ranked_for(r: Seq<(u32, usize)>, addrs: Seq<u32>) -> bool {
    &&& freq_table_for(r, addrs)
    &&& sorted_by(r, rank_order())
}

/// Flattens every successful outcome's address list into one combined list,
/// in outcome order.
pub fn flatten(outcomes: &Vec<QueryOutcome>) -> (r: Vec<u32>)
    ensures
        r@ == flatten_outcomes(outcomes@),
{
    let mut r: Vec<u32> = Vec::new();
    let mut i: usize = 0;
    while i < outcomes.len()
        invariant
            i <= outcomes@.len(),
            r@ == flatten_outcomes(outcomes@.take(i as int)),
        decreases outcomes@.len() - i,
    {
        proof {
            lemma_flatten_outcomes_take_step(outcomes@, i as int);
        }
        match &outcomes[i] {
            QueryOutcome::Success(v) => {
                let mut j: usize = 0;
                while j < v.len()
                    invariant
                        j <= v@.len(),
                        i < outcomes@.len(),
                        addresses_of(outcomes@[i as int]) == v@,
                        r@ == flatten_outcomes(outcomes@.take(i as int)) + v@.take(j as int),
                    decreases v@.len() - j,
                {
                    r.push(v[j]);
                    proof {
                        assert(v@.take(j + 1) =~= v@.take(j as int).push(v@[j as int]));
                    }
                    j = j + 1;
                }
                proof {
                    assert(v@.take(v@.len() as int) =~= v@);
                }
            },
            QueryOutcome::Failure(_) => {
                proof {
                    assert(r@ =~= flatten_outcomes(outcomes@.take(i as int))
                        + addresses_of(outcomes@[i as int]));
                }
            },
        }
        i = i + 1;
    }
    proof {
        assert(outcomes@.take(outcomes@.len() as int) =~= outcomes@);
    }
    r
}

/// Builds the frequency table of `addrs`: one entry per distinct address,
/// paired with how often it occurs, in first-seen order.
pub fn count_frequencies(addrs: &Vec<u32>) -> (pairs: Vec<(u32, usize)>)
    ensures
        freq_table_for(pairs@, addrs@),
{
    let mut pairs: Vec<(u32, usize)> = Vec::new();
    let mut i: usize = 0;
    while i < addrs.len()
        invariant
            i <= addrs@.len(),
            freq_table_for(pairs@, addrs@.take(i as int)),
        decreases addrs@.len() - i,
    {
        let a = addrs[i];
        let n = pairs.len();
        let mut pos: usize = n;
        let mut j: usize = 0;
        while j < n
            invariant
                j <= n,
                n == pairs@.len(),
                pos == n || (pos < j && pairs@[pos as int].0 == a),
                pos == n ==> forall|k: int| 0 <= k < j ==> (#[trigger] pairs@[k]).0 != a,
            decreases n - j,
        {
            if pos == n && pairs[j].0 == a {
                pos = j;
            }
            j = j + 1;
        }
        proof {
            lemma_addr_count_take_step(addrs@, i as int, a);
            assert forall|x: u32| x != a implies addr_count(addrs@.take(i + 1), x) == addr_count(
                addrs@.take(i as int),
                x,
            ) by {
                lemma_addr_count_take_step(addrs@, i as int, x);
            };
        }
        let ghost before = pairs@;
        let ghost prefix = addrs@.take(i as int);
        let ghost next = addrs@.take(i + 1);
        if pos < n {
            let c = pairs[pos].1;
            proof {
                lemma_addr_count_le_len(prefix, a);
            }
            pairs.set(pos, (a, c + 1));
            proof {
                assert forall|k: int|
                    0 <= k < pairs@.len() implies (#[trigger] pairs@[k]).1 == addr_count(
                    next,
                    pairs@[k].0,
                ) && pairs@[k].1 > 0 by {
                    if k != pos {
                        assert(pairs@[k] == before[k]);
                        assert(before[k].0 != a);
                    }
                };
                assert forall|x: u32| addr_count(next, x) > 0 implies exists|k: int|
                    0 <= k < pairs@.len() && (#[trigger] pairs@[k]).0 == x by {
                    if x == a {
                        assert(pairs@[pos as int].0 == a);
                    } else {
                        assert(addr_count(prefix, x) > 0);
                        assert(exists|k: int|
                            0 <= k < before.len() && (#[trigger] before[k]).0 == x);
                        let k = choose|k: int|
                            0 <= k < before.len() && (#[trigger] before[k]).0 == x;
                        assert(before[pos as int].0 == a);
                        assert(k != pos);
                        assert(pairs@[k].0 == x);
                    }
                };
                assert forall|k: int, l: int|
                    0 <= k < l < pairs@.len() implies (#[trigger] pairs@[k]).0 != (
                #[trigger] pairs@[l]).0 by {
                    assert(pairs@[k].0 == before[k].0);
                    assert(pairs@[l].0 == before[l].0);
                };
            }
        } else {
            proof {
                // had `a` occurred in the prefix, it would have an entry
                assert(addr_count(prefix, a) == 0) by {
                    if addr_count(prefix, a) > 0 {
                        let k = choose|k: int|
                            0 <= k < before.len() && (#[trigger] before[k]).0 == a;
                        assert(false);
                    }
                }
            }
            pairs.push((a, 1));
            proof {
                assert forall|k: int|
                    0 <= k < pairs@.len() implies (#[trigger] pairs@[k]).1 == addr_count(
                    next,
                    pairs@[k].0,
                ) && pairs@[k].1 > 0 by {
                    if k < before.len() {
                        assert(pairs@[k] == before[k]);
                        assert(before[k].0 != a);
                    } else {
                        assert(pairs@[k] == (a, 1usize));
                    }
                };
                assert forall|x: u32| addr_count(next, x) > 0 implies exists|k: int|
                    0 <= k < pairs@.len() && (#[trigger] pairs@[k]).0 == x by {
                    if x == a {
                        assert(pairs@[before.len() as int].0 == a);
                    } else {
                        assert(addr_count(prefix, x) > 0);
                        assert(exists|k: int|
                            0 <= k < before.len() && (#[trigger] before[k]).0 == x);
                        let k = choose|k: int|
                            0 <= k < before.len() && (#[trigger] before[k]).0 == x;
                        assert(pairs@[k].0 == x);
                    }
                };
                assert forall|k: int, l: int|
                    0 <= k < l < pairs@.len() implies (#[trigger] pairs@[k]).0 != (
                #[trigger] pairs@[l]).0 by {
                    if l < before.len() {
                        assert(pairs@[k] == before[k] && pairs@[l] == before[l]);
                    } else {
                        assert(pairs@[k] == before[k] && pairs@[l] == (a, 1usize));
                        assert(before[k].0 != a);
                    }
                };
            }
        }
        i = i + 1;
    }
    proof {
        assert(addrs@.take(addrs@.len() as int) =~= addrs@);
    }
    pairs
}

/// Decides the report order between two entries, as `rank_le` states it.
pub fn rank_le_exec(p: (u32, usize), q: (u32, usize)) -> (b: bool)
    ensures
        b == rank_le(p, q),
{
    p.1 > q.1 || (p.1 == q.1 && p.0 <= q.0)
}

/// Sorts frequency-table entries into the report order: descending by count,
/// ties broken by ascending address. The result holds exactly the entries
/// given.
pub fn rank(pairs: &Vec<(u32, usize)>) -> (r: Vec<(u32, usize)>)
    ensures
        r@.to_multiset() == pairs@.to_multiset(),
        sorted_by(r@, rank_order()),
{
    proof {
        broadcast use vstd::seq_lib::group_to_multiset_ensures;
        broadcast use vstd::multiset::group_multiset_axioms;
        broadcast use vstd::seq_lib::to_multiset_insert;

    }
    let mut r: Vec<(u32, usize)> = Vec::new();
    let mut i: usize = 0;
    while i < pairs.len()
        invariant
            i <= pairs@.len(),
            r@.to_multiset() == pairs@.take(i as int).to_multiset(),
            sorted_by(r@, rank_order()),
        decreases pairs@.len() - i,
    {
        let p = pairs[i];
        let ghost before = r@;
        let mut j: usize = 0;
        while j < r.len() && rank_le_exec(r[j], p)
            invariant
                j <= r@.len(),
                r@ == before,
                forall|k: int| 0 <= k < j ==> rank_le(#[trigger] r@[k], p),
            decreases r@.len() - j,
        {
            j = j + 1;
        }
        r.insert(j, p);
        proof {
            assert(pairs@.take(i + 1) =~= pairs@.take(i as int).push(p));
            assert(r@.to_multiset() == pairs@.take(i + 1).to_multiset()) by {
                assert(r@ == before.insert(j as int, p));
                vstd::seq_lib::to_multiset_insert(before, j as int, p);
                vstd::seq_lib::to_multiset_build(pairs@.take(i as int), p);
            };
            assert(sorted_by(r@, rank_order())) by {
                assert forall|k: int, l: int| 0 <= k < l < r@.len() implies rank_le(
                    #[trigger] r@[k],
                    #[trigger] r@[l],
                ) by {
                    if l == j {
                        assert(r@[k] == before[k]);
                    } else if k == j {
                        assert(r@[l] == before[l - 1]);
                        assert(j < before.len() ==> !rank_le(before[j as int], p));
                        if j < l - 1 {
                            assert(rank_order()(before[j as int], before[l - 1]));
                        }
                    } else if k < j && l > j {
                        assert(r@[k] == before[k] && r@[l] == before[l - 1]);
                        assert(rank_le(before[k], p));
                        if j < before.len() {
                            assert(!rank_le(before[j as int], p));
                        }
                        if k < l - 1 {
                            assert(rank_order()(before[k], before[l - 1]));
                        }
                    } else if l < j {
                        assert(r@[k] == before[k] && r@[l] == before[l]);
                        assert(rank_order()(before[k], before[l]));
                    } else {
                        assert(r@[k] == before[k - 1] && r@[l] == before[l - 1]);
                        assert(rank_order()(before[k - 1], before[l - 1]));
                    }
                };
            };
        }
        i = i + 1;
    }
    proof {
        assert(pairs@.take(pairs@.len() as int) =~= pairs@);
    }
    r
}

/// The full aggregation: flatten the successes' addresses, count each
/// distinct address, and order descending by count with ties broken by
/// ascending address. By `lemma_ranked_unique` this contract pins the result
/// completely.
pub fn aggregate(outcomes: &Vec<QueryOutcome>) -> (r: Vec<(u32, usize)>)
    ensures
        ranked_for(r@, flatten_outcomes(outcomes@)),
{
    let addrs = flatten(outcomes);
    let pairs = count_frequencies(&addrs);
    let r = rank(&pairs);
    proof {
        lemma_freq_table_permutation(pairs@, r@, addrs@);
    }
    r
}

/// A frequency table holds no entry twice: keys are distinct and the count
/// is determined by the key.
pub proof fn lemma_freq_table_no_duplicates(p: Seq<(u32, usize)>, addrs: Seq<u32>)
    requires
        freq_table_for(p, addrs),
    ensures
        p.no_duplicates(),
{
    assert forall|i: int, j: int|
        0 <= i < p.len() && 0 <= j < p.len() && i != j implies p[i] != p[j] by {
        if i < j {
            assert(p[i].0 != p[j].0);
        } else {
            assert(p[j].0 != p[i].0);
        }
    };
}

/// In a frequency table of `addrs`, a pair occurs exactly once if it pairs
/// an occurring address with that address's count, and not at all otherwise.
pub proof fn lemma_freq_table_count(p: Seq<(u32, usize)>, addrs: Seq<u32>, v: (u32, usize))
    requires
        freq_table_for(p, addrs),
    ensures
        p.to_multiset().count(v) == if v.1 == addr_count(addrs, v.0) && v.1 > 0 {
            1nat
        } else {
            0nat
        },
{
    broadcast use vstd::seq_lib::group_to_multiset_ensures;
    broadcast use vstd::multiset::group_multiset_axioms;

    lemma_freq_table_no_duplicates(p, addrs);
    p.lemma_multiset_has_no_duplicates();
    if v.1 == addr_count(addrs, v.0) && v.1 > 0 {
        assert(exists|k: int| 0 <= k < p.len() && (#[trigger] p[k]).0 == v.0);
        let k = choose|k: int| 0 <= k < p.len() && (#[trigger] p[k]).0 == v.0;
        assert(p[k].1 == addr_count(addrs, v.0));
        assert(p[k] == v);
        assert(p.contains(v));
    } else {
        if p.to_multiset().count(v) > 0 {
            assert(p.contains(v));
            let k = choose|k: int| 0 <= k < p.len() && p[k] == v;
            assert(p[k].1 == addr_count(addrs, p[k].0) && p[k].1 > 0);
            assert(false);
        }
    }
}

/// Reordering the entries of a frequency table leaves it a frequency table
/// of the same address list.
pub proof fn lemma_freq_table_permutation(
    p1: Seq<(u32, usize)>,
    p2: Seq<(u32, usize)>,
    addrs: Seq<u32>,
)
    requires
        freq_table_for(p1, addrs),
        p1.to_multiset() == p2.to_multiset(),
    ensures
        freq_table_for(p2, addrs),
{
    broadcast use vstd::seq_lib::group_to_multiset_ensures;
    broadcast use vstd::multiset::group_multiset_axioms;

    assert forall|i: int|
        0 <= i < p2.len() implies (#[trigger] p2[i]).1 == addr_count(addrs, p2[i].0)
        && p2[i].1 > 0 by {
        assert(p2.contains(p2[i]));
        assert(p2.to_multiset().count(p2[i]) > 0);
        assert(p1.contains(p2[i]));
        let k = choose|k: int| 0 <= k < p1.len() && p1[k] == p2[i];
        assert(p1[k].1 == addr_count(addrs, p1[k].0) && p1[k].1 > 0);
    };
    assert forall|a: u32| addr_count(addrs, a) > 0 implies exists|i: int|
        0 <= i < p2.len() && (#[trigger] p2[i]).0 == a by {
        assert(exists|k: int| 0 <= k < p1.len() && (#[trigger] p1[k]).0 == a);
        let k = choose|k: int| 0 <= k < p1.len() && (#[trigger] p1[k]).0 == a;
        assert(p1.contains(p1[k]));
        assert(p1.to_multiset().count(p1[k]) > 0);
        assert(p2.contains(p1[k]));
        let l = choose|l: int| 0 <= l < p2.len() && p2[l] == p1[k];
        assert(p2[l].0 == a);
    };
    lemma_freq_table_no_duplicates(p1, addrs);
    p1.lemma_multiset_has_no_duplicates();
    p2.lemma_multiset_has_no_duplicates_conv();
    assert forall|i: int, j: int|
        0 <= i < j < p2.len() implies (#[trigger] p2[i]).0 != (#[trigger] p2[j]).0 by {
        if p2[i].0 == p2[j].0 {
            assert(p2[i].1 == addr_count(addrs, p2[i].0));
            assert(p2[j].1 == addr_count(addrs, p2[j].0));
            assert(p2[i] == p2[j]);
            assert(false);
        }
    };
}

/// There is only one ranking of a given address list: any two sequences that
/// both rank it are equal. Aggregation is therefore a pure function of the
/// outcomes, and running it twice on the same list yields identical output.
pub proof fn lemma_ranked_unique(r1: Seq<(u32, usize)>, r2: Seq<(u32, usize)>, addrs: Seq<u32>)
    requires
        ranked_for(r1, addrs),
        ranked_for(r2, addrs),
    ensures
        r1 == r2,
{
    lemma_rank_order_total();
    assert(r1.to_multiset() =~= r2.to_multiset()) by {
        assert forall|v: (u32, usize)|
            r1.to_multiset().count(v) == r2.to_multiset().count(v) by {
            lemma_freq_table_count(r1, addrs, v);
            lemma_freq_table_count(r2, addrs, v);
        };
    };
    vstd::seq_lib::lemma_sorted_unique(r1, r2, rank_order());
}

/// Flattening distributes over concatenation of outcome lists.
pub proof fn lemma_flatten_outcomes_concat(s1: Seq<QueryOutcome>, s2: Seq<QueryOutcome>)
    ensures
        flatten_outcomes(s1 + s2) == flatten_outcomes(s1) + flatten_outcomes(s2),
    decreases s2.len(),
{
    if s2.len() == 0 {
        assert(s1 + s2 =~= s1);
        assert(flatten_outcomes(s1) + flatten_outcomes(s2) =~= flatten_outcomes(s1));
    } else {
        lemma_flatten_outcomes_concat(s1, s2.drop_last());
        assert((s1 + s2).drop_last() =~= s1 + s2.drop_last());
        assert((s1 + s2).last() == s2.last());
        assert(flatten_outcomes(s1) + (flatten_outcomes(s2.drop_last()) + addresses_of(s2.last()))
            =~= (flatten_outcomes(s1) + flatten_outcomes(s2.drop_last())) + addresses_of(
            s2.last(),
        ));
    }
}

/// Removing one outcome removes exactly that outcome's addresses from the
/// flattened multiset.
pub proof fn lemma_flatten_outcomes_remove(s: Seq<QueryOutcome>, i: int)
    requires
        0 <= i < s.len(),
    ensures
        flatten_outcomes(s).to_multiset() == flatten_outcomes(s.remove(i)).to_multiset().add(
            addresses_of(s[i]).to_multiset(),
        ),
{
    broadcast use vstd::seq_lib::group_to_multiset_ensures;
    broadcast use vstd::multiset::group_multiset_axioms;

    let a = s.take(i);
    let b = s.skip(i + 1);
    let mid = seq![s[i]];
    assert(s =~= (a + mid) + b);
    assert(s.remove(i) =~= a + b);
    lemma_flatten_outcomes_concat(a + mid, b);
    lemma_flatten_outcomes_concat(a, mid);
    lemma_flatten_outcomes_concat(a, b);
    assert(mid.drop_last() =~= Seq::<QueryOutcome>::empty());
    assert(flatten_outcomes(Seq::<QueryOutcome>::empty()) == Seq::<u32>::empty());
    assert(flatten_outcomes(mid) == flatten_outcomes(mid.drop_last()) + addresses_of(mid.last()));
    assert(mid.last() == s[i]);
    assert(Seq::<u32>::empty() + addresses_of(s[i]) =~= addresses_of(s[i]));
    assert(flatten_outcomes(mid) == addresses_of(s[i]));
    let fa = flatten_outcomes(a);
    let fb = flatten_outcomes(b);
    let fx = addresses_of(s[i]);
    assert(flatten_outcomes(s) == (fa + fx) + fb);
    vstd::seq_lib::lemma_multiset_commutative(fa + fx, fb);
    vstd::seq_lib::lemma_multiset_commutative(fa, fx);
    vstd::seq_lib::lemma_multiset_commutative(fa, fb);
    assert(flatten_outcomes(s).to_multiset() =~= (fa + fb).to_multiset().add(fx.to_multiset()));
}

/// Which combined addresses come out of flattening depends only on which
/// outcomes went in, not on the order they stand in.
pub proof fn lemma_flatten_outcomes_multiset(s1: Seq<QueryOutcome>, s2: Seq<QueryOutcome>)
    requires
        s1.to_multiset() == s2.to_multiset(),
    ensures
        flatten_outcomes(s1).to_multiset() == flatten_outcomes(s2).to_multiset(),
    decreases s1.len(),
{
    broadcast use vstd::seq_lib::group_to_multiset_ensures;
    broadcast use vstd::multiset::group_multiset_axioms;

    if s1.len() == 0 {
        vstd::seq_lib::to_multiset_len(s1);
        vstd::seq_lib::to_multiset_len(s2);
        assert(s2.len() == 0);
    } else {
        let x = s1.last();
        assert(s1.contains(x));
        assert(s1.to_multiset().count(x) > 0);
        assert(s2.contains(x));
        let i = choose|i: int| 0 <= i < s2.len() && s2[i] == x;
        let s2r = s2.remove(i);
        assert(s1.drop_last() =~= s1.remove(s1.len() - 1));
        assert(s1.drop_last().to_multiset() == s1.to_multiset().remove(x));
        assert(s2r.to_multiset() == s2.to_multiset().remove(x));
        lemma_flatten_outcomes_multiset(s1.drop_last(), s2r);
        lemma_flatten_outcomes_remove(s2, i);
        vstd::seq_lib::lemma_multiset_commutative(
            flatten_outcomes(s1.drop_last()),
            addresses_of(x),
        );
        assert(flatten_outcomes(s1).to_multiset() =~= flatten_outcomes(s2).to_multiset());
    }
}

/// Feeding the same outcomes to the aggregator in any order yields the same
/// ranking: two rankings of two reorderings of one outcome list are equal.
pub proof fn lemma_aggregate_order_independent(
    s1: Seq<QueryOutcome>,
    s2: Seq<QueryOutcome>,
    r1: Seq<(u32, usize)>,
    r2: Seq<(u32, usize)>,
)
    requires
        s1.to_multiset() == s2.to_multiset(),
        ranked_for(r1, flatten_outcomes(s1)),
        ranked_for(r2, flatten_outcomes(s2)),
    ensures
        r1 == r2,
{
    lemma_flatten_outcomes_multiset(s1, s2);
    let f1 = flatten_outcomes(s1);
    let f2 = flatten_outcomes(s2);
    assert forall|a: u32| #[trigger] addr_count(f1, a) == addr_count(f2, a) by {
        lemma_addr_count_is_multiset_count(f1, a);
        lemma_addr_count_is_multiset_count(f2, a);
    };
    assert(freq_table_for(r2, f1)) by {
        assert forall|i: int|
            0 <= i < r2.len() implies (#[trigger] r2[i]).1 == addr_count(f1, r2[i].0)
            && r2[i].1 > 0 by {
            assert(addr_count(f1, r2[i].0) == addr_count(f2, r2[i].0));
        };
        assert forall|a: u32| addr_count(f1, a) > 0 implies exists|i: int|
            0 <= i < r2.len() && (#[trigger] r2[i]).0 == a by {
            assert(addr_count(f2, a) > 0);
        };
    };
    lemma_ranked_unique(r1, r2, f1);
}

/// If no outcome is a success, nothing is flattened out of the list.
pub proof fn lemma_flatten_outcomes_all_errors(s: Seq<QueryOutcome>)
    requires
        forall|i: int| 0 <= i < s.len() ==> !((#[trigger] s[i]) is Success),
    ensures
        flatten_outcomes(s) == Seq::<u32>::empty(),
    decreases s.len(),
{
    if s.len() > 0 {
        lemma_flatten_outcomes_all_errors(s.drop_last());
        assert(!(s[s.len() - 1] is Success));
        assert(flatten_outcomes(s) =~= Seq::<u32>::empty());
    }
}

/// If every outcome is an error, the ranking is empty: "no server agreed"
/// is a reportable state of its own.
pub proof fn lemma_all_errors_rank_empty(s: Seq<QueryOutcome>, r: Seq<(u32, usize)>)
    requires
        forall|i: int| 0 <= i < s.len() ==> !((#[trigger] s[i]) is Success),
        ranked_for(r, flatten_outcomes(s)),
    ensures
        r == Seq::<(u32, usize)>::empty(),
{
    lemma_flatten_outcomes_all_errors(s);
    if r.len() > 0 {
        assert(r[0].1 == addr_count(flatten_outcomes(s), r[0].0) && r[0].1 > 0);
        assert(false);
    }
    assert(r =~= Seq::<(u32, usize)>::empty());
}

} // verus!
