//! The election of block producers at the start of a maintenance period.

use crate::bytes::zeroed;
use vstd::prelude::*;
use vstd::relations::{sorted_by, total_ordering};
use vstd::seq_lib::{lemma_sorted_unique, to_multiset_build, to_multiset_insert};

verus! {

/// Whether `a` comes before `b`, or is `b`, when address bytes are compared
/// from the first on, from position `from`.
pub open spec fn address_le(a: [u8; 20], b: [u8; 20], from: int) -> bool
    decreases 20 - from,
{
    if from < 0 || from >= 20 {
        true
    } else if a[from] < b[from] {
        true
    } else if a[from] > b[from] {
        false
    } else {
        address_le(a, b, from + 1)
    }
}

/// Whether candidate `a` ranks no higher than candidate `b`: by votes, and
/// among equal votes by address.
pub open spec fn ranks_le(a: ([u8; 20], u64), b: ([u8; 20], u64)) -> bool {
    a.1 < b.1 || (a.1 == b.1 && address_le(a.0, b.0, 0))
}

/// The order of candidates by rank.
pub open spec fn by_rank() -> spec_fn(([u8; 20], u64), ([u8; 20], u64)) -> bool {
    |a: ([u8; 20], u64), b: ([u8; 20], u64)| ranks_le(a, b)
}

/// The candidates in ascending order of rank.
pub open spec fn ranking(votes: Seq<([u8; 20], u64)>) -> Seq<([u8; 20], u64)> {
    votes.sort_by(by_rank())
}

/// The addresses of the 27 candidates of highest rank, in ascending order of
/// rank.
pub open spec fn elected(votes: Seq<([u8; 20], u64)>) -> Seq<[u8; 20]>
    recommends
        votes.len() >= 27,
{
    Seq::new(27, |i: int| ranking(votes)[votes.len() - 27 + i].0)
}

proof fn lemma_address_le_reflexive(a: [u8; 20], from: int)
    ensures
        address_le(a, a, from),
    decreases 20 - from,
{
    if 0 <= from < 20 {
        lemma_address_le_reflexive(a, from + 1);
    }
}

proof fn lemma_address_le_connected(a: [u8; 20], b: [u8; 20], from: int)
    ensures
        address_le(a, b, from) || address_le(b, a, from),
    decreases 20 - from,
{
    if 0 <= from < 20 {
        lemma_address_le_connected(a, b, from + 1);
    }
}

proof fn lemma_address_le_transitive(a: [u8; 20], b: [u8; 20], c: [u8; 20], from: int)
    requires
        address_le(a, b, from),
        address_le(b, c, from),
    ensures
        address_le(a, c, from),
    decreases 20 - from,
{
    if 0 <= from < 20 {
        if a[from] == b[from] && b[from] == c[from] {
            lemma_address_le_transitive(a, b, c, from + 1);
        }
    }
}

proof fn lemma_address_le_antisymmetric(a: [u8; 20], b: [u8; 20], from: int)
    requires
        0 <= from,
        address_le(a, b, from),
        address_le(b, a, from),
    ensures
        forall|i: int| from <= i < 20 ==> a[i] == b[i],
    decreases 20 - from,
{
    if from < 20 {
        lemma_address_le_antisymmetric(a, b, from + 1);
    }
}

/// Ranking candidates by votes and address is a total order.
pub proof fn lemma_rank_is_total_order()
    ensures
        total_ordering(by_rank()),
{
    assert forall|a: ([u8; 20], u64)| #[trigger] by_rank()(a, a) by {
        lemma_address_le_reflexive(a.0, 0);
    }
    assert forall|a: ([u8; 20], u64), b: ([u8; 20], u64)| #[trigger]
        by_rank()(a, b) || #[trigger] by_rank()(b, a) by {
        lemma_address_le_connected(a.0, b.0, 0);
    }
    assert forall|a: ([u8; 20], u64), b: ([u8; 20], u64)| #[trigger]
        by_rank()(a, b) && #[trigger] by_rank()(b, a) implies a == b by {
        lemma_address_le_antisymmetric(a.0, b.0, 0);
        assert(a.0 =~= b.0);
    }
    assert forall|a: ([u8; 20], u64), b: ([u8; 20], u64), c: ([u8; 20], u64)| #[trigger]
        by_rank()(a, b) && #[trigger] by_rank()(b, c) implies by_rank()(a, c) by {
        if a.1 == b.1 && b.1 == c.1 {
            lemma_address_le_transitive(a.0, b.0, c.0, 0);
        }
    }
}

/// The ranking holds the candidates that were given, each as often as it
/// was given, in ascending order of rank; the elected are its last 27, so no
/// candidate that is left out ranks higher than one that is elected.
pub proof fn lemma_elected_rank_highest(votes: Seq<([u8; 20], u64)>)
    requires
        votes.len() >= 27,
    ensures
        ranking(votes).to_multiset() == votes.to_multiset(),
        ranking(votes).len() == votes.len(),
        forall|i: int, j: int|
            0 <= i < j < votes.len() ==> ranks_le(
                #[trigger] ranking(votes)[i],
                #[trigger] ranking(votes)[j],
            ),
        forall|i: int|
            0 <= i < 27 ==> (#[trigger] elected(votes)[i]) == ranking(votes)[votes.len() - 27
                + i].0,
{
    lemma_rank_is_total_order();
    votes.lemma_sort_by_ensures(by_rank());
    vstd::seq_lib::to_multiset_len(votes);
    vstd::seq_lib::to_multiset_len(ranking(votes));
    assert forall|i: int, j: int| 0 <= i < j < votes.len() implies ranks_le(
        #[trigger] ranking(votes)[i],
        #[trigger] ranking(votes)[j],
    ) by {
        assert(by_rank()(ranking(votes)[i], ranking(votes)[j]));
    }
}

/// Whether `a` comes before `b`, or is `b`, in the order of address bytes.
pub fn address_before_or_same(a: &[u8; 20], b: &[u8; 20]) -> (r: bool)
    ensures
        r == address_le(*a, *b, 0),
{
    let mut i: usize = 0;
    while i < 20
        invariant
            i <= 20,
            address_le(*a, *b, 0) == address_le(*a, *b, i as int),
        decreases 20 - i,
    {
        if a[i] < b[i] {
            return true;
        }
        if a[i] > b[i] {
            return false;
        }
        i += 1;
    }
    true
}

/// Whether candidate `a` ranks no higher than candidate `b`.
pub fn ranks_no_higher(a: &([u8; 20], u64), b: &([u8; 20], u64)) -> (r: bool)
    ensures
        r == ranks_le(*a, *b),
{
    a.1 < b.1 || (a.1 == b.1 && address_before_or_same(&a.0, &b.0))
}

/// Puts the candidates in ascending order of rank.
pub fn rank_candidates(votes: &Vec<([u8; 20], u64)>) -> (ranked: Vec<([u8; 20], u64)>)
    ensures
        ranked@ == ranking(votes@),
{
    let mut ranked: Vec<([u8; 20], u64)> = Vec::new();
    let mut k: usize = 0;
    proof {
        lemma_rank_is_total_order();
        assert(votes@.take(0) =~= Seq::empty());
    }
    while k < votes.len()
        invariant
            k <= votes.len(),
            ranked.len() == k,
            total_ordering(by_rank()),
            forall|i: int, j: int| 0 <= i < j < ranked.len() ==> ranks_le(ranked@[i], ranked@[j]),
            ranked@.to_multiset() == votes@.take(k as int).to_multiset(),
        decreases votes.len() - k,
    {
        let candidate = votes[k];
        let mut p: usize = 0;
        while p < ranked.len() && ranks_no_higher(&ranked[p], &candidate)
            invariant
                p <= ranked.len(),
                forall|j: int| 0 <= j < p ==> ranks_le(ranked@[j], candidate),
            decreases ranked.len() - p,
        {
            p += 1;
        }
        let ghost before = ranked@;
        ranked.insert(p, candidate);
        proof {
            before.insert_ensures(p as int, candidate);
            to_multiset_insert(before, p as int, candidate);
            assert(votes@.take(k + 1) =~= votes@.take(k as int).push(candidate));
            to_multiset_build(votes@.take(k as int), candidate);
            assert forall|i: int, j: int| 0 <= i < j < ranked.len() implies ranks_le(
                ranked@[i],
                ranked@[j],
            ) by {
                if j < p {
                    assert(ranked@[i] == before[i] && ranked@[j] == before[j]);
                } else if j == p {
                    assert(ranked@[i] == before[i]);
                } else if i < p {
                    assert(ranked@[i] == before[i] && ranked@[j] == before[j - 1]);
                } else if i == p {
                    assert(ranked@[j] == before[j - 1]);
                    assert(by_rank()(before[p as int], candidate) || by_rank()(
                        candidate,
                        before[p as int],
                    ));
                    if j - 1 > p {
                        assert(by_rank()(candidate, before[p as int]) && by_rank()(
                            before[p as int],
                            before[j - 1],
                        ) ==> by_rank()(candidate, before[j - 1]));
                    }
                } else {
                    assert(ranked@[i] == before[i - 1] && ranked@[j] == before[j - 1]);
                }
            }
        }
        k += 1;
    }
    proof {
        assert(votes@.take(votes@.len() as int) =~= votes@);
        votes@.lemma_sort_by_ensures(by_rank());
        assert(sorted_by(ranked@, by_rank())) by {
            assert forall|i: int, j: int| 0 <= i < j < ranked@.len() implies #[trigger] by_rank()(
                ranked@[i],
                ranked@[j],
            ) by {
                assert(ranks_le(ranked@[i], ranked@[j]));
            }
        }
        lemma_sorted_unique(ranked@, ranking(votes@), by_rank());
    }
    ranked
}

/// Elects the producer set: the 27 candidates of highest rank.
pub fn elect(votes: &Vec<([u8; 20], u64)>) -> (set: [[u8; 20]; 27])
    requires
        votes.len() >= 27,
    ensures
        set@ == elected(votes@),
{
    let ranked = rank_candidates(votes);
    proof {
        lemma_rank_is_total_order();
        votes@.lemma_sort_by_ensures(by_rank());
        vstd::seq_lib::to_multiset_len(votes@);
        vstd::seq_lib::to_multiset_len(ranked@);
    }
    let first: usize = ranked.len() - 27;
    let mut set: [[u8; 20]; 27] = [zeroed::<20>(); 27];
    let mut i: usize = 0;
    while i < 27
        invariant
            i <= 27,
            ranked.len() == votes.len(),
            ranked.len() >= 27,
            first == ranked.len() - 27,
            forall|j: int| 0 <= j < i ==> set@[j] == ranked@[first + j].0,
        decreases 27 - i,
    {
        set[i] = ranked[first + i].0;
        i += 1;
    }
    assert(set@ =~= elected(votes@));
    set
}

} // verus!
