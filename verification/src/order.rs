//! The order of submission does not matter to the evidence.
//!
//! Votes are a sum over the pairs of ciphertexts, and a pair votes the same
//! whichever of the two came first. So two logs that hold the same
//! ciphertexts the same number of times have the same table, the same votes,
//! and the same pad.

use vstd::prelude::*;
use crate::breaker::OTPBreaker;
use crate::laws::{lemma_mass_below_agrees, lemma_pair_votes_symmetric, lemma_table_len_is_longest};
use crate::votes::{
    is_top_candidate, lemma_top_candidate_exists, lemma_top_candidate_unique, likely_pad,
    pair_votes, table_len, top_candidate, vote_count, vote_mass, votes_against,
};

verus! {

/// The votes of a message against some priors are those against all but
/// one of them, and those of the pair it forms with that one.
pub proof fn lemma_votes_against_remove(
    message: Seq<u8>,
    priors: Seq<Seq<u8>>,
    i: int,
    k: int,
    candidate: u8,
)
    requires
        0 <= i < priors.len(),
    ensures
        votes_against(message, priors, k, candidate) == votes_against(
            message,
            priors.remove(i),
            k,
            candidate,
        ) + pair_votes(message, priors[i], k, candidate),
    decreases priors.len(),
{
    if i == priors.len() - 1 {
        assert(priors.remove(i) =~= priors.drop_last());
    } else {
        let shorter = priors.drop_last();
        lemma_votes_against_remove(message, shorter, i, k, candidate);
        assert(priors.remove(i).drop_last() =~= shorter.remove(i));
        assert(priors.remove(i).last() == priors.last());
    }
}

/// The votes of a log are those of the log without one ciphertext, and
/// those of that ciphertext against all the others.
pub proof fn lemma_vote_count_remove(log: Seq<Seq<u8>>, i: int, k: int, candidate: u8)
    requires
        0 <= i < log.len(),
    ensures
        vote_count(log, k, candidate) == vote_count(log.remove(i), k, candidate) + votes_against(
            log[i],
            log.remove(i),
            k,
            candidate,
        ),
    decreases log.len(),
{
    if i == log.len() - 1 {
        assert(log.remove(i) =~= log.drop_last());
    } else {
        let shorter = log.drop_last();
        let last = log.last();
        let rest = log.remove(i);
        lemma_vote_count_remove(shorter, i, k, candidate);
        lemma_votes_against_remove(last, shorter, i, k, candidate);
        lemma_pair_votes_symmetric(log[i], last, k, candidate);
        assert(rest.drop_last() =~= shorter.remove(i));
        assert(rest.last() == last);
    }
}

/// Taking the last ciphertext of one log out of another log that holds the
/// same ciphertexts leaves the same ciphertexts in both.
proof fn lemma_same_without_last(first: Seq<Seq<u8>>, second: Seq<Seq<u8>>) -> (i: int)
    requires
        first.to_multiset() == second.to_multiset(),
        first.len() > 0,
    ensures
        0 <= i < second.len(),
        second[i] == first.last(),
        first.drop_last().to_multiset() == second.remove(i).to_multiset(),
{
    first.to_multiset_ensures();
    second.to_multiset_ensures();
    let x = first.last();
    assert(first[first.len() - 1] == x);
    assert(first.contains(x));
    assert(second.to_multiset().count(x) > 0);
    let i = choose|i: int| 0 <= i < second.len() && second[i] == x;
    assert(first.drop_last() =~= first.remove(first.len() - 1));
    assert(first.drop_last().to_multiset() =~= second.remove(i).to_multiset());
    i
}

/// The votes of a message against some priors do not depend on the order
/// of the priors.
pub proof fn lemma_votes_against_any_order(
    message: Seq<u8>,
    first: Seq<Seq<u8>>,
    second: Seq<Seq<u8>>,
    k: int,
    candidate: u8,
)
    requires
        first.to_multiset() == second.to_multiset(),
    ensures
        votes_against(message, first, k, candidate) == votes_against(message, second, k, candidate),
    decreases first.len(),
{
    first.to_multiset_ensures();
    second.to_multiset_ensures();
    if first.len() > 0 {
        let i = lemma_same_without_last(first, second);
        lemma_votes_against_any_order(message, first.drop_last(), second.remove(i), k, candidate);
        lemma_votes_against_remove(message, second, i, k, candidate);
    }
}

/// The votes of a log do not depend on the order of its ciphertexts.
pub proof fn lemma_vote_count_any_order(
    first: Seq<Seq<u8>>,
    second: Seq<Seq<u8>>,
    k: int,
    candidate: u8,
)
    requires
        first.to_multiset() == second.to_multiset(),
    ensures
        vote_count(first, k, candidate) == vote_count(second, k, candidate),
    decreases first.len(),
{
    first.to_multiset_ensures();
    second.to_multiset_ensures();
    if first.len() > 0 {
        let i = lemma_same_without_last(first, second);
        lemma_vote_count_any_order(first.drop_last(), second.remove(i), k, candidate);
        lemma_votes_against_any_order(
            first.last(),
            first.drop_last(),
            second.remove(i),
            k,
            candidate,
        );
        lemma_vote_count_remove(second, i, k, candidate);
    }
}

/// The length of the table does not depend on the order of the ciphertexts.
pub proof fn lemma_table_len_any_order(first: Seq<Seq<u8>>, second: Seq<Seq<u8>>)
    requires
        first.to_multiset() == second.to_multiset(),
    ensures
        table_len(first) == table_len(second),
{
    first.to_multiset_ensures();
    second.to_multiset_ensures();
    lemma_table_len_is_longest(first);
    lemma_table_len_is_longest(second);
    if first.len() > 0 {
        let i = choose|i: int| 0 <= i < first.len() && (#[trigger] first[i]).len() == table_len(first);
        let j = choose|j: int|
            0 <= j < second.len() && (#[trigger] second[j]).len() == table_len(second);
        assert(first.contains(first[i]));
        assert(second.to_multiset().count(first[i]) > 0);
        let i2 = choose|i2: int| 0 <= i2 < second.len() && second[i2] == first[i];
        assert(second[i2].len() <= table_len(second));
        assert(second.contains(second[j]));
        assert(first.to_multiset().count(second[j]) > 0);
        let j2 = choose|j2: int| 0 <= j2 < first.len() && first[j2] == second[j];
        assert(first[j2].len() <= table_len(first));
    }
}

/// Two engines that were given the same ciphertexts, each as often as the
/// other but in any order, hold the same evidence: every candidate has the
/// same votes at every position, the votes at a position have the same sum,
/// and the inferred pad is the same, so both decode alike.
pub proof fn lemma_submission_order_is_irrelevant(first: Seq<Seq<u8>>, second: Seq<Seq<u8>>)
    requires
        first.to_multiset() == second.to_multiset(),
    ensures
        table_len(first) == table_len(second),
        forall|k: int, c: u8| #[trigger] vote_count(first, k, c) == vote_count(second, k, c),
        forall|k: int| #[trigger] vote_mass(first, k) == vote_mass(second, k),
        likely_pad(first) == likely_pad(second),
{
    lemma_table_len_any_order(first, second);
    assert forall|k: int, c: u8| #[trigger] vote_count(first, k, c) == vote_count(second, k, c) by {
        lemma_vote_count_any_order(first, second, k, c);
    }
    assert forall|k: int| #[trigger] vote_mass(first, k) == vote_mass(second, k) by {
        lemma_mass_below_agrees(first, second, k, 256);
    }
    assert forall|k: int| top_candidate(first, k) == top_candidate(second, k) by {
        let winner = top_candidate(first, k);
        lemma_top_candidate_exists(first, k);
        assert forall|d: u8| #![trigger vote_count(second, k, d)]
            vote_count(second, k, d) <= vote_count(second, k, winner) && (vote_count(second, k, d)
                == vote_count(second, k, winner) ==> winner <= d) by {
            assert(vote_count(first, k, d) == vote_count(second, k, d));
            assert(vote_count(first, k, winner) == vote_count(second, k, winner));
        }
        lemma_top_candidate_unique(second, k, winner);
    }
    assert(likely_pad(first) =~= likely_pad(second));
}

/// Two engines that were given the same ciphertexts in any order decode
/// every target alike.
pub proof fn lemma_decode_ignores_order(first: &OTPBreaker, second: &OTPBreaker, target: Seq<u8>)
    requires
        first@.to_multiset() == second@.to_multiset(),
    ensures
        first.decoded(target) == second.decoded(target),
{
    lemma_submission_order_is_irrelevant(first@, second@);
}

} // verus!
