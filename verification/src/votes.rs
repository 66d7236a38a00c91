//! The voting model: what a log of ciphertexts says about the pad.
//!
//! Everything here is mathematics over sequences of bytes. The engine keeps
//! its counters equal to these functions of the ciphertexts it was given.

use vstd::prelude::*;

verus! {

/// The XOR of the space character with any ASCII letter flips its case, so a
/// candidate pad byte is a ciphertext byte XOR this value.
pub const SPACE: u8 = 0x20;

/// Number of candidate pad bytes at one position.
pub const CANDIDATES: usize = 256;

/// Whether a byte is an ASCII letter, lower or upper case.
pub open spec fn is_letter(x: u8) -> bool {
    (0x61 <= x && x <= 0x7A) || (0x41 <= x && x <= 0x5A)
}

/// Votes that the pair of ciphertexts `a` and `b` casts for `candidate` at
/// position `k`.
///
/// Where both reach position `k` and their bytes there XOR to a letter, each
/// of the two bytes XOR `0x20` receives one vote. Otherwise the pair casts
/// no vote at `k`.
pub open spec fn pair_votes(a: Seq<u8>, b: Seq<u8>, k: int, candidate: u8) -> nat {
    if 0 <= k < a.len() && k < b.len() && is_letter(a[k] ^ b[k]) {
        (if a[k] ^ SPACE == candidate { 1nat } else { 0nat })
            + (if b[k] ^ SPACE == candidate { 1nat } else { 0nat })
    } else {
        0
    }
}

/// Votes for `candidate` at position `k` from pairing `message` with each of
/// `priors`.
pub open spec fn votes_against(message: Seq<u8>, priors: Seq<Seq<u8>>, k: int, candidate: u8) -> nat
    decreases priors.len(),
{
    if priors.len() == 0 {
        0
    } else {
        votes_against(message, priors.drop_last(), k, candidate)
            + pair_votes(message, priors.last(), k, candidate)
    }
}

/// Votes for `candidate` at position `k` over all pairs of ciphertexts in
/// `log`: each ciphertext is paired with every one before it.
pub open spec fn vote_count(log: Seq<Seq<u8>>, k: int, candidate: u8) -> nat
    decreases log.len(),
{
    if log.len() == 0 {
        0
    } else {
        vote_count(log.drop_last(), k, candidate)
            + votes_against(log.last(), log.drop_last(), k, candidate)
    }
}

/// Sum of the votes at position `k` for the candidates below `bound`.
pub open spec fn mass_below(log: Seq<Seq<u8>>, k: int, bound: nat) -> nat
    decreases bound,
{
    if bound == 0 || bound > 256 {
        0
    } else {
        mass_below(log, k, (bound - 1) as nat) + vote_count(log, k, (bound - 1) as u8)
    }
}

/// All votes cast at position `k`, whatever the candidate.
pub open spec fn vote_mass(log: Seq<Seq<u8>>, k: int) -> nat {
    mass_below(log, k, 256)
}

/// The larger of two lengths.
pub open spec fn longer(a: nat, b: nat) -> nat {
    if a >= b {
        a
    } else {
        b
    }
}

/// Number of positions of the vote table: the length of the longest
/// ciphertext in `log`, and 0 for an empty log.
pub open spec fn table_len(log: Seq<Seq<u8>>) -> nat
    decreases log.len(),
{
    if log.len() == 0 {
        0
    } else {
        longer(table_len(log.drop_last()), log.last().len())
    }
}

/// Whether `candidate` wins position `k`: no candidate has more votes, and
/// none with as many votes is a smaller byte.
pub open spec fn is_top_candidate(log: Seq<Seq<u8>>, k: int, candidate: u8) -> bool {
    forall|d: u8|
        #![trigger vote_count(log, k, d)]
        vote_count(log, k, d) <= vote_count(log, k, candidate) && (vote_count(log, k, d)
            == vote_count(log, k, candidate) ==> candidate <= d)
}

/// The winner of position `k`. Ties go to the smallest byte, so a position
/// without any vote is won by `0x00`.
pub open spec fn top_candidate(log: Seq<Seq<u8>>, k: int) -> u8 {
    choose|c: u8| is_top_candidate(log, k, c)
}

/// The pad inferred from `log`: the winner of each position of the table.
pub open spec fn likely_pad(log: Seq<Seq<u8>>) -> Seq<u8> {
    Seq::new(table_len(log), |k: int| top_candidate(log, k))
}

/// Whether `candidate` indexes the first largest counter of `row`.
pub open spec fn is_top_in(row: Seq<u128>, candidate: u8) -> bool {
    forall|d: int|
        0 <= d < 256 ==> #[trigger] row[d] <= row[candidate as int] && (row[d]
            == row[candidate as int] ==> candidate <= d)
}

/// One ciphertext against `priors` casts at most two votes per prior.
pub proof fn lemma_votes_against_bound(
    message: Seq<u8>,
    priors: Seq<Seq<u8>>,
    k: int,
    candidate: u8,
)
    ensures
        votes_against(message, priors, k, candidate) <= 2 * priors.len(),
    decreases priors.len(),
{
    if priors.len() > 0 {
        lemma_votes_against_bound(message, priors.drop_last(), k, candidate);
    }
}

/// A log of `n` ciphertexts gives no candidate more than `n * n` votes.
pub proof fn lemma_vote_count_bound(log: Seq<Seq<u8>>, k: int, candidate: u8)
    ensures
        vote_count(log, k, candidate) <= log.len() * log.len(),
    decreases log.len(),
{
    if log.len() > 0 {
        let n = log.len() as int;
        lemma_vote_count_bound(log.drop_last(), k, candidate);
        lemma_votes_against_bound(log.last(), log.drop_last(), k, candidate);
        assert((n - 1) * (n - 1) + 2 * (n - 1) <= n * n) by (nonlinear_arith);
    } else {
        assert(0 * 0 == 0) by (nonlinear_arith);
    }
}

/// A ciphertext casts no vote at a position that it does not reach.
pub proof fn lemma_votes_against_outside(
    message: Seq<u8>,
    priors: Seq<Seq<u8>>,
    k: int,
    candidate: u8,
)
    requires
        k < 0 || k >= message.len(),
    ensures
        votes_against(message, priors, k, candidate) == 0,
    decreases priors.len(),
{
    if priors.len() > 0 {
        lemma_votes_against_outside(message, priors.drop_last(), k, candidate);
    }
}

/// No vote is cast at a position outside the table.
pub proof fn lemma_vote_count_outside(log: Seq<Seq<u8>>, k: int, candidate: u8)
    requires
        k < 0 || k >= table_len(log),
    ensures
        vote_count(log, k, candidate) == 0,
    decreases log.len(),
{
    if log.len() > 0 {
        lemma_vote_count_outside(log.drop_last(), k, candidate);
        lemma_votes_against_outside(log.last(), log.drop_last(), k, candidate);
    }
}

/// Pairing a message with one more prior adds the votes of that pair.
pub proof fn lemma_votes_against_step(
    message: Seq<u8>,
    priors: Seq<Seq<u8>>,
    j: int,
    k: int,
    candidate: u8,
)
    requires
        0 <= j < priors.len(),
    ensures
        votes_against(message, priors.subrange(0, j + 1), k, candidate) == votes_against(
            message,
            priors.subrange(0, j),
            k,
            candidate,
        ) + pair_votes(message, priors[j], k, candidate),
{
    let longer = priors.subrange(0, j + 1);
    assert(longer.drop_last() =~= priors.subrange(0, j));
    assert(longer.last() == priors[j]);
}

/// Appending a ciphertext to a log pairs it with all that were there, and
/// stretches the table to its length where that is longer.
pub proof fn lemma_vote_count_push(log: Seq<Seq<u8>>, message: Seq<u8>)
    ensures
        table_len(log.push(message)) == longer(table_len(log), message.len()),
        forall|k: int, c: u8|
            #[trigger] vote_count(log.push(message), k, c) == vote_count(log, k, c)
                + votes_against(message, log, k, c),
        forall|other: Seq<u8>, k: int, c: u8|
            #[trigger] votes_against(other, log.push(message), k, c) == votes_against(
                other,
                log,
                k,
                c,
            ) + pair_votes(other, message, k, c),
{
    let longer = log.push(message);
    assert(longer.drop_last() =~= log);
    assert(longer.last() == message);
}

/// The winner among the candidates up to `bound`.
spec fn leader(log: Seq<Seq<u8>>, k: int, bound: u8) -> u8
    decreases bound,
{
    if bound == 0 {
        0
    } else {
        let before = leader(log, k, (bound - 1) as u8);
        if vote_count(log, k, bound) > vote_count(log, k, before) {
            bound
        } else {
            before
        }
    }
}

proof fn lemma_leader(log: Seq<Seq<u8>>, k: int, bound: u8)
    ensures
        leader(log, k, bound) <= bound,
        forall|d: u8|
            #![trigger vote_count(log, k, d)]
            d <= bound ==> vote_count(log, k, d) <= vote_count(log, k, leader(log, k, bound)) && (
            vote_count(log, k, d) == vote_count(log, k, leader(log, k, bound)) ==> leader(
                log,
                k,
                bound,
            ) <= d),
    decreases bound,
{
    if bound > 0 {
        lemma_leader(log, k, (bound - 1) as u8);
    }
}

/// Every position has a winner.
pub proof fn lemma_top_candidate_exists(log: Seq<Seq<u8>>, k: int)
    ensures
        is_top_candidate(log, k, top_candidate(log, k)),
{
    lemma_leader(log, k, 255);
    assert(is_top_candidate(log, k, leader(log, k, 255)));
}

/// A position has exactly one winner.
pub proof fn lemma_top_candidate_unique(log: Seq<Seq<u8>>, k: int, candidate: u8)
    requires
        is_top_candidate(log, k, candidate),
    ensures
        top_candidate(log, k) == candidate,
{
    let other = top_candidate(log, k);
    assert(vote_count(log, k, other) <= vote_count(log, k, candidate));
    assert(vote_count(log, k, candidate) <= vote_count(log, k, other));
}

} // verus!
