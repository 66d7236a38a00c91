//! What holds of every engine, stated over the voting model and proved.

use vstd::prelude::*;
use crate::breaker::OTPBreaker;
use crate::pad::{lemma_unmask_is_seven_bit, shorter};
use crate::votes::{
    is_top_candidate, lemma_top_candidate_unique, lemma_vote_count_push, likely_pad, mass_below,
    pair_votes, table_len, top_candidate, vote_count, vote_mass, votes_against,
};

verus! {

/// Decoding is a function of the ciphertexts given so far and of the target:
/// two decodings of one target with no ciphertext given in between agree.
pub proof fn lemma_decode_repeatable(
    breaker: &OTPBreaker,
    target: Seq<u8>,
    first: Seq<u8>,
    second: Seq<u8>,
)
    requires
        first == breaker.decoded(target),
        second == breaker.decoded(target),
    ensures
        first == second,
{
}

/// The table of a log reaches every ciphertext in it, and is exactly as
/// long as one of them unless the log is empty.
pub proof fn lemma_table_len_is_longest(log: Seq<Seq<u8>>)
    ensures
        forall|i: int| 0 <= i < log.len() ==> (#[trigger] log[i]).len() <= table_len(log),
        log.len() == 0 ==> table_len(log) == 0,
        log.len() > 0 ==> exists|i: int|
            0 <= i < log.len() && (#[trigger] log[i]).len() == table_len(log),
    decreases log.len(),
{
    if log.len() > 0 {
        let earlier = log.drop_last();
        lemma_table_len_is_longest(earlier);
        assert forall|i: int| 0 <= i < log.len() implies (#[trigger] log[i]).len() <= table_len(
            log,
        ) by {
            if i < earlier.len() {
                assert(log[i] == earlier[i]);
            }
        }
        if table_len(earlier) >= log.last().len() && earlier.len() > 0 {
            let i = choose|i: int|
                0 <= i < earlier.len() && (#[trigger] earlier[i]).len() == table_len(earlier);
            assert(log[i] == earlier[i]);
        } else {
            assert(log[log.len() - 1].len() == table_len(log));
        }
    }
}

/// After any sequence of submissions the engine keeps counters for as many
/// positions as its longest ciphertext has bytes.
pub proof fn lemma_votes_len_is_longest(breaker: &OTPBreaker)
    requires
        breaker.wf(),
    ensures
        forall|i: int|
            0 <= i < breaker@.len() ==> (#[trigger] breaker@[i]).len() <= breaker.spec_votes_len(),
        breaker@.len() == 0 ==> breaker.spec_votes_len() == 0,
        breaker@.len() > 0 ==> exists|i: int|
            0 <= i < breaker@.len() && (#[trigger] breaker@[i]).len() == breaker.spec_votes_len(),
{
    breaker.lemma_votes_len();
    lemma_table_len_is_longest(breaker@);
}

/// Every decoded byte has its most significant bit cleared.
pub proof fn lemma_decoded_is_seven_bit(breaker: &OTPBreaker, target: Seq<u8>)
    ensures
        forall|i: int|
            0 <= i < breaker.decoded(target).len() ==> #[trigger] breaker.decoded(target)[i] & 0x80
                == 0,
{
    let pad = likely_pad(breaker@);
    assert forall|i: int| 0 <= i < breaker.decoded(target).len() implies #[trigger] breaker.decoded(
        target,
    )[i] & 0x80 == 0 by {
        lemma_unmask_is_seven_bit(target[i], pad[i]);
    }
}

/// A decoded message is as long as the target or as the table, whichever is
/// shorter.
pub proof fn lemma_decoded_len(breaker: &OTPBreaker, target: Seq<u8>)
    requires
        breaker.wf(),
    ensures
        breaker.decoded(target).len() == shorter(target.len(), breaker.spec_votes_len()),
{
    breaker.lemma_votes_len();
}

/// A position where no candidate has a vote is won by `0x00`.
pub proof fn lemma_unvoted_position_pad_is_zero(log: Seq<Seq<u8>>, k: int)
    requires
        forall|c: u8| #[trigger] vote_count(log, k, c) == 0,
    ensures
        top_candidate(log, k) == 0,
{
    assert(is_top_candidate(log, k, 0u8));
    lemma_top_candidate_unique(log, k, 0u8);
}

/// At a position of the table where no candidate has a vote, decoding only
/// clears the high bit of the target's byte.
pub proof fn lemma_unvoted_position_decodes_plainly(
    breaker: &OTPBreaker,
    target: Seq<u8>,
    i: int,
)
    requires
        0 <= i < breaker.decoded(target).len(),
        forall|c: u8| #[trigger] vote_count(breaker@, i, c) == 0,
    ensures
        breaker.decoded(target)[i] == target[i] & 0x7F,
{
    lemma_unvoted_position_pad_is_zero(breaker@, i);
    let t = target[i];
    assert((t ^ 0u8) & 0x7F == t & 0x7F) by (bit_vector);
}

/// An engine that was given fewer than two ciphertexts has compared nothing:
/// as far as its table reaches, decoding only clears the high bit of each
/// byte of the target.
pub proof fn lemma_no_pair_decodes_plainly(breaker: &OTPBreaker, target: Seq<u8>)
    requires
        breaker@.len() <= 1,
    ensures
        forall|i: int|
            0 <= i < breaker.decoded(target).len() ==> #[trigger] breaker.decoded(target)[i]
                == target[i] & 0x7F,
{
    assert forall|i: int| 0 <= i < breaker.decoded(target).len() implies #[trigger] breaker.decoded(
        target,
    )[i] == target[i] & 0x7F by {
        assert forall|c: u8| #[trigger] vote_count(breaker@, i, c) == 0 by {
            lemma_lone_ciphertext_has_no_votes(breaker@, i, c);
        }
        lemma_unvoted_position_decodes_plainly(breaker, target, i);
    }
}

/// An engine that was given no ciphertext has no evidence at any position:
/// it decodes the empty target to itself, and has no table to decode a
/// longer one against.
pub proof fn lemma_fresh_engine_decodes_plainly(breaker: &OTPBreaker, target: Seq<u8>)
    requires
        breaker@.len() == 0,
        target.len() == 0,
    ensures
        breaker.decoded(target) == Seq::new(target.len(), |i: int| target[i] & 0x7F),
        forall|k: int, c: u8| #[trigger] vote_count(breaker@, k, c) == 0,
{
    assert(breaker.decoded(target) =~= Seq::new(target.len(), |i: int| target[i] & 0x7F));
}

/// A pair of ciphertexts casts the same votes whichever of the two is named
/// first.
pub proof fn lemma_pair_votes_symmetric(a: Seq<u8>, b: Seq<u8>, k: int, candidate: u8)
    ensures
        pair_votes(a, b, k, candidate) == pair_votes(b, a, k, candidate),
{
    if 0 <= k < a.len() && k < b.len() {
        let x = a[k];
        let y = b[k];
        assert(x ^ y == y ^ x) by (bit_vector);
    }
}

/// The log of an engine that was given `a` and then `b`.
pub open spec fn log_of_two(a: Seq<u8>, b: Seq<u8>) -> Seq<Seq<u8>> {
    Seq::<Seq<u8>>::empty().push(a).push(b)
}

/// Logs that agree on every candidate's votes at a position agree on the
/// sum of them.
pub proof fn lemma_mass_below_agrees(
    first: Seq<Seq<u8>>,
    second: Seq<Seq<u8>>,
    k: int,
    bound: nat,
)
    requires
        forall|c: u8| #[trigger] vote_count(first, k, c) == vote_count(second, k, c),
    ensures
        mass_below(first, k, bound) == mass_below(second, k, bound),
    decreases bound,
{
    if 0 < bound <= 256 {
        lemma_mass_below_agrees(first, second, k, (bound - 1) as nat);
    }
}

/// Whatever was submitted before, the last two submissions may change
/// places: every candidate keeps its votes at every position, the votes at a
/// position keep their sum, and the table keeps its length.
pub proof fn lemma_last_two_commute(history: Seq<Seq<u8>>, a: Seq<u8>, b: Seq<u8>, k: int)
    ensures
        forall|c: u8| #[trigger]
            vote_count(history.push(a).push(b), k, c) == vote_count(history.push(b).push(a), k, c),
        vote_mass(history.push(a).push(b), k) == vote_mass(history.push(b).push(a), k),
        table_len(history.push(a).push(b)) == table_len(history.push(b).push(a)),
{
    lemma_vote_count_push(history, a);
    lemma_vote_count_push(history, b);
    lemma_vote_count_push(history.push(a), b);
    lemma_vote_count_push(history.push(b), a);
    assert forall|c: u8| #[trigger]
        vote_count(history.push(a).push(b), k, c) == vote_count(
            history.push(b).push(a),
            k,
            c,
        ) by {
        lemma_pair_votes_symmetric(a, b, k, c);
        assert(votes_against(b, history.push(a), k, c) == votes_against(b, history, k, c)
            + pair_votes(b, a, k, c));
        assert(votes_against(a, history.push(b), k, c) == votes_against(a, history, k, c)
            + pair_votes(a, b, k, c));
    }
    lemma_mass_below_agrees(history.push(a).push(b), history.push(b).push(a), k, 256);
}

/// Submitting `a` then `b` gathers the same evidence as submitting `b` then
/// `a`: at every position each candidate has the same votes, and so the
/// votes at the position have the same sum.
pub proof fn lemma_submission_order_symmetric(a: Seq<u8>, b: Seq<u8>, k: int)
    ensures
        forall|c: u8| #[trigger]
            vote_count(log_of_two(a, b), k, c) == vote_count(log_of_two(b, a), k, c),
        vote_mass(log_of_two(a, b), k) == vote_mass(log_of_two(b, a), k),
        table_len(log_of_two(a, b)) == table_len(log_of_two(b, a)),
{
    lemma_last_two_commute(Seq::<Seq<u8>>::empty(), a, b, k);
}

/// A log of fewer than two ciphertexts holds no pair, and so no vote.
pub proof fn lemma_lone_ciphertext_has_no_votes(log: Seq<Seq<u8>>, k: int, candidate: u8)
    requires
        log.len() <= 1,
    ensures
        vote_count(log, k, candidate) == 0,
{
    if log.len() == 1 {
        assert(log.drop_last().len() == 0);
        assert(vote_count(log.drop_last(), k, candidate) == 0);
        assert(votes_against(log.last(), log.drop_last(), k, candidate) == 0);
    }
}

} // verus!
