//! The engine that gathers ciphertexts and infers their common pad.

use vstd::prelude::*;
use crate::pad::{apply_pad, padded, shorter};
use crate::votes::{
    is_letter, is_top_candidate, is_top_in, lemma_top_candidate_unique, lemma_vote_count_bound,
    lemma_vote_count_outside, lemma_vote_count_push, lemma_votes_against_bound,
    lemma_votes_against_step, likely_pad, longer, table_len, top_candidate, vote_count,
    votes_against, CANDIDATES, SPACE,
};

verus! {

/// Used to break one-time-pad encryption when the same pad is used more
/// than once.
///
/// The engine is described by the ciphertexts it was given, in the order
/// they came: that sequence is its view. For every position up to the length
/// of the longest ciphertext it keeps 256 counters, one per candidate pad
/// byte, each equal to [`vote_count`] of the view. The counters are 128 bits
/// wide: a log of `n` ciphertexts gives a candidate at most `n * n` votes,
/// which always fits.
pub struct OTPBreaker {
    votes: Vec<Vec<u128>>,
    ciphertexts: Vec<Vec<u8>>,
}

impl View for OTPBreaker {
    type V = Seq<Seq<u8>>;

    closed spec fn view(&self) -> Seq<Seq<u8>> {
        Seq::new(self.ciphertexts@.len(), |i: int| self.ciphertexts@[i]@)
    }
}

/// A row of counters with no vote in it.
fn empty_row() -> (row: Vec<u128>)
    ensures
        row@.len() == 256,
        forall|c: int| 0 <= c < 256 ==> row@[c] == 0,
{
    let mut row: Vec<u128> = Vec::new();
    let mut c: usize = 0;
    while c < CANDIDATES
        invariant
            c <= 256,
            row@.len() == c,
            forall|d: int| 0 <= d < c ==> row@[d] == 0,
        decreases 256 - c,
    {
        row.push(0u128);
        c += 1;
    }
    row
}

/// Adds one vote for `candidate` to a row of counters.
fn cast_vote(row: &mut Vec<u128>, candidate: u8)
    requires
        old(row)@.len() == 256,
        old(row)@[candidate as int] < u128::MAX,
    ensures
        final(row)@ == old(row)@.update(candidate as int, (old(row)@[candidate as int] + 1) as u128),
{
    let c: usize = candidate as usize;
    let count: u128 = row[c];
    row[c] = count + 1;
}

/// The first candidate with the largest counter in a row.
fn top_of_row(row: &Vec<u128>) -> (best: u8)
    requires
        row@.len() == 256,
    ensures
        is_top_in(row@, best),
{
    let mut best: u8 = 0;
    let mut c: u8 = 0;
    while c < 255
        invariant
            row@.len() == 256,
            best <= c,
            forall|d: int|
                0 <= d <= c ==> #[trigger] row@[d] <= row@[best as int] && (row@[d]
                    == row@[best as int] ==> best <= d),
        decreases 255 - c,
    {
        c += 1;
        if row[c as usize] > row[best as usize] {
            best = c;
        }
    }
    best
}

/// Whether a byte is an ASCII letter.
fn letter(x: u8) -> (r: bool)
    ensures
        r == is_letter(x),
{
    (0x61 <= x && x <= 0x7A) || (0x41 <= x && x <= 0x5A)
}

impl OTPBreaker {
    /// Whether the counters agree with the ciphertexts: one row of 256
    /// counters per position of the table, each equal to its vote count.
    pub closed spec fn wf(&self) -> bool {
        &&& self.votes@.len() == table_len(self@)
        &&& forall|k: int| 0 <= k < self.votes@.len() ==> (#[trigger] self.votes@[k])@.len() == 256
        &&& forall|k: int, c: u8|
            0 <= k < self.votes@.len() ==> #[trigger] self.votes@[k]@[c as int] == vote_count(
                self@,
                k,
                c,
            )
    }

    /// Number of positions for which the engine keeps counters.
    pub closed spec fn spec_votes_len(&self) -> nat {
        self.votes@.len()
    }

    /// What decoding `target` gives: the target under the inferred pad.
    pub open spec fn decoded(&self, target: Seq<u8>) -> Seq<u8> {
        padded(target, likely_pad(self@))
    }

    /// The table of a well-formed engine is as long as its longest
    /// ciphertext.
    pub proof fn lemma_votes_len(&self)
        requires
            self.wf(),
        ensures
            self.spec_votes_len() == table_len(self@),
    {
    }

    /// An engine that has seen no ciphertext.
    pub fn new() -> (breaker: OTPBreaker)
        ensures
            breaker.wf(),
            breaker@ == Seq::<Seq<u8>>::empty(),
            breaker.spec_votes_len() == 0,
    {
        let breaker = OTPBreaker { votes: Vec::new(), ciphertexts: Vec::new() };
        assert(breaker@ =~= Seq::<Seq<u8>>::empty());
        breaker
    }

    /// Number of positions for which the engine keeps counters: the length
    /// of the longest ciphertext given so far.
    pub fn votes_len(&self) -> (n: usize)
        requires
            self.wf(),
        ensures
            n == self.spec_votes_len(),
            n == table_len(self@),
    {
        self.votes.len()
    }

    /// Votes gathered so far for `candidate` as the pad byte at `position`.
    pub fn vote_count(&self, position: usize, candidate: u8) -> (n: u128)
        requires
            self.wf(),
        ensures
            n == vote_count(self@, position as int, candidate),
    {
        if position < self.votes.len() {
            self.votes[position][candidate as usize]
        } else {
            proof {
                lemma_vote_count_outside(self@, position as int, candidate);
            }
            0
        }
    }

    /// Provides another ciphertext that is believed to use the same pad as
    /// those given before.
    ///
    /// The table grows to the length of `message` where it was shorter. The
    /// message is paired with every earlier ciphertext: wherever the two
    /// bytes at a position XOR to a letter, both bytes XOR `0x20` get a vote
    /// there. Then the message joins the log. Any message is accepted, the
    /// empty one too.
    pub fn add_message(&mut self, message: Vec<u8>)
        requires
            old(self).wf(),
        ensures
            final(self).wf(),
            final(self)@ == old(self)@.push(message@),
            final(self).spec_votes_len() == longer(old(self).spec_votes_len(), message@.len()),
            forall|k: int, c: u8|
                #[trigger] vote_count(final(self)@, k, c) == vote_count(old(self)@, k, c)
                    + votes_against(message@, old(self)@, k, c),
    {
        let ghost log = self@;
        let ghost logged = self.ciphertexts@;
        let ghost msg = message@;
        let ghost rows: nat = longer(table_len(log), msg.len());
        proof {
            lemma_vote_count_push(log, msg);
        }

        while self.votes.len() < message.len()
            invariant
                self.ciphertexts@ == logged,
                self@ == log,
                message@ == msg,
                msg.len() <= rows,
                table_len(log) <= self.votes@.len() <= rows,
                forall|k: int|
                    0 <= k < self.votes@.len() ==> (#[trigger] self.votes@[k])@.len() == 256,
                forall|k: int, c: u8|
                    0 <= k < self.votes@.len() ==> #[trigger] self.votes@[k]@[c as int]
                        == vote_count(log, k, c),
            decreases message@.len() - self.votes@.len(),
        {
            let ghost before = self.votes@;
            let row: Vec<u128> = empty_row();
            self.votes.push(row);
            proof {
                assert forall|k: int, c: u8| 0 <= k < self.votes@.len() implies #[trigger] self.votes@[k]@[c as int]
                    == vote_count(log, k, c) by {
                    if k == before.len() {
                        lemma_vote_count_outside(log, k, c);
                    } else {
                        assert(self.votes@[k] == before[k]);
                    }
                }
            }
        }

        let mut j: usize = 0;
        while j < self.ciphertexts.len()
            invariant
                self.ciphertexts@ == logged,
                self@ == log,
                message@ == msg,
                log.len() == logged.len(),
                j <= log.len(),
                self.votes@.len() == rows,
                msg.len() <= rows,
                forall|k: int|
                    0 <= k < self.votes@.len() ==> (#[trigger] self.votes@[k])@.len() == 256,
                forall|k: int, c: u8|
                    0 <= k < rows ==> #[trigger] self.votes@[k]@[c as int] == vote_count(log, k, c)
                        + votes_against(msg, log.subrange(0, j as int), k, c),
            decreases log.len() - j,
        {
            let prior_len: usize = self.ciphertexts[j].len();
            let reach: usize = if message.len() <= prior_len {
                message.len()
            } else {
                prior_len
            };
            let ghost prior = log[j as int];
            assert(prior == self.ciphertexts@[j as int]@);
            let mut k: usize = 0;
            while k < reach
                invariant
                    self.ciphertexts@ == logged,
                    self@ == log,
                    message@ == msg,
                    log.len() == logged.len(),
                    j < log.len() <= usize::MAX,
                    prior == log[j as int],
                    prior == self.ciphertexts@[j as int]@,
                    reach <= msg.len(),
                    reach <= prior.len(),
                    k <= reach,
                    self.votes@.len() == rows,
                    msg.len() <= rows,
                    forall|i: int|
                        0 <= i < self.votes@.len() ==> (#[trigger] self.votes@[i])@.len() == 256,
                    forall|i: int, c: u8|
                        0 <= i < k ==> #[trigger] self.votes@[i]@[c as int] == vote_count(log, i, c)
                            + votes_against(msg, log.subrange(0, j + 1), i, c),
                    forall|i: int, c: u8|
                        k <= i < rows ==> #[trigger] self.votes@[i]@[c as int] == vote_count(
                            log,
                            i,
                            c,
                        ) + votes_against(msg, log.subrange(0, j as int), i, c),
                decreases reach - k,
            {
                let a: u8 = message[k];
                let b: u8 = self.ciphertexts[j][k];
                let ghost before = self.votes@;
                if letter(a ^ b) {
                    let first: u8 = a ^ SPACE;
                    let second: u8 = b ^ SPACE;
                    proof {
                        let n = log.len() as int;
                        let jj = j as int;
                        lemma_vote_count_bound(log, k as int, first);
                        lemma_vote_count_bound(log, k as int, second);
                        lemma_votes_against_bound(msg, log.subrange(0, jj), k as int, first);
                        lemma_votes_against_bound(msg, log.subrange(0, jj), k as int, second);
                        assert(n * n + 2 * jj + 1 < 0xFFFF_FFFF_FFFF_FFFF_FFFF_FFFF_FFFF_FFFF)
                            by (nonlinear_arith)
                            requires
                                0 <= jj < n <= 0xFFFF_FFFF_FFFF_FFFF,
                        ;
                        assert(before[k as int]@[first as int] == vote_count(log, k as int, first)
                            + votes_against(msg, log.subrange(0, jj), k as int, first));
                        assert(before[k as int]@[second as int] == vote_count(
                            log,
                            k as int,
                            second,
                        ) + votes_against(msg, log.subrange(0, jj), k as int, second));
                    }
                    cast_vote(&mut self.votes[k], first);
                    cast_vote(&mut self.votes[k], second);
                }
                proof {
                    let kk = k as int;
                    assert forall|i: int| 0 <= i < self.votes@.len() implies (
                    #[trigger] self.votes@[i])@.len() == 256 by {
                        if i != kk {
                            assert(self.votes@[i] == before[i]);
                        }
                    }
                    assert forall|i: int, c: u8| 0 <= i < kk + 1 implies #[trigger] self.votes@[i]@[c as int]
                        == vote_count(log, i, c) + votes_against(
                        msg,
                        log.subrange(0, j + 1),
                        i,
                        c,
                    ) by {
                        if i == kk {
                            lemma_votes_against_step(msg, log, j as int, kk, c);
                            assert(before[kk]@[c as int] == vote_count(log, kk, c) + votes_against(
                                msg,
                                log.subrange(0, j as int),
                                kk,
                                c,
                            ));
                        } else {
                            assert(self.votes@[i] == before[i]);
                        }
                    }
                    assert forall|i: int, c: u8| kk + 1 <= i < rows implies #[trigger] self.votes@[i]@[c as int]
                        == vote_count(log, i, c) + votes_against(
                        msg,
                        log.subrange(0, j as int),
                        i,
                        c,
                    ) by {
                        assert(self.votes@[i] == before[i]);
                    }
                }
                k += 1;
            }
            proof {
                assert forall|i: int, c: u8| 0 <= i < rows implies #[trigger] self.votes@[i]@[c as int]
                    == vote_count(log, i, c) + votes_against(msg, log.subrange(0, j + 1), i, c) by {
                    if i >= k {
                        lemma_votes_against_step(msg, log, j as int, i, c);
                    }
                }
            }
            j += 1;
        }

        self.ciphertexts.push(message);
        proof {
            assert(log.subrange(0, log.len() as int) =~= log);
            assert(self@ =~= log.push(msg));
            assert forall|k: int, c: u8| 0 <= k < self.votes@.len() implies #[trigger] self.votes@[k]@[c as int]
                == vote_count(self@, k, c) by {
                assert(vote_count(log.push(msg), k, c) == vote_count(log, k, c) + votes_against(
                    msg,
                    log,
                    k,
                    c,
                ));
            }
        }
    }

    /// The most likely pad, one byte per position of the table.
    ///
    /// Each byte is the candidate with the most votes at its position. Among
    /// candidates with equally many votes the smallest byte wins, so a
    /// position without votes gives `0x00`.
    pub fn get_likely_pad(&self) -> (pad: Vec<u8>)
        requires
            self.wf(),
        ensures
            pad@ == likely_pad(self@),
            pad@.len() == self.spec_votes_len(),
    {
        let mut pad: Vec<u8> = Vec::new();
        let mut i: usize = 0;
        while i < self.votes.len()
            invariant
                self.wf(),
                i <= self.votes@.len(),
                pad@.len() == i,
                forall|k: int| 0 <= k < i ==> #[trigger] pad@[k] == top_candidate(self@, k),
            decreases self.votes@.len() - i,
        {
            let best: u8 = top_of_row(&self.votes[i]);
            proof {
                let row = self.votes@[i as int]@;
                assert forall|d: u8| #![trigger vote_count(self@, i as int, d)]
                    vote_count(self@, i as int, d) <= vote_count(self@, i as int, best) && (
                    vote_count(self@, i as int, d) == vote_count(self@, i as int, best) ==> best
                        <= d) by {
                    assert(row[d as int] == vote_count(self@, i as int, d));
                    assert(row[best as int] == vote_count(self@, i as int, best));
                }
                assert(is_top_candidate(self@, i as int, best));
                lemma_top_candidate_unique(self@, i as int, best);
            }
            pad.push(best);
            i += 1;
        }
        assert(pad@ =~= likely_pad(self@));
        pad
    }

    /// Uses the ciphertexts given so far to try to decode another one.
    ///
    /// The result is `message` under the inferred pad, as far as the table
    /// reaches, every byte cut to 7 bits.
    pub fn attempt_decode(&self, message: &Vec<u8>) -> (text: Vec<u8>)
        requires
            self.wf(),
        ensures
            text@ == self.decoded(message@),
            text@.len() == shorter(message@.len(), self.spec_votes_len()),
            forall|i: int| 0 <= i < text@.len() ==> #[trigger] text@[i] & 0x80 == 0,
    {
        let pad: Vec<u8> = self.get_likely_pad();
        apply_pad(message, &pad)
    }
}

} // verus!
