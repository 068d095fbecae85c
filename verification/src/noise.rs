//! Running statistics of decryption noise.
//!
//! Each decoded coefficient leaves a residue around the nearest plaintext
//! multiple; centred at zero, the residues are tallied against six
//! precomputed deviation thresholds and summed exactly for a variance
//! estimate.

use vstd::prelude::*;
use vstd::arithmetic::mul::*;

verus! {

/// A noise residue centred at zero: values above half the modulus stand
/// for their negative lift.
pub open spec fn centered(q: nat, value: nat) -> int {
    if value <= q / 2 {
        value as int
    } else {
        value - q
    }
}

/// Whether a centred residue lies within a threshold.
pub open spec fn within(c: int, threshold: u64) -> bool {
    -(threshold as int) <= c <= threshold as int
}

/// One where a centred residue lies within a threshold, zero elsewhere.
pub open spec fn within_one(c: int, threshold: u64) -> int {
    if within(c, threshold) {
        1int
    } else {
        0int
    }
}

/// Tallies of decryption noise against six deviation thresholds, with
/// exact sums for mean and variance.
#[derive(PartialEq, Eq, Structural)]
pub struct NoiseSigmaInfo {
    /// One standard deviation, truncated to a word.
    pub one_sigma: u64,
    /// Two standard deviations.
    pub two_sigma: u64,
    /// Three standard deviations.
    pub three_sigma: u64,
    /// Four standard deviations.
    pub four_sigma: u64,
    /// Five standard deviations.
    pub five_sigma: u64,
    /// Six standard deviations.
    pub six_sigma: u64,
    /// Residues within one deviation.
    pub one_sigma_count: usize,
    /// Residues within two deviations.
    pub two_sigma_count: usize,
    /// Residues within three deviations.
    pub three_sigma_count: usize,
    /// Residues within four deviations.
    pub four_sigma_count: usize,
    /// Residues within five deviations.
    pub five_sigma_count: usize,
    /// Residues within six deviations.
    pub six_sigma_count: usize,
    /// Residues expected in total.
    pub all_count: usize,
    /// Residues checked so far.
    pub processed: usize,
    /// Exact sum of the centred residues.
    pub sum: i128,
    /// Exact sum of their squares.
    pub sq_sum: u128,
    /// The ciphertext modulus.
    pub q: u64,
    /// Half the ciphertext modulus.
    pub half_q: u64,
}

impl NoiseSigmaInfo {
    /// The state the tallies always keep.
    pub open spec fn wf(&self) -> bool {
        &&& 2 <= self.q <= 0x10000000000000u64
        &&& self.half_q == self.q / 2
        &&& self.one_sigma <= self.two_sigma <= self.three_sigma <= self.four_sigma
            <= self.five_sigma <= self.six_sigma
        &&& self.processed <= 0x2000000
        &&& self.one_sigma_count <= self.processed
        &&& self.two_sigma_count <= self.processed
        &&& self.three_sigma_count <= self.processed
        &&& self.four_sigma_count <= self.processed
        &&& self.five_sigma_count <= self.processed
        &&& self.six_sigma_count <= self.processed
        &&& -(self.processed as int * self.half_q as int) <= self.sum <= self.processed as int
            * self.half_q as int
        &&& self.sq_sum <= self.processed as int * (self.half_q as int * self.half_q as int)
    }

    /// Starts empty tallies for the given thresholds and modulus.
    pub fn new(
        one_sigma: u64,
        two_sigma: u64,
        three_sigma: u64,
        four_sigma: u64,
        five_sigma: u64,
        six_sigma: u64,
        modulus: u64,
        all_count: usize,
    ) -> (r: NoiseSigmaInfo)
        requires
            2 <= modulus <= 0x10000000000000u64,
            one_sigma <= two_sigma <= three_sigma <= four_sigma <= five_sigma <= six_sigma,
        ensures
            r.wf(),
            r.one_sigma == one_sigma,
            r.two_sigma == two_sigma,
            r.three_sigma == three_sigma,
            r.four_sigma == four_sigma,
            r.five_sigma == five_sigma,
            r.six_sigma == six_sigma,
            r.all_count == all_count,
            r.q == modulus,
            r.half_q == modulus / 2,
            r.processed == 0,
            r.sum == 0,
            r.sq_sum == 0,
            r.one_sigma_count == 0,
            r.two_sigma_count == 0,
            r.three_sigma_count == 0,
            r.four_sigma_count == 0,
            r.five_sigma_count == 0,
            r.six_sigma_count == 0,
    {
        NoiseSigmaInfo {
            one_sigma,
            two_sigma,
            three_sigma,
            four_sigma,
            five_sigma,
            six_sigma,
            one_sigma_count: 0,
            two_sigma_count: 0,
            three_sigma_count: 0,
            four_sigma_count: 0,
            five_sigma_count: 0,
            six_sigma_count: 0,
            all_count,
            processed: 0,
            sum: 0,
            sq_sum: 0,
            q: modulus,
            half_q: modulus / 2,
        }
    }

    /// The tallies after one residue, as `check_noise_sigma` leaves them.
    pub open spec fn tally_one(self, value: u64) -> NoiseSigmaInfo {
        let c = centered(self.q as nat, value as nat);
        NoiseSigmaInfo {
            one_sigma_count: (self.one_sigma_count + within_one(c, self.one_sigma)) as usize,
            two_sigma_count: (self.two_sigma_count + within_one(c, self.two_sigma)) as usize,
            three_sigma_count: (self.three_sigma_count + within_one(c, self.three_sigma)) as usize,
            four_sigma_count: (self.four_sigma_count + within_one(c, self.four_sigma)) as usize,
            five_sigma_count: (self.five_sigma_count + within_one(c, self.five_sigma)) as usize,
            six_sigma_count: (self.six_sigma_count + within_one(c, self.six_sigma)) as usize,
            processed: (self.processed + 1) as usize,
            sum: (self.sum + c) as i128,
            sq_sum: (self.sq_sum + c * c) as u128,
            ..self
        }
    }

    /// The tallies after a whole sequence of residues, first to last.
    pub open spec fn tally_all(self, rs: Seq<u64>) -> NoiseSigmaInfo
        decreases rs.len(),
    {
        if rs.len() == 0 {
            self
        } else {
            self.tally_one(rs[0]).tally_all(rs.subrange(1, rs.len() as int))
        }
    }

    /// Tallying a sequence and then one more residue is tallying the
    /// extended sequence.
    pub proof fn lemma_tally_all_snoc(self, rs: Seq<u64>, v: u64)
        ensures
            self.tally_all(rs.push(v)) == self.tally_one(rs.push(v)[0]).tally_all(
                rs.push(v).subrange(1, rs.push(v).len() as int),
            ),
            self.tally_all(rs.push(v)) == self.tally_all(rs).tally_one(v),
        decreases rs.len(),
    {
        if rs.len() == 0 {
            assert(rs.push(v).subrange(1, rs.push(v).len() as int) =~= Seq::<u64>::empty());
            assert(rs.push(v)[0] == v);
        } else {
            assert(rs.push(v)[0] == rs[0]);
            assert(rs.push(v).subrange(1, rs.push(v).len() as int) =~= rs.subrange(
                1,
                rs.len() as int,
            ).push(v));
            self.tally_one(rs[0]).lemma_tally_all_snoc(rs.subrange(1, rs.len() as int), v);
        }
    }

    /// Tallies one residue: each threshold within which the centred value
    /// lies gains one, and the exact sums advance by the value and its
    /// square.
    pub fn check_noise_sigma(&mut self, value: u64)
        requires
            old(self).wf(),
            value < old(self).q,
            old(self).processed < 0x2000000,
        ensures
            final(self).wf(),
            final(self).q == old(self).q,
            final(self).half_q == old(self).half_q,
            final(self).one_sigma == old(self).one_sigma,
            final(self).two_sigma == old(self).two_sigma,
            final(self).three_sigma == old(self).three_sigma,
            final(self).four_sigma == old(self).four_sigma,
            final(self).five_sigma == old(self).five_sigma,
            final(self).six_sigma == old(self).six_sigma,
            final(self).all_count == old(self).all_count,
            final(self).processed == old(self).processed + 1,
            ({
                let c = centered(old(self).q as nat, value as nat);
                &&& final(self).sum == old(self).sum + c
                &&& final(self).sq_sum == old(self).sq_sum + c * c
                &&& final(self).one_sigma_count == old(self).one_sigma_count + within_one(
                    c,
                    old(self).one_sigma,
                )
                &&& final(self).two_sigma_count == old(self).two_sigma_count + within_one(
                    c,
                    old(self).two_sigma,
                )
                &&& final(self).three_sigma_count == old(self).three_sigma_count + within_one(
                    c,
                    old(self).three_sigma,
                )
                &&& final(self).four_sigma_count == old(self).four_sigma_count + within_one(
                    c,
                    old(self).four_sigma,
                )
                &&& final(self).five_sigma_count == old(self).five_sigma_count + within_one(
                    c,
                    old(self).five_sigma,
                )
                &&& final(self).six_sigma_count == old(self).six_sigma_count + within_one(
                    c,
                    old(self).six_sigma,
                )
            }),
            *final(self) == old(self).tally_one(value),
    {
        let ghost c = centered(self.q as nat, value as nat);
        let t: u64 = if value <= self.half_q {
            value
        } else {
            self.q - value
        };
        proof {
            assert(t as int == c || t as int == -c);
            assert(t <= self.half_q) by {
                if value > self.half_q {
                    assert(self.q - value <= self.q - self.half_q - 1);
                    assert(self.q / 2 + self.q / 2 + 1 >= self.q);
                }
            }
            assert forall|th: u64| (t <= th) == within(c, th) by {}
            assert(c * c == t as int * t as int) by (nonlinear_arith)
                requires
                    c == t as int || c == -(t as int),
            ;
            assert(self.processed as int * self.half_q as int + self.half_q as int == (
            self.processed as int + 1) * self.half_q as int) by {
                lemma_mul_is_distributive_add_other_way(
                    self.half_q as int,
                    self.processed as int,
                    1,
                );
                lemma_mul_basics_4(self.half_q as int);
            }
            assert(t as int * t as int <= self.half_q as int * self.half_q as int) by (
            nonlinear_arith)
                requires
                    0 <= t <= self.half_q,
            ;
            assert(self.processed as int * (self.half_q as int * self.half_q as int) + (
            self.half_q as int * self.half_q as int) == (self.processed as int + 1) * (self.half_q
                as int * self.half_q as int)) by {
                lemma_mul_is_distributive_add_other_way(
                    self.half_q as int * self.half_q as int,
                    self.processed as int,
                    1,
                );
                lemma_mul_basics_4(self.half_q as int * self.half_q as int);
            }
            assert((self.processed as int + 1) * self.half_q as int <= 0x2000000 * (
            0x8000000000000int)) by (nonlinear_arith)
                requires
                    self.processed as int + 1 <= 0x2000000,
                    0 <= self.half_q <= 0x8000000000000u64,
            ;
            assert((self.processed as int + 1) * (self.half_q as int * self.half_q as int)
                <= 0x2000000 * (0x8000000000000int * 0x8000000000000int)) by (nonlinear_arith)
                requires
                    self.processed as int + 1 <= 0x2000000,
                    0 <= self.half_q <= 0x8000000000000u64,
            ;
        }
        if t <= self.one_sigma {
            self.one_sigma_count = self.one_sigma_count + 1;
        }
        if t <= self.two_sigma {
            self.two_sigma_count = self.two_sigma_count + 1;
        }
        if t <= self.three_sigma {
            self.three_sigma_count = self.three_sigma_count + 1;
        }
        if t <= self.four_sigma {
            self.four_sigma_count = self.four_sigma_count + 1;
        }
        if t <= self.five_sigma {
            self.five_sigma_count = self.five_sigma_count + 1;
        }
        if t <= self.six_sigma {
            self.six_sigma_count = self.six_sigma_count + 1;
        }
        if value <= self.half_q {
            self.sum = self.sum + value as i128;
        } else {
            self.sum = self.sum - t as i128;
        }
        self.sq_sum = self.sq_sum + (t as u128) * (t as u128);
        self.processed = self.processed + 1;
    }
}

} // verus!
