//! Derived layout of the retrieval digests.
//!
//! An index digest ciphertext is segmented into buckets of
//! `index_slots + 1` plaintext slots: the base-`p` digits of one message
//! index followed by a sentinel marking the bucket occupied.  These
//! parameters fix that layout and the size of the payload combination
//! system.

use vstd::prelude::*;
use vstd::arithmetic::div_mod::*;
use vstd::arithmetic::mul::*;
use vstd::arithmetic::power::{pow, lemma_pow_strictly_increases, lemma_pow_positive, lemma_pow1};
use vstd::arithmetic::power2::{is_pow2, pow2};

verus! {

/// The number of base-`p` digits of `x`: one for a single digit, one more
/// for each further division by `p`.
pub open spec fn base_p_digit_len(p: nat, x: nat) -> nat
    decreases x,
    via base_p_digit_len_decreases
{
    if p < 2 {
        0
    } else if x < p {
        1
    } else {
        1 + base_p_digit_len(p, x / p)
    }
}

#[via_fn]
proof fn base_p_digit_len_decreases(p: nat, x: nat) {
    if p >= 2 && x >= p {
        lemma_div_decreases(x as int, p as int);
    }
}

/// The number of base-`p` digit slots reserved per bucket for writing any
/// message index below `n`: enough digits for `n - 1`, and by convention
/// zero for an empty board when `p` is a power of two, one otherwise.
pub open spec fn index_digits(p: nat, n: nat) -> nat {
    if n <= 1 {
        if is_pow2(p as int) {
            0
        } else {
            1
        }
    } else {
        base_p_digit_len(p, (n - 1) as nat)
    }
}

/// The digit length of `x` is the least `d` with `p^d > x`.
pub proof fn lemma_digit_len_bounds(p: nat, x: nat)
    requires
        p >= 2,
    ensures
        pow(p as int, base_p_digit_len(p, x)) > x,
        base_p_digit_len(p, x) >= 1,
        x >= 1 ==> pow(p as int, (base_p_digit_len(p, x) - 1) as nat) <= x,
    decreases x,
{
    if x < p {
        lemma_pow1(p as int);
        vstd::arithmetic::power::lemma_pow0(p as int);
    } else {
        lemma_div_decreases(x as int, p as int);
        lemma_digit_len_bounds(p, x / p);
        let d = base_p_digit_len(p, x / p);
        lemma_div_pos_is_pos(x as int, p as int);
        lemma_div_non_zero(x as int, p as int);
        assert(x / p >= 1);
        // p^(d+1) = p * p^d > p * (x / p) >= x - (p - 1) ... use the
        // fundamental division identity instead.
        lemma_fundamental_div_mod(x as int, p as int);
        lemma_mod_bound(x as int, p as int);
        assert(pow(p as int, (d + 1) as nat) == p * pow(p as int, d)) by {
            vstd::arithmetic::power::lemma_pow_adds(p as int, 1, d);
            lemma_pow1(p as int);
        }
        let xi = x as int;
        let pi = p as int;
        let qd = pow(p as int, d);
        let qd1 = pow(p as int, (d - 1) as nat);
        assert(pi * qd > xi) by (nonlinear_arith)
            requires
                qd > xi / pi,
                xi == pi * (xi / pi) + xi % pi,
                xi % pi >= 0,
                xi % pi < pi,
                pi >= 2,
        ;
        assert(pi * qd1 <= xi) by (nonlinear_arith)
            requires
                qd1 <= xi / pi,
                xi == pi * (xi / pi) + xi % pi,
                xi % pi >= 0,
                pi >= 2,
        ;
        assert(pow(p as int, d) == p * pow(p as int, (d - 1) as nat)) by {
            vstd::arithmetic::power::lemma_pow_adds(p as int, 1, (d - 1) as nat);
            lemma_pow1(p as int);
        }
    }
}

/// Computes `index_digits` for a board of `n` messages: the least count
/// of base-`p` digits that can write any index below `n`.
pub fn index_digit_count(index_modulus: u64, all_payloads_count: usize) -> (d: usize)
    requires
        index_modulus >= 2,
    ensures
        d as nat == index_digits(index_modulus as nat, all_payloads_count as nat),
        d <= 64,
        all_payloads_count >= 2 ==> d >= 1 && pow(index_modulus as int, d as nat)
            >= all_payloads_count && pow(index_modulus as int, (d - 1) as nat)
            < all_payloads_count,
{
    let ghost p = index_modulus as nat;
    if all_payloads_count <= 1 {
        if is_pow2_exec(index_modulus) {
            0
        } else {
            1
        }
    } else {
        proof {
            lemma_digit_len_bounds(p, (all_payloads_count - 1) as nat);
        }
        let ghost dd = base_p_digit_len(p, (all_payloads_count - 1) as nat);
        let n128 = all_payloads_count as u128;
        let p128 = index_modulus as u128;
        let mut power: u128 = p128;
        let mut d: usize = 1;
        proof {
            lemma_pow1(p128 as int);
            lemma_pow1(2);
            vstd::arithmetic::power::lemma_pow0(p128 as int);
        }
        while power < n128
            invariant
                1 <= d <= 64,
                index_modulus >= 2,
                p128 == index_modulus,
                n128 == all_payloads_count,
                all_payloads_count >= 2,
                power == pow(p128 as int, d as nat),
                pow(p128 as int, (d - 1) as nat) < n128,
                power >= pow(2, d as nat),
            decreases 64 - d,
        {
            proof {
                lemma_pow_positive(2, d as nat);
                lemma_pow_positive(2, (d + 1) as nat);
                assert(pow(p128 as int, (d + 1) as nat) == p128 * pow(p128 as int, d as nat)) by {
                    vstd::arithmetic::power::lemma_pow_adds(p128 as int, 1, d as nat);
                    lemma_pow1(p128 as int);
                }
                assert(pow(2, (d + 1) as nat) == 2 * pow(2, d as nat)) by {
                    vstd::arithmetic::power::lemma_pow_adds(2, 1, d as nat);
                    lemma_pow1(2);
                }
                assert(power * p128 >= pow(2, (d + 1) as nat)) by (nonlinear_arith)
                    requires
                        power >= pow(2, d as nat),
                        p128 >= 2,
                        pow(2, (d + 1) as nat) == 2 * pow(2, d as nat),
                        pow(2, d as nat) >= 0,
                ;
                assert(power * p128 < n128 * p128) by (nonlinear_arith)
                    requires
                        power < n128,
                        p128 >= 2,
                ;
                assert(n128 * p128 <= u128::MAX) by (nonlinear_arith)
                    requires
                        n128 <= u64::MAX,
                        p128 <= u64::MAX,
                ;
                if d + 1 > 64 {
                    vstd::arithmetic::power2::lemma2_to64_rest();
                    assert(pow(2, 64) == pow2(64)) by {
                        vstd::arithmetic::power2::lemma_pow2(64);
                    }
                    lemma_pow_strictly_increases(2, 64, (d + 1) as nat);
                    assert(false);
                }
                assert(power > pow(p128 as int, (d - 1) as nat)) by {
                    lemma_pow_strictly_increases(p128 as nat, (d - 1) as nat, d as nat);
                }
                assert(power * p128 > power) by (nonlinear_arith)
                    requires
                        power >= 1,
                        p128 >= 2,
                ;
            }
            power = power * p128;
            d = d + 1;
        }
        proof {
            // The loop's exit gives the least power bound; it matches the
            // digit length of `all_payloads_count - 1`.
            let x = (all_payloads_count - 1) as nat;
            assert(pow(p as int, d as nat) >= all_payloads_count);
            assert(pow(p as int, (d - 1) as nat) < all_payloads_count);
            assert(pow(p as int, dd) > x && pow(p as int, (dd - 1) as nat) <= x);
            if d < dd {
                lemma_pow_strictly_increases(p, d as nat, dd);
                assert(pow(p as int, d as nat) < pow(p as int, dd));
                lemma_pow_strictly_increases(p, (dd - 1) as nat, dd);
                if d as nat <= dd - 1 {
                    if (d as nat) < dd - 1 {
                        lemma_pow_strictly_increases(p, d as nat, (dd - 1) as nat);
                    }
                    assert(pow(p as int, d as nat) <= pow(p as int, (dd - 1) as nat));
                    assert(false);
                }
            }
            if dd < d {
                if dd <= d - 1 {
                    if dd < d - 1 {
                        lemma_pow_strictly_increases(p, dd, (d - 1) as nat);
                    }
                    assert(pow(p as int, dd) <= pow(p as int, (d - 1) as nat));
                    assert(false);
                }
            }
            assert(d as nat == dd);
        }
        d
    }
}

/// Tests whether a word is an exact power of two.
fn is_pow2_exec(x: u64) -> (b: bool)
    ensures
        b == is_pow2(x as int),
{
    if x == 0 {
        proof {
            reveal(is_pow2);
        }
        return false;
    }
    let mut v: u64 = x;
    while v % 2 == 0
        invariant
            v >= 1,
            is_pow2(x as int) == is_pow2(v as int),
        decreases v,
    {
        proof {
            reveal(is_pow2);
        }
        v = v / 2;
    }
    proof {
        reveal(is_pow2);
    }
    v == 1
}

/// Layout of the index and payload digests for one retrieval session.
#[derive(Clone, Copy, Debug)]
pub struct RetrievalParams {
    /// Output plaintext modulus, also the base the indices are written in.
    pub index_modulus: u64,
    /// Number of plaintext slots of one digest ciphertext.
    pub polynomial_size: usize,
    /// Number of buckets in one segment.
    pub bucket_count_per_segment: usize,
    /// Index digit slots plus the sentinel slot.
    pub slots_per_bucket: usize,
    /// Slots of one segment.
    pub slots_per_segment: usize,
    /// Number of segments drawn per session.
    pub segment_count: usize,
    /// Segments that fit in one digest ciphertext.
    pub segment_per_cipher: usize,
    /// Number of index digest ciphertexts.
    pub max_encode_indices_cipher_count: usize,
    /// Number of pertinent messages the session is sized for.
    pub pertinent_count: usize,
    /// Rows of the payload combination system.
    pub combination_count: usize,
    /// Combinations that fit in one payload digest ciphertext.
    pub cmb_count_per_cipher: usize,
    /// Number of messages on the board.
    pub all_payloads_count: usize,
}

impl RetrievalParams {
    /// Relations the layout always satisfies.
    pub open spec fn wf(&self) -> bool {
        &&& self.index_modulus >= 2
        &&& self.slots_per_bucket >= 1
        &&& self.bucket_count_per_segment >= 1
        &&& self.slots_per_segment == self.slots_per_bucket * self.bucket_count_per_segment
        &&& self.slots_per_segment >= 1
        &&& self.segment_per_cipher == self.polynomial_size / self.slots_per_segment
        &&& self.segment_per_cipher >= 1
        &&& self.combination_count >= self.pertinent_count + 5
        &&& self.cmb_count_per_cipher >= 1
        &&& self.index_modulus as nat * self.all_payloads_count as nat <= usize::MAX as nat
        &&& self.all_payloads_count >= 1
        &&& pow(self.index_modulus as int, (self.slots_per_bucket - 1) as nat) <= usize::MAX
        &&& (self.all_payloads_count >= 2 ==> pow(
            self.index_modulus as int,
            (self.slots_per_bucket - 1) as nat,
        ) >= self.all_payloads_count)
    }

    /// Derives the digest layout: buckets wide enough for the base-`p`
    /// digits of any index plus a sentinel, segments of
    /// `bucket_count_per_segment` buckets, and a combination system with
    /// ten spare rows for a power-of-two modulus, five otherwise.
    pub fn new(
        index_modulus: u64,
        polynomial_size: usize,
        all_payloads_count: usize,
        pertinent_count: usize,
        bucket_count_per_segment: usize,
        segment_count: usize,
        cmb_count_per_cipher: usize,
    ) -> (r: RetrievalParams)
        requires
            index_modulus >= 2,
            bucket_count_per_segment >= 1,
            all_payloads_count >= 1,
            cmb_count_per_cipher >= 1,
            pertinent_count + 10 <= usize::MAX,
            index_modulus as nat * all_payloads_count as nat <= usize::MAX as nat,
            bucket_count_per_segment as nat * (index_digits(
                index_modulus as nat,
                all_payloads_count as nat,
            ) + 1) <= polynomial_size as nat,
        ensures
            r.wf(),
            r.index_modulus == index_modulus,
            r.polynomial_size == polynomial_size,
            r.bucket_count_per_segment == bucket_count_per_segment,
            r.slots_per_bucket as nat == index_digits(
                index_modulus as nat,
                all_payloads_count as nat,
            ) + 1,
            r.slots_per_segment == r.slots_per_bucket * bucket_count_per_segment,
            r.segment_count == segment_count,
            r.segment_per_cipher == polynomial_size as int / r.slots_per_segment as int,
            r.max_encode_indices_cipher_count == segment_count as int / r.segment_per_cipher as int,
            r.pertinent_count == pertinent_count,
            r.combination_count == pertinent_count + (if is_pow2(index_modulus as int) {
                10int
            } else {
                5int
            }),
            r.cmb_count_per_cipher == cmb_count_per_cipher,
            r.all_payloads_count == all_payloads_count,
    {
        let index_slots_per_bucket = index_digit_count(index_modulus, all_payloads_count);
        let slots_per_bucket = index_slots_per_bucket + 1;
        proof {
            assert(pow(index_modulus as int, index_slots_per_bucket as nat) <= usize::MAX) by {
                if all_payloads_count >= 2 {
                    let d = index_slots_per_bucket as nat;
                    assert(pow(index_modulus as int, (d - 1) as nat) < all_payloads_count);
                    assert(pow(index_modulus as int, d) == index_modulus * pow(
                        index_modulus as int,
                        (d - 1) as nat,
                    )) by {
                        vstd::arithmetic::power::lemma_pow_adds(index_modulus as int, 1, (d
                            - 1) as nat);
                        lemma_pow1(index_modulus as int);
                    }
                    lemma_pow_positive(index_modulus as int, (d - 1) as nat);
                    assert(index_modulus * pow(index_modulus as int, (d - 1) as nat)
                        <= index_modulus as nat * all_payloads_count as nat) by (nonlinear_arith)
                        requires
                            pow(index_modulus as int, (d - 1) as nat) < all_payloads_count,
                            pow(index_modulus as int, (d - 1) as nat) >= 1,
                            index_modulus >= 2,
                    ;
                } else {
                    vstd::arithmetic::power::lemma_pow0(index_modulus as int);
                    if index_slots_per_bucket == 1 {
                        lemma_pow1(index_modulus as int);
                        assert(index_modulus as nat * all_payloads_count as nat == index_modulus)
                            by (nonlinear_arith)
                            requires
                                all_payloads_count == 1,
                        ;
                    }
                }
            }
            assert(slots_per_bucket as nat * bucket_count_per_segment as nat
                <= polynomial_size as nat) by {
                lemma_mul_is_commutative(slots_per_bucket as int, bucket_count_per_segment as int);
            }
            assert(slots_per_bucket as nat * bucket_count_per_segment as nat >= slots_per_bucket
                as nat * 1) by (nonlinear_arith)
                requires
                    bucket_count_per_segment >= 1,
                    slots_per_bucket as nat >= 1,
            ;
        }
        let slots_per_segment = slots_per_bucket * bucket_count_per_segment;
        let segment_per_cipher = polynomial_size / slots_per_segment;
        proof {
            lemma_div_non_zero(polynomial_size as int, slots_per_segment as int);
        }
        let max_encode_indices_cipher_count = segment_count / segment_per_cipher;
        let combination_count = if is_pow2_exec(index_modulus) {
            pertinent_count + 10
        } else {
            pertinent_count + 5
        };
        RetrievalParams {
            index_modulus,
            polynomial_size,
            bucket_count_per_segment,
            slots_per_bucket,
            slots_per_segment,
            segment_count,
            segment_per_cipher,
            max_encode_indices_cipher_count,
            pertinent_count,
            combination_count,
            cmb_count_per_cipher,
            all_payloads_count,
        }
    }

    /// The output plaintext modulus.
    pub fn index_modulus(&self) -> (r: u64)
        ensures
            r == self.index_modulus,
    {
        self.index_modulus
    }

    /// The number of plaintext slots of one digest ciphertext.
    pub fn polynomial_size(&self) -> (r: usize)
        ensures
            r == self.polynomial_size,
    {
        self.polynomial_size
    }

    /// The number of buckets in one segment.
    pub fn bucket_count_per_segment(&self) -> (r: usize)
        ensures
            r == self.bucket_count_per_segment,
    {
        self.bucket_count_per_segment
    }

    /// The index digit slots plus the sentinel slot.
    pub fn slots_per_bucket(&self) -> (r: usize)
        ensures
            r == self.slots_per_bucket,
    {
        self.slots_per_bucket
    }

    /// The slots of one segment.
    pub fn slots_per_segment(&self) -> (r: usize)
        ensures
            r == self.slots_per_segment,
    {
        self.slots_per_segment
    }

    /// The number of segments drawn per session.
    pub fn segment_count(&self) -> (r: usize)
        ensures
            r == self.segment_count,
    {
        self.segment_count
    }

    /// The number of segments that fit in one digest ciphertext.
    pub fn segment_per_cipher(&self) -> (r: usize)
        ensures
            r == self.segment_per_cipher,
    {
        self.segment_per_cipher
    }

    /// The number of index digest ciphertexts of one session.
    pub fn max_encode_indices_cipher_count(&self) -> (r: usize)
        ensures
            r == self.max_encode_indices_cipher_count,
    {
        self.max_encode_indices_cipher_count
    }

    /// The number of pertinent messages the session is sized for.
    pub fn pertinent_count(&self) -> (r: usize)
        ensures
            r == self.pertinent_count,
    {
        self.pertinent_count
    }

    /// The number of rows of the payload combination system.
    pub fn combination_count(&self) -> (r: usize)
        ensures
            r == self.combination_count,
    {
        self.combination_count
    }

    /// The number of combinations that fit in one payload digest
    /// ciphertext.
    pub fn cmb_count_per_cipher(&self) -> (r: usize)
        ensures
            r == self.cmb_count_per_cipher,
    {
        self.cmb_count_per_cipher
    }

    /// The number of messages on the board.
    pub fn all_payloads_count(&self) -> (r: usize)
        ensures
            r == self.all_payloads_count,
    {
        self.all_payloads_count
    }
}

} // verus!
