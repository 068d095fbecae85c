//! Plain-valued logic of the detector's pipeline.
//!
//! The homomorphic work of detection — blind rotations, key switching and
//! the trace — runs in the ciphertext layer; what stands here is the exact
//! arithmetic the detector decides with: the offset added after key
//! switching, the modulus-switch rounding, and the index plaintext a
//! digest ciphertext accumulates for each message.

use vstd::prelude::*;
use vstd::arithmetic::div_mod::*;
use vstd::arithmetic::mul::*;
use vstd::arithmetic::power::pow;
use vstd::arithmetic::power2::pow2;

use crate::retrieval_params::RetrievalParams;
use crate::retriever::{round_scale, round_scale_exec, digits_value, bucket_offset};
use crate::rng::sample_bucket_index;
use crate::lut::pow2_u64;

verus! {

/// The kinds of ciphertext modulus a bootstrapped LWE carrier can have.
#[derive(Debug, Clone, Copy, PartialEq, Eq, Structural)]
pub enum ModulusValue {
    /// The full machine-word modulus.
    Native,
    /// An exact power of two.
    PowerOf2(u64),
    /// A prime.
    Prime(u64),
    /// Any other value.
    Others(u64),
}

/// One plaintext unit under the given modulus: the modulus divided by the
/// plaintext modulus `2^log_plain`, rounded half up where the division is
/// inexact.
pub open spec fn offset_unit(m: ModulusValue, log_plain: nat) -> nat {
    match m {
        ModulusValue::Native => pow2((64 - log_plain) as nat),
        ModulusValue::PowerOf2(q) => q as nat / pow2(log_plain),
        ModulusValue::Prime(q) => (q as nat / pow2((log_plain - 1) as nat) + 1) / 2,
        ModulusValue::Others(q) => (q as nat / pow2((log_plain - 1) as nat) + 1) / 2,
    }
}

/// The offset the detector adds to the key-switched ciphertext body: the
/// clue count, scaled by one plaintext unit of the intermediate modulus.
pub fn bootstrap_offset_scale(modulus: &ModulusValue, log_plain_modulus: u32, clue_count: u64) -> (
    r: u64)
    requires
        1 <= log_plain_modulus < 64,
        clue_count * offset_unit(*modulus, log_plain_modulus as nat) <= u64::MAX,
    ensures
        r == clue_count * offset_unit(*modulus, log_plain_modulus as nat),
{
    let unit: u64 = match modulus {
        ModulusValue::Native => {
            proof {
                vstd::arithmetic::power2::lemma_pow2_strictly_increases(
                    (64 - log_plain_modulus) as nat,
                    64,
                );
                vstd::arithmetic::power2::lemma2_to64_rest();
            }
            pow2_u64(64 - log_plain_modulus)
        },
        ModulusValue::PowerOf2(q) => {
            proof {
                if log_plain_modulus < 64 {
                    vstd::arithmetic::power2::lemma_pow2_strictly_increases(
                        log_plain_modulus as nat,
                        64,
                    );
                }
                vstd::arithmetic::power2::lemma2_to64_rest();
                vstd::arithmetic::power2::lemma_pow2_pos(log_plain_modulus as nat);
            }
            let d = pow2_u64(log_plain_modulus);
            *q / d
        },
        ModulusValue::Prime(q) => {
            proof {
                vstd::arithmetic::power2::lemma_pow2_strictly_increases(
                    (log_plain_modulus - 1) as nat,
                    64,
                );
                vstd::arithmetic::power2::lemma2_to64_rest();
                vstd::arithmetic::power2::lemma_pow2_pos((log_plain_modulus - 1) as nat);
            }
            let d = pow2_u64(log_plain_modulus - 1);
            let t = *q / d;
            proof {
                lemma_div_is_ordered_by_denominator(*q as int, 1, d as int);
                lemma_div_basics(*q as int);
            }
            ((t as u128 + 1) / 2) as u64
        },
        ModulusValue::Others(q) => {
            proof {
                vstd::arithmetic::power2::lemma_pow2_strictly_increases(
                    (log_plain_modulus - 1) as nat,
                    64,
                );
                vstd::arithmetic::power2::lemma2_to64_rest();
                vstd::arithmetic::power2::lemma_pow2_pos((log_plain_modulus - 1) as nat);
            }
            let d = pow2_u64(log_plain_modulus - 1);
            let t = *q / d;
            proof {
                lemma_div_is_ordered_by_denominator(*q as int, 1, d as int);
                lemma_div_basics(*q as int);
            }
            ((t as u128 + 1) / 2) as u64
        },
    };
    proof {
        assert(unit == offset_unit(*modulus, log_plain_modulus as nat));
        lemma_mul_is_commutative(clue_count as int, unit as int);
    }
    clue_count * unit
}

/// Switches every coefficient of an LWE ciphertext from modulus `q_from`
/// to modulus `q_to`, rounding half up.
pub fn lwe_modulus_switch(values: &Vec<u64>, q_from: u64, q_to: u64) -> (r: Vec<u64>)
    requires
        2 <= q_to <= u32::MAX,
        forall|k: int| 0 <= k < values@.len() ==> values@[k] < q_from,
    ensures
        r@.len() == values@.len(),
        forall|k: int|
            0 <= k < values@.len() ==> (#[trigger] r@[k]) as nat == round_scale(
                values@[k] as nat,
                q_from as nat,
                q_to as nat,
            ),
{
    let mut r: Vec<u64> = Vec::new();
    let mut k: usize = 0;
    let n = values.len();
    while k < n
        invariant
            k <= n,
            n == values@.len(),
            2 <= q_to <= u32::MAX,
            forall|t: int| 0 <= t < n ==> values@[t] < q_from,
            r@.len() == k,
            forall|t: int|
                0 <= t < k ==> (#[trigger] r@[t]) as nat == round_scale(
                    values@[t] as nat,
                    q_from as nat,
                    q_to as nat,
                ),
        decreases n - k,
    {
        let v = round_scale_exec(values[k], q_from, q_to);
        r.push(v);
        k = k + 1;
    }
    r
}

/// A modulus switch to an exact divisor preserves the value up to half a
/// scaling unit: scaled back up, the switched coefficient differs from
/// the original by at most `(q_from / q_to) / 2`, modulo `q_from`.
pub proof fn lemma_modulus_switch_preserves(v: nat, q_from: nat, q_to: nat)
    requires
        q_to >= 2,
        q_from >= 2,
        v < q_from,
        q_from % q_to == 0,
        q_from / q_to >= 1,
    ensures
        exists|e: int|
            {
                let k = (q_from / q_to) as int;
                -k < 2 * e <= k && (round_scale(v, q_from, q_to) * k) % (q_from as int)
                    == #[trigger] ((v + e) % (q_from as int))
            },
{
    let k = (q_from / q_to) as int;
    lemma_fundamental_div_mod(q_from as int, q_to as int);
    assert(q_from as int == q_to * k);
    // The rounding quotient collapses: (2*v*q_to + q_from) / (2*q_from)
    // equals (2*v + k) / (2*k).
    let t = (2 * v * q_to + q_from) as int / (2 * q_from) as int;
    assert(2 * v * q_to + q_from == (2 * v + k) * q_to) by (nonlinear_arith)
        requires
            q_from as int == q_to * k,
    ;
    assert(2 * q_from == (2 * k) * q_to) by (nonlinear_arith)
        requires
            q_from as int == q_to * k,
    ;
    assert(t == (2 * v + k) / (2 * k)) by {
        lemma_div_denominator((2 * v + k) * q_to, q_to as int, 2 * k);
        lemma_div_multiples_vanish(2 * v + k, q_to as int);
        lemma_mul_is_commutative((2 * v + k) as int, q_to as int);
        lemma_mul_is_commutative(2 * k, q_to as int);
    }
    // Division with remainder turns the quotient into an error bound.
    lemma_fundamental_div_mod(2 * v + k, 2 * k);
    lemma_mod_bound(2 * v + k, 2 * k);
    let rr = (2 * v + k) % (2 * k);
    assert(2 * v + k == (2 * k) * t + rr);
    let e = t * k - v;
    assert(2 * e == k - rr) by (nonlinear_arith)
        requires
            2 * v + k == (2 * k) * t + rr,
            e == t * k - v,
    ;
    assert(-k < 2 * e <= k);
    // Reducing the rounded value modulo `q_to` does not change the scaled
    // value modulo `q_from`.
    let s = round_scale(v, q_from, q_to) as int;
    assert(s == t || s == t - q_to);
    assert((s * k) % (q_from as int) == (t * k) % (q_from as int)) by {
        if s != t {
            assert(s * k == t * k - q_to * k) by (nonlinear_arith)
                requires
                    s == t - q_to,
            ;
            lemma_mod_sub_multiples_vanish(t * k, q_from as int);
        }
    }
    assert((t * k) % (q_from as int) == (v + e) % (q_from as int));
}

/// The digit of `x` at position `k`, base `p`.
pub open spec fn digit(x: nat, k: nat, p: nat) -> nat {
    (x / pow(p as int, k) as nat) % p
}

/// The little-endian base-`p` digits of `x`, `d` of them.
pub open spec fn digit_seq(x: nat, d: nat, p: nat) -> Seq<u64> {
    Seq::new(d, |k: int| digit(x, k as nat, p) as u64)
}

/// Reading the digits of an index back as a base-`p` number recovers the
/// index: the plaintext side of the digest round trip.
pub proof fn lemma_digits_round_trip(x: nat, d: nat, p: nat)
    requires
        p >= 2,
        p <= u64::MAX as nat + 1,
        x < pow(p as int, d),
    ensures
        digits_value(digit_seq(x, d, p), p) == x,
    decreases d,
{
    if d == 0 {
        vstd::arithmetic::power::lemma_pow0(p as int);
    } else {
        let s = digit_seq(x, d, p);
        let x2 = x / p;
        assert(pow(p as int, d) == p * pow(p as int, (d - 1) as nat)) by {
            vstd::arithmetic::power::lemma_pow_adds(p as int, 1, (d - 1) as nat);
            vstd::arithmetic::power::lemma_pow1(p as int);
        }
        lemma_fundamental_div_mod(x as int, p as int);
        lemma_mod_bound(x as int, p as int);
        assert(x2 < pow(p as int, (d - 1) as nat)) by (nonlinear_arith)
            requires
                x < p * pow(p as int, (d - 1) as nat),
                x2 == x / p,
                p >= 2,
                x == p * (x / p) + x % p,
                x % p >= 0,
        ;
        lemma_digits_round_trip(x2, (d - 1) as nat, p);
        assert(s.subrange(1, s.len() as int) =~= digit_seq(x2, (d - 1) as nat, p)) by {
            assert forall|k: int| 0 <= k < d - 1 implies s.subrange(1, s.len() as int)[k]
                == digit_seq(x2, (d - 1) as nat, p)[k] by {
                assert(s[k + 1] == digit(x, (k + 1) as nat, p) as u64);
                assert(digit(x, (k + 1) as nat, p) == digit(x2, k as nat, p)) by {
                    vstd::arithmetic::power::lemma_pow_positive(p as int, k as nat);
                    lemma_div_denominator(x as int, p as int, pow(p as int, k as nat));
                    assert(pow(p as int, (k + 1) as nat) == p * pow(p as int, k as nat)) by {
                        vstd::arithmetic::power::lemma_pow_adds(p as int, 1, k as nat);
                        vstd::arithmetic::power::lemma_pow1(p as int);
                    }
                }
            }
        }
        assert(s[0] == digit(x, 0, p) as u64);
        assert(digit(x, 0, p) == x % p) by {
            vstd::arithmetic::power::lemma_pow0(p as int);
            lemma_div_basics(x as int);
        }
        assert(digit(x, 0, p) < p) by {
            lemma_mod_division_less_than_divisor((x / pow(p as int, 0) as nat) as int, p as int);
        }
        assert(s[0] as nat == x % p);
        assert(digits_value(s, p) == x % p + p * x2);
        assert(x % p + p * x2 == x);
    }
}

/// An exact multiple of the scaling unit rounds back to itself: what the
/// digest writes at scale `q` is read back unchanged at scale `p`.
pub proof fn lemma_round_scale_exact(v: nat, q: nat, p: nat)
    requires
        2 <= p,
        p <= q,
        q % p == 0,
        v < p,
    ensures
        round_scale(v * (q / p), q, p) == v,
{
    let k = q / p;
    lemma_fundamental_div_mod(q as int, p as int);
    assert(q as int == p * k);
    lemma_div_pos_is_pos(q as int, p as int);
    lemma_div_non_zero(q as int, p as int);
    let c = v * k;
    // 2*c*p + q == (2*v + 1) * q, so the quotient is exactly v.
    assert(2 * c * p + q == (2 * v + 1) * q) by (nonlinear_arith)
        requires
            c == v * k,
            q as int == p * k,
    ;
    assert((2 * v + 1) * q as int / (2 * q) as int == v) by {
        assert((2 * v + 1) * q == (2 * q) * v + q) by (nonlinear_arith);
        lemma_fundamental_div_mod_converse(
            ((2 * v + 1) * q) as int,
            (2 * q) as int,
            v as int,
            q as int,
        );
    }
    assert(round_scale(c, q, p) == v);
}

/// Draws one uniformly random bucket index for each segment of a digest
/// ciphertext.
pub fn draw_bucket_indices(pr: &RetrievalParams) -> (r: Vec<usize>)
    requires
        pr.wf(),
    ensures
        r@.len() == pr.segment_per_cipher,
        forall|s: int| 0 <= s < r@.len() ==> #[trigger] r@[s] < pr.bucket_count_per_segment,
{
    let n = pr.segment_per_cipher();
    let bc = pr.bucket_count_per_segment();
    let mut r: Vec<usize> = Vec::new();
    let mut s: usize = 0;
    while s < n
        invariant
            s <= n,
            bc == pr.bucket_count_per_segment,
            bc >= 1,
            r@.len() == s,
            forall|t: int| 0 <= t < s ==> #[trigger] r@[t] < bc,
        decreases n - s,
    {
        let b = sample_bucket_index(bc);
        r.push(b);
        s = s + 1;
    }
    r
}

/// The plaintext polynomial the digest accumulates for message `i`: in
/// every segment, the base-`p` digits of `i` stand at the drawn bucket's
/// digit slots, a sentinel one follows them, and all other slots are
/// zero.
pub fn index_plaintext_poly(i: usize, bucket_indices: &Vec<usize>, pr: &RetrievalParams) -> (r:
    Vec<u64>)
    requires
        pr.wf(),
        i < pr.all_payloads_count,
        bucket_indices@.len() == pr.segment_per_cipher,
        forall|s: int|
            0 <= s < bucket_indices@.len() ==> #[trigger] bucket_indices@[s]
                < pr.bucket_count_per_segment,
    ensures
        r@.len() == pr.polynomial_size,
        forall|s: int, j: int|
            0 <= s < pr.segment_per_cipher && 0 <= j < pr.slots_per_segment
                ==> #[trigger] r@[s * pr.slots_per_segment + j] == ({
                let off = bucket_indices@[s] * pr.slots_per_bucket as int;
                if off <= j < off + pr.slots_per_bucket - 1 {
                    digit(i as nat, (j - off) as nat, pr.index_modulus as nat) as u64
                } else if j == off + pr.slots_per_bucket - 1 {
                    1u64
                } else {
                    0u64
                }
            }),
        forall|m: int|
            pr.segment_per_cipher * pr.slots_per_segment <= m < pr.polynomial_size
                ==> #[trigger] r@[m] == 0u64,
{
    let sps = pr.slots_per_segment();
    let spb = pr.slots_per_bucket();
    let spc = pr.segment_per_cipher();
    let p = pr.index_modulus();
    let poly_size = pr.polynomial_size();
    proof {
        assert(spc * sps <= poly_size) by {
            lemma_fundamental_div_mod(poly_size as int, sps as int);
            lemma_mod_bound(poly_size as int, sps as int);
            lemma_mul_is_commutative(spc as int, sps as int);
        }
    }
    let mut r: Vec<u64> = Vec::new();
    let mut s: usize = 0;
    while s < spc
        invariant
            s <= spc,
            pr.wf(),
            i < pr.all_payloads_count,
            sps == pr.slots_per_segment,
            spb == pr.slots_per_bucket,
            spc == pr.segment_per_cipher,
            p == pr.index_modulus,
            poly_size == pr.polynomial_size,
            spc * sps <= poly_size,
            bucket_indices@.len() == spc,
            forall|t: int|
                0 <= t < bucket_indices@.len() ==> #[trigger] bucket_indices@[t]
                    < pr.bucket_count_per_segment,
            r@.len() == s * sps,
            forall|s2: int, j: int|
                0 <= s2 < s && 0 <= j < sps ==> #[trigger] r@[s2 * sps + j] == ({
                    let off = bucket_indices@[s2] * spb as int;
                    if off <= j < off + spb - 1 {
                        digit(i as nat, (j - off) as nat, p as nat) as u64
                    } else if j == off + spb - 1 {
                        1u64
                    } else {
                        0u64
                    }
                }),
        decreases spc - s,
    {
        proof {
            lemma_mul_is_distributive_add_other_way(sps as int, s as int, 1);
            lemma_mul_basics_4(sps as int);
            assert((s + 1) * sps <= spc * sps) by (nonlinear_arith)
                requires
                    s < spc,
                    sps >= 1,
            ;
            assert(bucket_indices@[s as int] * spb + spb <= sps) by {
                assert((bucket_indices@[s as int] + 1) * spb <= pr.bucket_count_per_segment
                    * spb) by (nonlinear_arith)
                    requires
                        bucket_indices@[s as int] < pr.bucket_count_per_segment,
                        spb >= 1,
                ;
                lemma_mul_is_distributive_add_other_way(
                    spb as int,
                    bucket_indices@[s as int] as int,
                    1,
                );
                lemma_mul_basics_4(spb as int);
                lemma_mul_is_commutative(pr.bucket_count_per_segment as int, spb as int);
            }
        }
        let ghost seg_snap = r@;
        let b = bucket_indices[s];
        let off = b * spb;
        // Zero slots up to the bucket.
        let mut j: usize = 0;
        while j < off
            invariant
                j <= off,
                r@.len() == seg_snap.len() + j,
                r@.subrange(0, seg_snap.len() as int) == seg_snap,
                forall|t: int|
                    seg_snap.len() <= t < seg_snap.len() + j ==> #[trigger] r@[t] == 0u64,
            decreases off - j,
        {
            r.push(0u64);
            proof {
                assert(r@.subrange(0, seg_snap.len() as int) =~= seg_snap);
            }
            j = j + 1;
        }
        // The digits of the index, least significant first.
        let ghost dig_base = seg_snap.len() + off;
        let mut v: u64 = i as u64;
        let mut k: usize = 0;
        proof {
            vstd::arithmetic::power::lemma_pow0(p as int);
            lemma_div_basics(i as int);
        }
        while k < spb - 1
            invariant
                k <= spb - 1,
                p >= 2,
                spb == pr.slots_per_bucket,
                i < pr.all_payloads_count,
                dig_base == seg_snap.len() + off,
                r@.len() == dig_base + k,
                v as nat == i as nat / pow(p as int, k as nat) as nat,
                r@.subrange(0, seg_snap.len() as int) == seg_snap,
                forall|t: int| seg_snap.len() <= t < dig_base ==> #[trigger] r@[t] == 0u64,
                forall|t: int|
                    dig_base <= t < dig_base + k ==> #[trigger] r@[t] == digit(
                        i as nat,
                        (t - dig_base) as nat,
                        p as nat,
                    ) as u64,
            decreases spb - 1 - k,
        {
            let dgt = v % p;
            proof {
                assert(dgt as nat == digit(i as nat, k as nat, p as nat));
                vstd::arithmetic::power::lemma_pow_positive(p as int, k as nat);
                lemma_div_denominator(i as int, pow(p as int, k as nat), p as int);
                assert(pow(p as int, (k + 1) as nat) == pow(p as int, k as nat) * p) by {
                    vstd::arithmetic::power::lemma_pow_adds(p as int, k as nat, 1);
                    vstd::arithmetic::power::lemma_pow1(p as int);
                }
            }
            r.push(dgt);
            proof {
                assert(r@.subrange(0, seg_snap.len() as int) =~= seg_snap);
            }
            v = v / p;
            k = k + 1;
        }
        // The sentinel marking the bucket occupied.
        r.push(1u64);
        proof {
            assert(r@.subrange(0, seg_snap.len() as int) =~= seg_snap);
        }
        // Zero slots to the end of the segment.
        let mut j2: usize = off + spb;
        while j2 < sps
            invariant
                off + spb <= j2 <= sps,
                dig_base == seg_snap.len() + off,
                spb >= 1,
                r@.len() == seg_snap.len() + j2,
                r@.subrange(0, seg_snap.len() as int) == seg_snap,
                forall|t: int| seg_snap.len() <= t < dig_base ==> #[trigger] r@[t] == 0u64,
                forall|t: int|
                    dig_base <= t < dig_base + spb - 1 ==> #[trigger] r@[t] == digit(
                        i as nat,
                        (t - dig_base) as nat,
                        p as nat,
                    ) as u64,
                r@[dig_base + spb - 1] == 1u64,
                forall|t: int|
                    seg_snap.len() + off + spb <= t < seg_snap.len() + j2 ==> #[trigger] r@[t]
                        == 0u64,
            decreases sps - j2,
        {
            r.push(0u64);
            proof {
                assert(r@.subrange(0, seg_snap.len() as int) =~= seg_snap);
            }
            j2 = j2 + 1;
        }
        proof {
            // The segment now matches its description; earlier segments
            // kept their contents because only pushes happened.
            assert forall|s2: int, j3: int| 0 <= s2 < s + 1 && 0 <= j3 < sps implies #[trigger] r@[
                s2 * sps + j3] == ({
                let off2 = bucket_indices@[s2] * spb as int;
                if off2 <= j3 < off2 + spb - 1 {
                    digit(i as nat, (j3 - off2) as nat, p as nat) as u64
                } else if j3 == off2 + spb - 1 {
                    1u64
                } else {
                    0u64
                }
            }) by {
                if s2 < s {
                    assert(s2 * sps + j3 < seg_snap.len()) by (nonlinear_arith)
                        requires
                            0 <= s2 < s,
                            0 <= j3 < sps,
                            seg_snap.len() == s * sps,
                            sps >= 1,
                    ;
                    assert(r@[s2 * sps + j3] == r@.subrange(0, seg_snap.len() as int)[s2 * sps
                        + j3]);
                    assert(seg_snap[s2 * sps + j3] == ({
                        let off2 = bucket_indices@[s2] * spb as int;
                        if off2 <= j3 < off2 + spb - 1 {
                            digit(i as nat, (j3 - off2) as nat, p as nat) as u64
                        } else if j3 == off2 + spb - 1 {
                            1u64
                        } else {
                            0u64
                        }
                    }));
                } else {
                    assert(s2 * sps + j3 == seg_snap.len() + j3);
                }
            }
        }
        s = s + 1;
    }
        // Zero slots past the last whole segment.
    let ghost full = r@;
    let mut m: usize = spc * sps;
    while m < poly_size
        invariant
            spc * sps <= m <= poly_size,
            full.len() == spc * sps,
            r@.len() == m,
            r@.subrange(0, full.len() as int) == full,
            forall|t: int| spc * sps <= t < m ==> #[trigger] r@[t] == 0u64,
        decreases poly_size - m,
    {
        r.push(0u64);
        proof {
            assert(r@.subrange(0, full.len() as int) =~= full);
        }
        m = m + 1;
    }
    proof {
        assert forall|s2: int, j3: int|
            0 <= s2 < spc && 0 <= j3 < sps implies #[trigger] r@[s2 * sps + j3] == full[s2 * sps
            + j3] by {
            assert(s2 * sps + j3 < full.len()) by (nonlinear_arith)
                requires
                    0 <= s2 < spc,
                    0 <= j3 < sps,
                    full.len() == spc * sps,
                    sps >= 1,
            ;
            assert(r@[s2 * sps + j3] == r@.subrange(0, full.len() as int)[s2 * sps + j3]);
        }
    }
    r
}


/// The digest round trip at one bucket, on plain values: a bucket whose
/// slots carry the scaled digits of an index and a scaled sentinel
/// decodes back to a sentinel of one and exactly that index.
pub proof fn lemma_bucket_round_trip(
    dec: Seq<u64>,
    q: nat,
    pr: RetrievalParams,
    t: int,
    i: nat,
)
    requires
        pr.wf(),
        pr.index_modulus <= q,
        q % pr.index_modulus as nat == 0,
        i < pow(pr.index_modulus as int, (pr.slots_per_bucket - 1) as nat),
        forall|j: int|
            0 <= j < pr.slots_per_bucket - 1 ==> #[trigger] dec[bucket_offset(pr, t) + j] as nat
                == digit(i, j as nat, pr.index_modulus as nat) * (q / pr.index_modulus as nat),
        dec[bucket_offset(pr, t) + pr.slots_per_bucket - 1] as nat == q
            / pr.index_modulus as nat,
    ensures
        crate::retriever::bucket_sentinel(dec, q, pr, t) == 1,
        crate::retriever::bucket_index_value(dec, q, pr, t) == i,
{
    let p2 = pr.index_modulus as nat;
    lemma_round_scale_exact(1, q, p2);
    vstd::arithmetic::power::lemma_pow1(p2 as int);
    assert(1 * (q / p2) == q / p2) by {
        lemma_mul_basics_4((q / p2) as int);
    }
    assert(crate::retriever::bucket_sentinel(dec, q, pr, t) == round_scale(q / p2, q, p2));
    assert(round_scale(1 * (q / p2), q, p2) == 1);
    let digs = crate::retriever::bucket_digits(dec, q, pr, t);
    assert forall|j: int| 0 <= j < pr.slots_per_bucket - 1 implies digs[j] == digit_seq(
        i,
        (pr.slots_per_bucket - 1) as nat,
        p2,
    )[j] by {
        let dj = digit(i, j as nat, p2);
        assert(dj < p2) by {
            lemma_mod_division_less_than_divisor(
                (i / pow(p2 as int, j as nat) as nat) as int,
                p2 as int,
            );
        }
        lemma_round_scale_exact(dj, q, p2);
        assert(digs[j] == round_scale(dec[bucket_offset(pr, t) + j] as nat, q, p2) as u64);
    }
    assert(digs =~= digit_seq(i, (pr.slots_per_bucket - 1) as nat, p2));
    lemma_digits_round_trip(i, (pr.slots_per_bucket - 1) as nat, p2);
}

} // verus!
