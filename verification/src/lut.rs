//! Negacyclic look-up polynomials for functional bootstrapping.
//!
//! A look-up table of `t` values is spread over an `N`-coefficient
//! polynomial in chunks of `N / t` equal coefficients, interleaving the
//! table with its own tail so that chunk `k` carries entry `(k + 1) / 2`.
//! The detector builds two of these: a band detector around zero for the
//! first bootstrap layer, and a spike at twice the clue count for the
//! second.

use vstd::prelude::*;
use vstd::arithmetic::div_mod::*;
use vstd::arithmetic::logarithm::log;
use vstd::arithmetic::power::pow;
use vstd::arithmetic::power2::{pow2, is_pow2, lemma_pow2_unfold, lemma_pow2_strictly_increases,
    lemma2_to64, lemma_pow2};
use vstd::arithmetic::logarithm::lemma_log_pow;
use vstd::arithmetic::mul::lemma_mul_is_commutative;

verus! {

/// The value that chunk `k` of a negacyclic look-up polynomial carries:
/// entry `(k + 1) / 2` of the interleaved table, or zero past its end.
pub open spec fn lut_chunk_value(table: Seq<u64>, k: int) -> u64 {
    if 0 <= k && (k + 1) / 2 < table.len() {
        table[(k + 1) / 2]
    } else {
        0u64
    }
}

/// The negacyclic look-up polynomial of a table, with chunks of
/// `half_delta` coefficients.
pub open spec fn negacyclic_lut_spec(table: Seq<u64>, coeff_count: nat, half_delta: nat) -> Seq<
    u64,
> {
    Seq::new(coeff_count, |m: int| lut_chunk_value(table, m / half_delta as int))
}

/// The scaling of one plaintext unit into the upper bits of a ciphertext
/// modulus: `q / t`, rounded half up (computed as half of `q / (t / 2)`,
/// rounded up).
///
/// The spike stands for one full plaintext unit, not half of one: the
/// offset added after key switching counts in units of `q / t`, and the
/// decoder rounds by `p / q`, so a unit of `q / (2 t)` would put every
/// decoded value exactly on the rounding boundary.
pub open spec fn lut_scale(q: u64, t_out: nat) -> nat {
    (q as nat / pow2((log(2, t_out as int) - 1) as nat) + 1) / 2
}

/// The five-entry band-detector table of the first bootstrap layer:
/// a spike at zero, negated at the wrap-around.
pub open spec fn first_level_table(q: u64, t_out: nat) -> Seq<u64> {
    let s = lut_scale(q, t_out) as u64;
    seq![s, 0u64, 0u64, 0u64, (q - s) as u64]
}

/// The selector table of the second bootstrap layer: one spike at twice
/// the clue count.
pub open spec fn second_level_table(q: u64, t_out: nat, t_in: nat, clue_count: nat) -> Seq<u64> {
    Seq::new(t_in, |j: int| if j == 2 * clue_count {
        lut_scale(q, t_out) as u64
    } else {
        0u64
    })
}

/// The exponent of an exact power of two.
pub(crate) fn log2_exact(x: u64) -> (r: u32)
    requires
        is_pow2(x as int),
    ensures
        pow2(r as nat) == x,
        r < 64,
{
    let mut v: u64 = x;
    let mut c: u32 = 0;
    proof {
        reveal(is_pow2);
        lemma2_to64();
    }
    while v > 1
        invariant
            is_pow2(v as int),
            v >= 1,
            x as nat == v as nat * pow2(c as nat),
            c < 64,
        decreases v,
    {
        proof {
            reveal(is_pow2);
            lemma_pow2_unfold((c + 1) as nat);
            assert(v as nat * pow2(c as nat) == (v as nat / 2) * pow2((c + 1) as nat)) by (
            nonlinear_arith)
                requires
                    v as int % 2 == 0,
                    v >= 2,
                    pow2((c + 1) as nat) == 2 * pow2(c as nat),
            ;
            if c + 1 >= 64 {
                if c + 1 > 64 {
                    lemma_pow2_strictly_increases(64, (c + 1) as nat);
                }
                vstd::arithmetic::power2::lemma2_to64_rest();
                assert(x as nat >= 1 * pow2((c + 1) as nat)) by (nonlinear_arith)
                    requires
                        x as nat == (v as nat / 2) * pow2((c + 1) as nat),
                        v as nat / 2 >= 1,
                        pow2((c + 1) as nat) >= 1,
                ;
            }
        }
        v = v / 2;
        c = c + 1;
    }
    c
}

/// Two raised to the given exponent, as a machine word.
pub(crate) fn pow2_u64(e: u32) -> (r: u64)
    requires
        pow2(e as nat) <= u64::MAX,
    ensures
        r as nat == pow2(e as nat),
{
    let mut r: u64 = 1;
    let mut k: u32 = 0;
    proof {
        lemma2_to64();
    }
    while k < e
        invariant
            k <= e,
            r as nat == pow2(k as nat),
            pow2(e as nat) <= u64::MAX,
        decreases e - k,
    {
        proof {
            lemma_pow2_unfold((k + 1) as nat);
            if k + 1 < e {
                lemma_pow2_strictly_increases((k + 1) as nat, e as nat);
            }
        }
        r = r * 2;
        k = k + 1;
    }
    r
}

/// Generates the negacyclic look-up polynomial of a table: `2^log_t`
/// chunks of equal coefficients, filled with the table interleaved with
/// its own tail.
pub fn negacyclic_lut(table: &Vec<u64>, coeff_count: usize, log_t: u32) -> (r: Vec<u64>)
    requires
        pow2(log_t as nat) <= coeff_count,
        coeff_count as nat % pow2(log_t as nat) == 0,
    ensures
        r@ == negacyclic_lut_spec(
            table@,
            coeff_count as nat,
            coeff_count as nat / pow2(log_t as nat),
        ),
{
    proof {
        lemma2_to64();
        if log_t >= 64 {
            lemma_pow2_strictly_increases(64, log_t as nat);
        }
        assert(pow2(log_t as nat) <= u64::MAX);
    }
    let chunk_count = pow2_u64(log_t);
    proof {
        vstd::arithmetic::power2::lemma_pow2_pos(log_t as nat);
    }
    let half_delta: usize = coeff_count / (chunk_count as usize);
    proof {
        lemma_div_non_zero(coeff_count as int, chunk_count as int);
    }
    let mut r: Vec<u64> = Vec::new();
    let mut m: usize = 0;
    while m < coeff_count
        invariant
            m <= coeff_count,
            half_delta as nat == coeff_count as nat / pow2(log_t as nat),
            half_delta >= 1,
            r@.len() == m,
            forall|t: int|
                0 <= t < m ==> r@[t] == lut_chunk_value(table@, t / half_delta as int),
        decreases coeff_count - m,
    {
        let k = m / half_delta;
        let idx = (k + 1) / 2;
        let v = if idx < table.len() {
            table[idx]
        } else {
            0u64
        };
        r.push(v);
        m = m + 1;
    }
    proof {
        assert(r@ =~= negacyclic_lut_spec(
            table@,
            coeff_count as nat,
            coeff_count as nat / pow2(log_t as nat),
        ));
    }
    r
}

/// The look-up polynomial of the first bootstrap layer: a scaled spike in
/// the band around zero, negated on the wrap-around, so blind rotation
/// answers whether a clue slot decrypts to zero.
pub fn first_level_lut(
    rlwe_dimension: usize,
    input_plain_modulus: usize,
    output_plain_modulus: usize,
    q: u64,
) -> (r: Vec<u64>)
    requires
        is_pow2(input_plain_modulus as int),
        is_pow2(output_plain_modulus as int),
        output_plain_modulus >= 2,
        input_plain_modulus <= rlwe_dimension,
        rlwe_dimension % input_plain_modulus == 0,
        q >= 1,
        output_plain_modulus as nat <= 2 * q as nat,
    ensures
        r@ == negacyclic_lut_spec(
            first_level_table(q, output_plain_modulus as nat),
            rlwe_dimension as nat,
            rlwe_dimension as nat / input_plain_modulus as nat,
        ),
{
    let scale_one = lut_scale_exec(q, output_plain_modulus);
    let scale_minus_one = q - scale_one;
    let table: Vec<u64> = vec![scale_one, 0, 0, 0, scale_minus_one];
    let log_t = log2_exact(input_plain_modulus as u64);
    proof {
        assert(table@ =~= first_level_table(q, output_plain_modulus as nat));
    }
    negacyclic_lut(&table, rlwe_dimension, log_t)
}

/// The look-up polynomial of the second bootstrap layer: a scaled spike
/// exactly at twice the clue count, so the second layer fires only when
/// all clue slots passed the first test.
pub fn second_level_lut(
    rlwe_dimension: usize,
    clue_count: usize,
    input_plain_modulus: usize,
    output_plain_modulus: usize,
    q: u64,
) -> (r: Vec<u64>)
    requires
        is_pow2(input_plain_modulus as int),
        is_pow2(output_plain_modulus as int),
        output_plain_modulus >= 2,
        input_plain_modulus <= rlwe_dimension,
        rlwe_dimension % input_plain_modulus == 0,
        2 * clue_count < input_plain_modulus,
        q >= 1,
        output_plain_modulus as nat <= 2 * q as nat,
    ensures
        r@ == negacyclic_lut_spec(
            second_level_table(
                q,
                output_plain_modulus as nat,
                input_plain_modulus as nat,
                clue_count as nat,
            ),
            rlwe_dimension as nat,
            rlwe_dimension as nat / input_plain_modulus as nat,
        ),
{
    let scale_one = lut_scale_exec(q, output_plain_modulus);
    let mut table: Vec<u64> = Vec::new();
    let mut j: usize = 0;
    while j < input_plain_modulus
        invariant
            j <= input_plain_modulus,
            table@.len() == j,
            forall|t: int| 0 <= t < j ==> table@[t] == 0u64,
        decreases input_plain_modulus - j,
    {
        table.push(0u64);
        j = j + 1;
    }
    table.set(2 * clue_count, scale_one);
    let log_t = log2_exact(input_plain_modulus as u64);
    proof {
        assert(table@ =~= second_level_table(
            q,
            output_plain_modulus as nat,
            input_plain_modulus as nat,
            clue_count as nat,
        ));
    }
    negacyclic_lut(&table, rlwe_dimension, log_t)
}

/// The spike height `lut_scale` as a machine word.
fn lut_scale_exec(q: u64, t_out: usize) -> (r: u64)
    requires
        is_pow2(t_out as int),
        t_out >= 2,
        q >= 1,
        t_out as nat <= 2 * q as nat,
    ensures
        r as nat == lut_scale(q, t_out as nat),
        1 <= r <= q,
{
    let log_all = log2_exact(t_out as u64);
    proof {
        lemma_pow2(log_all as nat);
        lemma_log_pow(2, log_all as nat);
        assert(log(2, t_out as int) == log_all as int);
        if log_all == 0 {
            assert(pow2(0) == 1) by {
                lemma2_to64();
            }
            assert(false);
        }
    }
    let log = log_all - 1;
    proof {
        lemma_pow2_strictly_increases(log as nat, 64);
        vstd::arithmetic::power2::lemma2_to64_rest();
    }
    let p = pow2_u64(log);
    proof {
        vstd::arithmetic::power2::lemma_pow2_pos(log as nat);
        lemma_div_pos_is_pos(q as int, p as int);
        lemma_div_is_ordered_by_denominator(q as int, 1, p as int);
        lemma_div_basics(q as int);
    }
    proof {
        lemma_pow2_unfold(log_all as nat);
        assert(2 * p as int == t_out as int);
        lemma_div_non_zero(q as int, p as int);
    }
    let d = q / p;
    let r = ((d as u128 + 1) / 2) as u64;
    proof {
        assert(d >= 1);
        assert(r as nat == (d + 1) as nat / 2);
        lemma_div_is_ordered(2, d as int + 1, 2);
        lemma_div_is_ordered(d as int + 1, q as int + 1, 2);
        lemma_div_is_ordered(q as int + 1, 2 * q as int, 2);
        lemma_div_multiples_vanish(q as int, 2);
        lemma_mul_is_commutative(q as int, 2);
    }
    r
}

/// The spike of the second layer moves with the clue count: two tables
/// built for different counts give different look-up polynomials, as long
/// as the spike of the first lands within the polynomial and is nonzero.
pub proof fn lemma_second_level_lut_depends_on_clue_count(
    coeff_count: nat,
    half_delta: nat,
    q: u64,
    t_out: nat,
    t_in: nat,
    c1: nat,
    c2: nat,
)
    requires
        c1 != c2,
        2 * c1 < t_in,
        2 * c2 < t_in,
        4 * c1 <= t_in,
        half_delta >= 1,
        coeff_count == t_in * half_delta,
        lut_scale(q, t_out) != 0,
    ensures
        negacyclic_lut_spec(second_level_table(q, t_out, t_in, c1), coeff_count, half_delta)
            != negacyclic_lut_spec(second_level_table(q, t_out, t_in, c2), coeff_count, half_delta),
{
    let k: int = if c1 == 0 {
        0
    } else {
        4 * c1 - 1
    };
    let m = k * half_delta;
    assert(0 <= k < t_in);
    assert(0 <= m < coeff_count) by (nonlinear_arith)
        requires
            m == k * half_delta,
            0 <= k < t_in,
            half_delta >= 1,
            coeff_count == t_in * half_delta,
    ;
    assert(m / half_delta as int == k) by {
        lemma_div_multiples_vanish(k, half_delta as int);
        lemma_mul_is_commutative(k, half_delta as int);
    }
    assert((k + 1) / 2 == 2 * c1);
    let tbl1 = second_level_table(q, t_out, t_in, c1);
    let tbl2 = second_level_table(q, t_out, t_in, c2);
    let l1 = negacyclic_lut_spec(tbl1, coeff_count, half_delta);
    let l2 = negacyclic_lut_spec(tbl2, coeff_count, half_delta);
    assert(l1[m] == tbl1[2 * c1 as int]);
    assert(l2[m] == tbl2[2 * c1 as int]);
    assert(tbl1[2 * c1 as int] == lut_scale(q, t_out) as u64);
    assert(tbl2[2 * c1 as int] == 0u64);
    assert(lut_scale(q, t_out) as u64 != 0u64) by {
        assert(lut_scale(q, t_out) >= 1);
        assert(lut_scale(q, t_out) <= q) by {
            vstd::arithmetic::power2::lemma_pow2_pos((log(2, t_out as int) - 1) as nat);
            lemma_div_is_ordered_by_denominator(q as int, 1, pow2(
                (log(2, t_out as int) - 1) as nat,
            ) as int);
            lemma_div_basics(q as int);
        }
    }
    assert(l1[m] != l2[m]);
}

} // verus!
