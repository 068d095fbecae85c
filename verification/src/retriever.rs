//! Digest decoding on the receiver's side.
//!
//! The retriever works on decrypted coefficient vectors: it rounds each
//! coefficient from the ciphertext modulus down to the output modulus,
//! reads occupied buckets of the index digest as base-`p` numbers, unpacks
//! the combined payloads of the payload digest, and solves the combination
//! system for the original payloads.

use vstd::prelude::*;
use vstd::arithmetic::div_mod::*;
use vstd::arithmetic::mul::*;
use vstd::arithmetic::power::pow;

use crate::payload::{Payload, PAYLOAD_LENGTH};
use crate::retrieval_params::RetrievalParams;
use crate::matrix::{solve_matrix_mod_256, is_solution, wf_unknowns, in_kernel, is_nonzero,
    mat_views, payload_views};
use crate::rng::{prg_expand, prg_bytes};
use crate::error::OmrError;
use crate::noise::NoiseSigmaInfo;

verus! {

/// A sequence of indices in strictly increasing order, so each index
/// appears once.
pub open spec fn strictly_sorted(s: Seq<usize>) -> bool {
    forall|a: int, b: int| 0 <= a < b < s.len() ==> s[a] < s[b]
}

/// A strictly sorted index vector names each index once, so its length
/// is the size of the set it carries.
pub proof fn lemma_sorted_len_is_card(s: Seq<usize>)
    requires
        strictly_sorted(s),
    ensures
        s.to_set().finite(),
        s.to_set().len() == s.len(),
{
    assert(s.no_duplicates()) by {
        assert forall|a: int, b: int|
            0 <= a < s.len() && 0 <= b < s.len() && a != b implies s[a] != s[b] by {
            if a < b {
                assert(s[a] < s[b]);
            } else {
                assert(s[b] < s[a]);
            }
        }
    }
    s.unique_seq_to_set();
    vstd::seq_lib::seq_to_set_is_finite::<usize>(s);
}

/// The slot offset of bucket `t` (counting buckets across segments) in a
/// decrypted digest vector.
pub open spec fn bucket_offset(pr: RetrievalParams, t: int) -> int {
    (t / pr.bucket_count_per_segment as int) * pr.slots_per_segment as int + (t
        % pr.bucket_count_per_segment as int) * pr.slots_per_bucket as int
}

/// The rounded sentinel slot of bucket `t`.
pub open spec fn bucket_sentinel(dec: Seq<u64>, q: nat, pr: RetrievalParams, t: int) -> nat {
    round_scale(dec[bucket_offset(pr, t) + pr.slots_per_bucket - 1] as nat, q, pr.index_modulus as nat)
}

/// The rounded digit slots of bucket `t`, little-endian.
pub open spec fn bucket_digits(dec: Seq<u64>, q: nat, pr: RetrievalParams, t: int) -> Seq<u64> {
    Seq::new(
        (pr.slots_per_bucket - 1) as nat,
        |j: int| round_scale(dec[bucket_offset(pr, t) + j] as nat, q, pr.index_modulus as nat) as u64,
    )
}

/// The message index written in bucket `t`.
pub open spec fn bucket_index_value(dec: Seq<u64>, q: nat, pr: RetrievalParams, t: int) -> nat {
    digits_value(bucket_digits(dec, q, pr, t), pr.index_modulus as nat)
}

/// The indices recovered from the first `t` buckets of a decrypted index
/// digest: every bucket whose sentinel rounds to one contributes the
/// number its digit slots write.
pub open spec fn recovered_upto(dec: Seq<u64>, q: nat, pr: RetrievalParams, t: nat) -> Set<usize>
    decreases t,
{
    if t == 0 {
        Set::empty()
    } else {
        let prev = recovered_upto(dec, q, pr, (t - 1) as nat);
        if bucket_sentinel(dec, q, pr, t - 1) == 1 {
            prev.insert(bucket_index_value(dec, q, pr, t - 1) as usize)
        } else {
            prev
        }
    }
}

/// All indices recovered from one decrypted index digest.
pub open spec fn recovered_indices(dec: Seq<u64>, q: nat, pr: RetrievalParams) -> Set<usize> {
    recovered_upto(
        dec,
        q,
        pr,
        (dec.len() / pr.slots_per_segment as nat) * pr.bucket_count_per_segment as nat,
    )
}

/// Decoding an index digest is a function of the digest alone: equal
/// digests recover equal index sets.
pub proof fn lemma_decode_deterministic(d1: Seq<u64>, d2: Seq<u64>, q: nat, pr: RetrievalParams)
    requires
        d1 == d2,
    ensures
        recovered_indices(d1, q, pr) == recovered_indices(d2, q, pr),
{
}

/// Rounds a coefficient from scale `q` to scale `p`, half up, reduced
/// once modulo `p`.
pub open spec fn round_scale(c: nat, q: nat, p: nat) -> nat {
    let t = (2 * c * p + q) / (2 * q);
    if t >= p {
        (t - p) as nat
    } else {
        t
    }
}

/// The number a little-endian digit sequence writes in base `p`.
pub open spec fn digits_value(s: Seq<u64>, p: nat) -> nat
    decreases s.len(),
{
    if s.len() == 0 {
        0
    } else {
        (s[0] + p * digits_value(s.subrange(1, s.len() as int), p)) as nat
    }
}

/// A digit sequence writes a number below `p` to the power of its length.
pub proof fn lemma_digits_value_bound(s: Seq<u64>, p: nat)
    requires
        p >= 1,
        forall|j: int| 0 <= j < s.len() ==> s[j] < p,
    ensures
        digits_value(s, p) < pow(p as int, s.len()),
    decreases s.len(),
{
    if s.len() == 0 {
        vstd::arithmetic::power::lemma_pow0(p as int);
    } else {
        let tail = s.subrange(1, s.len() as int);
        lemma_digits_value_bound(tail, p);
        assert(pow(p as int, s.len()) == p * pow(p as int, tail.len())) by {
            vstd::arithmetic::power::lemma_pow_adds(p as int, 1, tail.len());
            vstd::arithmetic::power::lemma_pow1(p as int);
        }
        assert(s[0] + p * digits_value(tail, p) < p * pow(p as int, tail.len())) by (
        nonlinear_arith)
            requires
                s[0] < p,
                digits_value(tail, p) < pow(p as int, tail.len()),
                digits_value(tail, p) >= 0,
                p >= 1,
        ;
    }
}

/// Rounds one coefficient from scale `q` to scale `p`.
pub fn round_scale_exec(c: u64, q: u64, p: u64) -> (r: u64)
    requires
        c < q,
        2 <= p <= u32::MAX,
    ensures
        r as nat == round_scale(c as nat, q as nat, p as nat),
        r < p,
{
    let c128 = c as u128;
    let q128 = q as u128;
    let p128 = p as u128;
    proof {
        assert(2 * c128 * p128 + q128 <= u128::MAX) by (nonlinear_arith)
            requires
                c128 <= u64::MAX,
                p128 <= u32::MAX,
                q128 <= u64::MAX,
        ;
    }
    let t = (2 * c128 * p128 + q128) / (2 * q128);
    proof {
        assert(2 * c128 * p128 + q128 < (2 * q128) * (p128 + 1)) by (nonlinear_arith)
            requires
                c128 < q128,
                p128 >= 2,
                q128 >= 1,
        ;
        lemma_multiply_divide_lt(
            (2 * c128 * p128 + q128) as int,
            (2 * q128) as int,
            (p128 + 1) as int,
        );
        assert(t <= p128);
    }
    let r = if t >= p128 {
        (t - p128) as u64
    } else {
        t as u64
    };
    r
}

/// Writes `cb - ca * sk` into `dest`, element by element, modulo the
/// given modulus: the decryption combination of an NTT ciphertext with
/// the secret key, on plain words.
pub fn sub_mul(cb: &Vec<u64>, ca: &Vec<u64>, sk: &Vec<u64>, dest: &mut Vec<u64>, modulus: u64)
    requires
        modulus >= 2,
        ca@.len() == cb@.len(),
        sk@.len() == cb@.len(),
        old(dest)@.len() == cb@.len(),
        forall|j: int| 0 <= j < cb@.len() ==> cb@[j] < modulus,
    ensures
        final(dest)@.len() == cb@.len(),
        forall|j: int|
            0 <= j < cb@.len() ==> final(dest)@[j] as int == (cb@[j] - ca@[j] * sk@[j]) % (
            modulus as int),
{
    let n = cb.len();
    let mut j: usize = 0;
    while j < n
        invariant
            j <= n,
            n == cb@.len(),
            ca@.len() == n,
            sk@.len() == n,
            dest@.len() == n,
            modulus >= 2,
            forall|t: int| 0 <= t < n ==> cb@[t] < modulus,
            forall|t: int|
                0 <= t < j ==> dest@[t] as int == (cb@[t] - ca@[t] * sk@[t]) % (modulus as int),
        decreases n - j,
    {
        let q128 = modulus as u128;
        proof {
            assert((ca@[j as int] as u128) * (sk@[j as int] as u128) <= u128::MAX) by (
            nonlinear_arith)
                requires
                    ca@[j as int] <= u64::MAX,
                    sk@[j as int] <= u64::MAX,
            ;
        }
        let m = ((ca[j] as u128) * (sk[j] as u128)) % q128;
        let v = ((cb[j] as u128) + q128 - m) % q128;
        dest.set(j, v as u64);
        proof {
            let a = ca@[j as int] as int;
            let s = sk@[j as int] as int;
            let b = cb@[j as int] as int;
            let q = modulus as int;
            assert(m == (a * s) % q);
            lemma_mod_bound(a * s, q);
            // (b + q - (a*s) % q) % q == (b - a*s) % q
            lemma_sub_mod_noop_right(b + q, a * s, q);
            lemma_mod_add_multiples_vanish(b - (a * s) % q, q);
            lemma_sub_mod_noop_right(b, a * s, q);
            lemma_mod_bound(b - a * s, q);
            assert(v as int == (b - a * s) % q);
        }
        j = j + 1;
    }
}

/// Unpacks the combined payloads of the payload digest: each digest
/// ciphertext carries a fixed number of combinations as consecutive
/// payload-length coefficient blocks, and each coefficient rounds to one
/// byte of a combined payload.
pub fn decode_combined_payloads(
    decrypted: &Vec<Vec<u64>>,
    combination_count: usize,
    cmb_count_per_cipher: usize,
    modulus: u64,
) -> (r: Vec<Payload>)
    requires
        modulus >= 257,
        cmb_count_per_cipher >= 1,
        decrypted@.len() * cmb_count_per_cipher >= combination_count,
        forall|k: int|
            0 <= k < decrypted@.len() ==> (#[trigger] decrypted@[k])@.len()
                >= cmb_count_per_cipher * PAYLOAD_LENGTH,
        forall|k: int, t: int|
            0 <= k < decrypted@.len() && 0 <= t < decrypted@[k]@.len() ==> #[trigger] decrypted@[k]@[t]
                < modulus,
    ensures
        r@.len() == combination_count,
        forall|ci: int| 0 <= ci < combination_count ==> (#[trigger] r@[ci]).wf(),
        forall|ci: int, pos: int|
            0 <= ci < combination_count && 0 <= pos < PAYLOAD_LENGTH ==> (#[trigger] r@[ci]@[pos])
                as nat == round_scale(
                decrypted@[ci / cmb_count_per_cipher as int]@[(ci % cmb_count_per_cipher as int)
                    * PAYLOAD_LENGTH + pos] as nat,
                modulus as nat,
                256,
            ),
{
    let mut r: Vec<Payload> = Vec::new();
    let mut ci: usize = 0;
    while ci < combination_count
        invariant
            ci <= combination_count,
            modulus >= 257,
            cmb_count_per_cipher >= 1,
            decrypted@.len() * cmb_count_per_cipher >= combination_count,
            forall|k: int|
                0 <= k < decrypted@.len() ==> (#[trigger] decrypted@[k])@.len()
                    >= cmb_count_per_cipher * PAYLOAD_LENGTH,
            forall|k: int, t: int|
                0 <= k < decrypted@.len() && 0 <= t < decrypted@[k]@.len() ==> #[trigger] decrypted@[k]@[t]
                    < modulus,
            r@.len() == ci,
            forall|c2: int| 0 <= c2 < ci ==> (#[trigger] r@[c2]).wf(),
            forall|c2: int, pos: int|
                0 <= c2 < ci && 0 <= pos < PAYLOAD_LENGTH ==> (#[trigger] r@[c2]@[pos]) as nat
                    == round_scale(
                    decrypted@[c2 / cmb_count_per_cipher as int]@[(c2 % cmb_count_per_cipher
                        as int) * PAYLOAD_LENGTH + pos] as nat,
                    modulus as nat,
                    256,
                ),
        decreases combination_count - ci,
    {
        let cipher = ci / cmb_count_per_cipher;
        let block = ci % cmb_count_per_cipher;
        proof {
            assert(cipher < decrypted@.len()) by (nonlinear_arith)
                requires
                    cipher == ci as int / cmb_count_per_cipher as int,
                    ci < combination_count,
                    cmb_count_per_cipher >= 1,
                    decrypted@.len() * cmb_count_per_cipher >= combination_count,
            ;
            assert(block * PAYLOAD_LENGTH + PAYLOAD_LENGTH <= cmb_count_per_cipher
                * PAYLOAD_LENGTH) by (nonlinear_arith)
                requires
                    block == ci as int % cmb_count_per_cipher as int,
                    cmb_count_per_cipher >= 1,
                    0 <= block < cmb_count_per_cipher,
            ;
        }
        let row = &decrypted[cipher];
        let row_len = row.len();
        proof {
            assert(row@.len() >= cmb_count_per_cipher * PAYLOAD_LENGTH);
            assert(block * PAYLOAD_LENGTH + PAYLOAD_LENGTH <= row_len);
        }
        let mut payload = Payload::new();
        let mut pos: usize = 0;
        let base = block * PAYLOAD_LENGTH;
        while pos < PAYLOAD_LENGTH
            invariant
                pos <= PAYLOAD_LENGTH,
                modulus >= 257,
                base == block * PAYLOAD_LENGTH,
                base + PAYLOAD_LENGTH <= row_len,
                row_len == row@.len(),
                forall|t: int| 0 <= t < row@.len() ==> row@[t] < modulus,
                payload@.len() == PAYLOAD_LENGTH,
                forall|t: int|
                    0 <= t < pos ==> (#[trigger] payload@[t]) as nat == round_scale(
                        row@[base + t] as nat,
                        modulus as nat,
                        256,
                    ),
            decreases PAYLOAD_LENGTH - pos,
        {
            let v = round_scale_exec(row[base + pos], modulus, 256);
            payload.set(pos, v as u8);
            pos = pos + 1;
        }
        r.push(payload);
        ci = ci + 1;
    }
    r
}


/// Inserts an index into a strictly sorted vector, keeping it strictly
/// sorted; a value already present is not repeated.
fn insert_sorted(v: &Vec<usize>, x: usize) -> (r: Vec<usize>)
    requires
        strictly_sorted(v@),
    ensures
        strictly_sorted(r@),
        r@.to_set() == v@.to_set().insert(x),
        v@.len() <= r@.len() <= v@.len() + 1,
{
    let n = v.len();
    let mut r: Vec<usize> = Vec::new();
    let mut j: usize = 0;
    while j < n && v[j] < x
        invariant
            j <= n,
            n == v@.len(),
            strictly_sorted(v@),
            r@ == v@.take(j as int),
            forall|t: int| 0 <= t < j ==> v@[t] < x,
        decreases n - j,
    {
        r.push(v[j]);
        proof {
            assert(r@ =~= v@.take(j + 1));
        }
        j = j + 1;
    }
    let dup = j < n && v[j] == x;
    r.push(x);
    let start: usize = if dup {
        j + 1
    } else {
        j
    };
    let ghost mid = r@;
    let mut k: usize = start;
    while k < n
        invariant
            start <= k <= n,
            n == v@.len(),
            strictly_sorted(v@),
            r@ == mid + v@.subrange(start as int, k as int),
            mid == v@.take(j as int).push(x),
            j <= start <= n,
        decreases n - k,
    {
        r.push(v[k]);
        proof {
            assert(r@ =~= mid + v@.subrange(start as int, k + 1));
        }
        k = k + 1;
    }
    proof {
        assert(r@ == v@.take(j as int).push(x) + v@.subrange(start as int, n as int));
        // Region facts: everything before `j` is below `x`, everything
        // from `start` on is above it.
        assert(forall|t: int| 0 <= t < j ==> v@[t] < x);
        assert forall|t: int| start <= t < n implies v@[t] > x by {
            if dup {
                assert(v@[j as int] == x);
                assert(v@[j as int] < v@[t]);
            } else {
                assert(j < n ==> !(v@[j as int] < x) && v@[j as int] != x);
                if t > j {
                    assert(v@[j as int] < v@[t]);
                }
            }
        }
        assert forall|a: int, b: int| 0 <= a < b < r@.len() implies r@[a] < r@[b] by {
            let ji = j as int;
            let va = if a < ji {
                v@[a]
            } else if a == ji {
                x
            } else {
                v@[start + (a - ji - 1)]
            };
            let vb = if b < ji {
                v@[b]
            } else if b == ji {
                x
            } else {
                v@[start + (b - ji - 1)]
            };
            assert(r@[a] == va);
            assert(r@[b] == vb);
        }
        assert forall|y: usize| r@.to_set().contains(y) implies v@.to_set().contains(y) || y == x by {
            let pos = choose|pos: int| 0 <= pos < r@.len() && r@[pos] == y;
            let ji = j as int;
            if pos < ji {
                assert(v@[pos] == y);
            } else if pos > ji {
                assert(v@[start + (pos - ji - 1)] == y);
            }
        }
        assert forall|y: usize| v@.to_set().contains(y) || y == x implies r@.to_set().contains(y) by {
            let ji = j as int;
            if y == x {
                assert(r@[ji] == x);
            } else {
                let pos = choose|pos: int| 0 <= pos < v@.len() && v@[pos] == y;
                if pos < ji {
                    assert(r@[pos] == y);
                } else if dup && pos == ji {
                    assert(v@[pos] == x);
                    assert(r@[ji] == y);
                } else {
                    assert(pos >= start);
                    assert(r@[ji + 1 + (pos - start)] == y);
                }
            }
        }
        assert(r@.to_set() =~= v@.to_set().insert(x));
    }
    r
}

/// The receiver's digest decoder: it accumulates recovered indices across
/// index digest ciphertexts and solves the payload combination system.
pub struct Retriever {
    /// The digest layout of the session.
    pub params: RetrievalParams,
    /// The ciphertext modulus the digest coefficients live under.
    pub modulus: u64,
    /// The indices recovered so far, strictly sorted.
    pub retrieval_set: Vec<usize>,
}

impl Retriever {
    /// The state a retriever always keeps.
    pub open spec fn wf(&self) -> bool {
        &&& self.params.wf()
        &&& self.modulus >= 257
        &&& self.params.index_modulus <= u32::MAX
        &&& strictly_sorted(self.retrieval_set@)
    }

    /// Creates a retriever with an empty recovered set.
    pub fn new(params: RetrievalParams, modulus: u64) -> (r: Retriever)
        requires
            params.wf(),
            params.index_modulus <= u32::MAX,
            modulus >= 257,
        ensures
            r.wf(),
            r.params == params,
            r.modulus == modulus,
            r.retrieval_set@ == Seq::<usize>::empty(),
    {
        let r = Retriever { params, modulus, retrieval_set: Vec::new() };
        proof {
            assert(r.retrieval_set@ =~= Seq::<usize>::empty());
        }
        r
    }

    /// The retrieval parameters of the session.
    pub fn params(&self) -> (r: RetrievalParams)
        ensures
            r == self.params,
    {
        self.params
    }

    /// The indices recovered so far, strictly sorted.
    pub fn retrieval_set(&self) -> (r: &Vec<usize>)
        ensures
            r@ == self.retrieval_set@,
    {
        &self.retrieval_set
    }

    /// Scans one decrypted index digest: every bucket whose sentinel slot
    /// rounds to one contributes the index its digit slots write, and the
    /// digest succeeds when the accumulated set reaches the pertinent
    /// count exactly.
    pub fn retrieve_indices(&mut self, decrypted: &Vec<u64>) -> (res: Result<usize, ()>)
        requires
            old(self).wf(),
            forall|k: int| 0 <= k < decrypted@.len() ==> decrypted@[k] < old(self).modulus,
        ensures
            final(self).wf(),
            final(self).params == old(self).params,
            final(self).modulus == old(self).modulus,
            final(self).retrieval_set@.to_set() == old(self).retrieval_set@.to_set().union(
                recovered_indices(decrypted@, old(self).modulus as nat, old(self).params),
            ),
            match res {
                Ok(n) => n == old(self).params.pertinent_count
                    && final(self).retrieval_set@.len() == n,
                Err(e) => final(self).retrieval_set@.len() != old(self).params.pertinent_count,
            },
    {
        let sps = self.params.slots_per_segment();
        let spb = self.params.slots_per_bucket();
        let bc = self.params.bucket_count_per_segment();
        let p = self.params.index_modulus();
        let q = self.modulus;
        let ghost pr = self.params;
        let ghost base_set = self.retrieval_set@.to_set();
        let len = decrypted.len();
        let seg_count = len / sps;
        proof {
            lemma_fundamental_div_mod(len as int, sps as int);
            lemma_mod_bound(len as int, sps as int);
        }
        let mut seg: usize = 0;
        while seg < seg_count
            invariant
                seg <= seg_count,
                self.params == pr,
                self.modulus == q,
                old(self).wf(),
                pr.wf(),
                q >= 257,
                p == pr.index_modulus,
                p <= u32::MAX,
                sps == pr.slots_per_segment,
                spb == pr.slots_per_bucket,
                bc == pr.bucket_count_per_segment,
                len == decrypted@.len(),
                seg_count == len as int / sps as int,
                forall|k: int| 0 <= k < decrypted@.len() ==> decrypted@[k] < q,
                strictly_sorted(self.retrieval_set@),
                self.retrieval_set@.to_set() == base_set.union(
                    recovered_upto(decrypted@, q as nat, pr, (seg * bc) as nat),
                ),
            decreases seg_count - seg,
        {
            proof {
                assert((seg + 1) * sps <= seg_count * sps) by (nonlinear_arith)
                    requires
                        seg < seg_count,
                        sps >= 1,
                ;
                assert(seg_count * sps <= len) by {
                    lemma_fundamental_div_mod(len as int, sps as int);
                    lemma_mod_bound(len as int, sps as int);
                    lemma_mul_is_commutative(seg_count as int, sps as int);
                }
                lemma_mul_is_distributive_add_other_way(sps as int, seg as int, 1);
                lemma_mul_basics_4(sps as int);
                assert(seg * sps + sps <= len);
            }
            let seg_base = seg * sps;
            let mut b: usize = 0;
            while b < bc
                invariant
                    b <= bc,
                    seg < seg_count,
                    self.params == pr,
                    self.modulus == q,
                    old(self).wf(),
                    pr.wf(),
                    q >= 257,
                    p == pr.index_modulus,
                    p <= u32::MAX,
                    sps == pr.slots_per_segment,
                    spb == pr.slots_per_bucket,
                    bc == pr.bucket_count_per_segment,
                    len == decrypted@.len(),
                    seg_count == len as int / sps as int,
                    seg_base == seg * sps,
                    seg_base + sps <= len,
                    forall|k: int| 0 <= k < decrypted@.len() ==> decrypted@[k] < q,
                    strictly_sorted(self.retrieval_set@),
                    self.retrieval_set@.to_set() == base_set.union(
                        recovered_upto(decrypted@, q as nat, pr, (seg * bc + b) as nat),
                    ),
                decreases bc - b,
            {
                proof {
                    assert((b + 1) * spb <= bc * spb) by (nonlinear_arith)
                        requires
                            b < bc,
                            spb >= 1,
                    ;
                    assert(bc * spb == sps) by {
                        lemma_mul_is_commutative(bc as int, spb as int);
                    }
                    lemma_mul_is_distributive_add_other_way(spb as int, b as int, 1);
                    lemma_mul_basics_4(spb as int);
                    assert(b * spb + spb <= sps);
                }
                let off = seg_base + b * spb;
                let ghost t = seg * bc + b;
                proof {
                    lemma_fundamental_div_mod_converse(
                        t as int,
                        bc as int,
                        seg as int,
                        b as int,
                    );
                    assert(bucket_offset(pr, t as int) == off);
                }
                let sentinel = round_scale_exec(decrypted[off + spb - 1], q, p);
                if sentinel == 1 {
                    // Read the index back from its little-endian digits.
                    let ghost digs = bucket_digits(decrypted@, q as nat, pr, t as int);
                    let mut acc: u64 = 0;
                    let mut jj: usize = spb - 1;
                    proof {
                        assert(digs.subrange(jj as int, (spb - 1) as int) =~= Seq::<u64>::empty());
                        vstd::arithmetic::power::lemma_pow0(p as int);
                    }
                    while jj > 0
                        invariant
                            jj <= spb - 1,
                            pr.wf(),
                            q >= 257,
                            p == pr.index_modulus,
                            p <= u32::MAX,
                            spb == pr.slots_per_bucket,
                            len == decrypted@.len(),
                            off == bucket_offset(pr, t as int),
                            off + spb <= len,
                            forall|k: int| 0 <= k < decrypted@.len() ==> decrypted@[k] < q,
                            digs == bucket_digits(decrypted@, q as nat, pr, t as int),
                            acc as nat == digits_value(
                                digs.subrange(jj as int, (spb - 1) as int),
                                p as nat,
                            ),
                            acc < pow(p as int, ((spb - 1) - jj) as nat),
                            pow(p as int, ((spb - 1) - jj) as nat) <= usize::MAX,
                        decreases jj,
                    {
                        jj = jj - 1;
                        let d = round_scale_exec(decrypted[off + jj], q, p);
                        proof {
                            let tail = digs.subrange(jj + 1, (spb - 1) as int);
                            let cur = digs.subrange(jj as int, (spb - 1) as int);
                            assert(cur[0] == digs[jj as int]);
                            assert(cur.subrange(1, cur.len() as int) =~= tail);
                            assert(digs[jj as int] == d);
                            let e = ((spb - 1) - jj - 1) as nat;
                            assert(pow(p as int, (e + 1) as nat) == p * pow(p as int, e)) by {
                                vstd::arithmetic::power::lemma_pow_adds(p as int, 1, e);
                                vstd::arithmetic::power::lemma_pow1(p as int);
                            }
                            assert(acc * p + d < pow(p as int, (e + 1) as nat)) by (
                            nonlinear_arith)
                                requires
                                    acc < pow(p as int, e),
                                    d < p,
                                    p >= 2,
                                    pow(p as int, (e + 1) as nat) == p * pow(p as int, e),
                            ;
                            assert(pow(p as int, (e + 1) as nat) <= pow(
                                p as int,
                                (pr.slots_per_bucket - 1) as nat,
                            )) by {
                                if e + 1 < pr.slots_per_bucket - 1 {
                                    vstd::arithmetic::power::lemma_pow_strictly_increases(
                                        p as nat,
                                        (e + 1) as nat,
                                        (pr.slots_per_bucket - 1) as nat,
                                    );
                                }
                            }
                            lemma_mul_is_commutative(acc as int, p as int);
                            assert(digits_value(cur, p as nat) == d + p * digits_value(
                                tail,
                                p as nat,
                            ));
                        }
                        acc = acc * p + d;
                    }
                    proof {
                        assert(digs.subrange(0, (spb - 1) as int) =~= digs);
                        assert(acc as nat == bucket_index_value(decrypted@, q as nat, pr, t as int));
                        assert(acc <= usize::MAX);
                    }
                    let new_set = insert_sorted(&self.retrieval_set, acc as usize);
                    self.retrieval_set = new_set;
                    proof {
                        assert(recovered_upto(decrypted@, q as nat, pr, (t + 1) as nat)
                            =~= recovered_upto(decrypted@, q as nat, pr, t as nat).insert(
                            acc as usize,
                        ));
                        assert(self.retrieval_set@.to_set() =~= base_set.union(
                            recovered_upto(decrypted@, q as nat, pr, (t + 1) as nat),
                        ));
                    }
                } else {
                    proof {
                        assert(recovered_upto(decrypted@, q as nat, pr, (t + 1) as nat)
                            == recovered_upto(decrypted@, q as nat, pr, t as nat));
                    }
                }
                b = b + 1;
            }
            proof {
                lemma_mul_is_distributive_add_other_way(bc as int, seg as int, 1);
                lemma_mul_basics_4(bc as int);
            }
            seg = seg + 1;
        }
        proof {
            assert((seg_count * bc) as nat == (decrypted@.len() / pr.slots_per_segment as nat)
                * pr.bucket_count_per_segment as nat);
        }
        if self.retrieval_set.len() == self.params.pertinent_count() {
            Ok(self.params.pertinent_count())
        } else {
            Err(())
        }
    }
}


/// The coefficient views of a list of digest vectors.
pub open spec fn digest_views(list: Seq<Vec<u64>>) -> Seq<Seq<u64>> {
    list.map_values(|v: Vec<u64>| v@)
}

/// The residue a decoded coefficient leaves: its distance, under the
/// ciphertext modulus, from the nearest multiple of the scaling unit.
pub open spec fn noise_residue(c: nat, q: nat) -> nat {
    ((c - round_scale(c, q, 256) * (q / 256)) % (q as int)) as nat
}

/// The residues of a whole payload digest, in decoding order.
pub open spec fn residue_seq(digests: Seq<Seq<u64>>, q: nat, cmb: int, cc: int) -> Seq<u64> {
    Seq::new(
        (cc * PAYLOAD_LENGTH) as nat,
        |n: int|
            (noise_residue(
                digests[(n / PAYLOAD_LENGTH as int) / cmb][((n / PAYLOAD_LENGTH as int) % cmb)
                    * PAYLOAD_LENGTH + n % PAYLOAD_LENGTH as int] as nat,
                q,
            ) as u64),
    )
}

/// Unpacks the combined payloads as `decode_combined_payloads` does,
/// tallying the decryption noise of every coefficient along the way.
pub fn decode_combined_payloads_with_noise(
    decrypted: &Vec<Vec<u64>>,
    combination_count: usize,
    cmb_count_per_cipher: usize,
    info: &mut NoiseSigmaInfo,
) -> (r: Vec<Payload>)
    requires
        old(info).wf(),
        old(info).q >= 257,
        old(info).processed + combination_count * PAYLOAD_LENGTH < 0x2000000,
        cmb_count_per_cipher >= 1,
        decrypted@.len() * cmb_count_per_cipher >= combination_count,
        forall|k: int|
            0 <= k < decrypted@.len() ==> (#[trigger] decrypted@[k])@.len()
                >= cmb_count_per_cipher * PAYLOAD_LENGTH,
        forall|k: int, t: int|
            0 <= k < decrypted@.len() && 0 <= t < decrypted@[k]@.len() ==> #[trigger] decrypted@[k]@[t]
                < old(info).q,
    ensures
        r@.len() == combination_count,
        forall|ci: int| 0 <= ci < combination_count ==> (#[trigger] r@[ci]).wf(),
        forall|ci: int, pos: int|
            0 <= ci < combination_count && 0 <= pos < PAYLOAD_LENGTH ==> (#[trigger] r@[ci]@[pos])
                as nat == round_scale(
                decrypted@[ci / cmb_count_per_cipher as int]@[(ci % cmb_count_per_cipher as int)
                    * PAYLOAD_LENGTH + pos] as nat,
                old(info).q as nat,
                256,
            ),
        *final(info) == old(info).tally_all(
            residue_seq(
                digest_views(decrypted@),
                old(info).q as nat,
                cmb_count_per_cipher as int,
                combination_count as int,
            ),
        ),
{
    let q = info.q;
    let delta = q / 256;
    let ghost info0 = *info;
    let ghost rs = residue_seq(
        digest_views(decrypted@),
        q as nat,
        cmb_count_per_cipher as int,
        combination_count as int,
    );
    proof {
        assert(info0.tally_all(rs.subrange(0, 0)) == info0) by {
            assert(rs.subrange(0, 0) =~= Seq::<u64>::empty());
        }
    }
    let mut r: Vec<Payload> = Vec::new();
    let mut ci: usize = 0;
    while ci < combination_count
        invariant
            ci <= combination_count,
            q == info0.q,
            q >= 257,
            delta == q as int / 256,
            info0.wf(),
            info0.processed + combination_count * PAYLOAD_LENGTH < 0x2000000,
            cmb_count_per_cipher >= 1,
            decrypted@.len() * cmb_count_per_cipher >= combination_count,
            forall|k: int|
                0 <= k < decrypted@.len() ==> (#[trigger] decrypted@[k])@.len()
                    >= cmb_count_per_cipher * PAYLOAD_LENGTH,
            forall|k: int, t: int|
                0 <= k < decrypted@.len() && 0 <= t < decrypted@[k]@.len()
                    ==> #[trigger] decrypted@[k]@[t] < q,
            rs == residue_seq(
                digest_views(decrypted@),
                q as nat,
                cmb_count_per_cipher as int,
                combination_count as int,
            ),
            r@.len() == ci,
            forall|c2: int| 0 <= c2 < ci ==> (#[trigger] r@[c2]).wf(),
            forall|c2: int, pos: int|
                0 <= c2 < ci && 0 <= pos < PAYLOAD_LENGTH ==> (#[trigger] r@[c2]@[pos]) as nat
                    == round_scale(
                    decrypted@[c2 / cmb_count_per_cipher as int]@[(c2 % cmb_count_per_cipher
                        as int) * PAYLOAD_LENGTH + pos] as nat,
                    q as nat,
                    256,
                ),
            info.wf(),
            info.q == q,
            info.half_q == info0.half_q,
            info.one_sigma == info0.one_sigma,
            info.two_sigma == info0.two_sigma,
            info.three_sigma == info0.three_sigma,
            info.four_sigma == info0.four_sigma,
            info.five_sigma == info0.five_sigma,
            info.six_sigma == info0.six_sigma,
            info.all_count == info0.all_count,
            info.processed == info0.processed + ci * PAYLOAD_LENGTH,
            *info == info0.tally_all(rs.subrange(0, ci * PAYLOAD_LENGTH)),
        decreases combination_count - ci,
    {
        let cipher = ci / cmb_count_per_cipher;
        let block = ci % cmb_count_per_cipher;
        proof {
            assert(cipher < decrypted@.len()) by (nonlinear_arith)
                requires
                    cipher == ci as int / cmb_count_per_cipher as int,
                    ci < combination_count,
                    cmb_count_per_cipher >= 1,
                    decrypted@.len() * cmb_count_per_cipher >= combination_count,
            ;
            assert(block * PAYLOAD_LENGTH + PAYLOAD_LENGTH <= cmb_count_per_cipher
                * PAYLOAD_LENGTH) by (nonlinear_arith)
                requires
                    block == ci as int % cmb_count_per_cipher as int,
                    cmb_count_per_cipher >= 1,
                    0 <= block < cmb_count_per_cipher,
            ;
            assert((ci + 1) * PAYLOAD_LENGTH <= combination_count * PAYLOAD_LENGTH) by (
            nonlinear_arith)
                requires
                    ci < combination_count,
            ;
            assert(ci * PAYLOAD_LENGTH + PAYLOAD_LENGTH == (ci + 1) * PAYLOAD_LENGTH) by (
            nonlinear_arith);
        }
        let row = &decrypted[cipher];
        let row_len = row.len();
        proof {
            assert(row@.len() >= cmb_count_per_cipher * PAYLOAD_LENGTH);
            assert(block * PAYLOAD_LENGTH + PAYLOAD_LENGTH <= row_len);
        }
        let mut payload = Payload::new();
        let mut pos: usize = 0;
        let base = block * PAYLOAD_LENGTH;
        while pos < PAYLOAD_LENGTH
            invariant
                pos <= PAYLOAD_LENGTH,
                q == info0.q,
                q >= 257,
                delta == q as int / 256,
                info0.wf(),
                info0.processed + combination_count * PAYLOAD_LENGTH < 0x2000000,
                ci < combination_count,
                cipher == ci as int / cmb_count_per_cipher as int,
                cipher < decrypted@.len(),
                block == ci as int % cmb_count_per_cipher as int,
                base == block * PAYLOAD_LENGTH,
                base + PAYLOAD_LENGTH <= row_len,
                row_len == row@.len(),
                row == decrypted@[cipher as int],
                forall|t: int| 0 <= t < row@.len() ==> row@[t] < q,
                rs == residue_seq(
                    digest_views(decrypted@),
                    q as nat,
                    cmb_count_per_cipher as int,
                    combination_count as int,
                ),
                payload@.len() == PAYLOAD_LENGTH,
                forall|t: int|
                    0 <= t < pos ==> (#[trigger] payload@[t]) as nat == round_scale(
                        row@[base + t] as nat,
                        q as nat,
                        256,
                    ),
                info.wf(),
                info.q == q,
                info.half_q == info0.half_q,
                info.one_sigma == info0.one_sigma,
                info.two_sigma == info0.two_sigma,
                info.three_sigma == info0.three_sigma,
                info.four_sigma == info0.four_sigma,
                info.five_sigma == info0.five_sigma,
                info.six_sigma == info0.six_sigma,
                info.all_count == info0.all_count,
                info.processed == info0.processed + ci * PAYLOAD_LENGTH + pos,
                *info == info0.tally_all(rs.subrange(0, ci * PAYLOAD_LENGTH + pos)),
            decreases PAYLOAD_LENGTH - pos,
        {
            let c = row[base + pos];
            let v = round_scale_exec(c, q, 256);
            payload.set(pos, v as u8);
            // The residue this coefficient leaves around its decoded
            // multiple of the scaling unit.
            proof {
                assert(v * delta < q) by (nonlinear_arith)
                    requires
                        v < 256,
                        delta == q as int / 256,
                        q as int == 256 * delta + q as int % 256,
                        q as int % 256 >= 0,
                        delta >= 1,
                ;
            }
            let scaled = v * delta;
            let x = if c >= scaled {
                c - scaled
            } else {
                c + q - scaled
            };
            proof {
                let n = ci * PAYLOAD_LENGTH + pos;
                assert(x as int == (c - v * delta) % (q as int)) by {
                    lemma_mod_bound(c - v * delta, q as int);
                    if c >= scaled {
                        lemma_small_mod((c - scaled) as nat, q as nat);
                    } else {
                        lemma_mod_add_multiples_vanish(c - v * delta, q as int);
                        lemma_small_mod((c + q - scaled) as nat, q as nat);
                    }
                }
                assert(rs[n as int] == x) by {
                    assert((n as int) / PAYLOAD_LENGTH as int == ci as int
                        && n as int % PAYLOAD_LENGTH as int == pos as int) by {
                        lemma_fundamental_div_mod_converse(
                            n as int,
                            PAYLOAD_LENGTH as int,
                            ci as int,
                            pos as int,
                        );
                    }
                    assert(digest_views(decrypted@)[cipher as int] == row@);
                }
                assert(rs.subrange(0, n + 1) =~= rs.subrange(0, n as int).push(rs[n as int]));
                info0.lemma_tally_all_snoc(rs.subrange(0, n as int), x);
            }
            info.check_noise_sigma(x);
            pos = pos + 1;
        }
        r.push(payload);
        ci = ci + 1;
    }
    proof {
        assert(rs.subrange(0, combination_count * PAYLOAD_LENGTH) =~= rs);
    }
    r
}

/// The indices recovered from the first `n` index digests together.
pub open spec fn recovered_prefix(
    list: Seq<Seq<u64>>,
    q: nat,
    pr: RetrievalParams,
    n: nat,
) -> Set<usize>
    decreases n,
{
    if n == 0 {
        Set::empty()
    } else {
        recovered_prefix(list, q, pr, (n - 1) as nat).union(
            recovered_indices(list[n - 1], q, pr),
        )
    }
}

/// The combination matrix restricted to the recovered indices: row `r`
/// holds the weight of each recovered message in combination `r`.
pub open spec fn weight_matrix(w: Seq<u8>, idx: Seq<usize>, cc: int, all: int) -> Seq<Seq<u8>> {
    Seq::new(cc as nat, |r: int| Seq::new(idx.len(), |k: int| w[r * all + idx[k]]))
}

/// The combined payloads that the payload digest decodes to, as byte
/// sequences.
pub open spec fn combined_views(digests: Seq<Seq<u64>>, q: nat, cmb: int, cc: int) -> Seq<
    Seq<u8>,
> {
    Seq::new(
        cc as nat,
        |ci: int|
            Seq::new(
                PAYLOAD_LENGTH as nat,
                |pos: int|
                    (round_scale(
                        digests[ci / cmb][(ci % cmb) * PAYLOAD_LENGTH + pos] as nat,
                        q,
                        256,
                    ) as u8),
            ),
    )
}

/// An owned copy of an index vector.
fn copy_indices(v: &Vec<usize>) -> (r: Vec<usize>)
    ensures
        r@ == v@,
{
    let mut data: Vec<usize> = Vec::new();
    let mut k: usize = 0;
    let n = v.len();
    while k < n
        invariant
            k <= n,
            n == v@.len(),
            data@.len() == k,
            forall|i: int| 0 <= i < k ==> data@[i] == v@[i],
        decreases n - k,
    {
        data.push(v[k]);
        k = k + 1;
    }
    proof {
        assert(data@ =~= v@);
    }
    data
}

impl Retriever {
    /// Decodes a session: scans index digests until the pertinent count
    /// is reached, rebuilds the weight matrix of the recovered indices
    /// from the session seed, unpacks the combined payloads, and solves
    /// for the payloads themselves.
    ///
    /// A scan that exhausts every digest without recovering exactly the
    /// pertinent count, or that recovers an index outside the board, is
    /// reported as a retrieval failure; a singular weight system as a
    /// non-invertible matrix.  On success the payloads are pinned against
    /// every solution of the rebuilt system, which has no nonzero kernel.
    #[verifier::loop_isolation(false)]
    pub fn retrieve(
        &mut self,
        index_digests: &Vec<Vec<u64>>,
        payload_digests: &Vec<Vec<u64>>,
        seed: &[u8; 32],
    ) -> (res: Result<(Vec<usize>, Vec<Payload>), OmrError>)
        requires
            old(self).wf(),
            forall|i: int, k: int|
                0 <= i < index_digests@.len() && 0 <= k < index_digests@[i]@.len()
                    ==> #[trigger] index_digests@[i]@[k] < old(self).modulus,
            forall|i: int, k: int|
                0 <= i < payload_digests@.len() && 0 <= k < payload_digests@[i]@.len()
                    ==> #[trigger] payload_digests@[i]@[k] < old(self).modulus,
            payload_digests@.len() * old(self).params.cmb_count_per_cipher
                >= old(self).params.combination_count,
            forall|k: int|
                0 <= k < payload_digests@.len() ==> (#[trigger] payload_digests@[k])@.len()
                    >= old(self).params.cmb_count_per_cipher * PAYLOAD_LENGTH,
            old(self).params.combination_count * old(self).params.all_payloads_count
                <= usize::MAX,
        ensures
            final(self).wf(),
            final(self).params == old(self).params,
            final(self).modulus == old(self).modulus,
            exists|n: nat|
                {
                    &&& n <= index_digests@.len()
                    &&& final(self).retrieval_set@.to_set()
                        == old(self).retrieval_set@.to_set().union(
                        #[trigger] recovered_prefix(
                            digest_views(index_digests@),
                            old(self).modulus as nat,
                            old(self).params,
                            n,
                        ),
                    )
                    &&& (forall|m: nat|
                        1 <= m < n ==> old(self).retrieval_set@.to_set().union(
                            #[trigger] recovered_prefix(
                                digest_views(index_digests@),
                                old(self).modulus as nat,
                                old(self).params,
                                m,
                            ),
                        ).len() != old(self).params.pertinent_count)
                    &&& (n == index_digests@.len() || old(self).retrieval_set@.to_set().union(
                        recovered_prefix(
                            digest_views(index_digests@),
                            old(self).modulus as nat,
                            old(self).params,
                            n,
                        ),
                    ).len() == old(self).params.pertinent_count)
                },
            ({
                let pr = old(self).params;
                let q = old(self).modulus as nat;
                let idx = final(self).retrieval_set@;
                let w = prg_bytes(
                    seed@,
                    (pr.combination_count * pr.all_payloads_count) as nat,
                );
                let m = weight_matrix(
                    w,
                    idx,
                    pr.combination_count as int,
                    pr.all_payloads_count as int,
                );
                let b = combined_views(
                    digest_views(payload_digests@),
                    q,
                    pr.cmb_count_per_cipher as int,
                    pr.combination_count as int,
                );
                match res {
                    Ok(r) => {
                        &&& idx.len() == pr.pertinent_count
                        &&& r.0@ == idx
                        &&& (forall|k: int| 0 <= k < idx.len() ==> idx[k] < pr.all_payloads_count)
                        &&& r.1@.len() == idx.len()
                        &&& (forall|t: int| 0 <= t < r.1@.len() ==> (#[trigger] r.1@[t]).wf())
                        &&& (forall|xs: Seq<Seq<u8>>|
                            wf_unknowns(xs, idx.len() as int) && #[trigger] is_solution(m, xs, b)
                                ==> payload_views(r.1@) == xs)
                        &&& (forall|y: Seq<u8>|
                            y.len() == idx.len() && #[trigger] in_kernel(m, y) ==> !is_nonzero(y))
                    },
                    Err(e) => {
                        &&& (e == OmrError::RetrievalFailed <==> (idx.len()
                            != pr.pertinent_count || (exists|k: int|
                            0 <= k < idx.len() && idx[k] >= pr.all_payloads_count)))
                        &&& (e == OmrError::InvertibleMatrix ==> idx.len() == pr.pertinent_count
                            && (forall|k: int|
                            0 <= k < idx.len() ==> idx[k] < pr.all_payloads_count) && (exists|
                            y: Seq<u8>,
                        |
                            y.len() == idx.len() && is_nonzero(y) && in_kernel(m, y)))
                    },
                }
            }),
    {
        let ghost pr = self.params;
        let ghost q0 = self.modulus as nat;
        let ghost base_set = self.retrieval_set@.to_set();
        let ghost list = digest_views(index_digests@);
        let n_digests = index_digests.len();
        let mut di: usize = 0;
        let mut done = false;
        let ghost mut processed: nat = 0;
        while di < n_digests
            invariant
                di <= n_digests,
                n_digests == index_digests@.len(),
                list == digest_views(index_digests@),
                self.wf(),
                self.params == pr,
                self.modulus as nat == q0,
                processed <= di,
                done || processed == di,
                done ==> self.retrieval_set@.len() == pr.pertinent_count,
                forall|i: int, k: int|
                    0 <= i < index_digests@.len() && 0 <= k < index_digests@[i]@.len()
                        ==> #[trigger] index_digests@[i]@[k] < self.modulus,
                self.retrieval_set@.to_set() == base_set.union(
                    recovered_prefix(list, q0, pr, processed),
                ),
                forall|m: nat|
                    1 <= m < processed ==> base_set.union(
                        #[trigger] recovered_prefix(list, q0, pr, m),
                    ).len() != pr.pertinent_count,
                !done && processed >= 1 ==> base_set.union(
                    recovered_prefix(list, q0, pr, processed),
                ).len() != pr.pertinent_count,
                done ==> base_set.union(recovered_prefix(list, q0, pr, processed)).len()
                    == pr.pertinent_count,
            decreases n_digests - di,
        {
            if !done {
                let r = self.retrieve_indices(&index_digests[di]);
                proof {
                    assert(list[di as int] == index_digests@[di as int]@);
                    assert(self.retrieval_set@.to_set() =~= base_set.union(
                        recovered_prefix(list, q0, pr, processed + 1),
                    ));
                    lemma_sorted_len_is_card(self.retrieval_set@);
                    assert(base_set.union(recovered_prefix(list, q0, pr, processed + 1)).len()
                        == self.retrieval_set@.len());
                    processed = processed + 1;
                }
                if r.is_ok() {
                    done = true;
                }
            }
            di = di + 1;
        }
        proof {
            // The processed prefix witnesses the scan's outcome: either
            // every digest was used, or the last one reached the count.
            assert(self.retrieval_set@.to_set() == base_set.union(
                recovered_prefix(list, q0, pr, processed),
            ));
            if di == n_digests && !done {
                assert(processed == n_digests);
            }
            if done {
                assert(base_set.union(recovered_prefix(list, q0, pr, processed)).len()
                    == pr.pertinent_count);
            }
        }
        let cc = self.params.combination_count();
        let all = self.params.all_payloads_count();
        let cmb = self.params.cmb_count_per_cipher();
        let q = self.modulus;
        let idx_len = self.retrieval_set.len();
        // Exhausting every index digest without reaching the pertinent
        // count is a retrieval failure, reported rather than passed on.
        if idx_len != self.params.pertinent_count() {
            return Err(OmrError::RetrievalFailed);
        }
        proof {
            assert(idx_len <= cc);
        }
        let mut k: usize = 0;
        while k < idx_len
            invariant
                k <= idx_len,
                idx_len == self.retrieval_set@.len(),
                all == self.params.all_payloads_count,
                forall|t: int| 0 <= t < k ==> #[trigger] self.retrieval_set@[t] < all,
            decreases idx_len - k,
        {
            if self.retrieval_set[k] >= all {
                proof {
                    assert(self.retrieval_set@[k as int] >= all);
                }
                return Err(OmrError::RetrievalFailed);
            }
            k = k + 1;
        }
        let total = cc * all;
        let weights = prg_expand(seed, total);
        let mut matrix: Vec<Vec<u8>> = Vec::new();
        let mut r: usize = 0;
        while r < cc
            invariant
                r <= cc,
                cc == self.params.combination_count,
                all == self.params.all_payloads_count,
                idx_len == self.retrieval_set@.len(),
                forall|t: int| 0 <= t < idx_len ==> #[trigger] self.retrieval_set@[t] < all,
                weights@.len() == cc * all,
                matrix@.len() == r,
                forall|t: int| 0 <= t < r ==> (#[trigger] matrix@[t])@.len() == idx_len,
                forall|t: int, u: int|
                    0 <= t < r && 0 <= u < idx_len ==> #[trigger] matrix@[t]@[u] == weights@[t
                        * all + self.retrieval_set@[u]],
            decreases cc - r,
        {
            proof {
                lemma_mul_is_distributive_add_other_way(all as int, r as int, 1);
                lemma_mul_basics_4(all as int);
                assert((r + 1) * all <= cc * all) by (nonlinear_arith)
                    requires
                        r < cc,
                        all >= 0,
                ;
            }
            let mut row: Vec<u8> = Vec::new();
            let base = r * all;
            let mut u: usize = 0;
            while u < idx_len
                invariant
                    u <= idx_len,
                    idx_len == self.retrieval_set@.len(),
                    forall|t: int| 0 <= t < idx_len ==> #[trigger] self.retrieval_set@[t] < all,
                    base == r * all,
                    base + all <= weights@.len(),
                    weights@.len() <= usize::MAX,
                    row@.len() == u,
                    forall|t: int|
                        0 <= t < u ==> #[trigger] row@[t] == weights@[base
                            + self.retrieval_set@[t]],
                decreases idx_len - u,
            {
                let i0 = self.retrieval_set[u];
                row.push(weights[base + i0]);
                u = u + 1;
            }
            matrix.push(row);
            r = r + 1;
        }
        let combined = decode_combined_payloads(payload_digests, cc, cmb, q);
        let indices = copy_indices(&self.retrieval_set);
        let ghost w_spec = prg_bytes(seed@, (cc * all) as nat);
        let ghost m_spec = weight_matrix(
            w_spec,
            self.retrieval_set@,
            cc as int,
            all as int,
        );
        let ghost b_spec = combined_views(
            digest_views(payload_digests@),
            q as nat,
            cmb as int,
            cc as int,
        );
        proof {
            assert forall|t: int, u: int|
                0 <= t < cc && 0 <= u < idx_len implies mat_views(matrix@)[t][u] == m_spec[t][u] by {
                assert(matrix@[t]@[u] == weights@[t * all + self.retrieval_set@[u]]);
            }
            assert(mat_views(matrix@) =~~= m_spec);
            assert forall|ci: int, pos: int|
                0 <= ci < cc && 0 <= pos < PAYLOAD_LENGTH implies payload_views(combined@)[ci][pos]
                == b_spec[ci][pos] by {
                assert(combined@[ci]@[pos] as nat == round_scale(
                    payload_digests@[ci / cmb as int]@[(ci % cmb as int) * PAYLOAD_LENGTH
                        + pos] as nat,
                    q as nat,
                    256,
                ));
                assert((ci / (cmb as int)) < payload_digests@.len()) by (nonlinear_arith)
                    requires
                        0 <= ci < cc,
                        cmb >= 1,
                        payload_digests@.len() * cmb >= cc,
                ;
                assert(digest_views(payload_digests@)[ci / cmb as int] == payload_digests@[ci
                    / cmb as int]@);
            }
            assert(payload_views(combined@) =~~= b_spec);
            assert(cc >= 1);
        }
        let mut m = matrix;
        let mut pays = combined;
        let res0 = solve_matrix_mod_256(&mut m, &mut pays);
        match res0 {
            Ok(sol) => Ok((indices, sol)),
            Err(e) => Err(e),
        }
    }
}

} // verus!
