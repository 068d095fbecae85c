//! Fixed-length message payloads over the byte alphabet.
//!
//! A payload is a vector of `PAYLOAD_LENGTH` elements of the ring of
//! integers modulo 256, with elementwise addition, subtraction and
//! scalar multiplication.

use vstd::prelude::*;

verus! {

/// Number of byte slots in one payload.
pub const PAYLOAD_LENGTH: usize = 612;

/// A fixed-length vector over the integers modulo 256.
#[derive(Debug, Clone, PartialEq, Eq)]
pub struct Payload {
    data: Vec<u8>,
}

/// Elementwise sum modulo 256 of two byte sequences of equal length.
pub open spec fn seq_add_mod(a: Seq<u8>, b: Seq<u8>) -> Seq<u8> {
    Seq::new(a.len(), |i: int| ((a[i] + b[i]) % 256) as u8)
}

/// Elementwise difference modulo 256 of two byte sequences of equal length.
pub open spec fn seq_sub_mod(a: Seq<u8>, b: Seq<u8>) -> Seq<u8> {
    Seq::new(a.len(), |i: int| ((a[i] - b[i]) % 256) as u8)
}

/// Elementwise scaling modulo 256 of a byte sequence.
pub open spec fn seq_scale_mod(a: Seq<u8>, k: u8) -> Seq<u8> {
    Seq::new(a.len(), |i: int| ((a[i] * k) % 256) as u8)
}

impl Payload {
    /// The bytes of this payload.
    pub closed spec fn view(&self) -> Seq<u8> {
        self.data@
    }

    /// A payload always holds exactly `PAYLOAD_LENGTH` bytes.
    pub open spec fn wf(&self) -> bool {
        self@.len() == PAYLOAD_LENGTH
    }

    /// Creates the all-zero payload.
    pub fn new() -> (r: Self)
        ensures
            r.wf(),
            r@ == Seq::new(PAYLOAD_LENGTH as nat, |i: int| 0u8),
    {
        let mut data: Vec<u8> = Vec::new();
        let mut k: usize = 0;
        while k < PAYLOAD_LENGTH
            invariant
                k <= PAYLOAD_LENGTH,
                data@.len() == k,
                forall|i: int| 0 <= i < k ==> data@[i] == 0u8,
            decreases PAYLOAD_LENGTH - k,
        {
            data.push(0u8);
            k = k + 1;
        }
        let r = Payload { data };
        proof {
            assert(r@ =~= Seq::new(PAYLOAD_LENGTH as nat, |i: int| 0u8));
        }
        r
    }

    /// The bytes of the payload, as a vector.
    pub fn iter(&self) -> (r: &Vec<u8>)
        ensures
            r@ == self@,
    {
        &self.data
    }

    /// The bytes of the payload, as a mutable vector: the caller may
    /// rewrite slots but must leave the length alone.
    pub fn iter_mut(&mut self) -> (r: &mut Vec<u8>)
        ensures
            r@ == old(self)@,
            final(self)@ == final(r)@,
    {
        &mut self.data
    }

    /// The byte at one slot.
    pub fn get(&self, i: usize) -> (r: u8)
        requires
            i < self@.len(),
        ensures
            r == self@[i as int],
    {
        self.data[i]
    }

    /// Replaces the byte at one slot.
    pub fn set(&mut self, i: usize, v: u8)
        requires
            i < old(self)@.len(),
        ensures
            final(self)@ == old(self)@.update(i as int, v),
    {
        self.data.set(i, v);
    }

    /// An owned copy with the same bytes.
    pub fn duplicate(&self) -> (r: Payload)
        ensures
            r@ == self@,
    {
        let mut data: Vec<u8> = Vec::new();
        let mut k: usize = 0;
        let n = self.data.len();
        while k < n
            invariant
                k <= n,
                n == self@.len(),
                data@.len() == k,
                forall|i: int| 0 <= i < k ==> data@[i] == self@[i],
            decreases n - k,
        {
            data.push(self.data[k]);
            k = k + 1;
        }
        let r = Payload { data };
        proof {
            assert(r@ =~= self@);
        }
        r
    }

    /// Elementwise sum modulo 256.
    pub fn add(&self, rhs: &Payload) -> (r: Payload)
        requires
            self.wf(),
            rhs.wf(),
        ensures
            r.wf(),
            r@ == seq_add_mod(self@, rhs@),
    {
        let mut data: Vec<u8> = Vec::new();
        let mut k: usize = 0;
        while k < PAYLOAD_LENGTH
            invariant
                k <= PAYLOAD_LENGTH,
                self.wf(),
                rhs.wf(),
                data@.len() == k,
                forall|i: int| 0 <= i < k ==> data@[i] == ((self@[i] + rhs@[i]) % 256) as u8,
            decreases PAYLOAD_LENGTH - k,
        {
            data.push(self.data[k].wrapping_add(rhs.data[k]));
            k = k + 1;
        }
        let r = Payload { data };
        proof {
            assert(r@ =~= seq_add_mod(self@, rhs@));
        }
        r
    }

    /// Elementwise difference modulo 256.
    pub fn sub(&self, rhs: &Payload) -> (r: Payload)
        requires
            self.wf(),
            rhs.wf(),
        ensures
            r.wf(),
            r@ == seq_sub_mod(self@, rhs@),
    {
        let mut data: Vec<u8> = Vec::new();
        let mut k: usize = 0;
        while k < PAYLOAD_LENGTH
            invariant
                k <= PAYLOAD_LENGTH,
                self.wf(),
                rhs.wf(),
                data@.len() == k,
                forall|i: int| 0 <= i < k ==> data@[i] == ((self@[i] - rhs@[i]) % 256) as u8,
            decreases PAYLOAD_LENGTH - k,
        {
            data.push(self.data[k].wrapping_sub(rhs.data[k]));
            k = k + 1;
        }
        let r = Payload { data };
        proof {
            assert(r@ =~= seq_sub_mod(self@, rhs@));
        }
        r
    }

    /// Elementwise scaling modulo 256.
    pub fn scalar_mul(&self, scaler: u8) -> (r: Payload)
        requires
            self.wf(),
        ensures
            r.wf(),
            r@ == seq_scale_mod(self@, scaler),
    {
        let mut data: Vec<u8> = Vec::new();
        let mut k: usize = 0;
        while k < PAYLOAD_LENGTH
            invariant
                k <= PAYLOAD_LENGTH,
                self.wf(),
                data@.len() == k,
                forall|i: int| 0 <= i < k ==> data@[i] == ((self@[i] * scaler) % 256) as u8,
            decreases PAYLOAD_LENGTH - k,
        {
            data.push(self.data[k].wrapping_mul(scaler));
            k = k + 1;
        }
        let r = Payload { data };
        proof {
            assert(r@ =~= seq_scale_mod(self@, scaler));
        }
        r
    }

    /// Generates a payload of bytes drawn from the given generator.
    ///
    /// Relies on `rand::RngCore::fill_bytes`: it fills the whole buffer;
    /// nothing is assumed of the values drawn.
    #[verifier::external_body]
    pub fn random<R: rand::RngCore>(rng: &mut R) -> (r: Self)
        ensures
            r.wf(),
    {
        let mut data = vec![0u8; PAYLOAD_LENGTH];
        rng.fill_bytes(&mut data);
        Payload { data }
    }
}

} // verus!
