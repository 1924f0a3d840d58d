//! The key material for one encryption session: two primes, the modulus,
//! the totient, and the public and private exponents, populated field by
//! field during derivation.
use vstd::prelude::*;

verus! {

use crate::number_theory::is_prime_spec;

/// Holds every number the cipher needs.  Starts zeroed and is filled in
/// derivation order: `p` and `q`, then `n`, `phi`, `e`, and `d`.
pub struct RSAInfo {
    pub p: u64,
    pub q: u64,
    pub n: u64,
    pub phi: u64,
    pub d: u64,
    pub e: u64,
}

impl RSAInfo {
    /// A fully derived key: the factors are prime, `n` and `phi` are their
    /// products, and the exponents are inverses modulo `phi`.
    pub open spec fn valid(self) -> bool {
        &&& is_prime_spec(self.p as nat)
        &&& is_prime_spec(self.q as nat)
        &&& self.n == self.p * self.q
        &&& self.phi == (self.p - 1) * (self.q - 1)
        &&& (self.e * self.d) % (self.phi as int) == 1
    }

    /// Creates the structure with every field zeroed.
    pub fn new() -> (r: RSAInfo)
        ensures
            r.p == 0 && r.q == 0 && r.n == 0 && r.phi == 0 && r.d == 0 && r.e == 0,
    {
        let f = RSAInfo { p: 0u64, q: 0u64, n: 0u64, phi: 0u64, d: 0u64, e: 0u64 };
        f
    }

    pub fn set_p(&mut self, val: u64)
        ensures
            *final(self) == (RSAInfo { p: val, ..*old(self) }),
    {
        self.p = val;
    }

    pub fn get_p(&self) -> (r: u64)
        ensures
            r == self.p,
    {
        self.p
    }

    pub fn set_q(&mut self, val: u64)
        ensures
            *final(self) == (RSAInfo { q: val, ..*old(self) }),
    {
        self.q = val;
    }

    pub fn get_q(&self) -> (r: u64)
        ensures
            r == self.q,
    {
        self.q
    }

    pub fn set_n(&mut self, val: u64)
        ensures
            *final(self) == (RSAInfo { n: val, ..*old(self) }),
    {
        self.n = val;
    }

    pub fn get_n(&self) -> (r: u64)
        ensures
            r == self.n,
    {
        self.n
    }

    pub fn set_phi(&mut self, val: u64)
        ensures
            *final(self) == (RSAInfo { phi: val, ..*old(self) }),
    {
        self.phi = val;
    }

    pub fn get_phi(&self) -> (r: u64)
        ensures
            r == self.phi,
    {
        self.phi
    }

    pub fn set_d(&mut self, val: u64)
        ensures
            *final(self) == (RSAInfo { d: val, ..*old(self) }),
    {
        self.d = val;
    }

    pub fn get_d(&self) -> (r: u64)
        ensures
            r == self.d,
    {
        self.d
    }

    pub fn set_e(&mut self, val: u64)
        ensures
            *final(self) == (RSAInfo { e: val, ..*old(self) }),
    {
        self.e = val;
    }

    pub fn get_e(&self) -> (r: u64)
        ensures
            r == self.e,
    {
        self.e
    }
}

} // verus!
