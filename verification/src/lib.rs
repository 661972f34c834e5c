//! Chaum-Pedersen sigma protocol over a prime-order subgroup.
//!
//! A prover who knows a secret exponent `x` with `y1 = g^x mod p` and
//! `y2 = h^x mod p` convinces a verifier of that fact without revealing `x`:
//! the prover commits to a nonce `r` with `t1 = g^r mod p`, `t2 = h^r mod p`,
//! receives a challenge `c`, answers with `s = (r - c*x) mod q`, and the
//! verifier accepts iff `g^s * y1^c == t1` and `h^s * y2^c == t2` (mod `p`).

use vstd::arithmetic::div_mod::*;
use vstd::arithmetic::mul::*;
use vstd::arithmetic::power::*;
use vstd::prelude::*;

pub mod completeness;

verus! {

/// The group parameters of one protocol instance: prime modulus `p`,
/// the order `q` of the subgroup generated by `g` and `h`, and the two
/// generators themselves.
pub struct ZKP {
    pub gen_g: u64,
    pub gen_h: u64,
    pub modulus_p: u64,
    pub subgrp_q: u64,
}

impl ZKP {
    /// The parameters describe a usable group: a modulus above 1, a positive
    /// subgroup order that divides `p - 1`, and generators whose order
    /// divides `q` modulo `p`.
    pub open spec fn valid(&self) -> bool {
        &&& self.modulus_p > 1
        &&& self.subgrp_q > 0
        &&& (self.modulus_p - 1) % (self.subgrp_q as int) == 0
        &&& pow(self.gen_g as int, self.subgrp_q as nat) % (self.modulus_p as int) == 1
        &&& pow(self.gen_h as int, self.subgrp_q as nat) % (self.modulus_p as int) == 1
    }

    /// `base^exp mod modulus`, by square-and-multiply over 128-bit
    /// intermediates so that no product overflows.
    pub fn mod_exp(base: u64, exp: u64, modulus: u64) -> (r: u64)
        requires
            modulus > 0,
        ensures
            r == pow(base as int, exp as nat) % (modulus as int),
            r < modulus,
    {
        let m: u128 = modulus as u128;
        let mut acc: u128 = 1 % m;
        let mut b: u128 = (base as u128) % m;
        let mut e: u64 = exp;
        proof {
            lemma_mod_bound(1, m as int);
            lemma_mod_bound(base as int, m as int);
            lemma_pow_mod_noop(base as int, exp as nat, m as int);
            lemma_mul_mod_noop_general(1, pow(b as int, e as nat), m as int);
            assert((acc as int * pow(b as int, e as nat)) % (m as int) == pow(
                base as int,
                exp as nat,
            ) % (m as int));
        }
        while e > 0
            invariant
                m == modulus,
                m > 0,
                acc < m,
                b < m,
                (acc as int * pow(b as int, e as nat)) % (m as int) == pow(base as int, exp as nat)
                    % (m as int),
            decreases e,
        {
            let ghost acc0 = acc as int;
            let ghost b0 = b as int;
            let ghost e0 = e as nat;
            let ghost mi = m as int;
            proof {
                assert(acc * b < m * m) by (nonlinear_arith)
                    requires
                        acc < m,
                        b < m,
                ;
                assert(b * b < m * m) by (nonlinear_arith)
                    requires
                        b < m,
                ;
                assert(m * m <= 0xffffffffffffffff * 0xffffffffffffffff) by (nonlinear_arith)
                    requires
                        m <= 0xffffffffffffffff,
                ;
            }
            if e % 2 == 1 {
                acc = (acc * b) % m;
            }
            b = (b * b) % m;
            e = e / 2;
            proof {
                let k = e as nat;
                // b0^2 reduced mod m still stands for b0^2 under the modulus.
                assert(pow((b0 * b0) % mi, k) % mi == pow(b0 * b0, k) % mi) by {
                    lemma_pow_mod_noop(b0 * b0, k, mi);
                }
                assert(pow(b0 * b0, k) == pow(b0, 2 * k)) by {
                    lemma_square_is_pow2(b0);
                    lemma_pow_multiplies(b0, 2, k);
                }
                lemma_mod_bound(b0 * b0, mi);
                if e0 % 2 == 1 {
                    assert(e0 == 2 * k + 1);
                    // acc picked up one factor of b0.
                    assert((((acc0 * b0) % mi) * pow((b0 * b0) % mi, k)) % mi == ((acc0 * b0) * pow(
                        b0 * b0,
                        k,
                    )) % mi) by {
                        lemma_mul_mod_noop_general(acc0 * b0, pow((b0 * b0) % mi, k), mi);
                        lemma_pow_mod_noop(b0 * b0, k, mi);
                        lemma_mul_mod_noop_general(acc0 * b0, pow(b0 * b0, k), mi);
                    }
                    assert((acc0 * b0) * pow(b0, 2 * k) == acc0 * pow(b0, e0)) by {
                        lemma_pow1(b0);
                        lemma_pow_adds(b0, 1, 2 * k);
                        lemma_mul_is_associative(acc0, b0, pow(b0, 2 * k));
                    }
                    assert((acc as int * pow(b as int, e as nat)) % mi == pow(base as int, exp as nat)
                        % mi);
                } else {
                    assert(e0 == 2 * k);
                    assert((acc0 * pow((b0 * b0) % mi, k)) % mi == (acc0 * pow(b0 * b0, k)) % mi)
                        by {
                        lemma_mul_mod_noop_right(acc0, pow((b0 * b0) % mi, k), mi);
                        lemma_pow_mod_noop(b0 * b0, k, mi);
                        lemma_mul_mod_noop_right(acc0, pow(b0 * b0, k), mi);
                    }
                    assert((acc as int * pow(b as int, e as nat)) % mi == pow(base as int, exp as nat)
                        % mi);
                }
            }
        }
        proof {
            lemma_pow0(b as int);
            lemma_small_mod(acc as nat, m as nat);
        }
        acc as u64
    }

    /// A fresh nonce, challenge or secret.
    ///
    /// Relies on rand's `Rng::gen_range` over `0..bound`: a uniform sample
    /// from `[0, bound)`, which panics only when the range is empty.
    #[verifier::external_body]
    pub fn random(bound: u64) -> (r: u64)
        requires
            bound > 0,
        ensures
            r < bound,
    {
        let mut rng = rand::thread_rng();
        rand::Rng::gen_range(&mut rng, 0..bound)
    }

    /// The prover's answer `s = (r - c*x) mod q` to challenge `c`, reduced to
    /// the unique representative in `[0, q)`.
    pub fn response(&self, r: u64, c: u64, x: u64) -> (s: u64)
        requires
            r < self.subgrp_q,
            c < self.subgrp_q,
            x < self.subgrp_q,
        ensures
            s == (r as int - c as int * x as int) % (self.subgrp_q as int),
            s < self.subgrp_q,
    {
        let q: u128 = self.subgrp_q as u128;
        proof {
            assert(c as int * (x as int) <= 0xffffffffffffffff * 0xffffffffffffffff)
                by (nonlinear_arith)
                requires
                    c <= 0xffffffffffffffff,
                    x <= 0xffffffffffffffff,
            ;
        }
        let cx: u128 = ((c as u128) * (x as u128)) % q;
        let rr: u128 = r as u128;
        proof {
            let qi = q as int;
            lemma_mod_bound(c as int * x as int, qi);
            lemma_sub_mod_noop_right(r as int, c as int * x as int, qi);
            if rr >= cx {
                lemma_small_mod((rr - cx) as nat, q as nat);
            } else {
                lemma_mod_add_multiples_vanish(r as int - cx as int, qi);
                lemma_small_mod((qi - (cx - rr)) as nat, q as nat);
            }
        }
        if rr >= cx {
            (rr - cx) as u64
        } else {
            (q - (cx - rr)) as u64
        }
    }

    /// The verifier's decision: accept iff `g^s * y1^c == t1` and
    /// `h^s * y2^c == t2`, all modulo `p`.
    pub fn verify(&self, t1: u64, t2: u64, c: u64, s: u64, y1: u64, y2: u64) -> (ok: bool)
        requires
            self.modulus_p > 0,
        ensures
            ok <==> {
                &&& (pow(self.gen_g as int, s as nat) * pow(y1 as int, c as nat)) % (
                self.modulus_p as int) == t1
                &&& (pow(self.gen_h as int, s as nat) * pow(y2 as int, c as nat)) % (
                self.modulus_p as int) == t2
            },
    {
        let p: u128 = self.modulus_p as u128;
        let gs = ZKP::mod_exp(self.gen_g, s, self.modulus_p);
        let y1c = ZKP::mod_exp(y1, c, self.modulus_p);
        let hs = ZKP::mod_exp(self.gen_h, s, self.modulus_p);
        let y2c = ZKP::mod_exp(y2, c, self.modulus_p);
        proof {
            assert(gs as int * (y1c as int) <= 0xffffffffffffffff * 0xffffffffffffffff
                && hs as int * (y2c as int) <= 0xffffffffffffffff * 0xffffffffffffffff)
                by (nonlinear_arith)
                requires
                    gs <= 0xffffffffffffffff,
                    y1c <= 0xffffffffffffffff,
                    hs <= 0xffffffffffffffff,
                    y2c <= 0xffffffffffffffff,
            ;
        }
        let rhs1 = (((gs as u128) * (y1c as u128)) % p) as u64;
        let rhs2 = (((hs as u128) * (y2c as u128)) % p) as u64;
        proof {
            let pi = p as int;
            lemma_mul_mod_noop_general(
                pow(self.gen_g as int, s as nat),
                pow(y1 as int, c as nat),
                pi,
            );
            lemma_mul_mod_noop_general(
                pow(self.gen_h as int, s as nat),
                pow(y2 as int, c as nat),
                pi,
            );
            lemma_mod_bound(gs as int * y1c as int, pi);
            lemma_mod_bound(hs as int * y2c as int, pi);
        }
        t1 == rhs1 && t2 == rhs2
    }
}

} // verus!
