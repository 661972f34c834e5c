//! Completeness of the protocol: an honest prover always convinces the
//! verifier.

use vstd::arithmetic::div_mod::*;
use vstd::arithmetic::mul::*;
use vstd::arithmetic::power::*;
use vstd::prelude::*;

use crate::ZKP;

verus! {

/// One verification equation of an honest run, for a single generator `g`
/// of order dividing `q` modulo `p`: with `s = (r - c*x) mod q`,
/// `g^s * (g^x mod p)^c == g^r  (mod p)`.
proof fn lemma_honest_equation(p: int, q: int, g: int, x: int, r: int, c: int)
    requires
        p > 1,
        q > 0,
        0 <= g,
        0 <= x < q,
        0 <= r < q,
        0 <= c < q,
        pow(g, q as nat) % p == 1,
    ensures
        ({
            let s = (r - c * x) % q;
            (pow(g, s as nat) * pow(pow(g, x as nat) % p, c as nat)) % p == pow(g, r as nat) % p
        }),
{
    let s = (r - c * x) % q;
    lemma_mul_nonnegative(c, x);
    lemma_mod_bound(r - c * x, q);
    lemma_fundamental_div_mod(r - c * x, q);
    let d = (r - c * x) / q;
    assert(r - c * x == q * d + s);
    // The difference is below `q`, so its quotient by `q` cannot be positive.
    assert(d <= 0) by {
        if d >= 1 {
            assert(q * d >= q) by (nonlinear_arith)
                requires
                    q > 0,
                    d >= 1,
            ;
        }
    }
    let k = (-d) as nat;
    // s + c*x and r differ by the multiple q*k of the subgroup order.
    assert(q * (k as int) == -(q * d)) by {
        lemma_mul_unary_negation(q, d);
    }
    assert(s + c * x == r + q * (k as int));
    lemma_mul_nonnegative(q, k as int);

    // The challenge factor: (g^x mod p)^c is g^(c*x) under mod p.
    assert(pow(pow(g, x as nat) % p, c as nat) % p == pow(pow(g, x as nat), c as nat) % p) by {
        lemma_pow_mod_noop(pow(g, x as nat), c as nat, p);
    }
    assert(pow(pow(g, x as nat), c as nat) == pow(g, (c * x) as nat)) by {
        lemma_pow_multiplies(g, x as nat, c as nat);
        lemma_mul_is_commutative(x, c);
    }
    // Combine both factors into a single exponent.
    assert((pow(g, s as nat) * pow(pow(g, x as nat) % p, c as nat)) % p == (pow(g, s as nat) * pow(
        g,
        (c * x) as nat,
    )) % p) by {
        lemma_mul_mod_noop_right(pow(g, s as nat), pow(pow(g, x as nat) % p, c as nat), p);
        lemma_mul_mod_noop_right(pow(g, s as nat), pow(g, (c * x) as nat), p);
    }
    assert(pow(g, s as nat) * pow(g, (c * x) as nat) == pow(g, (s + c * x) as nat)) by {
        lemma_pow_adds(g, s as nat, (c * x) as nat);
    }
    // Split the exponent as r plus a multiple of q; the q-part collapses to 1.
    assert(pow(g, (s + c * x) as nat) == pow(g, r as nat) * pow(g, (q * (k as int)) as nat)) by {
        lemma_pow_adds(g, r as nat, (q * (k as int)) as nat);
    }
    assert(pow(g, (q * (k as int)) as nat) % p == 1) by {
        lemma_pow_multiplies(g, q as nat, k);
        lemma_pow_mod_noop(pow(g, q as nat), k, p);
        lemma1_pow(k);
        lemma_small_mod(1, p as nat);
    }
    assert((pow(g, r as nat) * pow(g, (q * (k as int)) as nat)) % p == (pow(g, r as nat) * 1) % p)
        by {
        lemma_mul_mod_noop_right(pow(g, r as nat), pow(g, (q * (k as int)) as nat), p);
        lemma_mul_mod_noop_right(pow(g, r as nat), 1, p);
    }
}

/// Completeness: for any valid parameters and any secret `x`, nonce `r` and
/// challenge `c` in `[0, q)`, the honestly computed public keys
/// `y1 = g^x mod p`, `y2 = h^x mod p`, commitments `t1 = g^r mod p`,
/// `t2 = h^r mod p` and response `s = (r - c*x) mod q` satisfy both
/// verification equations, so `verify` accepts.
pub proof fn lemma_completeness(zkp: ZKP, x: u64, r: u64, c: u64)
    requires
        zkp.valid(),
        x < zkp.subgrp_q,
        r < zkp.subgrp_q,
        c < zkp.subgrp_q,
    ensures
        ({
            let p = zkp.modulus_p as int;
            let q = zkp.subgrp_q as int;
            let g = zkp.gen_g as int;
            let h = zkp.gen_h as int;
            let y1 = pow(g, x as nat) % p;
            let y2 = pow(h, x as nat) % p;
            let t1 = pow(g, r as nat) % p;
            let t2 = pow(h, r as nat) % p;
            let s = (r as int - c as int * x as int) % q;
            &&& (pow(g, s as nat) * pow(y1, c as nat)) % p == t1
            &&& (pow(h, s as nat) * pow(y2, c as nat)) % p == t2
        }),
{
    let p = zkp.modulus_p as int;
    let q = zkp.subgrp_q as int;
    lemma_honest_equation(p, q, zkp.gen_g as int, x as int, r as int, c as int);
    lemma_honest_equation(p, q, zkp.gen_h as int, x as int, r as int, c as int);
}

} // verus!
