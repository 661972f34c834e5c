use chaum_pedersen::ZKP;

// An honest transcript for p=23, q=11, g=2, h=3, x=4, r=6, c=5.
fn fixed_group() -> ZKP {
    ZKP { gen_g: 2, gen_h: 3, modulus_p: 23, subgrp_q: 11 }
}

#[test]
fn soundness_rejects_single_mutation() {
    let zkp = fixed_group();
    let (t1, t2, c, s, y1, y2): (u64, u64, u64, u64, u64, u64) = (18, 16, 5, 8, 16, 12);
    assert!(zkp.verify(t1, t2, c, s, y1, y2));

    assert!(!zkp.verify(t1 + 1, t2, c, s, y1, y2));
    assert!(!zkp.verify(t1, t2 + 1, c, s, y1, y2));
    assert!(!zkp.verify(t1, t2, c + 1, s, y1, y2));
    assert!(!zkp.verify(t1, t2, c, s + 1, y1, y2));
    assert!(!zkp.verify(t1, t2, c, s, y1 + 1, y2));
    assert!(!zkp.verify(t1, t2, c, s, y1, y2 + 1));
}

#[test]
fn response_stays_below_subgroup_order() {
    let zkp = fixed_group();
    for r in 0..11u64 {
        for c in 0..11u64 {
            for x in 0..11u64 {
                let s = zkp.response(r, c, x);
                assert!(s < 11);
            }
        }
    }
}

#[test]
fn response_exact_values() {
    let zkp = fixed_group();
    // r >= c*x mod q: plain subtraction.
    assert_eq!(zkp.response(6, 1, 4), 2);
    // r < c*x mod q: wraps around the subgroup order.
    assert_eq!(zkp.response(6, 5, 4), 8);
    // A zero challenge leaves the nonce untouched.
    assert_eq!(zkp.response(7, 0, 9), 7);
    // A zero secret likewise.
    assert_eq!(zkp.response(3, 10, 0), 3);
    // The smallest group: everything collapses to 0.
    let tiny = ZKP { gen_g: 1, gen_h: 1, modulus_p: 2, subgrp_q: 1 };
    assert_eq!(tiny.response(0, 0, 0), 0);
}

#[test]
fn response_large_values() {
    // q = 2^61 - 1: (0 - (q-1)^2) mod q == q - 1, since (q-1)^2 == 1 mod q.
    let q: u64 = 2305843009213693951;
    let zkp = ZKP { gen_g: 2, gen_h: 3, modulus_p: q, subgrp_q: q };
    assert_eq!(zkp.response(0, q - 1, q - 1), q - 1);
}

#[test]
fn mod_exp_exact_values() {
    assert_eq!(ZKP::mod_exp(2, 4, 23), 16);
    assert_eq!(ZKP::mod_exp(3, 4, 23), 12);
    assert_eq!(ZKP::mod_exp(2, 11, 23), 1);
    assert_eq!(ZKP::mod_exp(3, 11, 23), 1);
    // Exponent 0 yields 1 mod modulus.
    assert_eq!(ZKP::mod_exp(5, 0, 7), 1);
    assert_eq!(ZKP::mod_exp(5, 0, 1), 0);
    // Modulus 1 sends everything to 0.
    assert_eq!(ZKP::mod_exp(12345, 678, 1), 0);
    // Base 0.
    assert_eq!(ZKP::mod_exp(0, 0, 13), 1);
    assert_eq!(ZKP::mod_exp(0, 9, 13), 0);
}

#[test]
fn mod_exp_large_values() {
    // p = 2^61 - 1 is prime, so 2^61 == 1 mod p and 2^64 == 8 mod p.
    let p: u64 = 2305843009213693951;
    assert_eq!(ZKP::mod_exp(2, 61, p), 1);
    assert_eq!(ZKP::mod_exp(2, 64, p), 8);
    assert_eq!(ZKP::mod_exp(p - 1, 2, p), 1);
    assert_eq!(ZKP::mod_exp(u64::MAX, 1, u64::MAX), 0);
}

#[test]
fn mod_exp_and_response_deterministic() {
    let zkp = fixed_group();
    for _ in 0..5 {
        assert_eq!(ZKP::mod_exp(7, 13, 101), ZKP::mod_exp(7, 13, 101));
        assert_eq!(zkp.response(6, 5, 4), zkp.response(6, 5, 4));
    }
}

#[test]
fn random_stays_below_bound() {
    for _ in 0..100 {
        assert!(ZKP::random(11) < 11);
        assert!(ZKP::random(2) < 2);
    }
    // The only value below 1 is 0: a sampler that echoed its bound would fail.
    for _ in 0..10 {
        assert_eq!(ZKP::random(1), 0);
    }
}

#[test]
fn completeness_random_trials() {
    let zkp = fixed_group();
    for _ in 0..128 {
        let x = ZKP::random(zkp.subgrp_q);
        let c = ZKP::random(zkp.subgrp_q);
        let r = ZKP::random(zkp.subgrp_q);

        let y1 = ZKP::mod_exp(zkp.gen_g, x, zkp.modulus_p);
        let y2 = ZKP::mod_exp(zkp.gen_h, x, zkp.modulus_p);
        let t1 = ZKP::mod_exp(zkp.gen_g, r, zkp.modulus_p);
        let t2 = ZKP::mod_exp(zkp.gen_h, r, zkp.modulus_p);
        let s = zkp.response(r, c, x);

        assert!(zkp.verify(t1, t2, c, s, y1, y2));
    }
}

#[test]
fn completeness_larger_group() {
    // p = 227, q = 113 (both prime, q | p - 1); g = 4 and h = 9 are squares,
    // so both have order dividing 113.
    let zkp = ZKP { gen_g: 4, gen_h: 9, modulus_p: 227, subgrp_q: 113 };
    for _ in 0..64 {
        let x = ZKP::random(zkp.subgrp_q);
        let c = ZKP::random(zkp.subgrp_q);
        let r = ZKP::random(zkp.subgrp_q);

        let y1 = ZKP::mod_exp(zkp.gen_g, x, zkp.modulus_p);
        let y2 = ZKP::mod_exp(zkp.gen_h, x, zkp.modulus_p);
        let t1 = ZKP::mod_exp(zkp.gen_g, r, zkp.modulus_p);
        let t2 = ZKP::mod_exp(zkp.gen_h, r, zkp.modulus_p);
        let s = zkp.response(r, c, x);

        assert!(zkp.verify(t1, t2, c, s, y1, y2));
    }
}

#[test]
fn verify_rejects_wrong_secret() {
    let zkp = fixed_group();
    // Public keys derived from x = 4, but the prover answers with x' = 7.
    let y1 = ZKP::mod_exp(zkp.gen_g, 4, zkp.modulus_p);
    let y2 = ZKP::mod_exp(zkp.gen_h, 4, zkp.modulus_p);
    let t1 = ZKP::mod_exp(zkp.gen_g, 6, zkp.modulus_p);
    let t2 = ZKP::mod_exp(zkp.gen_h, 6, zkp.modulus_p);
    let s = zkp.response(6, 5, 7);
    assert!(!zkp.verify(t1, t2, 5, s, y1, y2));
}
