use std::collections::HashSet;

use abe_cubed::attribute::UserAttribute;
use abe_cubed::curve::Gt;
use abe_cubed::policy::Policy;
use abe_cubed::scheme::{Iota, Opt0, Opt1, Opt2, Opt3, Opt4, Opt5, Opt6, Tau};

use rand::SeedableRng;

const USER_ID: &str = "GLOBAL_USER_ID";

fn prepare(user_attrs: &[&str], policy: &str) -> (Vec<String>, Vec<UserAttribute>, Policy) {
    let policy = Policy::parse(policy).unwrap();
    let user_attrs: Vec<UserAttribute> = user_attrs
        .iter()
        .map(|ua| UserAttribute::parse(ua).unwrap())
        .collect();
    let mut auths: HashSet<String> = HashSet::new();
    for ua in user_attrs.iter() {
        auths.insert(ua.auth.clone());
    }
    for idx in 0..policy.len() {
        auths.insert(policy.get(idx).0.auth.clone());
    }
    (auths.into_iter().collect(), user_attrs, policy)
}

fn run_opt0(user_attrs: &[&str], policy: &str) -> (Gt, Option<Gt>) {
    let (auths, user_attrs, policy) = prepare(user_attrs, policy);
    let mut rng = rand::rngs::StdRng::seed_from_u64(7);
    let scheme = Opt0::new();
    let auths: Vec<&str> = auths.iter().map(|s| s as &str).collect();
    let iota = Iota::new(&user_attrs);
    let (msk, mpk) = scheme.setup(&mut rng, &auths);
    let usk = scheme.keygen(&mut rng, USER_ID, &msk, &user_attrs, &iota);
    let tau = Tau::new(&policy);
    let (k_enc, ct) = scheme.encrypt(&mut rng, &mpk, &policy, &tau);
    let k_dec = scheme.decrypt(&usk, USER_ID, &iota, &tau, &policy, &ct);
    (k_enc, k_dec)
}

fn run_opt1(user_attrs: &[&str], policy: &str) -> (Gt, Option<Gt>) {
    let (auths, user_attrs, policy) = prepare(user_attrs, policy);
    let mut rng = rand::rngs::StdRng::seed_from_u64(7);
    let scheme = Opt1::new();
    let auths: Vec<&str> = auths.iter().map(|s| s as &str).collect();
    let iota = Iota::new(&user_attrs);
    let (msk, mpk) = scheme.setup(&mut rng, &auths);
    let usk = scheme.keygen(&mut rng, USER_ID, &msk, &user_attrs, &iota);
    let tau = Tau::new(&policy);
    let (k_enc, ct) = scheme.encrypt(&mut rng, &mpk, &policy, &tau);
    let k_dec = scheme.decrypt(&usk, USER_ID, &iota, &tau, &policy, &ct);
    (k_enc, k_dec)
}

fn run_opt2(user_attrs: &[&str], policy: &str) -> (Gt, Option<Gt>) {
    let (auths, user_attrs, policy) = prepare(user_attrs, policy);
    let mut rng = rand::rngs::StdRng::seed_from_u64(7);
    let scheme = Opt2::new();
    let auths: Vec<&str> = auths.iter().map(|s| s as &str).collect();
    let iota = Iota::new(&user_attrs);
    let (msk, mpk) = scheme.setup(&mut rng, &auths);
    let usk = scheme.keygen(&mut rng, USER_ID, &msk, &user_attrs, &iota);
    let tau = Tau::new(&policy);
    let (k_enc, ct) = scheme.encrypt(&mut rng, &mpk, &policy, &tau);
    let k_dec = scheme.decrypt(&usk, USER_ID, &iota, &tau, &policy, &ct);
    (k_enc, k_dec)
}

fn run_opt3(user_attrs: &[&str], policy: &str) -> (Gt, Option<Gt>) {
    let (auths, user_attrs, policy) = prepare(user_attrs, policy);
    let mut rng = rand::rngs::StdRng::seed_from_u64(7);
    let scheme = Opt3::new();
    let auths: Vec<&str> = auths.iter().map(|s| s as &str).collect();
    let iota = Iota::new(&user_attrs);
    let (msk, mpk) = scheme.setup(&mut rng, &auths);
    let usk = scheme.keygen(&mut rng, USER_ID, &msk, &user_attrs, &iota);
    let tau = Tau::new(&policy);
    let (k_enc, ct) = scheme.encrypt(&mut rng, &mpk, &policy, &tau);
    let k_dec = scheme.decrypt(&usk, USER_ID, &iota, &tau, &policy, &ct);
    (k_enc, k_dec)
}

fn run_opt4(user_attrs: &[&str], policy: &str) -> (Gt, Option<Gt>) {
    let (auths, user_attrs, policy) = prepare(user_attrs, policy);
    let mut rng = rand::rngs::StdRng::seed_from_u64(7);
    let scheme = Opt4::new();
    let auths: Vec<&str> = auths.iter().map(|s| s as &str).collect();
    let iota = Iota::new(&user_attrs);
    let (msk, mpk) = scheme.setup(&mut rng, &auths);
    let usk = scheme.keygen(&mut rng, USER_ID, &msk, &user_attrs, &iota);
    let tau = Tau::new(&policy);
    let (k_enc, ct) = scheme.encrypt(&mut rng, &mpk, &policy, &tau);
    let k_dec = scheme.decrypt(&usk, USER_ID, &iota, &tau, &policy, &ct);
    (k_enc, k_dec)
}

fn run_opt5(user_attrs: &[&str], policy: &str) -> (Gt, Option<Gt>) {
    let (auths, user_attrs, policy) = prepare(user_attrs, policy);
    let mut rng = rand::rngs::StdRng::seed_from_u64(7);
    let scheme = Opt5::new();
    let auths: Vec<&str> = auths.iter().map(|s| s as &str).collect();
    let iota = Iota::new(&user_attrs);
    let (msk, mpk) = scheme.setup(&mut rng, &auths);
    let usk = scheme.keygen(&mut rng, USER_ID, &msk, &user_attrs, &iota);
    let tau = Tau::new(&policy);
    let (k_enc, ct) = scheme.encrypt(&mut rng, &mpk, &policy, &tau);
    let k_dec = scheme.decrypt(&usk, USER_ID, &iota, &tau, &policy, &ct);
    (k_enc, k_dec)
}

fn run_opt6(user_attrs: &[&str], policy: &str) -> (Gt, Option<Gt>) {
    let (auths, user_attrs, policy) = prepare(user_attrs, policy);
    let mut rng = rand::rngs::StdRng::seed_from_u64(7);
    let scheme = Opt6::new();
    let auths: Vec<&str> = auths.iter().map(|s| s as &str).collect();
    let iota = Iota::new(&user_attrs);
    let (msk, mpk) = scheme.setup(&mut rng, &auths);
    let usk = scheme.keygen(&mut rng, USER_ID, &msk, &user_attrs, &iota);
    let tau = Tau::new(&policy);
    let (k_enc, ct) = scheme.encrypt(&mut rng, &mpk, &policy, &tau);
    let k_dec = scheme.decrypt(&usk, USER_ID, &iota, &tau, &policy, &ct);
    (k_enc, k_dec)
}

const COMPLEX_ATTRS: [&str; 4] = ["A.a:2", "A.b:1", "A.c:0", "B.a:0"];
const COMPLEX_POLICY: &str = "A.a:0 | (!A.b:0 & A.a:2) & !(A.c:1 | A.c:2) & B.a:0";
const COMPLEX_FAIL_ATTRS: [&str; 2] = ["A.a:2", "A.c:1"];

#[test]
fn opt0_round_trip_ok() {
    let (k_enc, k_dec) = run_opt0(&COMPLEX_ATTRS, COMPLEX_POLICY);
    assert!(k_dec.is_some_and(|k| Gt::eq(&k_enc, &k)));
}

#[test]
fn opt0_soundness_fail() {
    let (_, k_dec) = run_opt0(&COMPLEX_FAIL_ATTRS, COMPLEX_POLICY);
    assert!(k_dec.is_none());
}

#[test]
fn opt1_round_trip_ok() {
    let (k_enc, k_dec) = run_opt1(&COMPLEX_ATTRS, COMPLEX_POLICY);
    assert!(k_dec.is_some_and(|k| Gt::eq(&k_enc, &k)));
}

#[test]
fn opt1_soundness_fail() {
    let (_, k_dec) = run_opt1(&COMPLEX_FAIL_ATTRS, COMPLEX_POLICY);
    assert!(k_dec.is_none());
}

#[test]
fn opt2_round_trip_ok() {
    let (k_enc, k_dec) = run_opt2(&COMPLEX_ATTRS, COMPLEX_POLICY);
    assert!(k_dec.is_some_and(|k| Gt::eq(&k_enc, &k)));
}

#[test]
fn opt2_soundness_fail() {
    let (_, k_dec) = run_opt2(&COMPLEX_FAIL_ATTRS, COMPLEX_POLICY);
    assert!(k_dec.is_none());
}

#[test]
fn opt3_round_trip_ok() {
    let (k_enc, k_dec) = run_opt3(&COMPLEX_ATTRS, COMPLEX_POLICY);
    assert!(k_dec.is_some_and(|k| Gt::eq(&k_enc, &k)));
}

#[test]
fn opt3_soundness_fail() {
    let (_, k_dec) = run_opt3(&COMPLEX_FAIL_ATTRS, COMPLEX_POLICY);
    assert!(k_dec.is_none());
}

#[test]
fn opt4_round_trip_ok() {
    let (k_enc, k_dec) = run_opt4(&COMPLEX_ATTRS, COMPLEX_POLICY);
    assert!(k_dec.is_some_and(|k| Gt::eq(&k_enc, &k)));
}

#[test]
fn opt4_soundness_fail() {
    let (_, k_dec) = run_opt4(&COMPLEX_FAIL_ATTRS, COMPLEX_POLICY);
    assert!(k_dec.is_none());
}

#[test]
fn opt5_round_trip_ok() {
    let (k_enc, k_dec) = run_opt5(&COMPLEX_ATTRS, COMPLEX_POLICY);
    assert!(k_dec.is_some_and(|k| Gt::eq(&k_enc, &k)));
}

#[test]
fn opt5_soundness_fail() {
    let (_, k_dec) = run_opt5(&COMPLEX_FAIL_ATTRS, COMPLEX_POLICY);
    assert!(k_dec.is_none());
}

#[test]
fn opt6_round_trip_ok() {
    let (k_enc, k_dec) = run_opt6(&COMPLEX_ATTRS, COMPLEX_POLICY);
    assert!(k_dec.is_some_and(|k| Gt::eq(&k_enc, &k)));
}

#[test]
fn opt6_soundness_fail() {
    let (_, k_dec) = run_opt6(&COMPLEX_FAIL_ATTRS, COMPLEX_POLICY);
    assert!(k_dec.is_none());
}

#[test]
fn all_variants_negation_round_trip_ok() {
    let attrs = ["A.a:1", "A.a:2"];
    let policy = "!A.a:0";
    let (k0, d0) = run_opt0(&attrs, policy);
    assert!(d0.is_some_and(|k| Gt::eq(&k0, &k)));
    let (k1, d1) = run_opt1(&attrs, policy);
    assert!(d1.is_some_and(|k| Gt::eq(&k1, &k)));
    let (k2, d2) = run_opt2(&attrs, policy);
    assert!(d2.is_some_and(|k| Gt::eq(&k2, &k)));
    let (k3, d3) = run_opt3(&attrs, policy);
    assert!(d3.is_some_and(|k| Gt::eq(&k3, &k)));
    let (k4, d4) = run_opt4(&attrs, policy);
    assert!(d4.is_some_and(|k| Gt::eq(&k4, &k)));
    let (k5, d5) = run_opt5(&attrs, policy);
    assert!(d5.is_some_and(|k| Gt::eq(&k5, &k)));
    let (k6, d6) = run_opt6(&attrs, policy);
    assert!(d6.is_some_and(|k| Gt::eq(&k6, &k)));
}

#[test]
fn all_variants_agree_on_failure() {
    let attrs = ["A.a:0"];
    let policy = "A.a:0 & B.a:0";
    assert!(run_opt0(&attrs, policy).1.is_none());
    assert!(run_opt1(&attrs, policy).1.is_none());
    assert!(run_opt2(&attrs, policy).1.is_none());
    assert!(run_opt3(&attrs, policy).1.is_none());
    assert!(run_opt4(&attrs, policy).1.is_none());
    assert!(run_opt5(&attrs, policy).1.is_none());
    assert!(run_opt6(&attrs, policy).1.is_none());
}

#[test]
fn duplicate_attribute_same_outcome() {
    let (k_once, d_once) = run_opt0(&["A.a:0"], "A.a:0 & !A.b:1");
    assert!(d_once.is_none());
    drop(k_once);
    let (k1, d1) = run_opt0(&["A.a:0", "A.b:0"], "A.a:0 & !A.b:1");
    assert!(d1.is_some_and(|k| Gt::eq(&k1, &k)));
    let (k2, d2) = run_opt0(&["A.a:0", "A.b:0", "A.b:0"], "A.a:0 & !A.b:1");
    assert!(d2.is_some_and(|k| Gt::eq(&k2, &k)));
}

#[test]
fn negation_witness_independence() {
    let policy = "!A.a:0 & A.b:0";
    let (ka, da) = run_opt1(&["A.a:1", "A.b:0"], policy);
    assert!(da.is_some_and(|k| Gt::eq(&ka, &k)));
    let (kb, db) = run_opt1(&["A.a:2", "A.b:0"], policy);
    assert!(db.is_some_and(|k| Gt::eq(&kb, &k)));
    let (kc, dc) = run_opt1(&["A.a:other", "A.b:0"], policy);
    assert!(dc.is_some_and(|k| Gt::eq(&kc, &k)));
    let (_, dd) = run_opt1(&["A.a:0", "A.b:0"], policy);
    assert!(dd.is_none());
}

#[test]
fn wrong_identity_recovers_no_matching_key() {
    // A key issued to one identity must not open a ciphertext for another:
    // decryption under the wrong identity yields an element that differs
    // from the session key.
    let policy = Policy::parse("A.a:0").unwrap();
    let user_attrs = vec![UserAttribute::new("A", "a", "0")];
    let auths = vec!["A"];
    let mut rng = rand::rngs::StdRng::seed_from_u64(3);
    let scheme = Opt0::new();
    let iota = Iota::new(&user_attrs);
    let (msk, mpk) = scheme.setup(&mut rng, &auths);
    let usk = scheme.keygen(&mut rng, "alice", &msk, &user_attrs, &iota);
    let tau = Tau::new(&policy);
    let (k_enc, ct) = scheme.encrypt(&mut rng, &mpk, &policy, &tau);
    let k_right = scheme.decrypt(&usk, "alice", &iota, &tau, &policy, &ct);
    assert!(k_right.is_some_and(|k| Gt::eq(&k_enc, &k)));
    let k_wrong = scheme.decrypt(&usk, "mallory", &iota, &tau, &policy, &ct);
    assert!(k_wrong.is_some_and(|k| !Gt::eq(&k_enc, &k)));
}

#[test]
fn distinct_encryptions_have_distinct_session_keys() {
    let (k_a, _) = run_opt0(&["A.a:0"], "A.a:0");
    let mut rng = rand::rngs::StdRng::seed_from_u64(99);
    let scheme = Opt0::new();
    let auths = vec!["A"];
    let (_, mpk) = scheme.setup(&mut rng, &auths);
    let policy = Policy::parse("A.a:0").unwrap();
    let tau = Tau::new(&policy);
    let (k_b, _) = scheme.encrypt(&mut rng, &mpk, &policy, &tau);
    assert!(!Gt::eq(&k_a, &k_b));
}
