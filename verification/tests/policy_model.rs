use abe_cubed::attribute::UserAttribute;
use abe_cubed::bench::{num_padded, num_to_string, BenchParams};
use abe_cubed::curve::Gt;
use abe_cubed::errors::ParseError;
use abe_cubed::policy::Policy;
use abe_cubed::scheme::{Iota, Opt0, Tau};

use std::collections::HashSet;

use rand::SeedableRng;

// Attribute text

#[test]
fn attribute_parse_fields() {
    let ua = UserAttribute::parse("HR.role:manager").unwrap();
    assert_eq!("HR", ua.auth);
    assert_eq!("role", ua.lbl);
    assert_eq!("manager", ua.attr);
}

#[test]
fn attribute_parse_rejects_missing_dot() {
    assert_eq!(
        ParseError::MalformedAttribute,
        UserAttribute::parse("Aa:0").unwrap_err()
    );
}

#[test]
fn attribute_parse_rejects_empty_parts() {
    assert_eq!(
        ParseError::MalformedAttribute,
        UserAttribute::parse(".a:0").unwrap_err()
    );
    assert_eq!(
        ParseError::MalformedAttribute,
        UserAttribute::parse("A.:0").unwrap_err()
    );
    assert_eq!(
        ParseError::MalformedAttribute,
        UserAttribute::parse("A.a:").unwrap_err()
    );
}

#[test]
fn attribute_equality_is_structural() {
    assert_eq!(
        UserAttribute::new("A", "a", "0"),
        UserAttribute::parse("A.a:0").unwrap()
    );
    assert_ne!(
        UserAttribute::new("A", "a", "0"),
        UserAttribute::new("A", "a", "1")
    );
}

// Policy text

#[test]
fn policy_parse_empty_is_rejected() {
    assert_eq!(ParseError::EmptyFormula, Policy::parse("").unwrap_err());
    assert_eq!(ParseError::EmptyFormula, Policy::parse("   ").unwrap_err());
}

#[test]
fn policy_parse_trailing_operator_is_rejected() {
    assert_eq!(
        ParseError::EmptyFormula,
        Policy::parse("A.a:0 &").unwrap_err()
    );
}

#[test]
fn policy_parse_leading_operator_is_rejected() {
    assert_eq!(
        ParseError::UnexpectedToken,
        Policy::parse("& A.a:0").unwrap_err()
    );
}

#[test]
fn policy_parse_unbalanced_parentheses_are_rejected() {
    assert_eq!(
        ParseError::UnbalancedParenthesis,
        Policy::parse("(A.a:0").unwrap_err()
    );
    assert_eq!(
        ParseError::UnbalancedParenthesis,
        Policy::parse("A.a:0)").unwrap_err()
    );
}

#[test]
fn policy_parse_bare_negation_is_rejected() {
    assert_eq!(ParseError::UnexpectedToken, Policy::parse("!").unwrap_err());
}

#[test]
fn policy_parse_malformed_atom_is_rejected() {
    assert_eq!(
        ParseError::MalformedAttribute,
        Policy::parse("A.a:0 & broken").unwrap_err()
    );
}

#[test]
fn policy_leaves_follow_text_order() {
    let p = Policy::parse("A.a:0 & !B.b:1 | C.c:2").unwrap();
    assert_eq!(3, p.len());
    assert_eq!((UserAttribute::new("A", "a", "0"), false), {
        let (ua, neg) = p.get(0);
        (ua, neg)
    });
    assert_eq!((UserAttribute::new("B", "b", "1"), true), {
        let (ua, neg) = p.get(1);
        (ua, neg)
    });
    assert_eq!((UserAttribute::new("C", "c", "2"), false), {
        let (ua, neg) = p.get(2);
        (ua, neg)
    });
}

#[test]
fn policy_negated_group_flips_leaves() {
    // Negating a group swaps conjunction with disjunction and flips each
    // leaf, so both texts parse to the same policy.
    let pushed = Policy::parse("!(A.a:0 | A.b:1)").unwrap();
    let direct = Policy::parse("!A.a:0 & !A.b:1").unwrap();
    assert_eq!(direct, pushed);
}

#[test]
fn policy_grouping_is_left_to_right() {
    // Without parentheses, `&` and `|` group strictly left to right.
    let flat = Policy::parse("A.a:0 | A.b:0 & A.c:0").unwrap();
    let grouped = Policy::parse("(A.a:0 | A.b:0) & A.c:0").unwrap();
    let conventional = Policy::parse("A.a:0 | (A.b:0 & A.c:0)").unwrap();
    assert_eq!(grouped, flat);
    assert_ne!(conventional, flat);
}

#[test]
fn conjunction_of_matches_parsed_text() {
    let universe = vec![
        UserAttribute::new("A", "a", "0"),
        UserAttribute::new("B", "b", "1"),
        UserAttribute::new("C", "c", "2"),
    ];
    let composed = Policy::conjunction_of(&universe, 1);
    let parsed = Policy::parse("A.a:0 & B.b:1 & !C.c:2").unwrap();
    assert_eq!(parsed, composed);
}

// The secret-sharing recipes

#[test]
fn share_secret_conjunction_recipes() {
    let p = Policy::parse("A.a:0 & A.b:0").unwrap();
    let splits = p.share_secret();
    assert_eq!(vec![vec![0isize, -1], vec![1isize]], splits);
}

#[test]
fn share_secret_disjunction_recipes() {
    let p = Policy::parse("A.a:0 | A.b:0").unwrap();
    let splits = p.share_secret();
    assert_eq!(vec![vec![0isize], vec![0isize]], splits);
}

#[test]
fn reconstruct_selects_satisfied_leaves() {
    let p = Policy::parse("A.a:0 | A.b:0").unwrap();
    let held = vec![UserAttribute::new("A", "b", "0")];
    assert_eq!(Some(vec![1usize]), p.reconstruct_secret(&held));
    let nothing: Vec<UserAttribute> = Vec::new();
    assert_eq!(None, p.reconstruct_secret(&nothing));
}

#[test]
fn reconstruct_requires_all_conjuncts() {
    let p = Policy::parse("A.a:0 & A.b:0").unwrap();
    let held = vec![
        UserAttribute::new("A", "a", "0"),
        UserAttribute::new("A", "b", "0"),
    ];
    assert_eq!(Some(vec![0usize, 1usize]), p.reconstruct_secret(&held));
    let partial = vec![UserAttribute::new("A", "a", "0")];
    assert_eq!(None, p.reconstruct_secret(&partial));
}

// The indices

#[test]
fn iota_deduplicates_and_indexes() {
    let attrs = vec![
        UserAttribute::new("A", "a", "0"),
        UserAttribute::new("A", "b", "1"),
        UserAttribute::new("A", "a", "0"),
    ];
    let iota = Iota::new(&attrs);
    assert_eq!(2, iota.len());
    assert_eq!(
        0,
        iota.get(&"A".to_string(), &"a".to_string(), &"0".to_string())
    );
    assert_eq!(
        1,
        iota.get(&"A".to_string(), &"b".to_string(), &"1".to_string())
    );
}

#[test]
fn tau_maps_equal_triples_to_first_leaf() {
    let p = Policy::parse("A.a:0 | A.b:1 | A.a:0").unwrap();
    let tau = Tau::new(&p);
    assert_eq!(
        0,
        tau.get_tilde(&"A".to_string(), &"a".to_string(), &"0".to_string())
    );
    assert_eq!(
        1,
        tau.get_tilde(&"A".to_string(), &"b".to_string(), &"1".to_string())
    );
}

// The benchmark helpers

#[test]
fn numbers_format_as_decimal() {
    assert_eq!("0", num_to_string(0));
    assert_eq!("10", num_to_string(10));
    assert_eq!("123", num_to_string(123));
}

#[test]
fn numbers_pad_to_width() {
    assert_eq!("007", num_padded(7, 3));
    assert_eq!("123", num_padded(123, 2));
    assert_eq!("0", num_padded(0, 1));
}

#[test]
fn describe_joins_dimensions() {
    let params = BenchParams::micro();
    assert_eq!("opt1_vary_auth_2_6_1", params.describe("opt1", "vary_auth", 2, 1));
}

#[test]
fn bench_presets_hold_their_dimensions() {
    assert_eq!(6, BenchParams::micro().policy_len);
    assert_eq!(12, BenchParams::small().policy_len);
    assert_eq!(30, BenchParams::medium().policy_len);
    assert_eq!(100, BenchParams::large_strat_01a().policy_len);
    assert_eq!(50, BenchParams::large_strat_01b().policy_len);
    assert_eq!(60, BenchParams::large_strat_02().policy_len);
    assert_eq!(120, BenchParams::huge().policy_len);
}

// The concrete decryption scenarios

fn run_opt0(user_attrs: &[&str], policy_text: &str) -> (Gt, Option<Gt>) {
    let policy = Policy::parse(policy_text).unwrap();
    let user_attrs: Vec<UserAttribute> = user_attrs
        .iter()
        .map(|ua| UserAttribute::parse(ua).unwrap())
        .collect();
    let mut auths: HashSet<String> = HashSet::new();
    for ua in user_attrs.iter() {
        auths.insert(ua.auth.clone());
    }
    for idx in 0..policy.len() {
        auths.insert(policy.get(idx).0.auth.clone());
    }
    let auths: Vec<String> = auths.into_iter().collect();
    let auths: Vec<&str> = auths.iter().map(|s| s as &str).collect();
    let mut rng = rand::rngs::StdRng::seed_from_u64(11);
    let scheme = Opt0::new();
    let iota = Iota::new(&user_attrs);
    let (msk, mpk) = scheme.setup(&mut rng, &auths);
    let usk = scheme.keygen(&mut rng, "scenario_user", &msk, &user_attrs, &iota);
    let tau = Tau::new(&policy);
    let (k_enc, ct) = scheme.encrypt(&mut rng, &mpk, &policy, &tau);
    let k_dec = scheme.decrypt(&usk, "scenario_user", &iota, &tau, &policy, &ct);
    (k_enc, k_dec)
}

#[test]
fn scenario_single_leaf_succeeds() {
    let (k_enc, k_dec) = run_opt0(&["A.a:0"], "A.a:0");
    assert!(k_dec.is_some_and(|k| Gt::eq(&k_enc, &k)));
}

#[test]
fn scenario_missing_conjunct_fails() {
    let (_, k_dec) = run_opt0(&["A.b:0"], "A.a:0 & A.b:0");
    assert!(k_dec.is_none());
}

#[test]
fn scenario_negation_alternative_succeeds() {
    let (k_enc, k_dec) = run_opt0(&["A.a:0"], "!A.a:1");
    assert!(k_dec.is_some_and(|k| Gt::eq(&k_enc, &k)));
}

#[test]
fn scenario_negation_excluded_value_fails() {
    let (_, k_dec) = run_opt0(&["A.a:1"], "!A.a:1");
    assert!(k_dec.is_none());
}

#[test]
fn scenario_disjunction_second_authority_succeeds() {
    let (k_enc, k_dec) = run_opt0(&["B.a:0"], "A.a:0 | B.a:0");
    assert!(k_dec.is_some_and(|k| Gt::eq(&k_enc, &k)));
}

#[test]
fn scenario_multi_authority_conjunction_fails_without_both() {
    let (_, k_dec) = run_opt0(&["A.a:0"], "A.a:0 & B.a:0");
    assert!(k_dec.is_none());
}
