//! The fully batched variant: row-indexed user keys, one blinding scalar
//! per distinct leaf triple at encryption, and a decryption that pairs
//! each class once against the class representative's blinding row.
use vstd::prelude::*;

use crate::attribute::{AttrView, UserAttribute};
use crate::curve::{Gt, G};
use crate::hashing::hash_attr;
use crate::policy::Policy;
use crate::scheme::common::{
    alist1_get, alist1_has, alist2_get, alist2_has, encrypt_shared, group_by_tilde,
    group_by_triple, mpk_covers, pair_base, setup as setup_authorities, solve_lse, sum_g,
    Ciphertext, Iota, PartialKey, Tau, MPK, MSK,
};
use crate::scheme::opt2::{keygen_indexed, lemma_views_to_usk_holds_indexed,
    lemma_views_to_usk_label_indexed, neg_combo_indexed, no_decrypt_collisions_indexed,
    usk_holds_indexed, USK};

verus! {

/// The representative-slot, row-indexed scheme.
pub struct Opt3 {
    /// The variant's name.
    pub name: String,
}

impl Opt3 {
    pub fn new() -> (r: Self)
        ensures
            r.name@ == "opt3"@,
    {
        Opt3 { name: "opt3".to_owned() }
    }

    pub fn get_name(&self) -> (r: String)
        ensures
            r@ == self.name@,
    {
        self.name.clone()
    }

    pub fn setup(&self, rng: &mut rand::rngs::StdRng, auths: &Vec<&str>) -> (r: (MSK, MPK))
        requires
            forall|i: int, j: int| 0 <= i < j < auths@.len() ==> auths@[i]@ != auths@[j]@,
        ensures
            r.0.wf(),
            r.1.wf(),
            r.0.partial_keys@.len() == auths@.len(),
            r.1.partial_keys@.len() == auths@.len(),
            forall|i: int|
                0 <= i < auths@.len() ==> (#[trigger] r.0.partial_keys@[i]).auth@ == auths@[i]@,
            forall|i: int|
                0 <= i < auths@.len() ==> (#[trigger] r.1.partial_keys@[i]).auth@ == auths@[i]@,
            forall|i: int|
                0 <= i < auths@.len() ==> (#[trigger] r.1.partial_keys@[i]).a
                    == crate::curve::h_of(r.0.partial_keys@[i].beta) && r.1.partial_keys@[i].b
                    == crate::curve::h_of(r.0.partial_keys@[i].b) && r.1.partial_keys@[i].b_not
                    == crate::curve::h_of(r.0.partial_keys@[i].b_not),
    {
        setup_authorities(rng, auths)
    }

    pub fn keygen(
        &self,
        rng: &mut rand::rngs::StdRng,
        gid: &str,
        msk: &MSK,
        user_attrs: &Vec<UserAttribute>,
        iota: &Iota,
    ) -> (r: USK)
        requires
            msk.wf(),
            forall|k: int|
                0 <= k < user_attrs@.len() ==> msk.spec_has_auth(
                    (#[trigger] user_attrs@[k])@.auth,
                ),
            forall|k: int|
                0 <= k < user_attrs@.len() ==> iota.spec_has((#[trigger] user_attrs@[k])@),
        ensures
            r.wf(),
            r.matches_iota(*iota),
            forall|i: int, e: int|
                0 <= i < r.partial_keys@.len() && 0 <= e < r.partial_keys@[i].k_1_map@.len()
                    ==> crate::policy::holds_triple(
                    crate::policy::views_of(user_attrs@),
                    r.partial_keys@[i].auth@,
                    (#[trigger] r.partial_keys@[i].k_1_map@[e]).0.0@,
                    r.partial_keys@[i].k_1_map@[e].0.1@,
                ),
            forall|k: int|
                0 <= k < user_attrs@.len() ==> usk_holds_indexed(
                    r.partial_keys@,
                    (#[trigger] user_attrs@[k])@.auth,
                    user_attrs@[k]@.lbl,
                    user_attrs@[k]@.attr,
                ),
    {
        keygen_indexed(rng, gid, msk, user_attrs, iota)
    }

    pub fn encrypt(
        &self,
        rng: &mut rand::rngs::StdRng,
        mpk: &MPK,
        policy: &Policy,
        tau: &Tau,
    ) -> (r: (Gt, Ciphertext))
        requires
            policy.wf(),
            mpk.wf(),
            mpk_covers(*mpk, *policy),
            tau.matches(*policy),
        ensures
            r.1.matches(*policy),
            crate::scheme::common::encrypt_sound(r.0, r.1, *policy, *mpk),
            forall|j1: int, j2: int|
                0 <= j1 < policy.spec_leaves().len() && 0 <= j2 < policy.spec_leaves().len()
                    && (#[trigger] policy.spec_leaves()[j1]).0@ == (
                #[trigger] policy.spec_leaves()[j2]).0@ ==> r.1.c_4_vec@[j1] == r.1.c_4_vec@[j2],
    {
        encrypt_shared(rng, mpk, policy, tau)
    }

    pub fn decrypt(
        &self,
        usk: &USK,
        gid: &str,
        iota: &Iota,
        tau: &Tau,
        policy: &Policy,
        ct: &Ciphertext,
    ) -> (r: Option<Gt>)
        requires
            policy.wf(),
            ct.matches(*policy),
            usk.wf(),
            usk.matches_iota(*iota),
            tau.matches(*policy),
        ensures
            r.is_some() ==> policy.spec_sat(usk.attr_views()),
            policy.spec_sat(usk.attr_views()) && no_decrypt_collisions_indexed(
                usk.partial_keys@,
                *policy,
            ) ==> r.is_some(),
    {
        decrypt(usk, gid, iota, tau, policy, ct)
    }
}

/// The representative-slot decryption over row-indexed user keys. It
/// returns a key only when the key's attributes satisfy the policy; and
/// it is owed success — and delivers it — whenever they do and no value
/// held under a negated leaf's label maps to the excluded interpolation
/// point.
pub fn decrypt(
    usk: &USK,
    gid: &str,
    iota: &Iota,
    tau: &Tau,
    policy: &Policy,
    ct: &Ciphertext,
) -> (r: Option<Gt>)
    requires
        policy.wf(),
        ct.matches(*policy),
        usk.wf(),
        usk.matches_iota(*iota),
        tau.matches(*policy),
    ensures
        r.is_some() ==> policy.spec_sat(usk.attr_views()),
        policy.spec_sat(usk.attr_views()) && no_decrypt_collisions_indexed(
            usk.partial_keys@,
            *policy,
        ) ==> r.is_some(),
{
    let user_attrs = usk.get_user_attributes();
    let ghost vs = crate::policy::views_of(user_attrs@);
    let (eps, eps_not, _sel) = match solve_lse(policy, &user_attrs) {
        Some(p) => p,
        None => {
            return None;
        },
    };
    let mut k = pair_base(gid, &eps, &eps_not, &ct.c_1_vec, &ct.c_3_vec);
    let eps_by_tilde = group_by_tilde(&eps, policy, tau);
    let ng1 = eps_by_tilde.len();
    let mut g1: usize = 0;
    while g1 < ng1
        invariant
            g1 <= ng1,
            ng1 == eps_by_tilde@.len(),
            policy.wf(),
            ct.matches(*policy),
            usk.wf(),
            usk.matches_iota(*iota),
            vs == usk.attr_views(),
            forall|m: int|
                0 <= m < eps@.len() ==> (#[trigger] eps@[m]) < policy.spec_leaves().len()
                    && crate::policy::leaf_sat(
                    policy.spec_leaves()[eps@[m] as int].0@,
                    false,
                    vs,
                ),
            forall|g: int| 0 <= g < ng1 ==> (#[trigger] eps_by_tilde@[g]).0 < policy.spec_leaves().len(),
            forall|g: int, m: int|
                0 <= g < ng1 && 0 <= m < eps_by_tilde@[g].1@.len() ==> eps@.contains(
                    #[trigger] eps_by_tilde@[g].1@[m],
                ),
        decreases ng1 - g1,
    {
        let (til, members) = &eps_by_tilde[g1];
        proof {
            assert forall|m: int|
                0 <= m < members@.len() implies (#[trigger] members@[m])
                < policy.spec_leaves().len() by {
                assert(eps@.contains(members@[m]));
                let kk = choose|kk: int| 0 <= kk < eps@.len() && eps@[kk] == members@[m];
            }
        }
        let c_4 = &ct.c_4_vec[*til];
        let mut k_1_acc = G::zero();
        let nm = members.len();
        let mut m: usize = 0;
        while m < nm
            invariant
                m <= nm,
                nm == members@.len(),
                policy.wf(),
                usk.wf(),
                usk.matches_iota(*iota),
                vs == usk.attr_views(),
                forall|mm: int|
                    0 <= mm < nm ==> (#[trigger] members@[mm]) < policy.spec_leaves().len(),
                forall|mm: int| 0 <= mm < nm ==> eps@.contains(#[trigger] members@[mm]),
                forall|a: int|
                    0 <= a < eps@.len() ==> (#[trigger] eps@[a]) < policy.spec_leaves().len()
                        && crate::policy::leaf_sat(
                        policy.spec_leaves()[eps@[a] as int].0@,
                        false,
                        vs,
                    ),
            decreases nm - m,
        {
            let j = members[m];
            let (ua, _) = policy.get(j);
            let ghost a = policy.spec_leaves()[j as int].0@.auth;
            let ghost l = policy.spec_leaves()[j as int].0@.lbl;
            let ghost t = policy.spec_leaves()[j as int].0@.attr;
            proof {
                assert(eps@.contains(j));
                let kk = choose|kk: int| 0 <= kk < eps@.len() && eps@[kk] == j;
                lemma_views_to_usk_holds_indexed(
                    usk.partial_keys@,
                    usk.partial_keys@.len() as int,
                    a,
                    l,
                    t,
                );
            }
            let partial = match usk.get_partial_key(ua.auth.as_str()) {
                Some(p) => p,
                None => {
                    proof {
                        let wi = choose|wi: int|
                            0 <= wi < usk.partial_keys@.len() && (
                            #[trigger] usk.partial_keys@[wi]).auth@ == a && alist2_has(
                                usk.partial_keys@[wi].k_1_map@,
                                l,
                                t,
                            );
                        assert(usk.spec_has_auth(a));
                        assert(false);
                    }
                    vstd::pervasive::unreached()
                },
            };
            proof {
                let wi = choose|wi: int|
                    0 <= wi < usk.partial_keys@.len() && (#[trigger] usk.partial_keys@[wi]).auth@
                        == a && alist2_has(usk.partial_keys@[wi].k_1_map@, l, t);
                let pi = choose|pi: int|
                    0 <= pi < usk.partial_keys@.len() && *partial == usk.partial_keys@[pi]
                        && partial.spec_auth() == a;
                if wi != pi {
                    assert(usk.partial_keys@[wi].spec_auth() != usk.partial_keys@[pi].spec_auth());
                    assert(false);
                }
                assert(alist2_has(partial.k_1_map@, l, t));
            }
            let k_1 = match alist2_get(&partial.k_1_map, &ua.lbl, &ua.attr) {
                Some(x) => x,
                None => {
                    proof {
                        assert(false);
                    }
                    vstd::pervasive::unreached()
                },
            };
            k_1_acc = k_1_acc.add(&k_1.neg());
            m = m + 1;
        }
        k = k.mul(&crate::curve::pairing(&k_1_acc, c_4));
        g1 = g1 + 1;
    }
    let eps_by_triple = group_by_triple(&eps, policy);
    let ng2 = eps_by_triple.len();
    let mut g2: usize = 0;
    while g2 < ng2
        invariant
            g2 <= ng2,
            ng2 == eps_by_triple@.len(),
            policy.wf(),
            ct.matches(*policy),
            usk.wf(),
            usk.matches_iota(*iota),
            vs == usk.attr_views(),
            forall|m: int|
                0 <= m < eps@.len() ==> (#[trigger] eps@[m]) < policy.spec_leaves().len()
                    && crate::policy::leaf_sat(
                    policy.spec_leaves()[eps@[m] as int].0@,
                    false,
                    vs,
                ),
            forall|g: int| 0 <= g < ng2 ==> (#[trigger] eps_by_triple@[g]).3@.len() >= 1,
            forall|g: int, m: int|
                0 <= g < ng2 && 0 <= m < eps_by_triple@[g].3@.len() ==> eps@.contains(
                    #[trigger] eps_by_triple@[g].3@[m],
                ) && policy.spec_leaves()[eps_by_triple@[g].3@[m] as int].0@.auth
                    == eps_by_triple@[g].0@ && policy.spec_leaves()[eps_by_triple@[g].3@[m] as int].0@.lbl
                    == eps_by_triple@[g].1@ && policy.spec_leaves()[eps_by_triple@[g].3@[m] as int].0@.attr
                    == eps_by_triple@[g].2@,
        decreases ng2 - g2,
    {
        let (auth, lbl, attr, members) = &eps_by_triple[g2];
        let ghost j0 = members@[0];
        proof {
            assert(eps@.contains(j0));
            let kk = choose|kk: int| 0 <= kk < eps@.len() && eps@[kk] == j0;
        }
        let ghost a = policy.spec_leaves()[j0 as int].0@.auth;
        let ghost l = policy.spec_leaves()[j0 as int].0@.lbl;
        let ghost t = policy.spec_leaves()[j0 as int].0@.attr;
        proof {
            assert forall|m: int|
                0 <= m < members@.len() implies (#[trigger] members@[m])
                < policy.spec_leaves().len() by {
                assert(eps@.contains(members@[m]));
                let kk = choose|kk: int| 0 <= kk < eps@.len() && eps@[kk] == members@[m];
            }
            lemma_views_to_usk_holds_indexed(
                usk.partial_keys@,
                usk.partial_keys@.len() as int,
                a,
                l,
                t,
            );
        }
        let c_2 = sum_g(&ct.c_2_vec, members);
        let partial = match usk.get_partial_key(auth.as_str()) {
            Some(p) => p,
            None => {
                proof {
                    let wi = choose|wi: int|
                        0 <= wi < usk.partial_keys@.len() && (#[trigger] usk.partial_keys@[wi]).auth@
                            == a && alist2_has(usk.partial_keys@[wi].k_1_map@, l, t);
                    assert(usk.spec_has_auth(a));
                    assert(false);
                }
                vstd::pervasive::unreached()
            },
        };
        proof {
            let wi = choose|wi: int|
                0 <= wi < usk.partial_keys@.len() && (#[trigger] usk.partial_keys@[wi]).auth@ == a
                    && alist2_has(usk.partial_keys@[wi].k_1_map@, l, t);
            let pi = choose|pi: int|
                0 <= pi < usk.partial_keys@.len() && *partial == usk.partial_keys@[pi]
                    && partial.spec_auth() == a;
            if wi != pi {
                assert(usk.partial_keys@[wi].spec_auth() != usk.partial_keys@[pi].spec_auth());
                assert(false);
            }
            assert(alist2_has(partial.k_1_map@, l, t));
            assert(partial.k_4_vec@.len() == iota.spec_len());
            let e = choose|e: int|
                0 <= e < partial.k_1_map@.len() && partial.k_1_map@[e].0.0@ == l
                    && partial.k_1_map@[e].0.1@ == t;
            assert(iota.spec_has(
                (AttrView {
                    auth: partial.auth@,
                    lbl: partial.k_1_map@[e].0.0@,
                    attr: partial.k_1_map@[e].0.1@,
                }),
            ));
            assert((AttrView {
                auth: partial.auth@,
                lbl: partial.k_1_map@[e].0.0@,
                attr: partial.k_1_map@[e].0.1@,
            }) =~= (AttrView { auth: a, lbl: l, attr: t }));
        }
        let slot = match iota.try_get(auth, lbl, attr) {
            Some(s) => s,
            None => {
                proof {
                    assert(false);
                }
                vstd::pervasive::unreached()
            },
        };
        k = k.mul(&crate::curve::pairing(&c_2, &partial.k_4_vec[slot]));
        g2 = g2 + 1;
    }
    let eps_not_by_tilde = group_by_tilde(&eps_not, policy, tau);
    let ng3 = eps_not_by_tilde.len();
    let mut g3: usize = 0;
    while g3 < ng3
        invariant
            g3 <= ng3,
            ng3 == eps_not_by_tilde@.len(),
            policy.wf(),
            ct.matches(*policy),
            usk.wf(),
            usk.matches_iota(*iota),
            vs == usk.attr_views(),
            forall|m: int|
                0 <= m < eps_not@.len() ==> (#[trigger] eps_not@[m]) < policy.spec_leaves().len()
                    && policy.spec_leaves()[eps_not@[m] as int].1 && crate::policy::leaf_sat(
                    policy.spec_leaves()[eps_not@[m] as int].0@,
                    true,
                    vs,
                ),
            forall|g: int| 0 <= g < ng3 ==> (#[trigger] eps_not_by_tilde@[g]).0 < policy.spec_leaves().len(),
            forall|g: int, m: int|
                0 <= g < ng3 && 0 <= m < eps_not_by_tilde@[g].1@.len() ==> eps_not@.contains(
                    #[trigger] eps_not_by_tilde@[g].1@[m],
                ),
        decreases ng3 - g3,
    {
        let (til, members) = &eps_not_by_tilde[g3];
        proof {
            assert forall|m: int|
                0 <= m < members@.len() implies (#[trigger] members@[m])
                < policy.spec_leaves().len() by {
                assert(eps_not@.contains(members@[m]));
                let kk = choose|kk: int| 0 <= kk < eps_not@.len() && eps_not@[kk] == members@[m];
            }
        }
        let c_4 = &ct.c_4_vec[*til];
        let mut acc = G::zero();
        let nm = members.len();
        let mut m: usize = 0;
        while m < nm
            invariant
                m <= nm,
                nm == members@.len(),
                policy.wf(),
                usk.wf(),
                usk.matches_iota(*iota),
                vs == usk.attr_views(),
                forall|mm: int|
                    0 <= mm < nm ==> (#[trigger] members@[mm]) < policy.spec_leaves().len(),
                forall|mm: int| 0 <= mm < nm ==> eps_not@.contains(#[trigger] members@[mm]),
                forall|a: int|
                    0 <= a < eps_not@.len() ==> (#[trigger] eps_not@[a])
                        < policy.spec_leaves().len() && policy.spec_leaves()[eps_not@[a] as int].1
                        && crate::policy::leaf_sat(
                        policy.spec_leaves()[eps_not@[a] as int].0@,
                        true,
                        vs,
                    ),
            decreases nm - m,
        {
            let j = members[m];
            let (ua, _) = policy.get(j);
            let ghost a = policy.spec_leaves()[j as int].0@.auth;
            let ghost l = policy.spec_leaves()[j as int].0@.lbl;
            let ghost t = policy.spec_leaves()[j as int].0@.attr;
            let x_attr_not = hash_attr(&ua.attr);
            proof {
                assert(eps_not@.contains(j));
                let kk = choose|kk: int| 0 <= kk < eps_not@.len() && eps_not@[kk] == j;
                lemma_views_to_usk_label_indexed(
                    usk.partial_keys@,
                    usk.partial_keys@.len() as int,
                    a,
                    l,
                );
            }
            let partial = match usk.get_partial_key(ua.auth.as_str()) {
                Some(p) => p,
                None => {
                    proof {
                        let (wi, we) = choose|wi: int, we: int|
                            0 <= wi < usk.partial_keys@.len() && 0 <= we
                                < usk.partial_keys@[wi].k_1_map.len() && (
                            #[trigger] usk.partial_keys@[wi].k_1_map[we]).0.0@ == l
                                && usk.partial_keys@[wi].auth@ == a;
                        assert(usk.spec_has_auth(a));
                        assert(false);
                    }
                    vstd::pervasive::unreached()
                },
            };
            let ghost wi = choose|wi: int, we: int|
                0 <= wi < usk.partial_keys@.len() && 0 <= we < usk.partial_keys@[wi].k_1_map.len()
                    && (#[trigger] usk.partial_keys@[wi].k_1_map[we]).0.0@ == l
                    && usk.partial_keys@[wi].auth@ == a;
            proof {
                let pi = choose|pi: int|
                    0 <= pi < usk.partial_keys@.len() && *partial == usk.partial_keys@[pi]
                        && partial.spec_auth() == a;
                if wi.0 != pi {
                    assert(usk.partial_keys@[wi.0].spec_auth()
                        != usk.partial_keys@[pi].spec_auth());
                    assert(false);
                }
                assert(*partial == usk.partial_keys@[wi.0]);
                assert(partial.k_1_map@[wi.1].0.0@ == l);
                assert(alist2_has(partial.k_1_map@, l, partial.k_1_map@[wi.1].0.1@));
                assert(partial.k_5_vec@.len() == iota.spec_len());
            }
            let k_2 = match alist1_get(&partial.k_2_map, &ua.lbl) {
                Some(x) => x,
                None => {
                    proof {
                        assert(alist1_has(partial.k_2_map@, l));
                        assert(false);
                    }
                    vstd::pervasive::unreached()
                },
            };
            let (k_3, _) = match neg_combo_indexed(partial, &ua.lbl, &x_attr_not, iota) {
                Some(p) => p,
                None => {
                    proof {
                        if no_decrypt_collisions_indexed(usk.partial_keys@, *policy) {
                            assert(policy.spec_leaves()[j as int].1);
                            assert(usk.partial_keys@[wi.0].auth@ == policy.spec_leaves()[j as int].0@.auth);
                            assert(crate::scheme::common::no_point_collision(
                                usk.partial_keys@[wi.0].k_1_map@,
                                l,
                                crate::hashing::attr_point(t),
                            ));
                            assert(false);
                        }
                    }
                    return None;
                },
            };
            acc = acc.add(&k_2.neg()).add(&k_3);
            m = m + 1;
        }
        k = k.mul(&crate::curve::pairing(&acc, c_4));
        g3 = g3 + 1;
    }
    let eps_not_by_triple = group_by_triple(&eps_not, policy);
    let ng4 = eps_not_by_triple.len();
    let mut g4: usize = 0;
    while g4 < ng4
        invariant
            g4 <= ng4,
            ng4 == eps_not_by_triple@.len(),
            policy.wf(),
            ct.matches(*policy),
            usk.wf(),
            usk.matches_iota(*iota),
            vs == usk.attr_views(),
            forall|m: int|
                0 <= m < eps_not@.len() ==> (#[trigger] eps_not@[m]) < policy.spec_leaves().len()
                    && policy.spec_leaves()[eps_not@[m] as int].1 && crate::policy::leaf_sat(
                    policy.spec_leaves()[eps_not@[m] as int].0@,
                    true,
                    vs,
                ),
            forall|g: int| 0 <= g < ng4 ==> (#[trigger] eps_not_by_triple@[g]).3@.len() >= 1,
            forall|g: int, m: int|
                0 <= g < ng4 && 0 <= m < eps_not_by_triple@[g].3@.len() ==> eps_not@.contains(
                    #[trigger] eps_not_by_triple@[g].3@[m],
                ) && policy.spec_leaves()[eps_not_by_triple@[g].3@[m] as int].0@.auth
                    == eps_not_by_triple@[g].0@ && policy.spec_leaves()[eps_not_by_triple@[g].3@[m] as int].0@.lbl
                    == eps_not_by_triple@[g].1@ && policy.spec_leaves()[eps_not_by_triple@[g].3@[m] as int].0@.attr
                    == eps_not_by_triple@[g].2@,
        decreases ng4 - g4,
    {
        let (auth, lbl, attr, members) = &eps_not_by_triple[g4];
        let ghost j0 = members@[0];
        proof {
            assert(eps_not@.contains(j0));
            let kk = choose|kk: int| 0 <= kk < eps_not@.len() && eps_not@[kk] == j0;
        }
        let ghost a = policy.spec_leaves()[j0 as int].0@.auth;
        let ghost l = policy.spec_leaves()[j0 as int].0@.lbl;
        let ghost t = policy.spec_leaves()[j0 as int].0@.attr;
        proof {
            assert forall|m: int|
                0 <= m < members@.len() implies (#[trigger] members@[m])
                < policy.spec_leaves().len() by {
                assert(eps_not@.contains(members@[m]));
                let kk = choose|kk: int| 0 <= kk < eps_not@.len() && eps_not@[kk] == members@[m];
            }
            lemma_views_to_usk_label_indexed(usk.partial_keys@, usk.partial_keys@.len() as int, a, l);
        }
        let c_2 = sum_g(&ct.c_2_vec, members);
        let x_attr_not = hash_attr(attr);
        let partial = match usk.get_partial_key(auth.as_str()) {
            Some(p) => p,
            None => {
                proof {
                    let (wi, we) = choose|wi: int, we: int|
                        0 <= wi < usk.partial_keys@.len() && 0 <= we
                            < usk.partial_keys@[wi].k_1_map.len() && (
                        #[trigger] usk.partial_keys@[wi].k_1_map[we]).0.0@ == l
                            && usk.partial_keys@[wi].auth@ == a;
                    assert(usk.spec_has_auth(a));
                    assert(false);
                }
                vstd::pervasive::unreached()
            },
        };
        let ghost wi = choose|wi: int, we: int|
            0 <= wi < usk.partial_keys@.len() && 0 <= we < usk.partial_keys@[wi].k_1_map.len() && (
            #[trigger] usk.partial_keys@[wi].k_1_map[we]).0.0@ == l && usk.partial_keys@[wi].auth@
                == a;
        proof {
            let pi = choose|pi: int|
                0 <= pi < usk.partial_keys@.len() && *partial == usk.partial_keys@[pi]
                    && partial.spec_auth() == a;
            if wi.0 != pi {
                assert(usk.partial_keys@[wi.0].spec_auth() != usk.partial_keys@[pi].spec_auth());
                assert(false);
            }
            assert(*partial == usk.partial_keys@[wi.0]);
            assert(partial.k_5_vec@.len() == iota.spec_len());
        }
        let (_, k_5) = match neg_combo_indexed(partial, lbl, &x_attr_not, iota) {
            Some(p) => p,
            None => {
                proof {
                    if no_decrypt_collisions_indexed(usk.partial_keys@, *policy) {
                        assert(policy.spec_leaves()[j0 as int].1);
                        assert(usk.partial_keys@[wi.0].auth@ == policy.spec_leaves()[j0 as int].0@.auth);
                        assert(crate::scheme::common::no_point_collision(
                            usk.partial_keys@[wi.0].k_1_map@,
                            l,
                            crate::hashing::attr_point(t),
                        ));
                        assert(false);
                    }
                }
                return None;
            },
        };
        k = k.mul(&crate::curve::pairing(&c_2, &k_5));
        g4 = g4 + 1;
    }
    Some(k)
}

} // verus!
