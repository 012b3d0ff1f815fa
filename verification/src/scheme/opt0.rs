//! The reference variant: one fresh blinding scalar per leaf, map-keyed
//! user keys, and a decryption that pairs every selected leaf on its own,
//! with no batching at all. Every other variant must recover the same
//! session key this layout recovers.
use vstd::prelude::*;

use crate::curve::Gt;
use crate::hashing::hash_attr;
use crate::policy::Policy;
use crate::scheme::common::{
    alist1_get, alist1_has, alist2_get, alist2_has, encrypt_common, keygen_common,
    lemma_views_to_usk_holds, lemma_views_to_usk_label, mpk_covers, neg_combo,
    no_decrypt_collisions, no_point_collision, pair_base, setup as setup_authorities, solve_lse,
    Ciphertext, Iota, PartialKey, Tau, MPK, MSK, USK,
};

verus! {

/// The unbatched reference scheme.
pub struct Opt0 {
    /// The variant's name.
    pub name: String,
}

impl Opt0 {
    pub fn new() -> (r: Self)
        ensures
            r.name@ == "opt0"@,
    {
        Opt0 { name: "opt0".to_owned() }
    }

    pub fn get_name(&self) -> (r: String)
        ensures
            r@ == self.name@,
    {
        self.name.clone()
    }

    pub fn setup(&self, rng: &mut rand::rngs::StdRng, auths: &Vec<&str>) -> (r: (MSK, MPK))
        requires
            forall|i: int, j: int| 0 <= i < j < auths@.len() ==> auths@[i]@ != auths@[j]@,
        ensures
            r.0.wf(),
            r.1.wf(),
            r.0.partial_keys@.len() == auths@.len(),
            r.1.partial_keys@.len() == auths@.len(),
            forall|i: int|
                0 <= i < auths@.len() ==> (#[trigger] r.0.partial_keys@[i]).auth@ == auths@[i]@,
            forall|i: int|
                0 <= i < auths@.len() ==> (#[trigger] r.1.partial_keys@[i]).auth@ == auths@[i]@,
            forall|i: int|
                0 <= i < auths@.len() ==> (#[trigger] r.1.partial_keys@[i]).a
                    == crate::curve::h_of(r.0.partial_keys@[i].beta) && r.1.partial_keys@[i].b
                    == crate::curve::h_of(r.0.partial_keys@[i].b) && r.1.partial_keys@[i].b_not
                    == crate::curve::h_of(r.0.partial_keys@[i].b_not),
    {
        setup_authorities(rng, auths)
    }

    pub fn keygen(
        &self,
        rng: &mut rand::rngs::StdRng,
        gid: &str,
        msk: &MSK,
        user_attrs: &Vec<crate::attribute::UserAttribute>,
        iota: &Iota,
    ) -> (r: USK)
        requires
            msk.wf(),
            forall|k: int|
                0 <= k < user_attrs@.len() ==> msk.spec_has_auth(
                    (#[trigger] user_attrs@[k])@.auth,
                ),
        ensures
            r.wf(),
            r.partials_wf(),
            forall|i: int, e: int|
                0 <= i < r.partial_keys@.len() && 0 <= e < r.partial_keys@[i].k_1_map@.len()
                    ==> crate::policy::holds_triple(
                    crate::policy::views_of(user_attrs@),
                    r.partial_keys@[i].auth@,
                    (#[trigger] r.partial_keys@[i].k_1_map@[e]).0.0@,
                    r.partial_keys@[i].k_1_map@[e].0.1@,
                ),
            forall|k: int|
                0 <= k < user_attrs@.len() ==> crate::scheme::common::usk_holds(
                    r.partial_keys@,
                    (#[trigger] user_attrs@[k])@.auth,
                    user_attrs@[k]@.lbl,
                    user_attrs@[k]@.attr,
                ),
            forall|i: int, e: int|
                0 <= i < r.partial_keys@.len() && 0 <= e < r.partial_keys@[i].k_1_map@.len()
                    ==> crate::scheme::common::k_1_entry_equation(
                    #[trigger] r.partial_keys@[i].k_1_map@[e],
                    r.partial_keys@[i].auth@,
                    crate::scheme::common::msk_slot(*msk, r.partial_keys@[i].auth@).beta,
                    crate::scheme::common::msk_slot(*msk, r.partial_keys@[i].auth@).b,
                    crate::hashing::gid_point(gid@),
                ),
            forall|i: int, e: int|
                0 <= i < r.partial_keys@.len() && 0 <= e < r.partial_keys@[i].k_3_map@.len()
                    ==> crate::scheme::common::k_3_entry_equation(
                    #[trigger] r.partial_keys@[i].k_3_map@[e],
                    r.partial_keys@[i].auth@,
                ),
    {
        keygen_common(rng, gid, msk, user_attrs, iota)
    }

    pub fn encrypt(
        &self,
        rng: &mut rand::rngs::StdRng,
        mpk: &MPK,
        policy: &Policy,
        tau: &Tau,
    ) -> (r: (Gt, Ciphertext))
        requires
            policy.wf(),
            mpk.wf(),
            mpk_covers(*mpk, *policy),
        ensures
            r.1.matches(*policy),
            crate::scheme::common::encrypt_sound(r.0, r.1, *policy, *mpk),
    {
        encrypt_common(rng, mpk, policy, tau)
    }

    pub fn decrypt(
        &self,
        usk: &USK,
        gid: &str,
        iota: &Iota,
        tau: &Tau,
        policy: &Policy,
        ct: &Ciphertext,
    ) -> (r: Option<Gt>)
        requires
            policy.wf(),
            ct.matches(*policy),
            usk.wf(),
            usk.partials_wf(),
        ensures
            r.is_some() ==> policy.spec_sat(usk.attr_views()),
            policy.spec_sat(usk.attr_views()) && no_decrypt_collisions(
                usk.partial_keys@,
                *policy,
            ) ==> r.is_some(),
    {
        decrypt(usk, gid, iota, tau, policy, ct)
    }
}

/// The reference decryption: reconstructs the secret-sharing selection,
/// then pairs every selected leaf's components one by one. It returns a
/// key only when the key's attributes satisfy the policy; and it is owed
/// success — and delivers it — whenever they do and no value held under a
/// negated leaf's label maps to the excluded interpolation point.
pub fn decrypt(
    usk: &USK,
    gid: &str,
    _iota: &Iota,
    _tau: &Tau,
    policy: &Policy,
    ct: &Ciphertext,
) -> (r: Option<Gt>)
    requires
        policy.wf(),
        ct.matches(*policy),
        usk.wf(),
        usk.partials_wf(),
    ensures
        r.is_some() ==> policy.spec_sat(usk.attr_views()),
        policy.spec_sat(usk.attr_views()) && no_decrypt_collisions(usk.partial_keys@, *policy)
            ==> r.is_some(),
{
    let user_attrs = usk.get_user_attributes();
    let ghost vs = crate::policy::views_of(user_attrs@);
    let (eps, eps_not, _sel) = match solve_lse(policy, &user_attrs) {
        Some(p) => p,
        None => {
            return None;
        },
    };
    let mut k = pair_base(gid, &eps, &eps_not, &ct.c_1_vec, &ct.c_3_vec);
    let np = eps.len();
    let mut i: usize = 0;
    while i < np
        invariant
            i <= np,
            np == eps@.len(),
            policy.wf(),
            ct.matches(*policy),
            usk.wf(),
            usk.partials_wf(),
            vs == usk.attr_views(),
            forall|m: int|
                0 <= m < np ==> (#[trigger] eps@[m]) < policy.spec_leaves().len()
                    && crate::policy::leaf_sat(
                    policy.spec_leaves()[eps@[m] as int].0@,
                    false,
                    vs,
                ),
        decreases np - i,
    {
        let j = eps[i];
        let (ua, _) = policy.get(j);
        let ghost a = policy.spec_leaves()[j as int].0@.auth;
        let ghost l = policy.spec_leaves()[j as int].0@.lbl;
        let ghost t = policy.spec_leaves()[j as int].0@.attr;
        proof {
            lemma_views_to_usk_holds(usk.partial_keys@, usk.partial_keys@.len() as int, a, l, t);
        }
        let partial = match usk.get_partial_key(ua.auth.as_str()) {
            Some(p) => p,
            None => {
                proof {
                    let wi = choose|wi: int|
                        0 <= wi < usk.partial_keys@.len() && (#[trigger] usk.partial_keys@[wi]).auth@
                            == a && alist2_has(usk.partial_keys@[wi].k_1_map@, l, t);
                    assert(usk.spec_has_auth(a));
                    assert(false);
                }
                vstd::pervasive::unreached()
            },
        };
        proof {
            let wi = choose|wi: int|
                0 <= wi < usk.partial_keys@.len() && (#[trigger] usk.partial_keys@[wi]).auth@ == a
                    && alist2_has(usk.partial_keys@[wi].k_1_map@, l, t);
            let pi = choose|pi: int|
                0 <= pi < usk.partial_keys@.len() && *partial == usk.partial_keys@[pi]
                    && partial.spec_auth() == a;
            if wi != pi {
                assert(usk.partial_keys@[wi].spec_auth() != usk.partial_keys@[pi].spec_auth());
                assert(false);
            }
            assert(alist2_has(partial.k_1_map@, l, t));
            assert(usk.partial_keys@[pi].wf());
        }
        let k_1 = match alist2_get(&partial.k_1_map, &ua.lbl, &ua.attr) {
            Some(x) => x,
            None => {
                proof {
                    assert(false);
                }
                vstd::pervasive::unreached()
            },
        };
        k = k.mul(&crate::curve::pairing(&k_1.neg(), &ct.c_4_vec[j]));
        let k_4 = match alist1_get(&partial.k_4_map, &ua.attr) {
            Some(x) => x,
            None => {
                proof {
                    assert(alist1_has(partial.k_4_map@, t));
                    assert(false);
                }
                vstd::pervasive::unreached()
            },
        };
        k = k.mul(&crate::curve::pairing(&ct.c_2_vec[j], k_4));
        i = i + 1;
    }
    let nn = eps_not.len();
    let mut i2: usize = 0;
    while i2 < nn
        invariant
            i2 <= nn,
            nn == eps_not@.len(),
            policy.wf(),
            ct.matches(*policy),
            usk.wf(),
            usk.partials_wf(),
            vs == usk.attr_views(),
            forall|m: int|
                0 <= m < nn ==> (#[trigger] eps_not@[m]) < policy.spec_leaves().len()
                    && policy.spec_leaves()[eps_not@[m] as int].1 && crate::policy::leaf_sat(
                    policy.spec_leaves()[eps_not@[m] as int].0@,
                    true,
                    vs,
                ),
        decreases nn - i2,
    {
        let j = eps_not[i2];
        let (ua, _) = policy.get(j);
        let ghost a = policy.spec_leaves()[j as int].0@.auth;
        let ghost l = policy.spec_leaves()[j as int].0@.lbl;
        let ghost t = policy.spec_leaves()[j as int].0@.attr;
        let x_attr_not = hash_attr(&ua.attr);
        proof {
            lemma_views_to_usk_label(usk.partial_keys@, usk.partial_keys@.len() as int, a, l);
        }
        let partial = match usk.get_partial_key(ua.auth.as_str()) {
            Some(p) => p,
            None => {
                proof {
                    let (wi, we) = choose|wi: int, we: int|
                        0 <= wi < usk.partial_keys@.len() && 0 <= we
                            < usk.partial_keys@[wi].k_1_map.len() && (
                        #[trigger] usk.partial_keys@[wi].k_1_map[we]).0.0@ == l
                            && usk.partial_keys@[wi].auth@ == a;
                    assert(usk.spec_has_auth(a));
                    assert(false);
                }
                vstd::pervasive::unreached()
            },
        };
        let ghost wi = choose|wi: int, we: int|
            0 <= wi < usk.partial_keys@.len() && 0 <= we < usk.partial_keys@[wi].k_1_map.len() && (
            #[trigger] usk.partial_keys@[wi].k_1_map[we]).0.0@ == l && usk.partial_keys@[wi].auth@
                == a;
        proof {
            let pi = choose|pi: int|
                0 <= pi < usk.partial_keys@.len() && *partial == usk.partial_keys@[pi]
                    && partial.spec_auth() == a;
            if wi.0 != pi {
                assert(usk.partial_keys@[wi.0].spec_auth() != usk.partial_keys@[pi].spec_auth());
                assert(false);
            }
            assert(*partial == usk.partial_keys@[wi.0]);
            assert(partial.k_1_map@[wi.1].0.0@ == l);
            assert(alist2_has(partial.k_1_map@, l, partial.k_1_map@[wi.1].0.1@));
            assert(usk.partial_keys@[wi.0].wf());
        }
        let k_2 = match alist1_get(&partial.k_2_map, &ua.lbl) {
            Some(x) => x,
            None => {
                proof {
                    assert(alist1_has(partial.k_2_map@, l));
                    assert(false);
                }
                vstd::pervasive::unreached()
            },
        };
        k = k.mul(&crate::curve::pairing(&k_2.neg(), &ct.c_4_vec[j]));
        let (k_3, k_5) = match neg_combo(partial, &ua.lbl, &x_attr_not) {
            Some(p) => p,
            None => {
                proof {
                    if no_decrypt_collisions(usk.partial_keys@, *policy) {
                        assert(policy.spec_leaves()[j as int].1);
                        assert(usk.partial_keys@[wi.0].auth@ == policy.spec_leaves()[j as int].0@.auth);
                        assert(no_point_collision(
                            usk.partial_keys@[wi.0].k_1_map@,
                            l,
                            crate::hashing::attr_point(t),
                        ));
                        assert(false);
                    }
                }
                return None;
            },
        };
        k = k.mul(&crate::curve::pairing(&ct.c_2_vec[j], &k_5));
        k = k.mul(&crate::curve::pairing(&k_3, &ct.c_4_vec[j]));
        i2 = i2 + 1;
    }
    Some(k)
}

} // verus!
