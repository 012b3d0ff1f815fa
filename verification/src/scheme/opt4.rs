//! The shared-blinding variant over map-keyed user keys: encryption draws
//! one blinding scalar per distinct leaf triple instead of one per leaf,
//! and decryption combines the classes exactly as the triple-and-value
//! batching does.
use vstd::prelude::*;

use crate::curve::Gt;
use crate::policy::Policy;
use crate::scheme::common::{
    encrypt_shared, keygen_common, mpk_covers, setup as setup_authorities, Ciphertext, Iota, Tau,
    MPK, MSK, USK,
};

verus! {

/// The shared-blinding, map-keyed scheme.
pub struct Opt4 {
    /// The variant's name.
    pub name: String,
}

impl Opt4 {
    pub fn new() -> (r: Self)
        ensures
            r.name@ == "opt4"@,
    {
        Opt4 { name: "opt4".to_owned() }
    }

    pub fn get_name(&self) -> (r: String)
        ensures
            r@ == self.name@,
    {
        self.name.clone()
    }

    pub fn setup(&self, rng: &mut rand::rngs::StdRng, auths: &Vec<&str>) -> (r: (MSK, MPK))
        requires
            forall|i: int, j: int| 0 <= i < j < auths@.len() ==> auths@[i]@ != auths@[j]@,
        ensures
            r.0.wf(),
            r.1.wf(),
            r.0.partial_keys@.len() == auths@.len(),
            r.1.partial_keys@.len() == auths@.len(),
            forall|i: int|
                0 <= i < auths@.len() ==> (#[trigger] r.0.partial_keys@[i]).auth@ == auths@[i]@,
            forall|i: int|
                0 <= i < auths@.len() ==> (#[trigger] r.1.partial_keys@[i]).auth@ == auths@[i]@,
            forall|i: int|
                0 <= i < auths@.len() ==> (#[trigger] r.1.partial_keys@[i]).a
                    == crate::curve::h_of(r.0.partial_keys@[i].beta) && r.1.partial_keys@[i].b
                    == crate::curve::h_of(r.0.partial_keys@[i].b) && r.1.partial_keys@[i].b_not
                    == crate::curve::h_of(r.0.partial_keys@[i].b_not),
    {
        setup_authorities(rng, auths)
    }

    pub fn keygen(
        &self,
        rng: &mut rand::rngs::StdRng,
        gid: &str,
        msk: &MSK,
        user_attrs: &Vec<crate::attribute::UserAttribute>,
        iota: &Iota,
    ) -> (r: USK)
        requires
            msk.wf(),
            forall|k: int|
                0 <= k < user_attrs@.len() ==> msk.spec_has_auth(
                    (#[trigger] user_attrs@[k])@.auth,
                ),
        ensures
            r.wf(),
            r.partials_wf(),
            forall|i: int, e: int|
                0 <= i < r.partial_keys@.len() && 0 <= e < r.partial_keys@[i].k_1_map@.len()
                    ==> crate::policy::holds_triple(
                    crate::policy::views_of(user_attrs@),
                    r.partial_keys@[i].auth@,
                    (#[trigger] r.partial_keys@[i].k_1_map@[e]).0.0@,
                    r.partial_keys@[i].k_1_map@[e].0.1@,
                ),
            forall|k: int|
                0 <= k < user_attrs@.len() ==> crate::scheme::common::usk_holds(
                    r.partial_keys@,
                    (#[trigger] user_attrs@[k])@.auth,
                    user_attrs@[k]@.lbl,
                    user_attrs@[k]@.attr,
                ),
            forall|i: int, e: int|
                0 <= i < r.partial_keys@.len() && 0 <= e < r.partial_keys@[i].k_1_map@.len()
                    ==> crate::scheme::common::k_1_entry_equation(
                    #[trigger] r.partial_keys@[i].k_1_map@[e],
                    r.partial_keys@[i].auth@,
                    crate::scheme::common::msk_slot(*msk, r.partial_keys@[i].auth@).beta,
                    crate::scheme::common::msk_slot(*msk, r.partial_keys@[i].auth@).b,
                    crate::hashing::gid_point(gid@),
                ),
            forall|i: int, e: int|
                0 <= i < r.partial_keys@.len() && 0 <= e < r.partial_keys@[i].k_3_map@.len()
                    ==> crate::scheme::common::k_3_entry_equation(
                    #[trigger] r.partial_keys@[i].k_3_map@[e],
                    r.partial_keys@[i].auth@,
                ),
    {
        keygen_common(rng, gid, msk, user_attrs, iota)
    }

    pub fn encrypt(
        &self,
        rng: &mut rand::rngs::StdRng,
        mpk: &MPK,
        policy: &Policy,
        tau: &Tau,
    ) -> (r: (Gt, Ciphertext))
        requires
            policy.wf(),
            mpk.wf(),
            mpk_covers(*mpk, *policy),
            tau.matches(*policy),
        ensures
            r.1.matches(*policy),
            crate::scheme::common::encrypt_sound(r.0, r.1, *policy, *mpk),
            forall|j1: int, j2: int|
                0 <= j1 < policy.spec_leaves().len() && 0 <= j2 < policy.spec_leaves().len()
                    && (#[trigger] policy.spec_leaves()[j1]).0@ == (
                #[trigger] policy.spec_leaves()[j2]).0@ ==> r.1.c_4_vec@[j1] == r.1.c_4_vec@[j2],
    {
        encrypt_shared(rng, mpk, policy, tau)
    }

    pub fn decrypt(
        &self,
        usk: &USK,
        gid: &str,
        iota: &Iota,
        tau: &Tau,
        policy: &Policy,
        ct: &Ciphertext,
    ) -> (r: Option<Gt>)
        requires
            policy.wf(),
            ct.matches(*policy),
            usk.wf(),
            usk.partials_wf(),
        ensures
            r.is_some() ==> policy.spec_sat(usk.attr_views()),
            policy.spec_sat(usk.attr_views()) && crate::scheme::common::no_decrypt_collisions(
                usk.partial_keys@,
                *policy,
            ) ==> r.is_some(),
    {
        crate::scheme::opt1::decrypt(usk, gid, iota, tau, policy, ct)
    }
}

} // verus!

