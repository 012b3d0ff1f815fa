//! The dual-mask variant: each authority carries a second pair of secret
//! exponents whose public halves live in the first source group, every
//! user key is masked by a fresh per-user exponent, and the ciphertext
//! carries a fifth row that lets decryption strip that mask with a single
//! pairing per authority. The positive key material lives in rows
//! addressed through the key-side index.
use vstd::prelude::*;

use crate::attribute::{AttrView, UserAttribute};
use crate::curve::{Gt, G, H, ScalarField};
use crate::hashing::hash_attr;
use crate::policy::Policy;
use crate::scheme::common::{
    alist1_add_g, alist1_get, alist2_get, attrs_under_label, compute_shares, group_by_triple,
    lagrange_coeffs, alist1_has, alist2_has, lemma_alist1_push, lemma_alist2_push, pair_base,
    solve_lse, sum_g, sum_h, view_in, FullKey, Iota, PartialKey, Tau,
};

verus! {

/// The dual-mask scheme.
pub struct Opt6 {
    /// The variant's name.
    pub name: String,
}

/// One authority's master secret: the session-key exponent, the two
/// identity-binding exponents, and their first-group mask counterparts.
pub struct PartialMSK {
    /// The authority's name.
    pub auth: String,
    /// The exponent of the session-key line.
    pub beta: ScalarField,
    /// The exponent binding plain leaves to user identities.
    pub b: ScalarField,
    /// The mask exponent of plain leaves, published in the first group.
    pub b_prime: ScalarField,
    /// The exponent binding negated leaves to user identities.
    pub b_not: ScalarField,
    /// The mask exponent of negated leaves, published in the first group.
    pub b_not_prime: ScalarField,
}

impl PartialKey for PartialMSK {
    open spec fn spec_auth(&self) -> Seq<char> {
        self.auth@
    }

    fn get_auth(&self) -> String {
        self.auth.clone()
    }
}

/// The master secret key of the dual-mask scheme.
pub type MSK = FullKey<PartialMSK>;

/// One authority's public key: the master exponents in their groups.
pub struct PartialMPK {
    /// The authority's name.
    pub auth: String,
    /// The generator raised to `beta`, in the second group.
    pub a: H,
    /// The generator raised to `b`, in the second group.
    pub b: H,
    /// The generator raised to `b_prime`, in the first group.
    pub b_prime: G,
    /// The generator raised to `b_not`, in the second group.
    pub b_not: H,
    /// The generator raised to `b_not_prime`, in the first group.
    pub b_not_prime: G,
}

impl PartialKey for PartialMPK {
    open spec fn spec_auth(&self) -> Seq<char> {
        self.auth@
    }

    fn get_auth(&self) -> String {
        self.auth.clone()
    }
}

/// The master public key of the dual-mask scheme.
pub type MPK = FullKey<PartialMPK>;

/// One authority's share of a user's secret key in the dual-mask layout.
pub struct PartialUSK {
    /// The authority's name.
    pub auth: String,
    /// Per index row: the full plain-leaf key of the row's triple,
    /// carrying the authority's secrets, the identity element, the mask
    /// and the label line at the value's point.
    pub k_1_1_vec: Vec<G>,
    /// Per held (label, value): the label line at the value's point,
    /// blinded by the row's exponent.
    pub k_1_2_map: Vec<((String, String), G)>,
    /// The static part every negated leaf shares: the authority's secrets,
    /// the identity element and the mask.
    pub k_2_1: G,
    /// Per held label: the negated label line summed over the blinding of
    /// every value held under the label.
    pub k_2_2_map: Vec<(String, G)>,
    /// Per held (label, value): the negated label line at the value's
    /// point, blinded by the row's exponent.
    pub k_3_map: Vec<((String, String), G)>,
    /// Per index row: the plain blinding exponent in the second group.
    pub k_4_vec: Vec<H>,
    /// Per index row: the negation blinding exponent in the second group.
    pub k_5_vec: Vec<H>,
    /// The mask exponent in the second group.
    pub k_6: H,
}

impl PartialKey for PartialUSK {
    open spec fn spec_auth(&self) -> Seq<char> {
        self.auth@
    }

    fn get_auth(&self) -> String {
        self.auth.clone()
    }
}

impl PartialUSK {
    /// Every entry of `k_1_2_map` is mirrored in `k_3_map` and its label
    /// is covered by `k_2_2_map`; the blinding rows run in parallel; no
    /// (label, value) pair appears twice.
    pub open spec fn wf(self) -> bool {
        &&& forall|e1: int, e2: int|
            0 <= e1 < e2 < self.k_1_2_map@.len() ==> !((#[trigger] self.k_1_2_map@[e1]).0.0@ == (
            #[trigger] self.k_1_2_map@[e2]).0.0@ && self.k_1_2_map@[e1].0.1@
                == self.k_1_2_map@[e2].0.1@)
        &&& forall|l: Seq<char>, t: Seq<char>|
            #[trigger] alist2_has(self.k_1_2_map@, l, t) ==> alist2_has(self.k_3_map@, l, t)
        &&& forall|l: Seq<char>, t: Seq<char>|
            #[trigger] alist2_has(self.k_1_2_map@, l, t) ==> alist1_has(self.k_2_2_map@, l)
        &&& self.k_4_vec@.len() == self.k_5_vec@.len()
        &&& self.k_1_1_vec@.len() == self.k_4_vec@.len()
    }

    /// The attributes this partial key holds, as views, in entry order.
    pub open spec fn entry_views(self) -> Seq<AttrView> {
        self.k_1_2_map@.map_values(
            |e: ((String, String), G)| AttrView { auth: self.auth@, lbl: e.0.0@, attr: e.0.1@ },
        )
    }
}

/// A user's secret key in the dual-mask layout.
pub type USK = FullKey<PartialUSK>;

/// No value any partial key of the right authority holds under a negated
/// leaf's label maps to that leaf's excluded interpolation point.
pub open spec fn no_decrypt_collisions_masked(partials: Seq<PartialUSK>, p: Policy) -> bool {
    forall|j: int, i: int|
        0 <= j < p.spec_leaves().len() && (#[trigger] p.spec_leaves()[j]).1 && 0 <= i
            < partials.len() && (#[trigger] partials[i]).auth@ == p.spec_leaves()[j].0@.auth
            ==> crate::scheme::common::no_point_collision(
            partials[i].k_1_2_map@,
            p.spec_leaves()[j].0@.lbl,
            crate::hashing::attr_point(p.spec_leaves()[j].0@.attr),
        )
}

/// Proves that a triple among the key's attribute views is carried by one
/// of its partial keys.
pub proof fn lemma_views_to_usk_holds_masked(
    partials: Seq<PartialUSK>,
    i: int,
    a: Seq<char>,
    l: Seq<char>,
    t: Seq<char>,
)
    requires
        0 <= i <= partials.len(),
        crate::policy::holds_triple(attr_views_up_to(partials, i), a, l, t),
    ensures
        exists|wi: int|
            0 <= wi < partials.len() && (#[trigger] partials[wi]).auth@ == a && alist2_has(
                partials[wi].k_1_2_map@,
                l,
                t,
            ),
    decreases i,
{
    let s = attr_views_up_to(partials, i);
    let k = choose|k: int|
        0 <= k < s.len() && (#[trigger] s[k]).auth == a && s[k].lbl == l && s[k].attr == t;
    let prefix = attr_views_up_to(partials, i - 1);
    let entries = partials[i - 1].entry_views();
    assert(s == prefix + entries);
    if k < prefix.len() {
        assert(prefix[k] == s[k]);
        lemma_views_to_usk_holds_masked(partials, i - 1, a, l, t);
    } else {
        let e = k - prefix.len();
        assert(entries[e] == s[k]);
        assert(partials[i - 1].k_1_2_map@[e].0.0@ == l);
        assert(partials[i - 1].k_1_2_map@[e].0.1@ == t);
        assert(partials[i - 1].auth@ == a);
        assert(alist2_has(partials[i - 1].k_1_2_map@, l, t));
    }
}

/// Proves that a label present among the key's attribute views is carried
/// by one of its partial keys.
pub proof fn lemma_views_to_usk_label_masked(
    partials: Seq<PartialUSK>,
    i: int,
    a: Seq<char>,
    l: Seq<char>,
)
    requires
        0 <= i <= partials.len(),
        crate::policy::holds_label(attr_views_up_to(partials, i), a, l),
    ensures
        exists|wi: int, we: int|
            0 <= wi < partials.len() && 0 <= we < partials[wi].k_1_2_map.len() && (
            #[trigger] partials[wi].k_1_2_map[we]).0.0@ == l && partials[wi].auth@ == a,
    decreases i,
{
    let s = attr_views_up_to(partials, i);
    let k = choose|k: int| 0 <= k < s.len() && (#[trigger] s[k]).auth == a && s[k].lbl == l;
    let prefix = attr_views_up_to(partials, i - 1);
    let entries = partials[i - 1].entry_views();
    assert(s == prefix + entries);
    if k < prefix.len() {
        assert(prefix[k] == s[k]);
        lemma_views_to_usk_label_masked(partials, i - 1, a, l);
    } else {
        let e = k - prefix.len();
        assert(entries[e] == s[k]);
        assert(partials[i - 1].k_1_2_map[e].0.0@ == l);
        assert(partials[i - 1].auth@ == a);
    }
}

/// The key holds the triple: some partial key of the authority has an
/// entry for the label and value.
pub open spec fn usk_holds_masked(
    partials: Seq<PartialUSK>,
    a: Seq<char>,
    l: Seq<char>,
    t: Seq<char>,
) -> bool {
    exists|i: int|
        0 <= i < partials.len() && (#[trigger] partials[i]).auth@ == a && alist2_has(
            partials[i].k_1_2_map@,
            l,
            t,
        )
}

/// The attribute views of the first `i` partial keys, in order.
pub open spec fn attr_views_up_to(partials: Seq<PartialUSK>, i: int) -> Seq<AttrView>
    decreases i,
{
    if i <= 0 {
        Seq::empty()
    } else {
        attr_views_up_to(partials, i - 1) + partials[i - 1].entry_views()
    }
}

impl FullKey<PartialUSK> {
    /// The attributes the key holds, as views, authority by authority.
    pub open spec fn attr_views(self) -> Seq<AttrView> {
        attr_views_up_to(self.partial_keys@, self.partial_keys@.len() as int)
    }

    /// Every partial key is internally well formed, its rows are as long
    /// as the index, and every entry's triple stands in the index.
    pub open spec fn matches_iota(self, iota: Iota) -> bool {
        &&& forall|i: int|
            0 <= i < self.partial_keys@.len() ==> (#[trigger] self.partial_keys@[i]).wf()
                && self.partial_keys@[i].k_4_vec@.len() == iota.spec_len()
        &&& forall|i: int, e: int|
            0 <= i < self.partial_keys@.len() && 0 <= e < self.partial_keys@[i].k_1_2_map@.len()
                ==> iota.spec_has(
                (AttrView {
                    auth: self.partial_keys@[i].auth@,
                    lbl: (#[trigger] self.partial_keys@[i].k_1_2_map@[e]).0.0@,
                    attr: self.partial_keys@[i].k_1_2_map@[e].0.1@,
                }),
            )
    }

    /// The attributes the key holds, one per entry, authority by authority.
    pub fn get_user_attributes(&self) -> (r: Vec<UserAttribute>)
        ensures
            crate::policy::views_of(r@) == self.attr_views(),
    {
        let mut out: Vec<UserAttribute> = Vec::new();
        let n = self.partial_keys.len();
        let mut i: usize = 0;
        while i < n
            invariant
                i <= n,
                n == self.partial_keys@.len(),
                crate::policy::views_of(out@) =~= attr_views_up_to(self.partial_keys@, i as int),
            decreases n - i,
        {
            let partial = &self.partial_keys[i];
            let m = partial.k_1_2_map.len();
            let mut j: usize = 0;
            while j < m
                invariant
                    j <= m,
                    i < n,
                    n == self.partial_keys@.len(),
                    m == partial.k_1_2_map@.len(),
                    partial == &self.partial_keys@[i as int],
                    crate::policy::views_of(out@) =~= attr_views_up_to(
                        self.partial_keys@,
                        i as int,
                    ) + partial.entry_views().take(j as int),
                decreases m - j,
            {
                let ((lbl, attr), _) = &partial.k_1_2_map[j];
                let ua = UserAttribute::new(partial.auth.as_str(), lbl.as_str(), attr.as_str());
                let ghost prev = out@;
                let ghost uaval = ua;
                let ghost uav = ua@;
                proof {
                    assert(partial.entry_views()[j as int] == uav);
                    assert(partial.entry_views().take(j as int + 1) =~= partial.entry_views().take(
                        j as int,
                    ).push(uav));
                    crate::scheme::common::lemma_views_of_push(prev, uaval);
                }
                out.push(ua);
                proof {
                    assert(out@ == prev.push(uaval));
                    assert(crate::policy::views_of(out@) =~= crate::policy::views_of(prev).push(
                        uav,
                    ));
                    assert(crate::policy::views_of(out@) =~= attr_views_up_to(
                        self.partial_keys@,
                        i as int,
                    ) + partial.entry_views().take(j as int + 1));
                }
                j = j + 1;
            }
            proof {
                assert(partial.entry_views().take(m as int) =~= partial.entry_views());
            }
            i = i + 1;
        }
        out
    }
}

/// A ciphertext in the dual-mask layout: the four shared rows and a fifth
/// row in the first group carrying the mask line.
pub struct Ciphertext {
    /// Per leaf: the masking share blinded under the leaf's identity line.
    pub c_1_vec: Vec<H>,
    /// Per leaf: the leaf's label line at its value's point, blinded.
    pub c_2_vec: Vec<G>,
    /// Per leaf: the payload share blinded under the session-key line.
    pub c_3_vec: Vec<H>,
    /// Per leaf: the blinding exponent itself in the second group.
    pub c_4_vec: Vec<H>,
    /// Per leaf: the leaf's mask line raised to the blinding exponent.
    pub c_5_vec: Vec<G>,
}

impl Ciphertext {
    /// All five rows have one slot per leaf of the policy.
    pub open spec fn matches(self, p: Policy) -> bool {
        &&& self.c_1_vec@.len() == p.spec_leaves().len()
        &&& self.c_2_vec@.len() == p.spec_leaves().len()
        &&& self.c_3_vec@.len() == p.spec_leaves().len()
        &&& self.c_4_vec@.len() == p.spec_leaves().len()
        &&& self.c_5_vec@.len() == p.spec_leaves().len()
    }
}

/// The position of the authority's partial public key.
pub open spec fn mpk_index_of_masked(mpk: MPK, a: Seq<char>) -> int {
    choose|i: int| 0 <= i < mpk.partial_keys@.len() && (#[trigger] mpk.partial_keys@[i]).auth@ == a
}

/// The authority's partial public key.
pub open spec fn mpk_slot_masked(mpk: MPK, a: Seq<char>) -> PartialMPK {
    mpk.partial_keys@[mpk_index_of_masked(mpk, a)]
}

/// What one dual-mask ciphertext slot holds for its leaf, given the
/// blinding scalar drawn for the slot and the share-variable vectors: the
/// four shared rows, and the fifth row carrying the leaf's mask line
/// raised to the blinding scalar.
pub open spec fn slot_equations_masked(
    ct: Ciphertext,
    p: Policy,
    mpk: MPK,
    j: int,
    s_j: ScalarField,
    v: Seq<ScalarField>,
    vp: Seq<ScalarField>,
) -> bool {
    let leaf = p.spec_leaves()[j];
    let auth = leaf.0@.auth;
    let lbl = leaf.0@.lbl;
    let attr = leaf.0@.attr;
    let neg = leaf.1;
    let pm = mpk_slot_masked(mpk, auth);
    &&& ct.c_1_vec@[j] == crate::curve::h_sum(
        crate::curve::h_of(crate::scheme::common::signed_combo(p.spec_splits()[j], vp)),
        crate::curve::h_scale(
            if neg {
                pm.b_not
            } else {
                pm.b
            },
            s_j,
        ),
    )
    &&& ct.c_2_vec@[j] == crate::curve::g_scale(
        crate::curve::g_sum(
            crate::hashing::label_point(auth, lbl, neg, 0),
            crate::curve::g_scale(
                crate::hashing::label_point(auth, lbl, neg, 1),
                crate::hashing::attr_point(attr),
            ),
        ),
        s_j,
    )
    &&& ct.c_3_vec@[j] == crate::curve::h_sum(
        crate::curve::h_of(crate::scheme::common::signed_combo(p.spec_splits()[j], v)),
        crate::curve::h_scale(pm.a, s_j),
    )
    &&& ct.c_4_vec@[j] == crate::curve::h_of(s_j)
    &&& ct.c_5_vec@[j] == crate::curve::g_scale(
        if neg {
            pm.b_not_prime
        } else {
            pm.b_prime
        },
        s_j,
    )
}

/// A witness that the session key and dual-mask ciphertext are one honest
/// encryption outcome.
pub open spec fn encrypt_witness_masked(
    k: Gt,
    ct: Ciphertext,
    p: Policy,
    mpk: MPK,
    w: (ScalarField, Seq<ScalarField>, Seq<ScalarField>, Seq<ScalarField>),
) -> bool {
    &&& k == crate::curve::session_key_of(w.0)
    &&& w.1.len() == p.spec_leaves().len()
    &&& w.2.len() == p.spec_leaves().len()
    &&& w.3.len() == p.spec_leaves().len()
    &&& w.2[0] == w.0
    &&& w.3[0] == crate::curve::fr_zero_val()
    &&& forall|j: int|
        0 <= j < p.spec_leaves().len() ==> #[trigger] slot_equations_masked(
            ct,
            p,
            mpk,
            j,
            w.1[j],
            w.2,
            w.3,
        )
}

/// The session key and dual-mask ciphertext are one honest encryption
/// outcome for some drawn randomness.
pub open spec fn encrypt_sound_masked(k: Gt, ct: Ciphertext, p: Policy, mpk: MPK) -> bool {
    exists|w: (ScalarField, Seq<ScalarField>, Seq<ScalarField>, Seq<ScalarField>)|
        #[trigger] encrypt_witness_masked(k, ct, p, mpk, w)
}

/// One authority's setup: five fresh secret exponents and their public
/// counterparts — each group's generator raised to the secret, the mask
/// halves in the first group.
pub fn setup_partial(rng: &mut rand::rngs::StdRng, auth: &str) -> (r: (PartialMSK, PartialMPK))
    ensures
        r.0.auth@ == auth@,
        r.1.auth@ == auth@,
        r.1.a == crate::curve::h_of(r.0.beta),
        r.1.b == crate::curve::h_of(r.0.b),
        r.1.b_prime == crate::curve::g_of(r.0.b_prime),
        r.1.b_not == crate::curve::h_of(r.0.b_not),
        r.1.b_not_prime == crate::curve::g_of(r.0.b_not_prime),
{
    let beta = ScalarField::rand(rng);
    let b = ScalarField::rand(rng);
    let b_prime = ScalarField::rand(rng);
    let b_not = ScalarField::rand(rng);
    let b_not_prime = ScalarField::rand(rng);
    let a_pub = H::base(&beta);
    let b_pub = H::base(&b);
    let b_prime_pub = G::base(&b_prime);
    let b_not_pub = H::base(&b_not);
    let b_not_prime_pub = G::base(&b_not_prime);
    let msk = PartialMSK { auth: auth.to_owned(), beta, b, b_prime, b_not, b_not_prime };
    let mpk = PartialMPK {
        auth: auth.to_owned(),
        a: a_pub,
        b: b_pub,
        b_prime: b_prime_pub,
        b_not: b_not_pub,
        b_not_prime: b_not_prime_pub,
    };
    (msk, mpk)
}

/// The setup of the whole system: one partial master key pair per
/// authority. Supplying the same authority twice is a configuration error,
/// ruled out by the precondition.
pub fn setup(rng: &mut rand::rngs::StdRng, auths: &Vec<&str>) -> (r: (MSK, MPK))
    requires
        forall|i: int, j: int| 0 <= i < j < auths@.len() ==> auths@[i]@ != auths@[j]@,
    ensures
        r.0.wf(),
        r.1.wf(),
        r.0.partial_keys@.len() == auths@.len(),
        r.1.partial_keys@.len() == auths@.len(),
        forall|i: int| 0 <= i < auths@.len() ==> (#[trigger] r.0.partial_keys@[i]).auth@ == auths@[i]@,
        forall|i: int| 0 <= i < auths@.len() ==> (#[trigger] r.1.partial_keys@[i]).auth@ == auths@[i]@,
        forall|i: int|
            0 <= i < auths@.len() ==> (#[trigger] r.1.partial_keys@[i]).a == crate::curve::h_of(
                r.0.partial_keys@[i].beta,
            ) && r.1.partial_keys@[i].b == crate::curve::h_of(r.0.partial_keys@[i].b)
                && r.1.partial_keys@[i].b_prime == crate::curve::g_of(r.0.partial_keys@[i].b_prime)
                && r.1.partial_keys@[i].b_not == crate::curve::h_of(r.0.partial_keys@[i].b_not)
                && r.1.partial_keys@[i].b_not_prime == crate::curve::g_of(
                r.0.partial_keys@[i].b_not_prime,
            ),
{
    let mut msk: MSK = FullKey::new();
    let mut mpk: MPK = FullKey::new();
    let n = auths.len();
    let mut i: usize = 0;
    while i < n
        invariant
            i <= n,
            n == auths@.len(),
            forall|a: int, b: int| 0 <= a < b < n ==> auths@[a]@ != auths@[b]@,
            msk.wf(),
            mpk.wf(),
            msk.partial_keys@.len() == i,
            mpk.partial_keys@.len() == i,
            forall|a: int| 0 <= a < i ==> (#[trigger] msk.partial_keys@[a]).auth@ == auths@[a]@,
            forall|a: int| 0 <= a < i ==> (#[trigger] mpk.partial_keys@[a]).auth@ == auths@[a]@,
            forall|a: int|
                0 <= a < i ==> (#[trigger] mpk.partial_keys@[a]).a == crate::curve::h_of(
                    msk.partial_keys@[a].beta,
                ) && mpk.partial_keys@[a].b == crate::curve::h_of(msk.partial_keys@[a].b)
                    && mpk.partial_keys@[a].b_prime == crate::curve::g_of(
                    msk.partial_keys@[a].b_prime,
                ) && mpk.partial_keys@[a].b_not == crate::curve::h_of(msk.partial_keys@[a].b_not)
                    && mpk.partial_keys@[a].b_not_prime == crate::curve::g_of(
                    msk.partial_keys@[a].b_not_prime,
                ),
        decreases n - i,
    {
        let (partial_msk, partial_mpk) = setup_partial(rng, auths[i]);
        proof {
            assert(!msk.spec_has_auth(partial_msk.spec_auth())) by {
                assert forall|a: int| 0 <= a < msk.partial_keys@.len() implies (
                #[trigger] msk.partial_keys@[a]).spec_auth() != auths@[i as int]@ by {
                    assert(msk.partial_keys@[a].auth@ == auths@[a]@);
                }
            }
            assert(!mpk.spec_has_auth(partial_mpk.spec_auth())) by {
                assert forall|a: int| 0 <= a < mpk.partial_keys@.len() implies (
                #[trigger] mpk.partial_keys@[a]).spec_auth() != auths@[i as int]@ by {
                    assert(mpk.partial_keys@[a].auth@ == auths@[a]@);
                }
            }
        }
        msk.add_partial_key(partial_msk);
        mpk.add_partial_key(partial_mpk);
        i = i + 1;
    }
    (msk, mpk)
}

/// One authority's user key in the dual-mask layout.
fn keygen_partial(
    rng: &mut rand::rngs::StdRng,
    auth_key: &String,
    members: &Vec<UserAttribute>,
    partial_msk: &PartialMSK,
    g_gid: &G,
    iota: &Iota,
) -> (r: PartialUSK)
    requires
        forall|m: int| 0 <= m < members@.len() ==> (#[trigger] members@[m])@.auth == auth_key@,
        forall|m: int| 0 <= m < members@.len() ==> iota.spec_has((#[trigger] members@[m])@),
    ensures
        r.auth@ == auth_key@,
        r.wf(),
        r.k_4_vec@.len() == iota.spec_len(),
        forall|e: int|
            0 <= e < r.k_1_2_map@.len() ==> view_in(members@, (AttrView {
                auth: auth_key@,
                lbl: (#[trigger] r.k_1_2_map@[e]).0.0@,
                attr: r.k_1_2_map@[e].0.1@,
            })),
        forall|e: int|
            0 <= e < r.k_1_2_map@.len() ==> iota.spec_has(
                (AttrView {
                    auth: auth_key@,
                    lbl: (#[trigger] r.k_1_2_map@[e]).0.0@,
                    attr: r.k_1_2_map@[e].0.1@,
                }),
            ),
        forall|m: int|
            0 <= m < members@.len() ==> alist2_has(
                r.k_1_2_map@,
                (#[trigger] members@[m])@.lbl,
                members@[m]@.attr,
            ),
{
    let w = ScalarField::rand(rng);
    let k_6 = H::base(&w);
    let base_pos = G::base(&partial_msk.beta).add(&g_gid.mul(&partial_msk.b)).add(
        &G::base(&partial_msk.b_prime.mul(&w)),
    );
    let k_2_1 = G::base(&partial_msk.beta).add(&g_gid.mul(&partial_msk.b_not)).add(
        &G::base(&partial_msk.b_not_prime.mul(&w)),
    );
    let ni = iota.len();
    let mut r_vec: Vec<ScalarField> = Vec::new();
    let mut rn_vec: Vec<ScalarField> = Vec::new();
    let mut k_4_vec: Vec<H> = Vec::new();
    let mut k_5_vec: Vec<H> = Vec::new();
    let mut k_1_1_vec: Vec<G> = Vec::new();
    let mut si: usize = 0;
    while si < ni
        invariant
            si <= ni,
            ni as int == iota.spec_len(),
            r_vec@.len() == si,
            rn_vec@.len() == si,
            k_4_vec@.len() == si,
            k_5_vec@.len() == si,
            k_1_1_vec@.len() == si,
        decreases ni - si,
    {
        let fresh = ScalarField::rand(rng);
        let fresh_n = ScalarField::rand(rng);
        k_4_vec.push(H::base(&fresh));
        k_5_vec.push(H::base(&fresh_n));
        let entry = &iota.entries[si];
        let x_t = hash_attr(&entry.attr);
        let p0 = crate::hashing::hash_lbl(&entry.auth, &entry.lbl, crate::hashing::HashSign::POS, 0);
        let p1 = crate::hashing::hash_lbl(&entry.auth, &entry.lbl, crate::hashing::HashSign::POS, 1);
        let pos_line = p0.add(&p1.mul(&x_t));
        k_1_1_vec.push(base_pos.add(&pos_line.mul(&fresh)));
        r_vec.push(fresh);
        rn_vec.push(fresh_n);
        si = si + 1;
    }
    let mut k_1_2_map: Vec<((String, String), G)> = Vec::new();
    let mut k_2_2_map: Vec<(String, G)> = Vec::new();
    let mut k_3_map: Vec<((String, String), G)> = Vec::new();
    let nm = members.len();
    let mut mi: usize = 0;
    while mi < nm
        invariant
            mi <= nm,
            nm == members@.len(),
            forall|m: int| 0 <= m < members@.len() ==> (#[trigger] members@[m])@.auth == auth_key@,
            forall|m: int| 0 <= m < members@.len() ==> iota.spec_has((#[trigger] members@[m])@),
            r_vec@.len() == ni,
            rn_vec@.len() == ni,
            ni as int == iota.spec_len(),
            forall|e1: int, e2: int|
                0 <= e1 < e2 < k_1_2_map@.len() ==> !((#[trigger] k_1_2_map@[e1]).0.0@ == (
                #[trigger] k_1_2_map@[e2]).0.0@ && k_1_2_map@[e1].0.1@ == k_1_2_map@[e2].0.1@),
            forall|l: Seq<char>, t: Seq<char>|
                #[trigger] alist2_has(k_1_2_map@, l, t) ==> alist2_has(k_3_map@, l, t),
            forall|l: Seq<char>, t: Seq<char>|
                #[trigger] alist2_has(k_1_2_map@, l, t) ==> alist1_has(k_2_2_map@, l),
            forall|e: int|
                0 <= e < k_1_2_map@.len() ==> view_in(members@, (AttrView {
                    auth: auth_key@,
                    lbl: (#[trigger] k_1_2_map@[e]).0.0@,
                    attr: k_1_2_map@[e].0.1@,
                })),
            forall|m: int|
                0 <= m < mi ==> alist2_has(
                    k_1_2_map@,
                    (#[trigger] members@[m])@.lbl,
                    members@[m]@.attr,
                ),
        decreases nm - mi,
    {
        let ua = &members[mi];
        let ghost k1_before = k_1_2_map@;
        let ghost k2_before = k_2_2_map@;
        let ghost k3_before = k_3_map@;
        let already = match alist2_get(&k_1_2_map, &ua.lbl, &ua.attr) {
            Some(_) => true,
            None => false,
        };
        let slot = match iota.try_get(&ua.auth, &ua.lbl, &ua.attr) {
            Some(s) => s,
            None => {
                proof {
                    assert(iota.spec_has(members@[mi as int]@));
                    assert(members@[mi as int]@ =~= (AttrView {
                        auth: ua@.auth,
                        lbl: ua@.lbl,
                        attr: ua@.attr,
                    }));
                    assert(false);
                }
                vstd::pervasive::unreached()
            },
        };
        if !already {
            let x_t = hash_attr(&ua.attr);
            let r_t = r_vec[slot].clone();
            let rn_t = rn_vec[slot].clone();
            let p0 = crate::hashing::hash_lbl(auth_key, &ua.lbl, crate::hashing::HashSign::POS, 0);
            let p1 = crate::hashing::hash_lbl(auth_key, &ua.lbl, crate::hashing::HashSign::POS, 1);
            let pos_line = p0.add(&p1.mul(&x_t));
            let n0 = crate::hashing::hash_lbl(auth_key, &ua.lbl, crate::hashing::HashSign::NEG, 0);
            let n1 = crate::hashing::hash_lbl(auth_key, &ua.lbl, crate::hashing::HashSign::NEG, 1);
            let neg_line = n0.add(&n1.mul(&x_t));
            k_1_2_map.push(((ua.lbl.clone(), ua.attr.clone()), pos_line.mul(&r_t)));
            k_3_map.push(((ua.lbl.clone(), ua.attr.clone()), neg_line.mul(&rn_t)));
            let k_2_term = n1.mul(&rn_t);
            let has_lbl = match alist1_get(&k_2_2_map, &ua.lbl) {
                Some(_) => true,
                None => false,
            };
            if has_lbl {
                alist1_add_g(&mut k_2_2_map, &ua.lbl, &k_2_term);
                proof {
                    crate::scheme::common::lemma_alist1_same_keys(k_2_2_map@, k2_before);
                }
            } else {
                k_2_2_map.push((ua.lbl.clone(), k_2_term));
            }
            proof {
                assert(k_1_2_map@ == k1_before.push(k_1_2_map@[k_1_2_map@.len() - 1]));
                assert(k_1_2_map@[k_1_2_map@.len() - 1].0.0@ == ua@.lbl);
                assert(k_1_2_map@[k_1_2_map@.len() - 1].0.1@ == ua@.attr);
                assert forall|e1: int, e2: int|
                    0 <= e1 < e2 < k_1_2_map@.len() implies !((#[trigger] k_1_2_map@[e1]).0.0@
                    == (#[trigger] k_1_2_map@[e2]).0.0@ && k_1_2_map@[e1].0.1@
                    == k_1_2_map@[e2].0.1@) by {
                    if e2 < k1_before.len() {
                        assert(k_1_2_map@[e1] == k1_before[e1] && k_1_2_map@[e2] == k1_before[e2]);
                    } else {
                        assert(k_1_2_map@[e1] == k1_before[e1]);
                        if k_1_2_map@[e1].0.0@ == ua@.lbl && k_1_2_map@[e1].0.1@ == ua@.attr {
                            assert(alist2_has(k1_before, ua@.lbl, ua@.attr));
                            assert(false);
                        }
                    }
                }
                assert(k_3_map@[k_3_map@.len() - 1].0.0@ == ua@.lbl);
                assert(k_3_map@[k_3_map@.len() - 1].0.1@ == ua@.attr);
                assert(alist1_has(k_2_2_map@, ua@.lbl)) by {
                    if !has_lbl {
                        assert(k_2_2_map@[k_2_2_map@.len() - 1].0@ == ua@.lbl);
                    }
                }
                assert forall|l: Seq<char>, t: Seq<char>|
                    #[trigger] alist2_has(k_1_2_map@, l, t) implies alist2_has(k_3_map@, l, t)
                    && alist1_has(k_2_2_map@, l) by {
                    let e = choose|e: int|
                        0 <= e < k_1_2_map@.len() && k_1_2_map@[e].0.0@ == l && k_1_2_map@[e].0.1@
                            == t;
                    if e < k1_before.len() {
                        assert(alist2_has(k1_before, l, t));
                        assert(alist2_has(k3_before, l, t));
                        lemma_alist2_push(k3_before, k_3_map@[k_3_map@.len() - 1], l, t);
                        assert(alist1_has(k2_before, l));
                        if has_lbl {
                        } else {
                            lemma_alist1_push(k2_before, k_2_2_map@[k_2_2_map@.len() - 1], l);
                        }
                    } else {
                        assert(l == ua@.lbl && t == ua@.attr);
                        assert(alist2_has(k_3_map@, l, t)) by {
                            assert(k_3_map@[k_3_map@.len() - 1].0.0@ == l);
                        }
                    }
                }
                assert forall|e: int|
                    0 <= e < k_1_2_map@.len() implies view_in(members@, (AttrView {
                        auth: auth_key@,
                        lbl: (#[trigger] k_1_2_map@[e]).0.0@,
                        attr: k_1_2_map@[e].0.1@,
                    })) by {
                    if e < k1_before.len() {
                        assert(k_1_2_map@[e] == k1_before[e]);
                    } else {
                        assert(view_in(members@, (AttrView {
                            auth: auth_key@,
                            lbl: k_1_2_map@[e].0.0@,
                            attr: k_1_2_map@[e].0.1@,
                        }))) by {
                            assert(members@[mi as int]@.auth == auth_key@);
                            assert(members@[mi as int]@.lbl == k_1_2_map@[e].0.0@);
                            assert(members@[mi as int]@.attr == k_1_2_map@[e].0.1@);
                            assert(members@[mi as int]@ =~= (AttrView {
                                auth: auth_key@,
                                lbl: k_1_2_map@[e].0.0@,
                                attr: k_1_2_map@[e].0.1@,
                            }));
                        }
                    }
                }
            }
        }
        proof {
            assert(alist2_has(k_1_2_map@, members@[mi as int]@.lbl, members@[mi as int]@.attr))
                by {
                if !already {
                    assert(k_1_2_map@[k_1_2_map@.len() - 1].0.0@ == ua@.lbl);
                    assert(k_1_2_map@[k_1_2_map@.len() - 1].0.1@ == ua@.attr);
                }
            }
            assert forall|m: int|
                0 <= m < mi + 1 implies alist2_has(
                k_1_2_map@,
                (#[trigger] members@[m])@.lbl,
                members@[m]@.attr,
            ) by {
                if m < mi {
                    if already {
                        assert(k_1_2_map@ == k1_before);
                    } else {
                        lemma_alist2_push(
                            k1_before,
                            k_1_2_map@[k_1_2_map@.len() - 1],
                            members@[m]@.lbl,
                            members@[m]@.attr,
                        );
                        assert(k_1_2_map@ =~= k1_before.push(k_1_2_map@[k_1_2_map@.len() - 1]));
                    }
                }
            }
        }
        mi = mi + 1;
    }
    proof {
        assert forall|e: int|
            0 <= e < k_1_2_map@.len() implies iota.spec_has(
            (AttrView {
                auth: auth_key@,
                lbl: (#[trigger] k_1_2_map@[e]).0.0@,
                attr: k_1_2_map@[e].0.1@,
            }),
        ) by {
            let v = AttrView {
                auth: auth_key@,
                lbl: k_1_2_map@[e].0.0@,
                attr: k_1_2_map@[e].0.1@,
            };
            assert(view_in(members@, v));
            let m = choose|m: int| 0 <= m < members@.len() && (#[trigger] members@[m])@ == v;
            assert(iota.spec_has(members@[m]@));
        }
    }
    PartialUSK {
        auth: auth_key.clone(),
        k_1_1_vec,
        k_1_2_map,
        k_2_1,
        k_2_2_map,
        k_3_map,
        k_4_vec,
        k_5_vec,
        k_6,
    }
}

/// A user's key in the dual-mask layout: one partial key per authority.
pub fn keygen(
    rng: &mut rand::rngs::StdRng,
    gid: &str,
    msk: &MSK,
    user_attrs: &Vec<UserAttribute>,
    iota: &Iota,
) -> (r: USK)
    requires
        msk.wf(),
        forall|k: int|
            0 <= k < user_attrs@.len() ==> msk.spec_has_auth((#[trigger] user_attrs@[k])@.auth),
        forall|k: int| 0 <= k < user_attrs@.len() ==> iota.spec_has((#[trigger] user_attrs@[k])@),
    ensures
        r.wf(),
        r.matches_iota(*iota),
        forall|i: int, e: int|
            0 <= i < r.partial_keys@.len() && 0 <= e < r.partial_keys@[i].k_1_2_map@.len()
                ==> crate::policy::holds_triple(
                crate::policy::views_of(user_attrs@),
                r.partial_keys@[i].auth@,
                (#[trigger] r.partial_keys@[i].k_1_2_map@[e]).0.0@,
                r.partial_keys@[i].k_1_2_map@[e].0.1@,
            ),
        forall|k: int|
            0 <= k < user_attrs@.len() ==> usk_holds_masked(
                r.partial_keys@,
                (#[trigger] user_attrs@[k])@.auth,
                user_attrs@[k]@.lbl,
                user_attrs@[k]@.attr,
            ),
{
    let g_gid = crate::hashing::hash_gid(gid);
    let groups = crate::scheme::common::group_by_auth(user_attrs);
    proof {
        assert forall|gg: int, m: int|
            0 <= gg < groups@.len() && 0 <= m < groups@[gg].1@.len() implies iota.spec_has(
            (#[trigger] groups@[gg].1@[m])@,
        ) by {
            assert(view_in(user_attrs@, groups@[gg].1@[m]@));
            let k = choose|k: int|
                0 <= k < user_attrs@.len() && (#[trigger] user_attrs@[k])@ == groups@[gg].1@[m]@;
        }
    }
    let mut usk: USK = FullKey::new();
    let ng = groups.len();
    let mut g: usize = 0;
    while g < ng
        invariant
            g <= ng,
            ng == groups@.len(),
            msk.wf(),
            forall|g1: int, g2: int| 0 <= g1 < g2 < ng ==> groups@[g1].0@ != groups@[g2].0@,
            forall|gg: int| 0 <= gg < ng ==> (#[trigger] groups@[gg]).1@.len() >= 1,
            forall|gg: int, m: int|
                0 <= gg < ng && 0 <= m < groups@[gg].1@.len() ==> (#[trigger] groups@[gg].1@[m])@.auth
                    == groups@[gg].0@ && view_in(user_attrs@, groups@[gg].1@[m]@),
            forall|gg: int, m: int|
                0 <= gg < ng && 0 <= m < groups@[gg].1@.len() ==> msk.spec_has_auth(
                    (#[trigger] groups@[gg].1@[m])@.auth,
                ),
            forall|gg: int, m: int|
                0 <= gg < ng && 0 <= m < groups@[gg].1@.len() ==> iota.spec_has(
                    (#[trigger] groups@[gg].1@[m])@,
                ),
            usk.partial_keys@.len() == g,
            forall|i: int| 0 <= i < g ==> (#[trigger] usk.partial_keys@[i]).auth@ == groups@[i].0@,
            forall|i: int|
                0 <= i < g ==> (#[trigger] usk.partial_keys@[i]).wf()
                    && usk.partial_keys@[i].k_4_vec@.len() == iota.spec_len(),
            forall|i: int, e: int|
                0 <= i < g && 0 <= e < usk.partial_keys@[i].k_1_2_map@.len() ==> view_in(
                    groups@[i].1@,
                    (AttrView {
                        auth: usk.partial_keys@[i].auth@,
                        lbl: (#[trigger] usk.partial_keys@[i].k_1_2_map@[e]).0.0@,
                        attr: usk.partial_keys@[i].k_1_2_map@[e].0.1@,
                    }),
                ),
            forall|i: int, e: int|
                0 <= i < g && 0 <= e < usk.partial_keys@[i].k_1_2_map@.len() ==> iota.spec_has(
                    (AttrView {
                        auth: usk.partial_keys@[i].auth@,
                        lbl: (#[trigger] usk.partial_keys@[i].k_1_2_map@[e]).0.0@,
                        attr: usk.partial_keys@[i].k_1_2_map@[e].0.1@,
                    }),
                ),
            forall|i: int, m: int|
                0 <= i < g && 0 <= m < groups@[i].1@.len() ==> alist2_has(
                    usk.partial_keys@[i].k_1_2_map@,
                    (#[trigger] groups@[i].1@[m])@.lbl,
                    groups@[i].1@[m]@.attr,
                ),
        decreases ng - g,
    {
        let (key, members) = &groups[g];
        let partial_msk = match msk.get_partial_key(key.as_str()) {
            Some(p) => p,
            None => {
                proof {
                    assert(groups@[g as int].1@[0]@.auth == key@);
                    assert(msk.spec_has_auth(key@));
                    assert(false);
                }
                vstd::pervasive::unreached()
            },
        };
        let partial = keygen_partial(rng, key, members, partial_msk, &g_gid, iota);
        proof {
            assert(!usk.spec_has_auth(partial.spec_auth())) by {
                assert forall|i: int|
                    0 <= i < usk.partial_keys@.len() implies (
                #[trigger] usk.partial_keys@[i]).spec_auth() != partial.spec_auth() by {
                    assert(usk.partial_keys@[i].auth@ == groups@[i].0@);
                    assert(partial.auth@ == groups@[g as int].0@);
                }
            }
        }
        let ghost before = usk.partial_keys@;
        usk.add_partial_key(partial);
        proof {
            assert forall|i: int, m: int|
                0 <= i < g + 1 && 0 <= m < groups@[i].1@.len() implies alist2_has(
                usk.partial_keys@[i].k_1_2_map@,
                (#[trigger] groups@[i].1@[m])@.lbl,
                groups@[i].1@[m]@.attr,
            ) by {
                if i < g {
                    assert(usk.partial_keys@[i] == before[i]);
                }
            }
            assert forall|i: int, e: int|
                0 <= i < g + 1 && 0 <= e < usk.partial_keys@[i].k_1_2_map@.len() implies iota.spec_has(
                (AttrView {
                    auth: usk.partial_keys@[i].auth@,
                    lbl: (#[trigger] usk.partial_keys@[i].k_1_2_map@[e]).0.0@,
                    attr: usk.partial_keys@[i].k_1_2_map@[e].0.1@,
                }),
            ) by {
                if i < g {
                    assert(usk.partial_keys@[i] == before[i]);
                }
            }
            assert forall|i: int, e: int|
                0 <= i < g + 1 && 0 <= e < usk.partial_keys@[i].k_1_2_map@.len() implies view_in(
                groups@[i].1@,
                (AttrView {
                    auth: usk.partial_keys@[i].auth@,
                    lbl: (#[trigger] usk.partial_keys@[i].k_1_2_map@[e]).0.0@,
                    attr: usk.partial_keys@[i].k_1_2_map@[e].0.1@,
                }),
            ) by {
                if i < g {
                    assert(usk.partial_keys@[i] == before[i]);
                }
            }
        }
        g = g + 1;
    }
    proof {
        assert forall|i: int, e: int|
            0 <= i < usk.partial_keys@.len() && 0 <= e < usk.partial_keys@[i].k_1_2_map@.len()
                implies crate::policy::holds_triple(
            crate::policy::views_of(user_attrs@),
            usk.partial_keys@[i].auth@,
            (#[trigger] usk.partial_keys@[i].k_1_2_map@[e]).0.0@,
            usk.partial_keys@[i].k_1_2_map@[e].0.1@,
        ) by {
            let v = AttrView {
                auth: usk.partial_keys@[i].auth@,
                lbl: usk.partial_keys@[i].k_1_2_map@[e].0.0@,
                attr: usk.partial_keys@[i].k_1_2_map@[e].0.1@,
            };
            assert(view_in(groups@[i].1@, v));
            let m = choose|m: int| 0 <= m < groups@[i].1@.len() && (#[trigger] groups@[i].1@[m])@ == v;
            assert(view_in(user_attrs@, v));
            crate::scheme::common::lemma_view_in_holds_triple(user_attrs@, v);
        }
        assert forall|k: int|
            0 <= k < user_attrs@.len() implies usk_holds_masked(
            usk.partial_keys@,
            (#[trigger] user_attrs@[k])@.auth,
            user_attrs@[k]@.lbl,
            user_attrs@[k]@.attr,
        ) by {
            assert(crate::scheme::common::group_covers(groups@, user_attrs@[k]));
            let gg = choose|gg: int|
                0 <= gg < groups@.len() && (#[trigger] groups@[gg]).0@ == user_attrs@[k]@.auth
                    && view_in(groups@[gg].1@, user_attrs@[k]@);
            let m = choose|m: int|
                0 <= m < groups@[gg].1@.len() && (#[trigger] groups@[gg].1@[m])@
                    == user_attrs@[k]@;
            assert(alist2_has(
                usk.partial_keys@[gg].k_1_2_map@,
                groups@[gg].1@[m]@.lbl,
                groups@[gg].1@[m]@.attr,
            ));
            assert(usk.partial_keys@[gg].auth@ == user_attrs@[k]@.auth);
        }
    }
    usk
}

/// Encryption in the dual-mask layout: the four shared rows with one
/// fresh blinding scalar per leaf, and the fifth row carrying each
/// authority's mask line raised to the leaf's blinding scalar.
pub fn encrypt(
    rng: &mut rand::rngs::StdRng,
    mpk: &MPK,
    policy: &Policy,
    _tau: &Tau,
) -> (r: (Gt, Ciphertext))
    requires
        policy.wf(),
        mpk.wf(),
        forall|j: int|
            0 <= j < policy.spec_leaves().len() ==> mpk.spec_has_auth(
                (#[trigger] policy.spec_leaves()[j]).0@.auth,
            ),
    ensures
        r.1.matches(*policy),
        encrypt_sound_masked(r.0, r.1, *policy, *mpk),
{
    let s = ScalarField::rand(rng);
    let n = policy.len();
    let (lambda_vec, mu_vec, Ghost(gv), Ghost(gvp)) = compute_shares(rng, s.clone(), policy);
    let mut c_1_vec: Vec<H> = Vec::new();
    let mut c_2_vec: Vec<G> = Vec::new();
    let mut c_3_vec: Vec<H> = Vec::new();
    let mut c_4_vec: Vec<H> = Vec::new();
    let mut c_5_vec: Vec<G> = Vec::new();
    let ghost mut gs: Seq<ScalarField> = Seq::empty();
    let mut j: usize = 0;
    while j < n
        invariant
            j <= n,
            n == policy.spec_leaves().len(),
            policy.wf(),
            mpk.wf(),
            forall|jj: int|
                0 <= jj < n ==> mpk.spec_has_auth((#[trigger] policy.spec_leaves()[jj]).0@.auth),
            lambda_vec@.len() == n,
            mu_vec@.len() == n,
            gv.len() == n,
            gvp.len() == n,
            forall|a: int|
                0 <= a < n ==> (#[trigger] lambda_vec@[a]) == crate::scheme::common::signed_combo(
                    policy.spec_splits()[a],
                    gv,
                ),
            forall|a: int|
                0 <= a < n ==> (#[trigger] mu_vec@[a]) == crate::scheme::common::signed_combo(
                    policy.spec_splits()[a],
                    gvp,
                ),
            c_1_vec@.len() == j,
            c_2_vec@.len() == j,
            c_3_vec@.len() == j,
            c_4_vec@.len() == j,
            c_5_vec@.len() == j,
            gs.len() == j,
            forall|a: int|
                0 <= a < j ==> #[trigger] slot_equations_masked(
                    (Ciphertext { c_1_vec, c_2_vec, c_3_vec, c_4_vec, c_5_vec }),
                    *policy,
                    *mpk,
                    a,
                    gs[a],
                    gv,
                    gvp,
                ),
        decreases n - j,
    {
        let (ua, is_neg) = policy.get(j);
        let x_attr = hash_attr(&ua.attr);
        let pm = match mpk.get_partial_key(ua.auth.as_str()) {
            Some(p) => p,
            None => {
                proof {
                    assert(mpk.spec_has_auth(policy.spec_leaves()[j as int].0@.auth));
                    assert(false);
                }
                vstd::pervasive::unreached()
            },
        };
        proof {
            let i0 = mpk_index_of_masked(*mpk, ua@.auth);
            assert(0 <= i0 < mpk.partial_keys@.len() && mpk.partial_keys@[i0].auth@ == ua@.auth);
            let ip = choose|ip: int|
                0 <= ip < mpk.partial_keys@.len() && *pm == mpk.partial_keys@[ip]
                    && pm.spec_auth() == ua@.auth;
            if i0 != ip {
                assert(mpk.partial_keys@[i0].spec_auth() == mpk.partial_keys@[ip].spec_auth());
                assert(false);
            }
            assert(*pm == mpk_slot_masked(*mpk, ua@.auth));
        }
        let s_j = ScalarField::rand(rng);
        let b_line = if is_neg {
            &pm.b_not
        } else {
            &pm.b
        };
        let c_1 = H::base(&mu_vec[j]).add(&b_line.mul(&s_j));
        let sign = if is_neg {
            crate::hashing::HashSign::NEG
        } else {
            crate::hashing::HashSign::POS
        };
        let lbl_0 = crate::hashing::hash_lbl(&ua.auth, &ua.lbl, sign, 0);
        let lbl_1 = crate::hashing::hash_lbl(&ua.auth, &ua.lbl, sign, 1);
        let c_2 = lbl_0.add(&lbl_1.mul(&x_attr)).mul(&s_j);
        let c_3 = H::base(&lambda_vec[j]).add(&pm.a.mul(&s_j));
        let c_4 = H::base(&s_j);
        let mask_line = if is_neg {
            &pm.b_not_prime
        } else {
            &pm.b_prime
        };
        let c_5 = mask_line.mul(&s_j);
        let ghost before = (Ciphertext {
            c_1_vec: c_1_vec,
            c_2_vec: c_2_vec,
            c_3_vec: c_3_vec,
            c_4_vec: c_4_vec,
            c_5_vec: c_5_vec,
        });
        c_1_vec.push(c_1);
        c_2_vec.push(c_2);
        c_3_vec.push(c_3);
        c_4_vec.push(c_4);
        c_5_vec.push(c_5);
        proof {
            gs = gs.push(s_j);
            let now = Ciphertext {
                c_1_vec: c_1_vec,
                c_2_vec: c_2_vec,
                c_3_vec: c_3_vec,
                c_4_vec: c_4_vec,
                c_5_vec: c_5_vec,
            };
            assert(slot_equations_masked(now, *policy, *mpk, j as int, gs[j as int], gv, gvp)) by {
                assert(gs[j as int] == s_j);
                assert(now.c_1_vec@[j as int] == c_1);
                assert(now.c_2_vec@[j as int] == c_2);
                assert(now.c_3_vec@[j as int] == c_3);
                assert(now.c_4_vec@[j as int] == c_4);
                assert(now.c_5_vec@[j as int] == c_5);
                assert((sign == crate::hashing::HashSign::NEG) == is_neg);
            }
            assert forall|a: int|
                0 <= a < j + 1 implies #[trigger] slot_equations_masked(
                now,
                *policy,
                *mpk,
                a,
                gs[a],
                gv,
                gvp,
            ) by {
                if a < j {
                    assert(slot_equations_masked(before, *policy, *mpk, a, gs[a], gv, gvp));
                    assert(now.c_1_vec@[a] == before.c_1_vec@[a]);
                    assert(now.c_2_vec@[a] == before.c_2_vec@[a]);
                    assert(now.c_3_vec@[a] == before.c_3_vec@[a]);
                    assert(now.c_4_vec@[a] == before.c_4_vec@[a]);
                    assert(now.c_5_vec@[a] == before.c_5_vec@[a]);
                }
            }
        }
        j = j + 1;
    }
    let k = crate::curve::session_key(&s);
    let ct = Ciphertext { c_1_vec, c_2_vec, c_3_vec, c_4_vec, c_5_vec };
    proof {
        assert(encrypt_witness_masked(k, ct, *policy, *mpk, (s, gs, gv, gvp))) by {
            assert(k == crate::curve::session_key_of(s));
        }
    }
    (k, ct)
}

/// Groups selected leaves by their authority alone.
fn group_by_auth_only(idxs: &Vec<usize>, policy: &Policy) -> (r: Vec<(String, Vec<usize>)>)
    requires
        policy.wf(),
        forall|k: int| 0 <= k < idxs@.len() ==> (#[trigger] idxs@[k]) < policy.spec_leaves().len(),
    ensures
        forall|g: int, m: int|
            0 <= g < r@.len() && 0 <= m < r@[g].1@.len() ==> idxs@.contains(
                #[trigger] r@[g].1@[m],
            ) && policy.spec_leaves()[r@[g].1@[m] as int].0@.auth == r@[g].0@,
        forall|g: int| 0 <= g < r@.len() ==> (#[trigger] r@[g]).1@.len() >= 1,
{
    let mut groups: Vec<(String, Vec<usize>)> = Vec::new();
    let n = idxs.len();
    let mut i: usize = 0;
    while i < n
        invariant
            i <= n,
            n == idxs@.len(),
            policy.wf(),
            forall|k: int| 0 <= k < n ==> (#[trigger] idxs@[k]) < policy.spec_leaves().len(),
            forall|g: int, m: int|
                0 <= g < groups@.len() && 0 <= m < groups@[g].1@.len() ==> idxs@.contains(
                    #[trigger] groups@[g].1@[m],
                ) && policy.spec_leaves()[groups@[g].1@[m] as int].0@.auth == groups@[g].0@,
            forall|g: int| 0 <= g < groups@.len() ==> (#[trigger] groups@[g]).1@.len() >= 1,
        decreases n - i,
    {
        let j = idxs[i];
        proof {
            assert(idxs@.contains(j)) by {
                assert(idxs@[i as int] == j);
            }
        }
        let (ua, _) = policy.get(j);
        let ng = groups.len();
        let mut gi: usize = 0;
        let mut found = ng;
        while gi < ng
            invariant
                gi <= ng,
                ng == groups@.len(),
                found == ng || (found < ng && groups@[found as int].0@ == ua@.auth),
            decreases ng - gi,
        {
            if groups[gi].0 == ua.auth {
                found = gi;
                break ;
            }
            gi = gi + 1;
        }
        let ghost before = groups@;
        if found < ng {
            let (a, mut members) = groups.remove(found);
            members.push(j);
            groups.insert(found, (a, members));
            proof {
                assert(groups@.len() == before.len());
                assert forall|g: int|
                    0 <= g < groups@.len() && g != found as int implies groups@[g] == before[g] by {
                    if g < found as int {
                        assert(groups@[g] == before[g]);
                    }
                }
                assert(groups@[found as int].0 == before[found as int].0);
                assert(groups@[found as int].1@ == before[found as int].1@.push(j));
            }
        } else {
            let mut members: Vec<usize> = Vec::new();
            members.push(j);
            groups.push((ua.auth, members));
            proof {
                assert forall|g: int| 0 <= g < before.len() implies groups@[g] == before[g] by {}
                assert(groups@[groups@.len() - 1].1@ =~= Seq::<usize>::empty().push(j));
            }
        }
        i = i + 1;
    }
    groups
}

impl Opt6 {
    pub fn new() -> (r: Self)
        ensures
            r.name@ == "opt6"@,
    {
        Opt6 { name: "opt6".to_owned() }
    }

    pub fn get_name(&self) -> (r: String)
        ensures
            r@ == self.name@,
    {
        self.name.clone()
    }

    pub fn setup(&self, rng: &mut rand::rngs::StdRng, auths: &Vec<&str>) -> (r: (MSK, MPK))
        requires
            forall|i: int, j: int| 0 <= i < j < auths@.len() ==> auths@[i]@ != auths@[j]@,
        ensures
            r.0.wf(),
            r.1.wf(),
            r.0.partial_keys@.len() == auths@.len(),
            r.1.partial_keys@.len() == auths@.len(),
            forall|i: int|
                0 <= i < auths@.len() ==> (#[trigger] r.0.partial_keys@[i]).auth@ == auths@[i]@,
            forall|i: int|
                0 <= i < auths@.len() ==> (#[trigger] r.1.partial_keys@[i]).auth@ == auths@[i]@,
            forall|i: int|
                0 <= i < auths@.len() ==> (#[trigger] r.1.partial_keys@[i]).a
                    == crate::curve::h_of(r.0.partial_keys@[i].beta) && r.1.partial_keys@[i].b
                    == crate::curve::h_of(r.0.partial_keys@[i].b)
                    && r.1.partial_keys@[i].b_prime == crate::curve::g_of(
                    r.0.partial_keys@[i].b_prime,
                ) && r.1.partial_keys@[i].b_not == crate::curve::h_of(r.0.partial_keys@[i].b_not)
                    && r.1.partial_keys@[i].b_not_prime == crate::curve::g_of(
                    r.0.partial_keys@[i].b_not_prime,
                ),
    {
        setup(rng, auths)
    }

    pub fn keygen(
        &self,
        rng: &mut rand::rngs::StdRng,
        gid: &str,
        msk: &MSK,
        user_attrs: &Vec<UserAttribute>,
        iota: &Iota,
    ) -> (r: USK)
        requires
            msk.wf(),
            forall|k: int|
                0 <= k < user_attrs@.len() ==> msk.spec_has_auth(
                    (#[trigger] user_attrs@[k])@.auth,
                ),
            forall|k: int|
                0 <= k < user_attrs@.len() ==> iota.spec_has((#[trigger] user_attrs@[k])@),
        ensures
            r.wf(),
            r.matches_iota(*iota),
            forall|i: int, e: int|
                0 <= i < r.partial_keys@.len() && 0 <= e < r.partial_keys@[i].k_1_2_map@.len()
                    ==> crate::policy::holds_triple(
                    crate::policy::views_of(user_attrs@),
                    r.partial_keys@[i].auth@,
                    (#[trigger] r.partial_keys@[i].k_1_2_map@[e]).0.0@,
                    r.partial_keys@[i].k_1_2_map@[e].0.1@,
                ),
            forall|k: int|
                0 <= k < user_attrs@.len() ==> usk_holds_masked(
                    r.partial_keys@,
                    (#[trigger] user_attrs@[k])@.auth,
                    user_attrs@[k]@.lbl,
                    user_attrs@[k]@.attr,
                ),
    {
        keygen(rng, gid, msk, user_attrs, iota)
    }

    pub fn encrypt(
        &self,
        rng: &mut rand::rngs::StdRng,
        mpk: &MPK,
        policy: &Policy,
        tau: &Tau,
    ) -> (r: (Gt, Ciphertext))
        requires
            policy.wf(),
            mpk.wf(),
            forall|j: int|
                0 <= j < policy.spec_leaves().len() ==> mpk.spec_has_auth(
                    (#[trigger] policy.spec_leaves()[j]).0@.auth,
                ),
        ensures
            r.1.matches(*policy),
            encrypt_sound_masked(r.0, r.1, *policy, *mpk),
    {
        encrypt(rng, mpk, policy, tau)
    }

    pub fn decrypt(
        &self,
        usk: &USK,
        gid: &str,
        iota: &Iota,
        tau: &Tau,
        policy: &Policy,
        ct: &Ciphertext,
    ) -> (r: Option<Gt>)
        requires
            policy.wf(),
            ct.matches(*policy),
            usk.wf(),
            usk.matches_iota(*iota),
        ensures
            r.is_some() ==> policy.spec_sat(usk.attr_views()),
            policy.spec_sat(usk.attr_views()) && no_decrypt_collisions_masked(
                usk.partial_keys@,
                *policy,
            ) ==> r.is_some(),
    {
        decrypt(usk, gid, iota, tau, policy, ct)
    }
}

/// Decryption in the dual-mask layout: besides the usual class pairings,
/// one pairing per authority of the summed fifth row against the key's
/// mask element strips the per-user mask. It returns a key only when the
/// key's attributes satisfy the policy; and it is owed success — and
/// delivers it — whenever they do and no value held under a negated
/// leaf's label maps to the excluded interpolation point.
pub fn decrypt(
    usk: &USK,
    gid: &str,
    iota: &Iota,
    _tau: &Tau,
    policy: &Policy,
    ct: &Ciphertext,
) -> (r: Option<Gt>)
    requires
        policy.wf(),
        ct.matches(*policy),
        usk.wf(),
        usk.matches_iota(*iota),
    ensures
        r.is_some() ==> policy.spec_sat(usk.attr_views()),
        policy.spec_sat(usk.attr_views()) && no_decrypt_collisions_masked(
            usk.partial_keys@,
            *policy,
        ) ==> r.is_some(),
{
    let user_attrs = usk.get_user_attributes();
    let ghost vs = crate::policy::views_of(user_attrs@);
    let (eps, eps_not, _sel) = match solve_lse(policy, &user_attrs) {
        Some(p) => p,
        None => {
            return None;
        },
    };
    let mut k = pair_base(gid, &eps, &eps_not, &ct.c_1_vec, &ct.c_3_vec);
    let mut all: Vec<usize> = Vec::new();
    let np0 = eps.len();
    let mut a0: usize = 0;
    while a0 < np0
        invariant
            a0 <= np0,
            np0 == eps@.len(),
            all@ =~= eps@.take(a0 as int),
        decreases np0 - a0,
    {
        all.push(eps[a0]);
        a0 = a0 + 1;
    }
    let nn0 = eps_not.len();
    let mut a1: usize = 0;
    while a1 < nn0
        invariant
            a1 <= nn0,
            nn0 == eps_not@.len(),
            all@ =~= eps@ + eps_not@.take(a1 as int),
        decreases nn0 - a1,
    {
        all.push(eps_not[a1]);
        a1 = a1 + 1;
    }
    proof {
        assert(all@ =~= eps@ + eps_not@);
    }
    let by_auth = group_by_auth_only(&all, policy);
    let nga = by_auth.len();
    let mut ga: usize = 0;
    while ga < nga
        invariant
            ga <= nga,
            nga == by_auth@.len(),
            policy.wf(),
            ct.matches(*policy),
            usk.wf(),
            usk.matches_iota(*iota),
            vs == usk.attr_views(),
            all@ == eps@ + eps_not@,
            forall|m: int|
                0 <= m < eps@.len() ==> (#[trigger] eps@[m]) < policy.spec_leaves().len()
                    && crate::policy::leaf_sat(
                    policy.spec_leaves()[eps@[m] as int].0@,
                    false,
                    vs,
                ),
            forall|m: int|
                0 <= m < eps_not@.len() ==> (#[trigger] eps_not@[m]) < policy.spec_leaves().len()
                    && policy.spec_leaves()[eps_not@[m] as int].1 && crate::policy::leaf_sat(
                    policy.spec_leaves()[eps_not@[m] as int].0@,
                    true,
                    vs,
                ),
            forall|m: int| 0 <= m < all@.len() ==> (#[trigger] all@[m]) < policy.spec_leaves().len(),
            forall|g: int, m: int|
                0 <= g < nga && 0 <= m < by_auth@[g].1@.len() ==> all@.contains(
                    #[trigger] by_auth@[g].1@[m],
                ) && policy.spec_leaves()[by_auth@[g].1@[m] as int].0@.auth == by_auth@[g].0@,
            forall|g: int| 0 <= g < nga ==> (#[trigger] by_auth@[g]).1@.len() >= 1,
        decreases nga - ga,
    {
        let (auth, members) = &by_auth[ga];
        let ghost j0 = members@[0];
        proof {
            assert(all@.contains(j0));
            let kk = choose|kk: int| 0 <= kk < all@.len() && all@[kk] == j0;
            assert(all@[kk] == (eps@ + eps_not@)[kk]);
            if kk < eps@.len() {
                assert(eps@[kk] == j0);
                let a = policy.spec_leaves()[j0 as int].0@.auth;
                let l = policy.spec_leaves()[j0 as int].0@.lbl;
                let t = policy.spec_leaves()[j0 as int].0@.attr;
                lemma_views_to_usk_holds_masked(
                    usk.partial_keys@,
                    usk.partial_keys@.len() as int,
                    a,
                    l,
                    t,
                );
            } else {
                assert(eps_not@[kk - eps@.len()] == j0);
                let a = policy.spec_leaves()[j0 as int].0@.auth;
                let l = policy.spec_leaves()[j0 as int].0@.lbl;
                lemma_views_to_usk_label_masked(
                    usk.partial_keys@,
                    usk.partial_keys@.len() as int,
                    a,
                    l,
                );
            }
            assert(usk.spec_has_auth(policy.spec_leaves()[j0 as int].0@.auth));
        }
        proof {
            assert forall|m: int|
                0 <= m < members@.len() implies (#[trigger] members@[m])
                < policy.spec_leaves().len() by {
                assert(all@.contains(members@[m]));
                let kk = choose|kk: int| 0 <= kk < all@.len() && all@[kk] == members@[m];
            }
        }
        let c_5 = sum_g(&ct.c_5_vec, members);
        let partial = match usk.get_partial_key(auth.as_str()) {
            Some(p) => p,
            None => {
                proof {
                    assert(false);
                }
                vstd::pervasive::unreached()
            },
        };
        k = k.mul(&crate::curve::pairing(&c_5, &partial.k_6));
        ga = ga + 1;
    }
    let eps_by_triple = group_by_triple(&eps, policy);
    let ng1 = eps_by_triple.len();
    let mut g1: usize = 0;
    while g1 < ng1
        invariant
            g1 <= ng1,
            ng1 == eps_by_triple@.len(),
            policy.wf(),
            ct.matches(*policy),
            usk.wf(),
            usk.matches_iota(*iota),
            vs == usk.attr_views(),
            forall|m: int|
                0 <= m < eps@.len() ==> (#[trigger] eps@[m]) < policy.spec_leaves().len()
                    && crate::policy::leaf_sat(
                    policy.spec_leaves()[eps@[m] as int].0@,
                    false,
                    vs,
                ),
            forall|g: int| 0 <= g < ng1 ==> (#[trigger] eps_by_triple@[g]).3@.len() >= 1,
            forall|g: int, m: int|
                0 <= g < ng1 && 0 <= m < eps_by_triple@[g].3@.len() ==> eps@.contains(
                    #[trigger] eps_by_triple@[g].3@[m],
                ) && policy.spec_leaves()[eps_by_triple@[g].3@[m] as int].0@.auth
                    == eps_by_triple@[g].0@ && policy.spec_leaves()[eps_by_triple@[g].3@[m] as int].0@.lbl
                    == eps_by_triple@[g].1@ && policy.spec_leaves()[eps_by_triple@[g].3@[m] as int].0@.attr
                    == eps_by_triple@[g].2@,
        decreases ng1 - g1,
    {
        let (auth, lbl, attr, members) = &eps_by_triple[g1];
        let ghost j0 = members@[0];
        proof {
            assert(eps@.contains(j0));
            let kk = choose|kk: int| 0 <= kk < eps@.len() && eps@[kk] == j0;
        }
        let ghost a = policy.spec_leaves()[j0 as int].0@.auth;
        let ghost l = policy.spec_leaves()[j0 as int].0@.lbl;
        let ghost t = policy.spec_leaves()[j0 as int].0@.attr;
        proof {
            assert forall|m: int|
                0 <= m < members@.len() implies (#[trigger] members@[m])
                < policy.spec_leaves().len() by {
                assert(eps@.contains(members@[m]));
                let kk = choose|kk: int| 0 <= kk < eps@.len() && eps@[kk] == members@[m];
            }
            lemma_views_to_usk_holds_masked(
                usk.partial_keys@,
                usk.partial_keys@.len() as int,
                a,
                l,
                t,
            );
        }
        let c_4 = sum_h(&ct.c_4_vec, members);
        let c_2 = sum_g(&ct.c_2_vec, members);
        let partial = match usk.get_partial_key(auth.as_str()) {
            Some(p) => p,
            None => {
                proof {
                    let wi = choose|wi: int|
                        0 <= wi < usk.partial_keys@.len() && (#[trigger] usk.partial_keys@[wi]).auth@
                            == a && alist2_has(usk.partial_keys@[wi].k_1_2_map@, l, t);
                    assert(usk.spec_has_auth(a));
                    assert(false);
                }
                vstd::pervasive::unreached()
            },
        };
        proof {
            let wi = choose|wi: int|
                0 <= wi < usk.partial_keys@.len() && (#[trigger] usk.partial_keys@[wi]).auth@ == a
                    && alist2_has(usk.partial_keys@[wi].k_1_2_map@, l, t);
            let pi = choose|pi: int|
                0 <= pi < usk.partial_keys@.len() && *partial == usk.partial_keys@[pi]
                    && partial.spec_auth() == a;
            if wi != pi {
                assert(usk.partial_keys@[wi].spec_auth() != usk.partial_keys@[pi].spec_auth());
                assert(false);
            }
            assert(alist2_has(partial.k_1_2_map@, l, t));
            assert(partial.k_4_vec@.len() == iota.spec_len());
            assert(partial.k_1_1_vec@.len() == iota.spec_len());
            let e = choose|e: int|
                0 <= e < partial.k_1_2_map@.len() && partial.k_1_2_map@[e].0.0@ == l
                    && partial.k_1_2_map@[e].0.1@ == t;
            assert(iota.spec_has(
                (AttrView {
                    auth: partial.auth@,
                    lbl: partial.k_1_2_map@[e].0.0@,
                    attr: partial.k_1_2_map@[e].0.1@,
                }),
            ));
            assert((AttrView {
                auth: partial.auth@,
                lbl: partial.k_1_2_map@[e].0.0@,
                attr: partial.k_1_2_map@[e].0.1@,
            }) =~= (AttrView { auth: a, lbl: l, attr: t }));
        }
        let slot = match iota.try_get(auth, lbl, attr) {
            Some(s) => s,
            None => {
                proof {
                    assert(false);
                }
                vstd::pervasive::unreached()
            },
        };
        k = k.mul(&crate::curve::pairing(&partial.k_1_1_vec[slot].neg(), &c_4));
        k = k.mul(&crate::curve::pairing(&c_2, &partial.k_4_vec[slot]));
        g1 = g1 + 1;
    }
    let eps_not_by_triple = group_by_triple(&eps_not, policy);
    let ng3 = eps_not_by_triple.len();
    let mut g3: usize = 0;
    while g3 < ng3
        invariant
            g3 <= ng3,
            ng3 == eps_not_by_triple@.len(),
            policy.wf(),
            ct.matches(*policy),
            usk.wf(),
            usk.matches_iota(*iota),
            vs == usk.attr_views(),
            forall|m: int|
                0 <= m < eps_not@.len() ==> (#[trigger] eps_not@[m]) < policy.spec_leaves().len()
                    && policy.spec_leaves()[eps_not@[m] as int].1 && crate::policy::leaf_sat(
                    policy.spec_leaves()[eps_not@[m] as int].0@,
                    true,
                    vs,
                ),
            forall|g: int| 0 <= g < ng3 ==> (#[trigger] eps_not_by_triple@[g]).3@.len() >= 1,
            forall|g: int, m: int|
                0 <= g < ng3 && 0 <= m < eps_not_by_triple@[g].3@.len() ==> eps_not@.contains(
                    #[trigger] eps_not_by_triple@[g].3@[m],
                ) && policy.spec_leaves()[eps_not_by_triple@[g].3@[m] as int].0@.auth
                    == eps_not_by_triple@[g].0@ && policy.spec_leaves()[eps_not_by_triple@[g].3@[m] as int].0@.lbl
                    == eps_not_by_triple@[g].1@ && policy.spec_leaves()[eps_not_by_triple@[g].3@[m] as int].0@.attr
                    == eps_not_by_triple@[g].2@,
        decreases ng3 - g3,
    {
        let (auth, lbl, attr, members) = &eps_not_by_triple[g3];
        let ghost j0 = members@[0];
        proof {
            assert(eps_not@.contains(j0));
            let kk = choose|kk: int| 0 <= kk < eps_not@.len() && eps_not@[kk] == j0;
        }
        let ghost a = policy.spec_leaves()[j0 as int].0@.auth;
        let ghost l = policy.spec_leaves()[j0 as int].0@.lbl;
        let ghost t = policy.spec_leaves()[j0 as int].0@.attr;
        proof {
            assert forall|m: int|
                0 <= m < members@.len() implies (#[trigger] members@[m])
                < policy.spec_leaves().len() by {
                assert(eps_not@.contains(members@[m]));
                let kk = choose|kk: int| 0 <= kk < eps_not@.len() && eps_not@[kk] == members@[m];
            }
            lemma_views_to_usk_label_masked(usk.partial_keys@, usk.partial_keys@.len() as int, a, l);
        }
        let c_2 = sum_g(&ct.c_2_vec, members);
        let c_4 = sum_h(&ct.c_4_vec, members);
        let x_attr_not = hash_attr(attr);
        let partial = match usk.get_partial_key(auth.as_str()) {
            Some(p) => p,
            None => {
                proof {
                    let (wi, we) = choose|wi: int, we: int|
                        0 <= wi < usk.partial_keys@.len() && 0 <= we
                            < usk.partial_keys@[wi].k_1_2_map.len() && (
                        #[trigger] usk.partial_keys@[wi].k_1_2_map[we]).0.0@ == l
                            && usk.partial_keys@[wi].auth@ == a;
                    assert(usk.spec_has_auth(a));
                    assert(false);
                }
                vstd::pervasive::unreached()
            },
        };
        let ghost wi = choose|wi: int, we: int|
            0 <= wi < usk.partial_keys@.len() && 0 <= we < usk.partial_keys@[wi].k_1_2_map.len()
                && (#[trigger] usk.partial_keys@[wi].k_1_2_map[we]).0.0@ == l
                && usk.partial_keys@[wi].auth@ == a;
        proof {
            let pi = choose|pi: int|
                0 <= pi < usk.partial_keys@.len() && *partial == usk.partial_keys@[pi]
                    && partial.spec_auth() == a;
            if wi.0 != pi {
                assert(usk.partial_keys@[wi.0].spec_auth() != usk.partial_keys@[pi].spec_auth());
                assert(false);
            }
            assert(*partial == usk.partial_keys@[wi.0]);
            assert(partial.k_1_2_map@[wi.1].0.0@ == l);
            assert(alist2_has(partial.k_1_2_map@, l, partial.k_1_2_map@[wi.1].0.1@));
            assert(partial.k_5_vec@.len() == iota.spec_len());
        }
        let k_2_2 = match alist1_get(&partial.k_2_2_map, lbl) {
            Some(x) => x,
            None => {
                proof {
                    assert(alist1_has(partial.k_2_2_map@, l));
                    assert(false);
                }
                vstd::pervasive::unreached()
            },
        };
        let k_2 = partial.k_2_1.add(k_2_2);
        let (k_3, k_5) = match neg_combo_masked(partial, lbl, &x_attr_not, iota) {
            Some(p) => p,
            None => {
                proof {
                    if no_decrypt_collisions_masked(usk.partial_keys@, *policy) {
                        assert(policy.spec_leaves()[j0 as int].1);
                        assert(usk.partial_keys@[wi.0].auth@ == policy.spec_leaves()[j0 as int].0@.auth);
                        assert(crate::scheme::common::no_point_collision(
                            usk.partial_keys@[wi.0].k_1_2_map@,
                            l,
                            crate::hashing::attr_point(t),
                        ));
                        assert(false);
                    }
                }
                return None;
            },
        };
        k = k.mul(&crate::curve::pairing(&c_2, &k_5));
        k = k.mul(&crate::curve::pairing(&k_2.neg().add(&k_3), &c_4));
        g3 = g3 + 1;
    }
    Some(k)
}

/// The negation combination over dual-mask keys. It only succeeds when no
/// value held under the label maps to the excluded interpolation point.
fn neg_combo_masked(
    partial: &PartialUSK,
    lbl: &String,
    x_not: &ScalarField,
    iota: &Iota,
) -> (r: Option<(G, H)>)
    requires
        partial.wf(),
        partial.k_5_vec@.len() == iota.spec_len(),
        forall|e: int|
            0 <= e < partial.k_1_2_map@.len() ==> iota.spec_has(
                (AttrView {
                    auth: partial.auth@,
                    lbl: (#[trigger] partial.k_1_2_map@[e]).0.0@,
                    attr: partial.k_1_2_map@[e].0.1@,
                }),
            ),
    ensures
        r.is_some() <==> crate::scheme::common::no_point_collision(
            partial.k_1_2_map@,
            lbl@,
            *x_not,
        ),
{
    let attrs = attrs_under_label(&partial.k_1_2_map, lbl);
    let mut xs: Vec<ScalarField> = Vec::new();
    let n = attrs.len();
    let mut i: usize = 0;
    while i < n
        invariant
            i <= n,
            n == attrs@.len(),
            xs@.len() == i,
            forall|j: int|
                0 <= j < i ==> (#[trigger] xs@[j]) == crate::hashing::attr_point(attrs@[j]@),
        decreases n - i,
    {
        xs.push(hash_attr(&attrs[i]));
        i = i + 1;
    }
    let coeffs = match lagrange_coeffs(x_not, &xs) {
        Some(c) => c,
        None => {
            proof {
                let j = choose|j: int| 0 <= j < xs@.len() && !(xs@[j] != *x_not);
                assert(alist2_has(partial.k_1_2_map@, lbl@, attrs@[j]@));
                let e = choose|e: int|
                    0 <= e < partial.k_1_2_map@.len() && partial.k_1_2_map@[e].0.0@ == lbl@
                        && partial.k_1_2_map@[e].0.1@ == attrs@[j]@;
                assert(crate::hashing::attr_point(partial.k_1_2_map@[e].0.1@) == *x_not);
            }
            return None;
        },
    };
    proof {
        assert forall|e: int|
            0 <= e < partial.k_1_2_map@.len() && (#[trigger] partial.k_1_2_map@[e]).0.0@ == lbl@
                implies crate::hashing::attr_point(partial.k_1_2_map@[e].0.1@) != *x_not by {
            assert(crate::scheme::common::text_in(attrs@, partial.k_1_2_map@[e].0.1@));
            let a = choose|a: int|
                0 <= a < attrs@.len() && (#[trigger] attrs@[a])@ == partial.k_1_2_map@[e].0.1@;
            assert(xs@[a] == crate::hashing::attr_point(attrs@[a]@));
            assert(xs@[a] != *x_not);
        }
    }
    let mut k_3_acc = G::zero();
    let mut k_5_acc = H::zero();
    let mut i2: usize = 0;
    while i2 < n
        invariant
            i2 <= n,
            n == attrs@.len(),
            coeffs@.len() == n,
            partial.wf(),
            partial.k_5_vec@.len() == iota.spec_len(),
            forall|a: int|
                0 <= a < n ==> alist2_has(partial.k_1_2_map@, lbl@, (#[trigger] attrs@[a])@),
            forall|e: int|
                0 <= e < partial.k_1_2_map@.len() ==> iota.spec_has(
                    (AttrView {
                        auth: partial.auth@,
                        lbl: (#[trigger] partial.k_1_2_map@[e]).0.0@,
                        attr: partial.k_1_2_map@[e].0.1@,
                    }),
                ),
        decreases n - i2,
    {
        let t = &attrs[i2];
        let c = &coeffs[i2];
        proof {
            assert(alist2_has(partial.k_1_2_map@, lbl@, attrs@[i2 as int]@));
            let e = choose|e: int|
                0 <= e < partial.k_1_2_map@.len() && partial.k_1_2_map@[e].0.0@ == lbl@
                    && partial.k_1_2_map@[e].0.1@ == attrs@[i2 as int]@;
            assert(iota.spec_has(
                (AttrView {
                    auth: partial.auth@,
                    lbl: partial.k_1_2_map@[e].0.0@,
                    attr: partial.k_1_2_map@[e].0.1@,
                }),
            ));
            assert((AttrView {
                auth: partial.auth@,
                lbl: partial.k_1_2_map@[e].0.0@,
                attr: partial.k_1_2_map@[e].0.1@,
            }) =~= (AttrView { auth: partial.auth@, lbl: lbl@, attr: attrs@[i2 as int]@ }));
        }
        let slot = match iota.try_get(&partial.auth, lbl, t) {
            Some(s) => s,
            None => {
                proof {
                    assert(false);
                }
                vstd::pervasive::unreached()
            },
        };
        k_5_acc = k_5_acc.add(&partial.k_5_vec[slot].mul(c));
        let k_3_elem = match alist2_get(&partial.k_3_map, lbl, t) {
            Some(e) => e,
            None => {
                proof {
                    assert(alist2_has(partial.k_1_2_map@, lbl@, attrs@[i2 as int]@));
                    assert(false);
                }
                vstd::pervasive::unreached()
            },
        };
        k_3_acc = k_3_acc.add(&k_3_elem.mul(&c.neg()));
        i2 = i2 + 1;
    }
    Some((k_3_acc, k_5_acc))
}

} // verus!
