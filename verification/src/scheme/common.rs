//! What all protocol variants share: authority-partitioned key containers,
//! the shapes of master and user keys and of ciphertexts, the key-side and
//! ciphertext-side indices (`Iota`, `Tau`), the per-leaf share computation,
//! the Lagrange coefficients of the negation mechanism, and the grouping of
//! reconstructed leaves that lets a decryption batch its pairings.
use vstd::prelude::*;

use crate::attribute::{AttrView, UserAttribute};
use crate::curve::{base_paired_with, fr_zero_val, g_sum as g_sum_op, g_zero_val, gt_one_val,
    gt_prod, h_of, h_sum as h_sum_op, h_zero_val, pairing_of, G, Gt, H, ScalarField};
use crate::policy::{Policy, MAX_LEAVES};

verus! {

/// The association list holds the key.
pub open spec fn alist1_has<V>(es: Seq<(String, V)>, k: Seq<char>) -> bool {
    exists|i: int| 0 <= i < es.len() && es[i].0@ == k
}

/// The association list holds the pair key.
pub open spec fn alist2_has<V>(es: Seq<((String, String), V)>, k1: Seq<char>, k2: Seq<char>) -> bool {
    exists|i: int| 0 <= i < es.len() && es[i].0.0@ == k1 && es[i].0.1@ == k2
}

/// Looks a key up in an association list.
pub fn alist1_get<'a, V>(es: &'a Vec<(String, V)>, key: &String) -> (r: Option<&'a V>)
    ensures
        match r {
            Some(v) => exists|i: int|
                0 <= i < es@.len() && es@[i].0@ == key@ && *v == es@[i].1,
            None => !alist1_has(es@, key@),
        },
{
    let n = es.len();
    let mut i: usize = 0;
    while i < n
        invariant
            i <= n,
            n == es@.len(),
            forall|j: int| 0 <= j < i ==> es@[j].0@ != key@,
        decreases n - i,
    {
        if es[i].0 == *key {
            return Some(&es[i].1);
        }
        i = i + 1;
    }
    None
}

/// Looks a pair key up in an association list.
pub fn alist2_get<'a, V>(es: &'a Vec<((String, String), V)>, k1: &String, k2: &String) -> (r:
    Option<&'a V>)
    ensures
        match r {
            Some(v) => exists|i: int|
                0 <= i < es@.len() && es@[i].0.0@ == k1@ && es@[i].0.1@ == k2@ && *v == es@[i].1,
            None => !alist2_has(es@, k1@, k2@),
        },
{
    let n = es.len();
    let mut i: usize = 0;
    while i < n
        invariant
            i <= n,
            n == es@.len(),
            forall|j: int| 0 <= j < i ==> !(es@[j].0.0@ == k1@ && es@[j].0.1@ == k2@),
        decreases n - i,
    {
        if es[i].0.0 == *k1 && es[i].0.1 == *k2 {
            return Some(&es[i].1);
        }
        i = i + 1;
    }
    None
}

/// Proves that taking views commutes with appending one attribute.
pub proof fn lemma_views_of_push(s: Seq<UserAttribute>, x: UserAttribute)
    ensures
        crate::policy::views_of(s.push(x)) =~= crate::policy::views_of(s).push(x@),
{
    assert forall|i: int|
        0 <= i < s.len() + 1 implies crate::policy::views_of(s.push(x))[i] == crate::policy::views_of(
        s,
    ).push(x@)[i] by {
        if i < s.len() {
            assert(s.push(x)[i] == s[i]);
        } else {
            assert(s.push(x)[i] == x);
        }
    }
}

/// A partial key names the authority it belongs to.
pub trait PartialKey: Sized {
    /// The authority's name.
    spec fn spec_auth(&self) -> Seq<char>;

    /// The authority's name.
    fn get_auth(&self) -> (r: String)
        ensures
            r@ == self.spec_auth(),
    ;
}

/// A key assembled from one partial key per authority; no two partial keys
/// may belong to the same authority.
pub struct FullKey<T> {
    /// The partial keys, one per authority.
    pub partial_keys: Vec<T>,
}

impl<T: PartialKey> FullKey<T> {
    /// No two partial keys share an authority.
    pub open spec fn wf(self) -> bool {
        forall|i: int, j: int|
            0 <= i < j < self.partial_keys@.len() ==> self.partial_keys@[i].spec_auth()
                != self.partial_keys@[j].spec_auth()
    }

    /// Some partial key belongs to the authority.
    pub open spec fn spec_has_auth(self, a: Seq<char>) -> bool {
        exists|i: int| 0 <= i < self.partial_keys@.len() && self.partial_keys@[i].spec_auth() == a
    }

    /// An empty key, to be filled one authority at a time.
    pub fn new() -> (r: Self)
        ensures
            r.wf(),
            r.partial_keys@.len() == 0,
    {
        FullKey { partial_keys: Vec::new() }
    }

    /// Adds one authority's partial key. Adding a second key for an
    /// authority already present is a configuration error, ruled out by the
    /// precondition; callers that cannot rule it out must check first.
    pub fn add_partial_key(&mut self, new_key: T)
        requires
            old(self).wf(),
            !old(self).spec_has_auth(new_key.spec_auth()),
        ensures
            final(self).wf(),
            final(self).partial_keys@ == old(self).partial_keys@.push(new_key),
    {
        self.partial_keys.push(new_key);
    }

    /// The authority's partial key, if it has one.
    pub fn get_partial_key<'a>(&'a self, auth: &str) -> (r: Option<&'a T>)
        ensures
            match r {
                Some(t) => exists|i: int|
                    0 <= i < self.partial_keys@.len() && *t == self.partial_keys@[i]
                        && t.spec_auth() == auth@,
                None => !self.spec_has_auth(auth@),
            },
    {
        let key = auth.to_owned();
        let n = self.partial_keys.len();
        let mut i: usize = 0;
        while i < n
            invariant
                i <= n,
                n == self.partial_keys@.len(),
                key@ == auth@,
                forall|j: int| 0 <= j < i ==> self.partial_keys@[j].spec_auth() != auth@,
            decreases n - i,
        {
            let name = self.partial_keys[i].get_auth();
            if name == key {
                return Some(&self.partial_keys[i]);
            }
            i = i + 1;
        }
        None
    }
}

/// One authority's master secret: the exponents behind its public key.
pub struct PartialMSK {
    /// The authority's name.
    pub auth: String,
    /// The exponent of the session-key line.
    pub beta: ScalarField,
    /// The exponent binding plain leaves to user identities.
    pub b: ScalarField,
    /// The exponent binding negated leaves to user identities.
    pub b_not: ScalarField,
}

impl PartialKey for PartialMSK {
    open spec fn spec_auth(&self) -> Seq<char> {
        self.auth@
    }

    fn get_auth(&self) -> String {
        self.auth.clone()
    }
}

/// One authority's public key: the master exponents in the second source
/// group.
pub struct PartialMPK {
    /// The authority's name.
    pub auth: String,
    /// The generator raised to `beta`.
    pub a: H,
    /// The generator raised to `b`.
    pub b: H,
    /// The generator raised to `b_not`.
    pub b_not: H,
}

impl PartialKey for PartialMPK {
    open spec fn spec_auth(&self) -> Seq<char> {
        self.auth@
    }

    fn get_auth(&self) -> String {
        self.auth.clone()
    }
}

/// One authority's share of a user's secret key, keyed by the labels and
/// values the user holds under this authority. The fields are association
/// lists with distinct keys.
pub struct PartialUSK {
    /// The authority's name.
    pub auth: String,
    /// Per held (label, value): the element combining the authority's
    /// secrets, the user's identity element and the label line at the
    /// value's point.
    pub k_1_map: Vec<((String, String), G)>,
    /// Per held label: the element that opens negated leaves under it.
    pub k_2_map: Vec<(String, G)>,
    /// Per held (label, value): the negated label line at the value's
    /// point, blinded per value.
    pub k_3_map: Vec<((String, String), G)>,
    /// Per held value: the plain blinding exponent in the second group.
    pub k_4_map: Vec<(String, H)>,
    /// Per held value: the negation blinding exponent in the second group.
    pub k_5_map: Vec<(String, H)>,
}

impl PartialKey for PartialUSK {
    open spec fn spec_auth(&self) -> Seq<char> {
        self.auth@
    }

    fn get_auth(&self) -> String {
        self.auth.clone()
    }
}

impl PartialUSK {
    /// Every entry of `k_1_map` is mirrored in `k_3_map`, its label is
    /// covered by `k_2_map`, and its value by `k_4_map` and `k_5_map`; no
    /// (label, value) pair appears twice.
    pub open spec fn wf(self) -> bool {
        &&& forall|e1: int, e2: int|
            0 <= e1 < e2 < self.k_1_map@.len() ==> !((#[trigger] self.k_1_map@[e1]).0.0@ == (
            #[trigger] self.k_1_map@[e2]).0.0@ && self.k_1_map@[e1].0.1@ == self.k_1_map@[e2].0.1@)
        &&& forall|l: Seq<char>, t: Seq<char>|
            #[trigger] alist2_has(self.k_1_map@, l, t) ==> alist2_has(self.k_3_map@, l, t)
        &&& forall|l: Seq<char>, t: Seq<char>|
            #[trigger] alist2_has(self.k_1_map@, l, t) ==> alist1_has(self.k_2_map@, l)
        &&& forall|l: Seq<char>, t: Seq<char>|
            #[trigger] alist2_has(self.k_1_map@, l, t) ==> alist1_has(self.k_4_map@, t)
                && alist1_has(self.k_5_map@, t)
    }

    /// The attributes this partial key holds, as views, in entry order.
    pub open spec fn entry_views(self) -> Seq<AttrView> {
        self.k_1_map@.map_values(
            |e: ((String, String), G)| AttrView { auth: self.auth@, lbl: e.0.0@, attr: e.0.1@ },
        )
    }
}

/// The master secret key: one partial secret per authority.
pub type MSK = FullKey<PartialMSK>;

/// The master public key: one partial public key per authority.
pub type MPK = FullKey<PartialMPK>;

/// A user's secret key: one partial key per authority the user holds
/// attributes under, all bound to one global identity.
pub type USK = FullKey<PartialUSK>;

/// The attribute views of the first `i` partial keys, in order.
pub open spec fn attr_views_up_to(partials: Seq<PartialUSK>, i: int) -> Seq<AttrView>
    decreases i,
{
    if i <= 0 {
        Seq::empty()
    } else {
        attr_views_up_to(partials, i - 1) + partials[i - 1].entry_views()
    }
}

impl FullKey<PartialUSK> {
    /// The attributes the key holds, as views, authority by authority.
    pub open spec fn attr_views(self) -> Seq<AttrView> {
        attr_views_up_to(self.partial_keys@, self.partial_keys@.len() as int)
    }

    /// Every partial key is internally well formed.
    pub open spec fn partials_wf(self) -> bool {
        forall|i: int|
            0 <= i < self.partial_keys@.len() ==> (#[trigger] self.partial_keys@[i]).wf()
    }

    /// The attributes the key holds, one per entry, authority by authority;
    /// for a well-formed key, each exactly once.
    pub fn get_user_attributes(&self) -> (r: Vec<UserAttribute>)
        ensures
            crate::policy::views_of(r@) == self.attr_views(),
            self.wf() && self.partials_wf() ==> forall|k1: int, k2: int|
                0 <= k1 < k2 < r@.len() ==> (#[trigger] r@[k1])@ != (#[trigger] r@[k2])@,
    {
        proof {
            if self.wf() && self.partials_wf() {
                lemma_attr_views_distinct(self.partial_keys@, self.partial_keys@.len() as int);
            }
        }
        let mut out: Vec<UserAttribute> = Vec::new();
        let n = self.partial_keys.len();
        let mut i: usize = 0;
        while i < n
            invariant
                i <= n,
                n == self.partial_keys@.len(),
                crate::policy::views_of(out@) =~= attr_views_up_to(self.partial_keys@, i as int),
            decreases n - i,
        {
            let partial = &self.partial_keys[i];
            let m = partial.k_1_map.len();
            let mut j: usize = 0;
            while j < m
                invariant
                    j <= m,
                    i < n,
                    n == self.partial_keys@.len(),
                    m == partial.k_1_map@.len(),
                    partial == &self.partial_keys@[i as int],
                    crate::policy::views_of(out@) =~= attr_views_up_to(
                        self.partial_keys@,
                        i as int,
                    ) + partial.entry_views().take(j as int),
                decreases m - j,
            {
                let ((lbl, attr), _) = &partial.k_1_map[j];
                let ua = UserAttribute::new(partial.auth.as_str(), lbl.as_str(), attr.as_str());
                let ghost prev = out@;
                let ghost uaval = ua;
                let ghost uav = ua@;
                proof {
                    assert(partial.entry_views()[j as int] == uav);
                    assert(partial.entry_views().take(j as int + 1) =~= partial.entry_views().take(
                        j as int,
                    ).push(uav));
                    lemma_views_of_push(prev, uaval);
                }
                out.push(ua);
                proof {
                    assert(out@ == prev.push(uaval));
                    assert(crate::policy::views_of(out@) =~= crate::policy::views_of(prev).push(
                        uav,
                    ));
                    assert(crate::policy::views_of(out@) =~= attr_views_up_to(
                        self.partial_keys@,
                        i as int,
                    ) + partial.entry_views().take(j as int + 1));
                }
                j = j + 1;
            }
            proof {
                assert(partial.entry_views().take(m as int) =~= partial.entry_views());
            }
            i = i + 1;
        }
        proof {
            if self.wf() && self.partials_wf() {
                assert forall|k1: int, k2: int|
                    0 <= k1 < k2 < out@.len() implies (#[trigger] out@[k1])@ != (
                #[trigger] out@[k2])@ by {
                    assert(crate::policy::views_of(out@)[k1] == out@[k1]@);
                    assert(crate::policy::views_of(out@)[k2] == out@[k2]@);
                    assert(self.attr_views()[k1] != self.attr_views()[k2]);
                }
            }
        }
        out
    }
}

/// Proves that the attribute views of distinct-authority, well-formed
/// partial keys are pairwise distinct, and every view carries one of the
/// prefix's authorities.
pub proof fn lemma_attr_views_distinct(partials: Seq<PartialUSK>, i: int)
    requires
        0 <= i <= partials.len(),
        forall|a: int, b: int|
            0 <= a < b < partials.len() ==> (#[trigger] partials[a]).auth@ != (
            #[trigger] partials[b]).auth@,
        forall|a: int| 0 <= a < partials.len() ==> (#[trigger] partials[a]).wf(),
    ensures
        forall|k1: int, k2: int|
            0 <= k1 < k2 < attr_views_up_to(partials, i).len() ==> (#[trigger] attr_views_up_to(
                partials,
                i,
            )[k1]) != (#[trigger] attr_views_up_to(partials, i)[k2]),
        forall|k: int|
            0 <= k < attr_views_up_to(partials, i).len() ==> exists|p: int|
                0 <= p < i && (#[trigger] attr_views_up_to(partials, i)[k]).auth == partials[p].auth@,
    decreases i,
{
    if i > 0 {
        lemma_attr_views_distinct(partials, i - 1);
        let s = attr_views_up_to(partials, i);
        let prefix = attr_views_up_to(partials, i - 1);
        let entries = partials[i - 1].entry_views();
        assert(s == prefix + entries);
        assert forall|k: int|
            0 <= k < s.len() implies exists|p: int|
            0 <= p < i && (#[trigger] s[k]).auth == partials[p].auth@ by {
            if k < prefix.len() {
                assert(prefix[k] == s[k]);
                let p = choose|p: int|
                    0 <= p < i - 1 && (#[trigger] prefix[k]).auth == partials[p].auth@;
                assert(s[k].auth == partials[p].auth@);
            } else {
                assert(entries[k - prefix.len()] == s[k]);
                assert(s[k].auth == partials[i - 1].auth@);
            }
        }
        assert forall|k1: int, k2: int|
            0 <= k1 < k2 < s.len() implies (#[trigger] s[k1]) != (#[trigger] s[k2]) by {
            if k2 < prefix.len() {
                assert(prefix[k1] == s[k1] && prefix[k2] == s[k2]);
            } else if k1 >= prefix.len() {
                let e1 = k1 - prefix.len();
                let e2 = k2 - prefix.len();
                assert(entries[e1] == s[k1] && entries[e2] == s[k2]);
                assert(partials[i - 1].k_1_map@[e1].0.0@ == s[k1].lbl);
                assert(partials[i - 1].k_1_map@[e1].0.1@ == s[k1].attr);
                assert(partials[i - 1].k_1_map@[e2].0.0@ == s[k2].lbl);
                assert(partials[i - 1].k_1_map@[e2].0.1@ == s[k2].attr);
                assert(!(partials[i - 1].k_1_map@[e1].0.0@ == partials[i - 1].k_1_map@[e2].0.0@
                    && partials[i - 1].k_1_map@[e1].0.1@ == partials[i - 1].k_1_map@[e2].0.1@));
            } else {
                assert(prefix[k1] == s[k1]);
                assert(entries[k2 - prefix.len()] == s[k2]);
                assert(s[k2].auth == partials[i - 1].auth@);
                let p = choose|p: int|
                    0 <= p < i - 1 && (#[trigger] prefix[k1]).auth == partials[p].auth@;
                assert(partials[p].auth@ != partials[i - 1].auth@);
            }
        }
    }
}

/// A ciphertext: four parallel rows of group elements, one slot per policy
/// leaf, index-aligned with the policy that produced it.
pub struct Ciphertext {
    /// Per leaf: the masking share blinded under the leaf's identity line.
    pub c_1_vec: Vec<H>,
    /// Per leaf: the leaf's label line at its value's point, blinded.
    pub c_2_vec: Vec<G>,
    /// Per leaf: the payload share blinded under the session-key line.
    pub c_3_vec: Vec<H>,
    /// Per leaf: the blinding exponent itself in the second group.
    pub c_4_vec: Vec<H>,
}

impl Ciphertext {
    /// All four rows have one slot per leaf of the policy.
    pub open spec fn matches(self, p: Policy) -> bool {
        &&& self.c_1_vec@.len() == p.spec_leaves().len()
        &&& self.c_2_vec@.len() == p.spec_leaves().len()
        &&& self.c_3_vec@.len() == p.spec_leaves().len()
        &&& self.c_4_vec@.len() == p.spec_leaves().len()
    }
}

/// Some entry of the list carries the view.
pub open spec fn view_in(s: Seq<UserAttribute>, v: AttrView) -> bool {
    exists|i: int| 0 <= i < s.len() && (#[trigger] s[i])@ == v
}

/// Proves that appending keeps every view that was present.
pub proof fn lemma_view_in_push(s: Seq<UserAttribute>, x: UserAttribute, v: AttrView)
    requires
        view_in(s, v),
    ensures
        view_in(s.push(x), v),
{
    let i = choose|i: int| 0 <= i < s.len() && (#[trigger] s[i])@ == v;
    assert(s.push(x)[i] == s[i]);
}

/// Whether some entry of the list carries the same triple as `ua`.
fn contains_view(entries: &Vec<UserAttribute>, ua: &UserAttribute) -> (r: bool)
    ensures
        r == view_in(entries@, ua@),
{
    let m = entries.len();
    let mut j: usize = 0;
    while j < m
        invariant
            j <= m,
            m == entries@.len(),
            forall|a: int| 0 <= a < j ==> (#[trigger] entries@[a])@ != ua@,
        decreases m - j,
    {
        if entries[j].auth == ua.auth && entries[j].lbl == ua.lbl && entries[j].attr == ua.attr {
            proof {
                assert(entries@[j as int]@ == ua@);
            }
            return true;
        }
        j = j + 1;
    }
    false
}

/// The key-side index: the distinct attributes of a user's key in a stable
/// order, so that per-attribute key material can live in plain rows.
pub struct Iota {
    /// The distinct attributes, in first appearance order.
    pub entries: Vec<UserAttribute>,
}

impl Iota {
    /// No attribute appears twice.
    pub open spec fn wf(self) -> bool {
        forall|i: int, j: int|
            0 <= i < j < self.entries@.len() ==> self.entries@[i]@ != self.entries@[j]@
    }

    /// The index holds the triple.
    pub open spec fn spec_has(self, v: AttrView) -> bool {
        view_in(self.entries@, v)
    }

    /// How many distinct attributes the index holds.
    pub open spec fn spec_len(self) -> int {
        self.entries@.len() as int
    }

    /// Builds the index of a user's attributes: each distinct triple once,
    /// in first appearance order.
    pub fn new(user_attrs: &Vec<UserAttribute>) -> (r: Iota)
        ensures
            r.wf(),
            forall|v: AttrView|
                #[trigger] r.spec_has(v) <==> crate::policy::holds_triple(
                    crate::policy::views_of(user_attrs@),
                    v.auth,
                    v.lbl,
                    v.attr,
                ),
    {
        let mut entries: Vec<UserAttribute> = Vec::new();
        let n = user_attrs.len();
        let mut i: usize = 0;
        while i < n
            invariant
                i <= n,
                n == user_attrs@.len(),
                forall|a: int, b: int| 0 <= a < b < entries@.len() ==> entries@[a]@ != entries@[b]@,
                forall|a: int|
                    0 <= a < entries@.len() ==> view_in(user_attrs@, (#[trigger] entries@[a])@),
                forall|k: int| 0 <= k < i ==> view_in(entries@, (#[trigger] user_attrs@[k])@),
            decreases n - i,
        {
            let ua = &user_attrs[i];
            let found = contains_view(&entries, ua);
            let ghost before = entries@;
            if !found {
                let dup = ua.duplicate();
                let ghost dupval = dup;
                entries.push(dup);
                proof {
                    assert(entries@ == before.push(dupval));
                    assert(entries@[entries@.len() - 1]@ == ua@);
                }
            }
            proof {
                assert forall|a: int, b: int|
                    0 <= a < b < entries@.len() implies (#[trigger] entries@[a])@
                    != (#[trigger] entries@[b])@ by {
                    if b < before.len() {
                        assert(entries@[a] == before[a] && entries@[b] == before[b]);
                    } else if !found {
                        assert(entries@[a] == before[a]);
                        assert(entries@[b]@ == ua@);
                    }
                }
                assert forall|a: int|
                    0 <= a < entries@.len() implies view_in(
                    user_attrs@,
                    (#[trigger] entries@[a])@,
                ) by {
                    if a < before.len() {
                        assert(entries@[a] == before[a]);
                    } else {
                        assert(entries@[a]@ == user_attrs@[i as int]@);
                    }
                }
                assert forall|k: int|
                    0 <= k < i + 1 implies view_in(entries@, (#[trigger] user_attrs@[k])@) by {
                    if k < i {
                        if found {
                            assert(entries@ == before);
                        } else {
                            lemma_view_in_push(before, entries@[entries@.len() - 1], user_attrs@[k]@);
                        }
                    } else {
                        if found {
                            if !view_in(entries@, ua@) {
                                assert(false);
                            }
                        } else {
                            assert(entries@[entries@.len() - 1]@ == user_attrs@[k]@);
                        }
                    }
                }
            }
            i = i + 1;
        }
        proof {
            let vs = crate::policy::views_of(user_attrs@);
            let iota = Iota { entries: entries };
            assert forall|v: AttrView|
                #[trigger] iota.spec_has(v) <==> crate::policy::holds_triple(
                    vs,
                    v.auth,
                    v.lbl,
                    v.attr,
                ) by {
                if iota.spec_has(v) {
                    let a = choose|a: int|
                        0 <= a < entries@.len() && (#[trigger] entries@[a])@ == v;
                    assert(view_in(user_attrs@, entries@[a]@));
                    let k = choose|k: int|
                        0 <= k < user_attrs@.len() && (#[trigger] user_attrs@[k])@ == v;
                    assert(vs[k] == user_attrs@[k]@);
                    assert(vs[k].auth == v.auth && vs[k].lbl == v.lbl && vs[k].attr == v.attr);
                }
                if crate::policy::holds_triple(vs, v.auth, v.lbl, v.attr) {
                    let k = choose|k: int|
                        0 <= k < vs.len() && (#[trigger] vs[k]).auth == v.auth && vs[k].lbl
                            == v.lbl && vs[k].attr == v.attr;
                    assert(vs[k] == user_attrs@[k]@);
                    assert(user_attrs@[k]@ == v);
                    assert(view_in(entries@, user_attrs@[k]@));
                    let a = choose|a: int|
                        0 <= a < entries@.len() && (#[trigger] entries@[a])@ == user_attrs@[k]@;
                    assert(entries@[a]@ == v);
                }
            }
        }
        Iota { entries }
    }

    /// How many distinct attributes the index holds.
    pub fn len(&self) -> (r: usize)
        ensures
            r as int == self.spec_len(),
    {
        self.entries.len()
    }

    /// The stable position of the triple in the index, or nothing when the
    /// index does not hold the triple.
    pub fn try_get(&self, auth: &String, lbl: &String, attr: &String) -> (r: Option<usize>)
        ensures
            match r {
                Some(i) => i < self.spec_len() && self.entries@[i as int]@ == (AttrView {
                    auth: auth@,
                    lbl: lbl@,
                    attr: attr@,
                }),
                None => !self.spec_has(AttrView { auth: auth@, lbl: lbl@, attr: attr@ }),
            },
    {
        let n = self.entries.len();
        let mut i: usize = 0;
        while i < n
            invariant
                i <= n,
                n == self.entries@.len(),
                forall|j: int|
                    0 <= j < i ==> (#[trigger] self.entries@[j])@ != (AttrView {
                        auth: auth@,
                        lbl: lbl@,
                        attr: attr@,
                    }),
            decreases n - i,
        {
            let e = &self.entries[i];
            if e.auth == *auth && e.lbl == *lbl && e.attr == *attr {
                proof {
                    assert(self.entries@[i as int]@ =~= (AttrView {
                        auth: auth@,
                        lbl: lbl@,
                        attr: attr@,
                    }));
                }
                return Some(i);
            }
            i = i + 1;
        }
        None
    }

    /// The stable position of the triple in the index.
    pub fn get(&self, auth: &String, lbl: &String, attr: &String) -> (r: usize)
        requires
            self.spec_has(AttrView { auth: auth@, lbl: lbl@, attr: attr@ }),
        ensures
            r < self.spec_len(),
            self.entries@[r as int]@ == (AttrView { auth: auth@, lbl: lbl@, attr: attr@ }),
    {
        let n = self.entries.len();
        let mut i: usize = 0;
        while i < n
            invariant
                i <= n,
                n == self.entries@.len(),
                self.spec_has(AttrView { auth: auth@, lbl: lbl@, attr: attr@ }),
                forall|j: int|
                    0 <= j < i ==> self.entries@[j]@ != (AttrView {
                        auth: auth@,
                        lbl: lbl@,
                        attr: attr@,
                    }),
            decreases n - i,
        {
            let e = &self.entries[i];
            if e.auth == *auth && e.lbl == *lbl && e.attr == *attr {
                return i;
            }
            i = i + 1;
        }
        proof {
            assert(false);
        }
        0
    }
}

/// Whether some representative carries the same triple as `ua`.
fn rep_contains(reps: &Vec<(UserAttribute, usize)>, ua: &UserAttribute) -> (r: bool)
    ensures
        r == exists|k: int| 0 <= k < reps@.len() && (#[trigger] reps@[k]).0@ == ua@,
{
    let m = reps.len();
    let mut k: usize = 0;
    while k < m
        invariant
            k <= m,
            m == reps@.len(),
            forall|a: int| 0 <= a < k ==> (#[trigger] reps@[a]).0@ != ua@,
        decreases m - k,
    {
        let e = &reps[k].0;
        if e.auth == ua.auth && e.lbl == ua.lbl && e.attr == ua.attr {
            proof {
                assert(reps@[k as int].0@ == ua@);
            }
            return true;
        }
        k = k + 1;
    }
    false
}

/// The ciphertext-side index: maps each distinct leaf triple of a policy to
/// a representative leaf index, shared by all leaves that test the same
/// triple; what lets a decryption treat such leaves as one class.
pub struct Tau {
    /// Per distinct triple: the triple and the index of its first leaf.
    pub reps: Vec<(UserAttribute, usize)>,
}

impl Tau {
    /// Some representative carries the triple.
    pub open spec fn spec_has_triple(self, v: AttrView) -> bool {
        exists|k: int| 0 <= k < self.reps@.len() && (#[trigger] self.reps@[k]).0@ == v
    }

    /// Some representative carries the triple and points no later than `j`.
    pub open spec fn spec_has_rep_le(self, v: AttrView, j: int) -> bool {
        exists|k: int|
            0 <= k < self.reps@.len() && (#[trigger] self.reps@[k]).0@ == v && self.reps@[k].1
                <= j
    }

    /// The representative index of the triple, where the index holds it.
    pub open spec fn spec_is_tilde(self, v: AttrView, r: int) -> bool {
        exists|k: int|
            0 <= k < self.reps@.len() && (#[trigger] self.reps@[k]).0@ == v && self.reps@[k].1
                == r
    }

    /// The index belongs to the policy: every representative points at a
    /// leaf carrying its triple, every leaf's triple is represented no
    /// later than the leaf itself, and no triple twice.
    pub open spec fn matches(self, p: Policy) -> bool {
        &&& forall|k: int|
            0 <= k < self.reps@.len() ==> (#[trigger] self.reps@[k]).1 < p.spec_leaves().len()
                && p.spec_leaves()[self.reps@[k].1 as int].0@ == self.reps@[k].0@
        &&& forall|j: int|
            0 <= j < p.spec_leaves().len() ==> self.spec_has_rep_le(
                (#[trigger] p.spec_leaves()[j]).0@,
                j,
            )
        &&& forall|k1: int, k2: int|
            0 <= k1 < k2 < self.reps@.len() ==> self.reps@[k1].0@ != self.reps@[k2].0@
    }

    /// Builds the index of a policy: each distinct leaf triple mapped to
    /// its first leaf.
    pub fn new(policy: &Policy) -> (r: Tau)
        ensures
            r.matches(*policy),
    {
        let mut reps: Vec<(UserAttribute, usize)> = Vec::new();
        let ghost mut rep_of: Map<int, int> = Map::empty();
        let n = policy.len();
        let mut j: usize = 0;
        while j < n
            invariant
                j <= n,
                n == policy.spec_leaves().len(),
                forall|k: int|
                    0 <= k < reps@.len() ==> (#[trigger] reps@[k]).1 < j
                        && policy.spec_leaves()[reps@[k].1 as int].0@ == reps@[k].0@,
                forall|i: int|
                    0 <= i < j ==> 0 <= #[trigger] rep_of[i] < reps@.len()
                        && reps@[rep_of[i]].0@ == policy.spec_leaves()[i].0@
                        && reps@[rep_of[i]].1 <= i,
                forall|k1: int, k2: int|
                    0 <= k1 < k2 < reps@.len() ==> reps@[k1].0@ != reps@[k2].0@,
            decreases n - j,
        {
            let (ua, _) = policy.get(j);
            let found = rep_contains(&reps, &ua);
            let ghost before = reps@;
            let ghost uav = ua@;
            if found {
                proof {
                    let k = choose|k: int|
                        0 <= k < reps@.len() && (#[trigger] reps@[k]).0@ == uav;
                    rep_of = rep_of.insert(j as int, k);
                    assert(reps@[rep_of[j as int]].0@ == policy.spec_leaves()[j as int].0@);
                    assert(reps@[rep_of[j as int]].1 <= j);
                }
            } else {
                let ghost pushed = (ua, j);
                reps.push((ua, j));
                proof {
                    assert(reps@ == before.push(pushed));
                    rep_of = rep_of.insert(j as int, reps@.len() - 1);
                    assert(reps@[reps@.len() - 1].0@ == policy.spec_leaves()[j as int].0@);
                    assert(reps@[reps@.len() - 1].1 == j);
                    assert forall|k1: int, k2: int|
                        0 <= k1 < k2 < reps@.len() implies reps@[k1].0@ != reps@[k2].0@ by {
                        if k2 < before.len() {
                            assert(reps@[k1] == before[k1] && reps@[k2] == before[k2]);
                        } else {
                            assert(reps@[k1] == before[k1]);
                            assert(reps@[k2].0@ == uav);
                        }
                    }
                }
            }
            proof {
                assert forall|i: int|
                    0 <= i < j + 1 implies 0 <= #[trigger] rep_of[i] < reps@.len()
                        && reps@[rep_of[i]].0@ == policy.spec_leaves()[i].0@
                        && reps@[rep_of[i]].1 <= i by {
                    if i < j {
                        assert(rep_of[i] == rep_of.remove(j as int)[i]);
                        assert(0 <= rep_of[i] < before.len());
                        assert(reps@[rep_of[i]] == before[rep_of[i]]);
                    }
                }
            }
            j = j + 1;
        }
        proof {
        let t = Tau { reps: reps };
        assert(j == n);
        assert(t.matches(*policy)) by {
            assert forall|j2: int|
                0 <= j2 < policy.spec_leaves().len() implies t.spec_has_rep_le(
                (#[trigger] policy.spec_leaves()[j2]).0@,
                j2,
            ) by {
                let k0 = rep_of[j2];
                assert(0 <= k0 < t.reps@.len() && t.reps@[k0].0@ == policy.spec_leaves()[j2].0@
                    && t.reps@[k0].1 <= j2);
            }
            assert forall|k: int|
                0 <= k < t.reps@.len() implies (#[trigger] t.reps@[k]).1
                < policy.spec_leaves().len() && policy.spec_leaves()[t.reps@[k].1 as int].0@
                == t.reps@[k].0@ by {
                assert(reps@[k].1 < j);
            }
            assert forall|k1: int, k2: int|
                0 <= k1 < k2 < t.reps@.len() implies t.reps@[k1].0@ != t.reps@[k2].0@ by {
                assert(reps@[k1].0@ != reps@[k2].0@);
            }
        }
        }
        Tau { reps }
    }

    /// Proves that a triple represented no later than some leaf is
    /// represented at all.
    pub proof fn lemma_rep_le_implies_triple(self, v: AttrView, j: int)
        requires
            self.spec_has_rep_le(v, j),
        ensures
            self.spec_has_triple(v),
    {
        let k = choose|k: int|
            0 <= k < self.reps@.len() && (#[trigger] self.reps@[k]).0@ == v && self.reps@[k].1
                <= j;
        assert(self.reps@[k].0@ == v);
    }

    /// Proves that the representative of a triple points no later than any
    /// leaf the triple is represented for.
    pub proof fn lemma_tilde_le(self, v: AttrView, j: int, r: int)
        requires
            self.spec_is_tilde(v, r),
            self.spec_has_rep_le(v, j),
            forall|k1: int, k2: int|
                0 <= k1 < k2 < self.reps@.len() ==> (#[trigger] self.reps@[k1]).0@
                    != (#[trigger] self.reps@[k2]).0@,
        ensures
            r <= j,
    {
        let k1 = choose|k: int|
            0 <= k < self.reps@.len() && (#[trigger] self.reps@[k]).0@ == v && self.reps@[k].1
                == r;
        let k2 = choose|k: int|
            0 <= k < self.reps@.len() && (#[trigger] self.reps@[k]).0@ == v && self.reps@[k].1
                <= j;
        if k1 != k2 {
            assert(self.reps@[k1].0@ != self.reps@[k2].0@);
        }
    }

    /// Proves that a triple has at most one representative index.
    pub proof fn lemma_tilde_unique(self, v: AttrView, r1: int, r2: int)
        requires
            self.spec_is_tilde(v, r1),
            self.spec_is_tilde(v, r2),
            forall|k1: int, k2: int|
                0 <= k1 < k2 < self.reps@.len() ==> (#[trigger] self.reps@[k1]).0@
                    != (#[trigger] self.reps@[k2]).0@,
        ensures
            r1 == r2,
    {
        let k1 = choose|k: int|
            0 <= k < self.reps@.len() && (#[trigger] self.reps@[k]).0@ == v && self.reps@[k].1
                == r1;
        let k2 = choose|k: int|
            0 <= k < self.reps@.len() && (#[trigger] self.reps@[k]).0@ == v && self.reps@[k].1
                == r2;
        if k1 != k2 {
            assert(self.reps@[k1].0@ != self.reps@[k2].0@);
        }
    }

    /// The representative leaf index of the triple.
    pub fn get_tilde(&self, auth: &String, lbl: &String, attr: &String) -> (r: usize)
        requires
            self.spec_has_triple(AttrView { auth: auth@, lbl: lbl@, attr: attr@ }),
        ensures
            self.spec_is_tilde(AttrView { auth: auth@, lbl: lbl@, attr: attr@ }, r as int),
    {
        let n = self.reps.len();
        let mut i: usize = 0;
        while i < n
            invariant
                i <= n,
                n == self.reps@.len(),
                self.spec_has_triple(AttrView { auth: auth@, lbl: lbl@, attr: attr@ }),
                forall|j: int|
                    0 <= j < i ==> (#[trigger] self.reps@[j]).0@ != (AttrView {
                        auth: auth@,
                        lbl: lbl@,
                        attr: attr@,
                    }),
            decreases n - i,
        {
            let e = &self.reps[i].0;
            if e.auth == *auth && e.lbl == *lbl && e.attr == *attr {
                proof {
                    assert(self.reps@[i as int].0@ == (AttrView {
                        auth: auth@,
                        lbl: lbl@,
                        attr: attr@,
                    }));
                }
                return self.reps[i].1;
            }
            i = i + 1;
        }
        proof {
            assert(false);
        }
        0
    }
}

/// The left fold of the second group's operation over the rows at the
/// given slots, from the given start.
pub open spec fn h_fold(rows: Seq<H>, idxs: Seq<usize>, acc: H) -> H
    decreases idxs.len(),
{
    if idxs.len() == 0 {
        acc
    } else {
        h_fold(rows, idxs.drop_first(), h_sum_op(acc, rows[idxs[0] as int]))
    }
}

/// The left fold of the first group's operation over the rows at the
/// given slots, from the given start.
pub open spec fn g_fold(rows: Seq<G>, idxs: Seq<usize>, acc: G) -> G
    decreases idxs.len(),
{
    if idxs.len() == 0 {
        acc
    } else {
        g_fold(rows, idxs.drop_first(), g_sum_op(acc, rows[idxs[0] as int]))
    }
}

/// Proves that extending the slot list by one extends the fold by one
/// group operation.
pub proof fn lemma_h_fold_push(rows: Seq<H>, idxs: Seq<usize>, acc: H, x: usize)
    ensures
        h_fold(rows, idxs.push(x), acc) == h_sum_op(
            h_fold(rows, idxs, acc),
            rows[x as int],
        ),
    decreases idxs.len(),
{
    if idxs.len() == 0 {
        assert(idxs.push(x)[0] == x);
        assert(idxs.push(x).drop_first() =~= Seq::<usize>::empty());
        assert(h_fold(rows, Seq::<usize>::empty(), h_sum_op(acc, rows[x as int]))
            == h_sum_op(acc, rows[x as int]));
        assert(h_fold(rows, idxs.push(x), acc) == h_sum_op(acc, rows[x as int]));
        assert(h_fold(rows, idxs, acc) == acc);
    } else {
        assert(idxs.push(x)[0] == idxs[0]);
        assert(idxs.push(x).drop_first() =~= idxs.drop_first().push(x));
        lemma_h_fold_push(rows, idxs.drop_first(), h_sum_op(acc, rows[idxs[0] as int]), x);
        assert(h_fold(rows, idxs.push(x), acc) == h_fold(
            rows,
            idxs.drop_first().push(x),
            h_sum_op(acc, rows[idxs[0] as int]),
        ));
        assert(h_fold(rows, idxs, acc) == h_fold(
            rows,
            idxs.drop_first(),
            h_sum_op(acc, rows[idxs[0] as int]),
        ));
    }
}

/// Proves that extending the slot list by one extends the fold by one
/// group operation.
pub proof fn lemma_g_fold_push(rows: Seq<G>, idxs: Seq<usize>, acc: G, x: usize)
    ensures
        g_fold(rows, idxs.push(x), acc) == g_sum_op(
            g_fold(rows, idxs, acc),
            rows[x as int],
        ),
    decreases idxs.len(),
{
    if idxs.len() == 0 {
        assert(idxs.push(x)[0] == x);
        assert(idxs.push(x).drop_first() =~= Seq::<usize>::empty());
        assert(g_fold(rows, Seq::<usize>::empty(), g_sum_op(acc, rows[x as int]))
            == g_sum_op(acc, rows[x as int]));
        assert(g_fold(rows, idxs.push(x), acc) == g_sum_op(acc, rows[x as int]));
        assert(g_fold(rows, idxs, acc) == acc);
    } else {
        assert(idxs.push(x)[0] == idxs[0]);
        assert(idxs.push(x).drop_first() =~= idxs.drop_first().push(x));
        lemma_g_fold_push(rows, idxs.drop_first(), g_sum_op(acc, rows[idxs[0] as int]), x);
        assert(g_fold(rows, idxs.push(x), acc) == g_fold(
            rows,
            idxs.drop_first().push(x),
            g_sum_op(acc, rows[idxs[0] as int]),
        ));
        assert(g_fold(rows, idxs, acc) == g_fold(
            rows,
            idxs.drop_first(),
            g_sum_op(acc, rows[idxs[0] as int]),
        ));
    }
}

/// Sums the rows of the second group at the given slots: the fold of the
/// group operation from the identity.
pub fn sum_h(rows: &Vec<H>, idxs: &Vec<usize>) -> (r: H)
    requires
        forall|m: int| 0 <= m < idxs@.len() ==> (#[trigger] idxs@[m]) < rows@.len(),
    ensures
        r == h_fold(rows@, idxs@, h_zero_val()),
{
    let mut acc = H::zero();
    let n = idxs.len();
    let mut i: usize = 0;
    while i < n
        invariant
            i <= n,
            n == idxs@.len(),
            forall|m: int| 0 <= m < n ==> (#[trigger] idxs@[m]) < rows@.len(),
            acc == h_fold(rows@, idxs@.take(i as int), h_zero_val()),
        decreases n - i,
    {
        proof {
            lemma_h_fold_push(rows@, idxs@.take(i as int), h_zero_val(), idxs@[i as int]);
            assert(idxs@.take(i as int).push(idxs@[i as int]) =~= idxs@.take(i as int + 1));
        }
        acc = acc.add(&rows[idxs[i]]);
        i = i + 1;
    }
    proof {
        assert(idxs@.take(n as int) =~= idxs@);
    }
    acc
}

/// Sums the rows of the first group at the given slots: the fold of the
/// group operation from the identity.
pub fn sum_g(rows: &Vec<G>, idxs: &Vec<usize>) -> (r: G)
    requires
        forall|m: int| 0 <= m < idxs@.len() ==> (#[trigger] idxs@[m]) < rows@.len(),
    ensures
        r == g_fold(rows@, idxs@, g_zero_val()),
{
    let mut acc = G::zero();
    let n = idxs.len();
    let mut i: usize = 0;
    while i < n
        invariant
            i <= n,
            n == idxs@.len(),
            forall|m: int| 0 <= m < n ==> (#[trigger] idxs@[m]) < rows@.len(),
            acc == g_fold(rows@, idxs@.take(i as int), g_zero_val()),
        decreases n - i,
    {
        proof {
            lemma_g_fold_push(rows@, idxs@.take(i as int), g_zero_val(), idxs@[i as int]);
            assert(idxs@.take(i as int).push(idxs@[i as int]) =~= idxs@.take(i as int + 1));
        }
        acc = acc.add(&rows[idxs[i]]);
        i = i + 1;
    }
    proof {
        assert(idxs@.take(n as int) =~= idxs@);
    }
    acc
}

/// The Lagrange-style coefficients of the negation mechanism: one inverse
/// difference per interpolation point. Succeeds exactly when no point
/// equals the excluded point; a collision is the arithmetic degeneracy that
/// decryption must treat as non-satisfaction.
pub fn lagrange_coeffs(x_not: &ScalarField, xs: &Vec<ScalarField>) -> (r: Option<Vec<ScalarField>>)
    ensures
        r.is_some() <==> (forall|i: int| 0 <= i < xs@.len() ==> xs@[i] != *x_not),
        r.is_some() ==> r.unwrap()@.len() == xs@.len(),
{
    let n = xs.len();
    let mut out: Vec<ScalarField> = Vec::new();
    let mut i: usize = 0;
    while i < n
        invariant
            i <= n,
            n == xs@.len(),
            out@.len() == i,
            forall|j: int| 0 <= j < i ==> xs@[j] != *x_not,
        decreases n - i,
    {
        match x_not.inv_diff(&xs[i]) {
            Some(c) => {
                out.push(c);
            },
            None => {
                return None;
            },
        }
        i = i + 1;
    }
    Some(out)
}

/// The signed sum a recipe names over a vector of share variables: the
/// fold of field addition and subtraction from zero, one term per recipe
/// entry.
pub open spec fn signed_combo(recipe: Seq<int>, v: Seq<ScalarField>) -> ScalarField
    decreases recipe.len(),
{
    if recipe.len() == 0 {
        fr_zero_val()
    } else {
        let prev = signed_combo(recipe.drop_last(), v);
        let e = recipe.last();
        if e >= 0 {
            crate::curve::fr_add(prev, v[e])
        } else {
            crate::curve::fr_sub(prev, v[0 - e])
        }
    }
}

/// The per-leaf shares of a secret under a policy: the payload line,
/// seeded with the secret, and the masking line, seeded with zero. Each
/// leaf's share is exactly the signed sum its recipe names over the
/// returned share-variable vectors, whose heads carry the secret and
/// zero; every other variable is freshly drawn.
pub fn compute_shares(
    rng: &mut rand::rngs::StdRng,
    secret: ScalarField,
    policy: &Policy,
) -> (r: (Vec<ScalarField>, Vec<ScalarField>, Ghost<Seq<ScalarField>>, Ghost<Seq<ScalarField>>))
    requires
        policy.wf(),
    ensures
        r.0@.len() == policy.spec_leaves().len(),
        r.1@.len() == policy.spec_leaves().len(),
        r.2@.len() == policy.spec_leaves().len(),
        r.3@.len() == policy.spec_leaves().len(),
        r.2@[0] == secret,
        r.3@[0] == fr_zero_val(),
        forall|i: int|
            0 <= i < policy.spec_leaves().len() ==> (#[trigger] r.0@[i]) == signed_combo(
                policy.spec_splits()[i],
                r.2@,
            ),
        forall|i: int|
            0 <= i < policy.spec_leaves().len() ==> (#[trigger] r.1@[i]) == signed_combo(
                policy.spec_splits()[i],
                r.3@,
            ),
{
    let n = policy.len();
    let splits = policy.share_secret();
    let mut v_vec: Vec<ScalarField> = Vec::new();
    let mut v_prime_vec: Vec<ScalarField> = Vec::new();
    let mut i: usize = 0;
    while i < n
        invariant
            i <= n,
            v_vec@.len() == i,
            v_prime_vec@.len() == i,
        decreases n - i,
    {
        v_vec.push(ScalarField::rand(rng));
        v_prime_vec.push(ScalarField::rand(rng));
        i = i + 1;
    }
    v_vec.set(0, secret);
    v_prime_vec.set(0, ScalarField::zero());
    let ghost gv = v_vec@;
    let ghost gvp = v_prime_vec@;
    let mut lambda_vec: Vec<ScalarField> = Vec::new();
    let mut mu_vec: Vec<ScalarField> = Vec::new();
    let mut j: usize = 0;
    while j < n
        invariant
            j <= n,
            n <= MAX_LEAVES,
            n == policy.spec_leaves().len(),
            n == splits@.len(),
            policy.wf(),
            v_vec@ == gv,
            v_prime_vec@ == gvp,
            gv.len() == n,
            gvp.len() == n,
            lambda_vec@.len() == j,
            mu_vec@.len() == j,
            forall|a: int|
                0 <= a < splits@.len() ==> crate::lsss::int_entries(#[trigger] splits@[a]@)
                    == policy.spec_splits()[a],
            forall|a: int, b: int|
                0 <= a < splits@.len() && 0 <= b < splits@[a]@.len()
                    ==> crate::lsss::entry_in_bound((#[trigger] splits@[a]@[b]) as int, n as int),
            forall|a: int|
                0 <= a < j ==> (#[trigger] lambda_vec@[a]) == signed_combo(
                    policy.spec_splits()[a],
                    gv,
                ),
            forall|a: int|
                0 <= a < j ==> (#[trigger] mu_vec@[a]) == signed_combo(policy.spec_splits()[a], gvp),
        decreases n - j,
    {
        let recipe = &splits[j];
        let m = recipe.len();
        let mut lambda = ScalarField::zero();
        let mut mu = ScalarField::zero();
        let ghost ints = crate::lsss::int_entries(recipe@);
        let mut e: usize = 0;
        while e < m
            invariant
                e <= m,
                j < n,
                n <= MAX_LEAVES,
                m == recipe@.len(),
                recipe == &splits@[j as int],
                n == splits@.len(),
                v_vec@ == gv,
                v_prime_vec@ == gvp,
                gv.len() == n,
                gvp.len() == n,
                ints == crate::lsss::int_entries(recipe@),
                forall|a: int, b: int|
                    0 <= a < splits@.len() && 0 <= b < splits@[a]@.len()
                        ==> crate::lsss::entry_in_bound(
                        (#[trigger] splits@[a]@[b]) as int,
                        n as int,
                    ),
                lambda == signed_combo(ints.take(e as int), gv),
                mu == signed_combo(ints.take(e as int), gvp),
            decreases m - e,
        {
            let entry = recipe[e];
            proof {
                assert(entry == splits@[j as int]@[e as int]);
                assert(crate::lsss::entry_in_bound(splits@[j as int]@[e as int] as int, n as int));
                assert(-(n as int) < (entry as int) && (entry as int) < (n as int));
                assert(ints[e as int] == entry as int);
                assert(ints.take(e as int + 1).drop_last() =~= ints.take(e as int));
                assert(ints.take(e as int + 1).last() == entry as int);
            }
            if entry >= 0 {
                let k = entry as usize;
                lambda = lambda.add(&v_vec[k]);
                mu = mu.add(&v_prime_vec[k]);
            } else {
                proof {
                    assert(entry < 0);
                    assert(-(n as int) < (entry as int));
                }
                let k = (0 - entry) as usize;
                lambda = lambda.sub(&v_vec[k]);
                mu = mu.sub(&v_prime_vec[k]);
            }
            e = e + 1;
        }
        proof {
            assert(ints.take(m as int) =~= ints);
            assert(crate::lsss::int_entries(splits@[j as int]@) == policy.spec_splits()[j as int]);
        }
        lambda_vec.push(lambda);
        mu_vec.push(mu);
        j = j + 1;
    }
    (lambda_vec, mu_vec, Ghost(gv), Ghost(gvp))
}

/// The key holds the triple: some partial key of the authority has an
/// entry for the label and value.
pub open spec fn usk_holds(
    partials: Seq<PartialUSK>,
    a: Seq<char>,
    l: Seq<char>,
    t: Seq<char>,
) -> bool {
    exists|i: int|
        0 <= i < partials.len() && (#[trigger] partials[i]).auth@ == a && alist2_has(
            partials[i].k_1_map@,
            l,
            t,
        )
}

/// The key holds some value under (authority, label): some partial key of
/// the authority has an entry for the label.
pub open spec fn usk_holds_label(partials: Seq<PartialUSK>, a: Seq<char>, l: Seq<char>) -> bool {
    exists|i: int, e: int|
        0 <= i < partials.len() && 0 <= e < partials[i].k_1_map.len() && (#[trigger] partials[i].k_1_map[e]).0.0@
            == l && partials[i].auth@ == a
}

/// Proves that a triple among the key's attribute views is carried by one
/// of its partial keys.
pub proof fn lemma_views_to_usk_holds(
    partials: Seq<PartialUSK>,
    i: int,
    a: Seq<char>,
    l: Seq<char>,
    t: Seq<char>,
)
    requires
        0 <= i <= partials.len(),
        crate::policy::holds_triple(attr_views_up_to(partials, i), a, l, t),
    ensures
        usk_holds(partials, a, l, t),
    decreases i,
{
    let s = attr_views_up_to(partials, i);
    let k = choose|k: int|
        0 <= k < s.len() && (#[trigger] s[k]).auth == a && s[k].lbl == l && s[k].attr == t;
    let prefix = attr_views_up_to(partials, i - 1);
    let entries = partials[i - 1].entry_views();
    assert(s == prefix + entries);
    if k < prefix.len() {
        assert(prefix[k] == s[k]);
        lemma_views_to_usk_holds(partials, i - 1, a, l, t);
    } else {
        let e = k - prefix.len();
        assert(entries[e] == s[k]);
        assert(partials[i - 1].k_1_map@[e].0.0@ == l);
        assert(partials[i - 1].k_1_map@[e].0.1@ == t);
        assert(partials[i - 1].auth@ == a);
        assert(alist2_has(partials[i - 1].k_1_map@, l, t));
    }
}

/// Proves that a label present among the key's attribute views is carried
/// by one of its partial keys.
pub proof fn lemma_views_to_usk_label(
    partials: Seq<PartialUSK>,
    i: int,
    a: Seq<char>,
    l: Seq<char>,
)
    requires
        0 <= i <= partials.len(),
        crate::policy::holds_label(attr_views_up_to(partials, i), a, l),
    ensures
        usk_holds_label(partials, a, l),
    decreases i,
{
    let s = attr_views_up_to(partials, i);
    let k = choose|k: int| 0 <= k < s.len() && (#[trigger] s[k]).auth == a && s[k].lbl == l;
    let prefix = attr_views_up_to(partials, i - 1);
    let entries = partials[i - 1].entry_views();
    assert(s == prefix + entries);
    if k < prefix.len() {
        assert(prefix[k] == s[k]);
        lemma_views_to_usk_label(partials, i - 1, a, l);
    } else {
        let e = k - prefix.len();
        assert(entries[e] == s[k]);
        assert(partials[i - 1].k_1_map[e].0.0@ == l);
        assert(partials[i - 1].auth@ == a);
    }
}

/// No value any partial key of the right authority holds under a negated
/// leaf's label maps to that leaf's excluded interpolation point: the
/// arithmetic degeneracy of the negation mechanism does not occur for
/// this key and policy.
pub open spec fn no_decrypt_collisions(partials: Seq<PartialUSK>, p: Policy) -> bool {
    forall|j: int, i: int|
        0 <= j < p.spec_leaves().len() && (#[trigger] p.spec_leaves()[j]).1 && 0 <= i
            < partials.len() && (#[trigger] partials[i]).auth@ == p.spec_leaves()[j].0@.auth
            ==> no_point_collision(
            partials[i].k_1_map@,
            p.spec_leaves()[j].0@.lbl,
            crate::hashing::attr_point(p.spec_leaves()[j].0@.attr),
        )
}

/// Runs the reconstruction solver and splits the selected leaves into the
/// plain and the negated, as every decryption begins. On success the two
/// lists together are a permutation of the solver's selection, which
/// passes every test and recombines the root secret: the coefficient of
/// leaf variable zero in its recipes is one, of every other variable
/// zero.
pub fn solve_lse(policy: &Policy, user_attrs: &Vec<UserAttribute>) -> (r: Option<
    (Vec<usize>, Vec<usize>, Ghost<Seq<usize>>),
>)
    requires
        policy.wf(),
    ensures
        r.is_some() == policy.spec_sat(crate::policy::views_of(user_attrs@)),
        r.is_some() ==> {
            let (pos, neg, sel) = r.unwrap();
            &&& forall|k: int|
                0 <= k < pos@.len() ==> (#[trigger] pos@[k]) < policy.spec_leaves().len()
                    && !policy.spec_leaves()[pos@[k] as int].1 && crate::policy::leaf_sat(
                    policy.spec_leaves()[pos@[k] as int].0@,
                    false,
                    crate::policy::views_of(user_attrs@),
                )
            &&& forall|k: int|
                0 <= k < neg@.len() ==> (#[trigger] neg@[k]) < policy.spec_leaves().len()
                    && policy.spec_leaves()[neg@[k] as int].1 && crate::policy::leaf_sat(
                    policy.spec_leaves()[neg@[k] as int].0@,
                    true,
                    crate::policy::views_of(user_attrs@),
                )
            &&& (pos@ + neg@).to_multiset() == sel@.to_multiset()
            &&& crate::lsss::sel_ok(
                sel@,
                0,
                policy.spec_leaves().len() as int,
                policy.spec_leaves(),
                crate::policy::views_of(user_attrs@),
            )
            &&& crate::lsss::strictly_increasing(sel@)
            &&& forall|v: int|
                #[trigger] crate::lsss::sel_coeff(policy.spec_splits(), sel@, v) == (if v == 0 {
                    1int
                } else {
                    0int
                })
        },
{
    let eps_all = match policy.reconstruct_secret(user_attrs) {
        Some(e) => e,
        None => {
            return None;
        },
    };
    let ghost sel = eps_all@;
    let mut pos: Vec<usize> = Vec::new();
    let mut neg: Vec<usize> = Vec::new();
    let n = eps_all.len();
    let ghost vs = crate::policy::views_of(user_attrs@);
    proof {
        broadcast use vstd::seq_lib::group_to_multiset_ensures;
        broadcast use vstd::multiset::group_multiset_axioms;

        assert(pos@ =~= Seq::<usize>::empty());
        assert(neg@ =~= Seq::<usize>::empty());
        assert(sel.take(0) =~= Seq::<usize>::empty());
        assert(pos@.to_multiset().add(neg@.to_multiset()) =~= sel.take(0).to_multiset());
    }
    let mut i: usize = 0;
    while i < n
        invariant
            i <= n,
            n == eps_all@.len(),
            eps_all@ == sel,
            policy.wf(),
            crate::lsss::sel_ok(
                eps_all@,
                0,
                policy.spec_leaves().len() as int,
                policy.spec_leaves(),
                vs,
            ),
            vs == crate::policy::views_of(user_attrs@),
            pos@.to_multiset().add(neg@.to_multiset()) == sel.take(i as int).to_multiset(),
            forall|k: int|
                0 <= k < pos@.len() ==> (#[trigger] pos@[k]) < policy.spec_leaves().len()
                    && !policy.spec_leaves()[pos@[k] as int].1 && crate::policy::leaf_sat(
                    policy.spec_leaves()[pos@[k] as int].0@,
                    false,
                    vs,
                ),
            forall|k: int|
                0 <= k < neg@.len() ==> (#[trigger] neg@[k]) < policy.spec_leaves().len()
                    && policy.spec_leaves()[neg@[k] as int].1 && crate::policy::leaf_sat(
                    policy.spec_leaves()[neg@[k] as int].0@,
                    true,
                    vs,
                ),
        decreases n - i,
    {
        let j = eps_all[i];
        let (_, is_neg) = policy.get(j);
        proof {
            broadcast use vstd::seq_lib::group_to_multiset_ensures;
            broadcast use vstd::multiset::group_multiset_axioms;

            assert(sel.take(i as int + 1) =~= sel.take(i as int).push(j));
            assert(sel.take(i as int).push(j).to_multiset() =~= sel.take(
                i as int,
            ).to_multiset().insert(j));
        }
        let ghost pos0 = pos@;
        let ghost neg0 = neg@;
        if is_neg {
            neg.push(j);
            proof {
                broadcast use vstd::seq_lib::group_to_multiset_ensures;
                broadcast use vstd::multiset::group_multiset_axioms;

                assert(neg@.to_multiset() =~= neg0.to_multiset().insert(j));
                assert(pos@.to_multiset().add(neg@.to_multiset()) =~= sel.take(
                    i as int + 1,
                ).to_multiset());
            }
        } else {
            pos.push(j);
            proof {
                broadcast use vstd::seq_lib::group_to_multiset_ensures;
                broadcast use vstd::multiset::group_multiset_axioms;

                assert(pos@.to_multiset() =~= pos0.to_multiset().insert(j));
                assert(pos@.to_multiset().add(neg@.to_multiset()) =~= sel.take(
                    i as int + 1,
                ).to_multiset());
            }
        }
        i = i + 1;
    }
    proof {
        assert(sel.take(n as int) =~= sel);
        vstd::seq_lib::lemma_multiset_commutative(pos@, neg@);
    }
    Some((pos, neg, Ghost(sel)))
}

/// The two pairings every decryption opens with: the payload shares
/// against the generator and the masking shares against the user's
/// identity element, each summed over all selected leaves first. The
/// result is pinned in the named vocabulary: the target-group identity
/// times the two pairings of the summed rows.
pub fn pair_base(
    gid: &str,
    eps_pos: &Vec<usize>,
    eps_not: &Vec<usize>,
    c_1_vec: &Vec<H>,
    c_3_vec: &Vec<H>,
) -> (r: Gt)
    requires
        forall|k: int| 0 <= k < eps_pos@.len() ==> (#[trigger] eps_pos@[k]) < c_1_vec@.len(),
        forall|k: int| 0 <= k < eps_not@.len() ==> (#[trigger] eps_not@[k]) < c_1_vec@.len(),
        c_1_vec@.len() == c_3_vec@.len(),
    ensures
        r == gt_prod(
            gt_prod(
                gt_one_val(),
                base_paired_with(h_fold(c_3_vec@, eps_pos@ + eps_not@, h_zero_val())),
            ),
            pairing_of(
                crate::hashing::gid_point(gid@),
                h_fold(c_1_vec@, eps_pos@ + eps_not@, h_zero_val()),
            ),
        ),
{
    let mut all: Vec<usize> = Vec::new();
    let np = eps_pos.len();
    let mut i: usize = 0;
    while i < np
        invariant
            i <= np,
            np == eps_pos@.len(),
            all@ =~= eps_pos@.take(i as int),
        decreases np - i,
    {
        all.push(eps_pos[i]);
        i = i + 1;
    }
    let nn = eps_not.len();
    let mut i2: usize = 0;
    while i2 < nn
        invariant
            i2 <= nn,
            nn == eps_not@.len(),
            all@ =~= eps_pos@ + eps_not@.take(i2 as int),
        decreases nn - i2,
    {
        all.push(eps_not[i2]);
        i2 = i2 + 1;
    }
    proof {
        assert(all@ =~= eps_pos@ + eps_not@);
    }
    let c_1 = sum_h(&c_1_vec, &all);
    let c_3 = sum_h(&c_3_vec, &all);
    let mut k = Gt::one();
    k = k.mul(&crate::curve::pair_with_base(&c_3));
    k = k.mul(&crate::curve::pairing(&crate::hashing::hash_gid(gid), &c_1));
    k
}

/// Some element of the list carries the text.
pub open spec fn text_in(rs: Seq<String>, t: Seq<char>) -> bool {
    exists|i: int| 0 <= i < rs.len() && (#[trigger] rs[i])@ == t
}

/// The values the key holds under the label, read off the entry list:
/// exactly the values of the entries whose label matches, each at least
/// once.
pub fn attrs_under_label(k_1_map: &Vec<((String, String), G)>, lbl: &String) -> (r: Vec<String>)
    ensures
        forall|i: int| 0 <= i < r@.len() ==> alist2_has(k_1_map@, lbl@, (#[trigger] r@[i])@),
        forall|e: int|
            0 <= e < k_1_map@.len() && (#[trigger] k_1_map@[e]).0.0@ == lbl@ ==> text_in(
                r@,
                k_1_map@[e].0.1@,
            ),
{
    let mut out: Vec<String> = Vec::new();
    let n = k_1_map.len();
    let mut i: usize = 0;
    while i < n
        invariant
            i <= n,
            n == k_1_map@.len(),
            forall|a: int| 0 <= a < out@.len() ==> alist2_has(k_1_map@, lbl@, (#[trigger] out@[a])@),
            forall|e: int|
                0 <= e < i && (#[trigger] k_1_map@[e]).0.0@ == lbl@ ==> text_in(
                    out@,
                    k_1_map@[e].0.1@,
                ),
        decreases n - i,
    {
        let ((l, t), _) = &k_1_map[i];
        let ghost before = out@;
        if *l == *lbl {
            proof {
                assert(k_1_map@[i as int].0.0@ == lbl@ && k_1_map@[i as int].0.1@ == t@);
            }
            out.push(t.clone());
            proof {
                assert(out@[out@.len() - 1]@ == t@);
            }
        }
        proof {
            assert forall|e: int|
                0 <= e < i + 1 && (#[trigger] k_1_map@[e]).0.0@ == lbl@ implies text_in(
                out@,
                k_1_map@[e].0.1@,
            ) by {
                if e < i {
                    let a = choose|a: int|
                        0 <= a < before.len() && (#[trigger] before[a])@ == k_1_map@[e].0.1@;
                    assert(out@[a]@ == k_1_map@[e].0.1@);
                } else {
                    assert(out@[out@.len() - 1]@ == k_1_map@[e].0.1@);
                }
            }
        }
        i = i + 1;
    }
    out
}

/// Adds a group element into the value stored under the key.
pub(crate) fn alist1_add_g(es: &mut Vec<(String, G)>, key: &String, add: &G)
    requires
        alist1_has(old(es)@, key@),
    ensures
        final(es)@.len() == old(es)@.len(),
        forall|i: int| 0 <= i < final(es)@.len() ==> (#[trigger] final(es)@[i]).0 == old(es)@[i].0,
{
    let n = es.len();
    let mut i: usize = 0;
    while i < n
        invariant
            i <= n,
            n == es@.len(),
            es@.len() == old(es)@.len(),
            forall|j: int| 0 <= j < es@.len() ==> (#[trigger] es@[j]).0 == old(es)@[j].0,
        decreases n - i,
    {
        if es[i].0 == *key {
            let updated = es[i].1.add(add);
            let k = es[i].0.clone();
            es.set(i, (k, updated));
            return ;
        }
        i = i + 1;
    }
}

/// No value the entry list holds under the label maps to the excluded
/// interpolation point.
pub open spec fn no_point_collision(
    k_1_map: Seq<((String, String), G)>,
    lbl: Seq<char>,
    x_not: ScalarField,
) -> bool {
    forall|e: int|
        0 <= e < k_1_map.len() && (#[trigger] k_1_map[e]).0.0@ == lbl
            ==> crate::hashing::attr_point(k_1_map[e].0.1@) != x_not
}

/// The negation combination for one label of one partial key: the blinded
/// negated-line elements and blinding exponents of every value held under
/// the label, each weighted by its Lagrange coefficient against the
/// excluded point. Succeeds exactly when no value held under the label
/// maps to the excluded point — the arithmetic degeneracy that decryption
/// must treat as non-satisfaction.
pub fn neg_combo(partial: &PartialUSK, lbl: &String, x_not: &ScalarField) -> (r: Option<(G, H)>)
    requires
        partial.wf(),
    ensures
        r.is_some() <==> no_point_collision(partial.k_1_map@, lbl@, *x_not),
{
    let attrs = attrs_under_label(&partial.k_1_map, lbl);
    let mut xs: Vec<ScalarField> = Vec::new();
    let n = attrs.len();
    let mut i: usize = 0;
    while i < n
        invariant
            i <= n,
            n == attrs@.len(),
            xs@.len() == i,
            forall|j: int|
                0 <= j < i ==> (#[trigger] xs@[j]) == crate::hashing::attr_point(attrs@[j]@),
        decreases n - i,
    {
        xs.push(crate::hashing::hash_attr(&attrs[i]));
        i = i + 1;
    }
    let coeffs = match lagrange_coeffs(x_not, &xs) {
        Some(c) => c,
        None => {
            proof {
                let j = choose|j: int| 0 <= j < xs@.len() && !(xs@[j] != *x_not);
                assert(alist2_has(partial.k_1_map@, lbl@, attrs@[j]@));
                let e = choose|e: int|
                    0 <= e < partial.k_1_map@.len() && partial.k_1_map@[e].0.0@ == lbl@
                        && partial.k_1_map@[e].0.1@ == attrs@[j]@;
                assert(crate::hashing::attr_point(partial.k_1_map@[e].0.1@) == *x_not);
            }
            return None;
        },
    };
    proof {
        assert forall|e: int|
            0 <= e < partial.k_1_map@.len() && (#[trigger] partial.k_1_map@[e]).0.0@ == lbl@
                implies crate::hashing::attr_point(partial.k_1_map@[e].0.1@) != *x_not by {
            assert(text_in(attrs@, partial.k_1_map@[e].0.1@));
            let a = choose|a: int|
                0 <= a < attrs@.len() && (#[trigger] attrs@[a])@ == partial.k_1_map@[e].0.1@;
            assert(xs@[a] == crate::hashing::attr_point(attrs@[a]@));
            assert(xs@[a] != *x_not);
        }
    }
    let mut k_3_acc = G::zero();
    let mut k_5_acc = H::zero();
    let mut i2: usize = 0;
    while i2 < n
        invariant
            i2 <= n,
            n == attrs@.len(),
            coeffs@.len() == n,
            partial.wf(),
            forall|a: int| 0 <= a < n ==> alist2_has(partial.k_1_map@, lbl@, (#[trigger] attrs@[a])@),
        decreases n - i2,
    {
        let t = &attrs[i2];
        let c = &coeffs[i2];
        let k_5_elem = match alist1_get(&partial.k_5_map, t) {
            Some(e) => e,
            None => {
                proof {
                    assert(alist2_has(partial.k_1_map@, lbl@, attrs@[i2 as int]@));
                    assert(false);
                }
                vstd::pervasive::unreached()
            },
        };
        k_5_acc = k_5_acc.add(&k_5_elem.mul(c));
        let k_3_elem = match alist2_get(&partial.k_3_map, lbl, t) {
            Some(e) => e,
            None => {
                proof {
                    assert(alist2_has(partial.k_1_map@, lbl@, attrs@[i2 as int]@));
                    assert(false);
                }
                vstd::pervasive::unreached()
            },
        };
        k_3_acc = k_3_acc.add(&k_3_elem.mul(&c.neg()));
        i2 = i2 + 1;
    }
    Some((k_3_acc, k_5_acc))
}

/// One authority's setup: three fresh secret exponents and their public
/// counterparts — the generator of the second group raised to each secret.
pub fn setup_partial(rng: &mut rand::rngs::StdRng, auth: &str) -> (r: (PartialMSK, PartialMPK))
    ensures
        r.0.auth@ == auth@,
        r.1.auth@ == auth@,
        r.1.a == h_of(r.0.beta),
        r.1.b == h_of(r.0.b),
        r.1.b_not == h_of(r.0.b_not),
{
    let beta = ScalarField::rand(rng);
    let b = ScalarField::rand(rng);
    let b_not = ScalarField::rand(rng);
    let a_pub = H::base(&beta);
    let b_pub = H::base(&b);
    let b_not_pub = H::base(&b_not);
    let msk = PartialMSK { auth: auth.to_owned(), beta, b, b_not };
    let mpk = PartialMPK { auth: auth.to_owned(), a: a_pub, b: b_pub, b_not: b_not_pub };
    (msk, mpk)
}

/// The setup of the whole system: one partial master key pair per
/// authority. Supplying the same authority twice is a configuration error,
/// ruled out by the precondition.
pub fn setup(rng: &mut rand::rngs::StdRng, auths: &Vec<&str>) -> (r: (MSK, MPK))
    requires
        forall|i: int, j: int| 0 <= i < j < auths@.len() ==> auths@[i]@ != auths@[j]@,
    ensures
        r.0.wf(),
        r.1.wf(),
        r.0.partial_keys@.len() == auths@.len(),
        r.1.partial_keys@.len() == auths@.len(),
        forall|i: int| 0 <= i < auths@.len() ==> (#[trigger] r.0.partial_keys@[i]).auth@ == auths@[i]@,
        forall|i: int| 0 <= i < auths@.len() ==> (#[trigger] r.1.partial_keys@[i]).auth@ == auths@[i]@,
        forall|i: int|
            0 <= i < auths@.len() ==> (#[trigger] r.1.partial_keys@[i]).a == h_of(
                r.0.partial_keys@[i].beta,
            ) && r.1.partial_keys@[i].b == h_of(r.0.partial_keys@[i].b)
                && r.1.partial_keys@[i].b_not == h_of(r.0.partial_keys@[i].b_not),
{
    let mut msk: MSK = FullKey::new();
    let mut mpk: MPK = FullKey::new();
    let n = auths.len();
    let mut i: usize = 0;
    while i < n
        invariant
            i <= n,
            n == auths@.len(),
            forall|a: int, b: int| 0 <= a < b < n ==> auths@[a]@ != auths@[b]@,
            msk.wf(),
            mpk.wf(),
            msk.partial_keys@.len() == i,
            mpk.partial_keys@.len() == i,
            forall|a: int| 0 <= a < i ==> (#[trigger] msk.partial_keys@[a]).auth@ == auths@[a]@,
            forall|a: int| 0 <= a < i ==> (#[trigger] mpk.partial_keys@[a]).auth@ == auths@[a]@,
            forall|a: int|
                0 <= a < i ==> (#[trigger] mpk.partial_keys@[a]).a == h_of(
                    msk.partial_keys@[a].beta,
                ) && mpk.partial_keys@[a].b == h_of(msk.partial_keys@[a].b)
                    && mpk.partial_keys@[a].b_not == h_of(msk.partial_keys@[a].b_not),
        decreases n - i,
    {
        let (partial_msk, partial_mpk) = setup_partial(rng, auths[i]);
        proof {
            assert(partial_msk.spec_auth() == auths@[i as int]@);
            assert(partial_mpk.spec_auth() == auths@[i as int]@);
            assert(!msk.spec_has_auth(partial_msk.spec_auth())) by {
                assert forall|a: int| 0 <= a < msk.partial_keys@.len() implies (
                #[trigger] msk.partial_keys@[a]).spec_auth() != auths@[i as int]@ by {
                    assert(msk.partial_keys@[a].auth@ == auths@[a]@);
                    assert(msk.partial_keys@[a].spec_auth() == msk.partial_keys@[a].auth@);
                }
            }
            assert(!mpk.spec_has_auth(partial_mpk.spec_auth())) by {
                assert forall|a: int| 0 <= a < mpk.partial_keys@.len() implies (
                #[trigger] mpk.partial_keys@[a]).spec_auth() != auths@[i as int]@ by {
                    assert(mpk.partial_keys@[a].auth@ == auths@[a]@);
                    assert(mpk.partial_keys@[a].spec_auth() == mpk.partial_keys@[a].auth@);
                }
            }
        }
        msk.add_partial_key(partial_msk);
        mpk.add_partial_key(partial_mpk);
        i = i + 1;
    }
    (msk, mpk)
}

/// Some group carries the attribute's authority as its key and the
/// attribute among its members.
pub open spec fn group_covers(groups: Seq<(String, Vec<UserAttribute>)>, ua: UserAttribute) -> bool {
    exists|g: int|
        0 <= g < groups.len() && (#[trigger] groups[g]).0@ == ua@.auth && view_in(
            groups[g].1@,
            ua@,
        )
}

/// The position of the authority's group, if one exists.
fn find_group(groups: &Vec<(String, Vec<UserAttribute>)>, auth: &String) -> (r: Option<usize>)
    ensures
        match r {
            Some(g) => g < groups@.len() && groups@[g as int].0@ == auth@,
            None => forall|g: int| 0 <= g < groups@.len() ==> (#[trigger] groups@[g]).0@ != auth@,
        },
{
    let ng = groups.len();
    let mut gi: usize = 0;
    while gi < ng
        invariant
            gi <= ng,
            ng == groups@.len(),
            forall|g: int| 0 <= g < gi ==> (#[trigger] groups@[g]).0@ != auth@,
        decreases ng - gi,
    {
        if groups[gi].0 == *auth {
            return Some(gi);
        }
        gi = gi + 1;
    }
    None
}

/// Splits a list of attributes into one group per authority, in first
/// appearance order; every attribute lands in its authority's group.
pub fn group_by_auth(user_attrs: &Vec<UserAttribute>) -> (r: Vec<(String, Vec<UserAttribute>)>)
    ensures
        forall|g1: int, g2: int| 0 <= g1 < g2 < r@.len() ==> r@[g1].0@ != r@[g2].0@,
        forall|g: int| 0 <= g < r@.len() ==> (#[trigger] r@[g]).1@.len() >= 1,
        forall|g: int, m: int|
            0 <= g < r@.len() && 0 <= m < r@[g].1@.len() ==> (#[trigger] r@[g].1@[m])@.auth
                == r@[g].0@ && view_in(user_attrs@, r@[g].1@[m]@),
        forall|k: int| 0 <= k < user_attrs@.len() ==> group_covers(r@, #[trigger] user_attrs@[k]),
{
    let mut groups: Vec<(String, Vec<UserAttribute>)> = Vec::new();
    let ghost mut g_of: Map<int, int> = Map::empty();
    let n = user_attrs.len();
    let mut i: usize = 0;
    while i < n
        invariant
            i <= n,
            n == user_attrs@.len(),
            forall|g1: int, g2: int| 0 <= g1 < g2 < groups@.len() ==> groups@[g1].0@ != groups@[g2].0@,
            forall|g: int| 0 <= g < groups@.len() ==> (#[trigger] groups@[g]).1@.len() >= 1,
            forall|g: int, m: int|
                0 <= g < groups@.len() && 0 <= m < groups@[g].1@.len() ==> (
                #[trigger] groups@[g].1@[m])@.auth == groups@[g].0@ && view_in(
                    user_attrs@,
                    groups@[g].1@[m]@,
                ),
            forall|k: int|
                0 <= k < i ==> 0 <= #[trigger] g_of[k] < groups@.len()
                    && groups@[g_of[k]].0@ == user_attrs@[k]@.auth && view_in(
                    groups@[g_of[k]].1@,
                    user_attrs@[k]@,
                ),
        decreases n - i,
    {
        let ua = &user_attrs[i];
        let found_at = find_group(&groups, &ua.auth);
        let ghost before = groups@;
        let ghost mut gsel: int = 0;
        if let Some(gi) = found_at {
            let (key, mut members) = groups.remove(gi);
            let ghost members0 = members@;
            members.push(ua.duplicate());
            groups.insert(gi, (key, members));
            proof {
                gsel = gi as int;
                assert(groups@.len() == before.len());
                assert forall|g: int|
                    0 <= g < groups@.len() && g != gsel implies groups@[g] == before[g] by {
                    if g < gsel {
                        assert(groups@[g] == before[g]);
                    }
                }
                assert(groups@[gsel].0 == before[gsel].0);
                assert forall|g1: int, g2: int|
                    0 <= g1 < g2 < groups@.len() implies groups@[g1].0@ != groups@[g2].0@ by {
                    assert(groups@[g1].0 == before[g1].0);
                    assert(groups@[g2].0 == before[g2].0);
                }
                assert(groups@[gsel].1@ == members0.push(groups@[gsel].1@.last()));
                assert(groups@[gsel].1@.last()@ == ua@);
                assert(view_in(groups@[gsel].1@, ua@)) by {
                    assert(groups@[gsel].1@[groups@[gsel].1@.len() - 1]@ == ua@);
                }
                assert forall|g: int, m: int|
                    0 <= g < groups@.len() && 0 <= m < groups@[g].1@.len() implies (
                #[trigger] groups@[g].1@[m])@.auth == groups@[g].0@ && view_in(
                    user_attrs@,
                    groups@[g].1@[m]@,
                ) by {
                    if g == gsel && m == groups@[g].1@.len() - 1 {
                        assert(groups@[g].1@[m]@ == ua@);
                        assert(view_in(user_attrs@, ua@)) by {
                            assert(user_attrs@[i as int]@ == ua@);
                        }
                    } else if g == gsel {
                        assert(groups@[g].1@[m] == members0[m]);
                        assert(members0[m] == before[gsel].1@[m]);
                    } else {
                        assert(groups@[g] == before[g]);
                    }
                }
                g_of = g_of.insert(i as int, gsel);
            }
        } else {
            let mut members: Vec<UserAttribute> = Vec::new();
            members.push(ua.duplicate());
            groups.push((ua.auth.clone(), members));
            proof {
                gsel = groups@.len() - 1;
                assert(groups@.len() == before.len() + 1);
                assert forall|g: int| 0 <= g < before.len() implies groups@[g] == before[g] by {}
                assert(groups@[gsel].0@ == ua@.auth);
                assert forall|g1: int, g2: int|
                    0 <= g1 < g2 < groups@.len() implies groups@[g1].0@ != groups@[g2].0@ by {
                    assert(groups@[g1] == before[g1]);
                    if g2 < before.len() {
                        assert(groups@[g2] == before[g2]);
                    } else {
                        assert(groups@[g2].0@ == ua@.auth);
                        assert(before[g1].0@ != ua@.auth);
                    }
                }
                assert(groups@[gsel].1@.len() == 1);
                assert(groups@[gsel].1@[0]@ == ua@);
                assert(view_in(groups@[gsel].1@, ua@));
                assert forall|g: int, m: int|
                    0 <= g < groups@.len() && 0 <= m < groups@[g].1@.len() implies (
                #[trigger] groups@[g].1@[m])@.auth == groups@[g].0@ && view_in(
                    user_attrs@,
                    groups@[g].1@[m]@,
                ) by {
                    if g == gsel {
                        assert(m == 0);
                        assert(groups@[g].1@[m]@ == ua@);
                        assert(view_in(user_attrs@, ua@)) by {
                            assert(user_attrs@[i as int]@ == ua@);
                        }
                    } else {
                        assert(groups@[g] == before[g]);
                    }
                }
                g_of = g_of.insert(i as int, gsel);
            }
        }
        proof {
            assert forall|k: int|
                0 <= k < i + 1 implies 0 <= #[trigger] g_of[k] < groups@.len()
                    && groups@[g_of[k]].0@ == user_attrs@[k]@.auth && view_in(
                    groups@[g_of[k]].1@,
                    user_attrs@[k]@,
                ) by {
                if k < i {
                    assert(g_of[k] == g_of.remove(i as int)[k]);
                    assert(0 <= g_of[k] < before.len());
                    if g_of[k] == gsel {
                        let m0 = choose|m: int|
                            0 <= m < before[g_of[k]].1@.len() && (#[trigger] before[g_of[k]].1@[m])@
                                == user_attrs@[k]@;
                        assert(groups@[g_of[k]].1@[m0]@ == user_attrs@[k]@);
                    } else {
                        assert(groups@[g_of[k]] == before[g_of[k]]);
                    }
                } else {
                    assert(g_of[k] == gsel);
                    assert(view_in(groups@[gsel].1@, user_attrs@[k]@)) by {
                        assert(ua@ == user_attrs@[k]@);
                    }
                }
            }
        }
        i = i + 1;
    }
    proof {
        assert forall|k: int|
            0 <= k < user_attrs@.len() implies group_covers(groups@, #[trigger] user_attrs@[k]) by {
            let g0 = g_of[k];
            assert(0 <= g0 < groups@.len() && groups@[g0].0@ == user_attrs@[k]@.auth && view_in(
                groups@[g0].1@,
                user_attrs@[k]@,
            ));
        }
    }
    groups
}

/// Proves that a present key stays present when an entry is appended.
pub proof fn lemma_alist1_push<V>(es: Seq<(String, V)>, x: (String, V), k: Seq<char>)
    requires
        alist1_has(es, k),
    ensures
        alist1_has(es.push(x), k),
{
    let i = choose|i: int| 0 <= i < es.len() && es[i].0@ == k;
    assert(es.push(x)[i] == es[i]);
}

/// Proves that a present pair key stays present when an entry is appended.
pub proof fn lemma_alist2_push<V>(
    es: Seq<((String, String), V)>,
    x: ((String, String), V),
    k1: Seq<char>,
    k2: Seq<char>,
)
    requires
        alist2_has(es, k1, k2),
    ensures
        alist2_has(es.push(x), k1, k2),
{
    let i = choose|i: int| 0 <= i < es.len() && es[i].0.0@ == k1 && es[i].0.1@ == k2;
    assert(es.push(x)[i] == es[i]);
}

/// Proves that two association lists with the same keys in the same order
/// hold the same keys.
pub proof fn lemma_alist1_same_keys<V1, V2>(es1: Seq<(String, V1)>, es2: Seq<(String, V2)>)
    requires
        es1.len() == es2.len(),
        forall|i: int| 0 <= i < es1.len() ==> (#[trigger] es1[i]).0 == es2[i].0,
    ensures
        forall|k: Seq<char>| #[trigger] alist1_has(es1, k) == alist1_has(es2, k),
{
    assert forall|k: Seq<char>| #[trigger] alist1_has(es1, k) == alist1_has(es2, k) by {
        if alist1_has(es1, k) {
            let i = choose|i: int| 0 <= i < es1.len() && es1[i].0@ == k;
            assert(es2[i].0@ == k);
        }
        if alist1_has(es2, k) {
            let i = choose|i: int| 0 <= i < es2.len() && es2[i].0@ == k;
            assert(es1[i].0@ == k);
        }
    }
}

/// Proves that an attribute present among a list's views passes the exact
/// triple test of the corresponding view sequence.
pub proof fn lemma_view_in_holds_triple(s: Seq<UserAttribute>, v: AttrView)
    requires
        view_in(s, v),
    ensures
        crate::policy::holds_triple(crate::policy::views_of(s), v.auth, v.lbl, v.attr),
{
    let i = choose|i: int| 0 <= i < s.len() && (#[trigger] s[i])@ == v;
    assert(crate::policy::views_of(s)[i] == v);
}

/// The plain label line of an authority's label at a value's point.
pub open spec fn pos_line_of(auth: Seq<char>, lbl: Seq<char>, attr: Seq<char>) -> G {
    g_sum_op(
        crate::hashing::label_point(auth, lbl, false, 0),
        crate::curve::g_scale(
            crate::hashing::label_point(auth, lbl, false, 1),
            crate::hashing::attr_point(attr),
        ),
    )
}

/// The negated label line of an authority's label at a value's point.
pub open spec fn neg_line_of(auth: Seq<char>, lbl: Seq<char>, attr: Seq<char>) -> G {
    g_sum_op(
        crate::hashing::label_point(auth, lbl, true, 0),
        crate::curve::g_scale(
            crate::hashing::label_point(auth, lbl, true, 1),
            crate::hashing::attr_point(attr),
        ),
    )
}

/// A negation-support key entry is the negated label line at the value's
/// point, blinded by some exponent.
pub open spec fn k_3_entry_equation(entry: ((String, String), G), auth: Seq<char>) -> bool {
    exists|rn: ScalarField|
        entry.1 == #[trigger] crate::curve::g_scale(
            neg_line_of(auth, entry.0.0@, entry.0.1@),
            rn,
        )
}

/// A plain-leaf key entry binds the authority's secrets, the user's
/// identity element and the label line at the value's point, blinded by
/// some exponent.
pub open spec fn k_1_entry_equation(
    entry: ((String, String), G),
    auth: Seq<char>,
    beta: ScalarField,
    b: ScalarField,
    g_gid: G,
) -> bool {
    exists|rr: ScalarField|
        entry.1 == g_sum_op(
            g_sum_op(crate::curve::g_of(beta), crate::curve::g_scale(g_gid, b)),
            #[trigger] crate::curve::g_scale(pos_line_of(auth, entry.0.0@, entry.0.1@), rr),
        )
}

/// One authority's user key: derives, for one group of attributes all
/// under this authority, the full partial key binding them to the user's
/// identity element.
fn keygen_partial(
    rng: &mut rand::rngs::StdRng,
    auth_key: &String,
    members: &Vec<UserAttribute>,
    partial_msk: &PartialMSK,
    g_gid: &G,
) -> (r: PartialUSK)
    requires
        forall|m: int| 0 <= m < members@.len() ==> (#[trigger] members@[m])@.auth == auth_key@,
    ensures
        r.auth@ == auth_key@,
        r.wf(),
        forall|e: int|
            0 <= e < r.k_1_map@.len() ==> k_1_entry_equation(
                #[trigger] r.k_1_map@[e],
                auth_key@,
                partial_msk.beta,
                partial_msk.b,
                *g_gid,
            ),
        forall|e: int|
            0 <= e < r.k_3_map@.len() ==> k_3_entry_equation(#[trigger] r.k_3_map@[e], auth_key@),
        forall|e: int|
            0 <= e < r.k_1_map@.len() ==> view_in(members@, (AttrView {
                auth: auth_key@,
                lbl: (#[trigger] r.k_1_map@[e]).0.0@,
                attr: r.k_1_map@[e].0.1@,
            })),
        forall|m: int|
            0 <= m < members@.len() ==> alist2_has(
                r.k_1_map@,
                (#[trigger] members@[m])@.lbl,
                members@[m]@.attr,
            ),
{
    let base_pos = G::base(&partial_msk.beta).add(&g_gid.mul(&partial_msk.b));
    let base_neg = G::base(&partial_msk.beta).add(&g_gid.mul(&partial_msk.b_not));
    let mut k_1_map: Vec<((String, String), G)> = Vec::new();
    let mut k_2_map: Vec<(String, G)> = Vec::new();
    let mut k_3_map: Vec<((String, String), G)> = Vec::new();
    let mut k_4_map: Vec<(String, H)> = Vec::new();
    let mut k_5_map: Vec<(String, H)> = Vec::new();
    let mut r_map: Vec<(String, ScalarField)> = Vec::new();
    let mut rn_map: Vec<(String, ScalarField)> = Vec::new();
    let nm = members.len();
    let mut mi: usize = 0;
    while mi < nm
        invariant
            mi <= nm,
            nm == members@.len(),
            base_pos == g_sum_op(
                crate::curve::g_of(partial_msk.beta),
                crate::curve::g_scale(*g_gid, partial_msk.b),
            ),
            forall|m: int| 0 <= m < members@.len() ==> (#[trigger] members@[m])@.auth == auth_key@,
            r_map@.len() == k_4_map@.len(),
            forall|e: int| 0 <= e < r_map@.len() ==> (#[trigger] r_map@[e]).0 == k_4_map@[e].0,
            rn_map@.len() == k_5_map@.len(),
            forall|e: int| 0 <= e < rn_map@.len() ==> (#[trigger] rn_map@[e]).0 == k_5_map@[e].0,
            forall|e1: int, e2: int|
                0 <= e1 < e2 < k_1_map@.len() ==> !((#[trigger] k_1_map@[e1]).0.0@ == (
                #[trigger] k_1_map@[e2]).0.0@ && k_1_map@[e1].0.1@ == k_1_map@[e2].0.1@),
            forall|e: int|
                0 <= e < k_1_map@.len() ==> k_1_entry_equation(
                    #[trigger] k_1_map@[e],
                    auth_key@,
                    partial_msk.beta,
                    partial_msk.b,
                    *g_gid,
                ),
            forall|e: int|
                0 <= e < k_3_map@.len() ==> k_3_entry_equation(#[trigger] k_3_map@[e], auth_key@),
            forall|l: Seq<char>, t: Seq<char>|
                #[trigger] alist2_has(k_1_map@, l, t) ==> alist2_has(k_3_map@, l, t),
            forall|l: Seq<char>, t: Seq<char>|
                #[trigger] alist2_has(k_1_map@, l, t) ==> alist1_has(k_2_map@, l),
            forall|l: Seq<char>, t: Seq<char>|
                #[trigger] alist2_has(k_1_map@, l, t) ==> alist1_has(k_4_map@, t) && alist1_has(
                    k_5_map@,
                    t,
                ),
            forall|e: int|
                0 <= e < k_1_map@.len() ==> view_in(members@, (AttrView {
                    auth: auth_key@,
                    lbl: (#[trigger] k_1_map@[e]).0.0@,
                    attr: k_1_map@[e].0.1@,
                })),
            forall|m: int|
                0 <= m < mi ==> alist2_has(
                    k_1_map@,
                    (#[trigger] members@[m])@.lbl,
                    members@[m]@.attr,
                ),
        decreases nm - mi,
    {
        let ua = &members[mi];
        let ghost k1_before = k_1_map@;
        let ghost k2_before = k_2_map@;
        let ghost k3_before = k_3_map@;
        let ghost k4_before = k_4_map@;
        let ghost k5_before = k_5_map@;
        let already = match alist2_get(&k_1_map, &ua.lbl, &ua.attr) {
            Some(_) => true,
            None => false,
        };
        if !already {
            let x_t = crate::hashing::hash_attr(&ua.attr);
            let r_t = match alist1_get(&r_map, &ua.attr) {
                Some(sc) => {
                    proof {
                        lemma_alist1_same_keys(r_map@, k_4_map@);
                    }
                    sc.clone()
                },
                None => {
                    let fresh = ScalarField::rand(rng);
                    r_map.push((ua.attr.clone(), fresh.clone()));
                    k_4_map.push((ua.attr.clone(), H::base(&fresh)));
                    proof {
                        assert(k_4_map@[k_4_map@.len() - 1].0@ == ua@.attr);
                    }
                    fresh
                },
            };
            let rn_t = match alist1_get(&rn_map, &ua.attr) {
                Some(sc) => {
                    proof {
                        lemma_alist1_same_keys(rn_map@, k_5_map@);
                    }
                    sc.clone()
                },
                None => {
                    let fresh = ScalarField::rand(rng);
                    rn_map.push((ua.attr.clone(), fresh.clone()));
                    k_5_map.push((ua.attr.clone(), H::base(&fresh)));
                    proof {
                        assert(k_5_map@[k_5_map@.len() - 1].0@ == ua@.attr);
                    }
                    fresh
                },
            };
            proof {
                assert(alist1_has(k_4_map@, ua@.attr)) by {
                    if alist1_has(k4_before, ua@.attr) {
                        if k_4_map@ =~= k4_before {
                        } else {
                            lemma_alist1_push(
                                k4_before,
                                k_4_map@[k_4_map@.len() - 1],
                                ua@.attr,
                            );
                            assert(k_4_map@ =~= k4_before.push(k_4_map@[k_4_map@.len() - 1]));
                        }
                    }
                }
                assert(alist1_has(k_5_map@, ua@.attr)) by {
                    if alist1_has(k5_before, ua@.attr) {
                        if k_5_map@ =~= k5_before {
                        } else {
                            lemma_alist1_push(
                                k5_before,
                                k_5_map@[k_5_map@.len() - 1],
                                ua@.attr,
                            );
                            assert(k_5_map@ =~= k5_before.push(k_5_map@[k_5_map@.len() - 1]));
                        }
                    }
                }
            }
            let p0 = crate::hashing::hash_lbl(auth_key, &ua.lbl, crate::hashing::HashSign::POS, 0);
            let p1 = crate::hashing::hash_lbl(auth_key, &ua.lbl, crate::hashing::HashSign::POS, 1);
            let pos_line = p0.add(&p1.mul(&x_t));
            let n0 = crate::hashing::hash_lbl(auth_key, &ua.lbl, crate::hashing::HashSign::NEG, 0);
            let n1 = crate::hashing::hash_lbl(auth_key, &ua.lbl, crate::hashing::HashSign::NEG, 1);
            let neg_line = n0.add(&n1.mul(&x_t));
            k_1_map.push(
                ((ua.lbl.clone(), ua.attr.clone()), base_pos.add(&pos_line.mul(&r_t))),
            );
            k_3_map.push(((ua.lbl.clone(), ua.attr.clone()), neg_line.mul(&rn_t)));
            let k_2_term = n1.mul(&rn_t);
            let has_lbl = match alist1_get(&k_2_map, &ua.lbl) {
                Some(_) => true,
                None => false,
            };
            if has_lbl {
                alist1_add_g(&mut k_2_map, &ua.lbl, &k_2_term);
                proof {
                    lemma_alist1_same_keys(k_2_map@, k2_before);
                }
            } else {
                k_2_map.push((ua.lbl.clone(), base_neg.add(&k_2_term)));
            }
            proof {
                assert(k_1_map@ == k1_before.push(k_1_map@[k_1_map@.len() - 1]));
                assert(k_1_map@[k_1_map@.len() - 1].0.0@ == ua@.lbl);
                assert(k_1_map@[k_1_map@.len() - 1].0.1@ == ua@.attr);
                assert(k_1_entry_equation(
                    k_1_map@[k_1_map@.len() - 1],
                    auth_key@,
                    partial_msk.beta,
                    partial_msk.b,
                    *g_gid,
                )) by {
                    let entry = k_1_map@[k_1_map@.len() - 1];
                    assert(pos_line == g_sum_op(
                        crate::hashing::label_point(auth_key@, entry.0.0@, false, 0),
                        crate::curve::g_scale(
                            crate::hashing::label_point(auth_key@, entry.0.0@, false, 1),
                            crate::hashing::attr_point(entry.0.1@),
                        ),
                    ));
                    assert(entry.1 == g_sum_op(
                        g_sum_op(
                            crate::curve::g_of(partial_msk.beta),
                            crate::curve::g_scale(*g_gid, partial_msk.b),
                        ),
                        crate::curve::g_scale(
                            pos_line_of(auth_key@, entry.0.0@, entry.0.1@),
                            r_t,
                        ),
                    ));
                }
                assert forall|e: int|
                    0 <= e < k_1_map@.len() implies k_1_entry_equation(
                    #[trigger] k_1_map@[e],
                    auth_key@,
                    partial_msk.beta,
                    partial_msk.b,
                    *g_gid,
                ) by {
                    if e < k1_before.len() {
                        assert(k_1_map@[e] == k1_before[e]);
                    }
                }
                assert(k_3_entry_equation(k_3_map@[k_3_map@.len() - 1], auth_key@)) by {
                    let entry = k_3_map@[k_3_map@.len() - 1];
                    assert(entry.1 == crate::curve::g_scale(
                        neg_line_of(auth_key@, entry.0.0@, entry.0.1@),
                        rn_t,
                    ));
                }
                assert forall|e: int|
                    0 <= e < k_3_map@.len() implies k_3_entry_equation(
                    #[trigger] k_3_map@[e],
                    auth_key@,
                ) by {
                    if e < k3_before.len() {
                        assert(k_3_map@[e] == k3_before[e]);
                    }
                }
                assert forall|e1: int, e2: int|
                    0 <= e1 < e2 < k_1_map@.len() implies !((#[trigger] k_1_map@[e1]).0.0@ == (
                #[trigger] k_1_map@[e2]).0.0@ && k_1_map@[e1].0.1@ == k_1_map@[e2].0.1@) by {
                    if e2 < k1_before.len() {
                        assert(k_1_map@[e1] == k1_before[e1] && k_1_map@[e2] == k1_before[e2]);
                    } else {
                        assert(k_1_map@[e1] == k1_before[e1]);
                        if k_1_map@[e1].0.0@ == ua@.lbl && k_1_map@[e1].0.1@ == ua@.attr {
                            assert(alist2_has(k1_before, ua@.lbl, ua@.attr));
                            assert(false);
                        }
                    }
                }
                assert(k_3_map@[k_3_map@.len() - 1].0.0@ == ua@.lbl);
                assert(k_3_map@[k_3_map@.len() - 1].0.1@ == ua@.attr);
                assert(alist1_has(k_2_map@, ua@.lbl)) by {
                    if !has_lbl {
                        assert(k_2_map@[k_2_map@.len() - 1].0@ == ua@.lbl);
                    }
                }
                assert forall|l: Seq<char>, t: Seq<char>|
                    #[trigger] alist2_has(k_1_map@, l, t) implies alist2_has(k_3_map@, l, t)
                    && alist1_has(k_2_map@, l) && alist1_has(k_4_map@, t) && alist1_has(
                    k_5_map@,
                    t,
                ) by {
                    let e = choose|e: int|
                        0 <= e < k_1_map@.len() && k_1_map@[e].0.0@ == l && k_1_map@[e].0.1@ == t;
                    if e < k1_before.len() {
                        assert(alist2_has(k1_before, l, t));
                        assert(alist2_has(k3_before, l, t));
                        lemma_alist2_push(k3_before, k_3_map@[k_3_map@.len() - 1], l, t);
                        assert(alist1_has(k2_before, l));
                        if has_lbl {
                        } else {
                            lemma_alist1_push(k2_before, k_2_map@[k_2_map@.len() - 1], l);
                        }
                        assert(alist1_has(k4_before, t) && alist1_has(k5_before, t));
                        if k_4_map@ =~= k4_before {
                        } else {
                            lemma_alist1_push(k4_before, k_4_map@[k_4_map@.len() - 1], t);
                        }
                        if k_5_map@ =~= k5_before {
                        } else {
                            lemma_alist1_push(k5_before, k_5_map@[k_5_map@.len() - 1], t);
                        }
                    } else {
                        assert(l == ua@.lbl && t == ua@.attr);
                        assert(alist2_has(k_3_map@, l, t)) by {
                            assert(k_3_map@[k_3_map@.len() - 1].0.0@ == l);
                        }
                    }
                }
                assert forall|e: int|
                    0 <= e < k_1_map@.len() implies view_in(members@, (AttrView {
                        auth: auth_key@,
                        lbl: (#[trigger] k_1_map@[e]).0.0@,
                        attr: k_1_map@[e].0.1@,
                    })) by {
                    if e < k1_before.len() {
                        assert(k_1_map@[e] == k1_before[e]);
                    } else {
                        assert(view_in(members@, (AttrView {
                            auth: auth_key@,
                            lbl: k_1_map@[e].0.0@,
                            attr: k_1_map@[e].0.1@,
                        }))) by {
                            assert(members@[mi as int]@.auth == auth_key@);
                            assert(members@[mi as int]@.lbl == k_1_map@[e].0.0@);
                            assert(members@[mi as int]@.attr == k_1_map@[e].0.1@);
                            assert(members@[mi as int]@ =~= (AttrView {
                                auth: auth_key@,
                                lbl: k_1_map@[e].0.0@,
                                attr: k_1_map@[e].0.1@,
                            }));
                        }
                    }
                }
            }
        }
        proof {
            assert(alist2_has(k_1_map@, members@[mi as int]@.lbl, members@[mi as int]@.attr)) by {
                if !already {
                    assert(k_1_map@[k_1_map@.len() - 1].0.0@ == ua@.lbl);
                    assert(k_1_map@[k_1_map@.len() - 1].0.1@ == ua@.attr);
                }
            }
            assert forall|m: int|
                0 <= m < mi + 1 implies alist2_has(
                k_1_map@,
                (#[trigger] members@[m])@.lbl,
                members@[m]@.attr,
            ) by {
                if m < mi {
                    if already {
                        assert(k_1_map@ == k1_before);
                    } else {
                        lemma_alist2_push(
                            k1_before,
                            k_1_map@[k_1_map@.len() - 1],
                            members@[m]@.lbl,
                            members@[m]@.attr,
                        );
                        assert(k_1_map@ =~= k1_before.push(k_1_map@[k_1_map@.len() - 1]));
                    }
                }
            }
        }
        mi = mi + 1;
    }
    PartialUSK { auth: auth_key.clone(), k_1_map, k_2_map, k_3_map, k_4_map, k_5_map }
}

/// A user's key for the attributes they hold: one partial key per
/// authority, each binding the user's global identity, every held (label,
/// value) pair, and the negation-support material for every value held
/// under each label. The key holds exactly the attributes that were
/// handed in, each once.
pub fn keygen_common(
    rng: &mut rand::rngs::StdRng,
    gid: &str,
    msk: &MSK,
    user_attrs: &Vec<UserAttribute>,
    _iota: &Iota,
) -> (r: USK)
    requires
        msk.wf(),
        forall|k: int|
            0 <= k < user_attrs@.len() ==> msk.spec_has_auth((#[trigger] user_attrs@[k])@.auth),
    ensures
        r.wf(),
        r.partials_wf(),
        forall|i: int, e: int|
            0 <= i < r.partial_keys@.len() && 0 <= e < r.partial_keys@[i].k_1_map@.len()
                ==> crate::policy::holds_triple(
                crate::policy::views_of(user_attrs@),
                r.partial_keys@[i].auth@,
                (#[trigger] r.partial_keys@[i].k_1_map@[e]).0.0@,
                r.partial_keys@[i].k_1_map@[e].0.1@,
            ),
        forall|i: int, e: int|
            0 <= i < r.partial_keys@.len() && 0 <= e < r.partial_keys@[i].k_1_map@.len()
                ==> k_1_entry_equation(
                #[trigger] r.partial_keys@[i].k_1_map@[e],
                r.partial_keys@[i].auth@,
                msk_slot(*msk, r.partial_keys@[i].auth@).beta,
                msk_slot(*msk, r.partial_keys@[i].auth@).b,
                crate::hashing::gid_point(gid@),
            ),
        forall|i: int, e: int|
            0 <= i < r.partial_keys@.len() && 0 <= e < r.partial_keys@[i].k_3_map@.len()
                ==> k_3_entry_equation(
                #[trigger] r.partial_keys@[i].k_3_map@[e],
                r.partial_keys@[i].auth@,
            ),
        forall|k: int|
            0 <= k < user_attrs@.len() ==> usk_holds(
                r.partial_keys@,
                (#[trigger] user_attrs@[k])@.auth,
                user_attrs@[k]@.lbl,
                user_attrs@[k]@.attr,
            ),
{
    let g_gid = crate::hashing::hash_gid(gid);
    let groups = group_by_auth(user_attrs);
    let mut usk: USK = FullKey::new();
    let ng = groups.len();
    let mut g: usize = 0;
    while g < ng
        invariant
            g <= ng,
            ng == groups@.len(),
            msk.wf(),
            forall|g1: int, g2: int| 0 <= g1 < g2 < ng ==> groups@[g1].0@ != groups@[g2].0@,
            forall|gg: int| 0 <= gg < ng ==> (#[trigger] groups@[gg]).1@.len() >= 1,
            forall|gg: int, m: int|
                0 <= gg < ng && 0 <= m < groups@[gg].1@.len() ==> (#[trigger] groups@[gg].1@[m])@.auth
                    == groups@[gg].0@ && view_in(user_attrs@, groups@[gg].1@[m]@),
            forall|gg: int, m: int|
                0 <= gg < ng && 0 <= m < groups@[gg].1@.len() ==> msk.spec_has_auth(
                    (#[trigger] groups@[gg].1@[m])@.auth,
                ),
            usk.partial_keys@.len() == g,
            g_gid == crate::hashing::gid_point(gid@),
            forall|i: int| 0 <= i < g ==> (#[trigger] usk.partial_keys@[i]).auth@ == groups@[i].0@,
            forall|i: int| 0 <= i < g ==> (#[trigger] usk.partial_keys@[i]).wf(),
            forall|i: int, e: int|
                0 <= i < g && 0 <= e < usk.partial_keys@[i].k_1_map@.len() ==> k_1_entry_equation(
                    #[trigger] usk.partial_keys@[i].k_1_map@[e],
                    usk.partial_keys@[i].auth@,
                    msk_slot(*msk, usk.partial_keys@[i].auth@).beta,
                    msk_slot(*msk, usk.partial_keys@[i].auth@).b,
                    crate::hashing::gid_point(gid@),
                ),
            forall|i: int, e: int|
                0 <= i < g && 0 <= e < usk.partial_keys@[i].k_3_map@.len() ==> k_3_entry_equation(
                    #[trigger] usk.partial_keys@[i].k_3_map@[e],
                    usk.partial_keys@[i].auth@,
                ),
            forall|i: int, e: int|
                0 <= i < g && 0 <= e < usk.partial_keys@[i].k_1_map@.len() ==> view_in(
                    groups@[i].1@,
                    (AttrView {
                        auth: usk.partial_keys@[i].auth@,
                        lbl: (#[trigger] usk.partial_keys@[i].k_1_map@[e]).0.0@,
                        attr: usk.partial_keys@[i].k_1_map@[e].0.1@,
                    }),
                ),
            forall|i: int, m: int|
                0 <= i < g && 0 <= m < groups@[i].1@.len() ==> alist2_has(
                    usk.partial_keys@[i].k_1_map@,
                    (#[trigger] groups@[i].1@[m])@.lbl,
                    groups@[i].1@[m]@.attr,
                ),
        decreases ng - g,
    {
        let (key, members) = &groups[g];
        let partial_msk = match msk.get_partial_key(key.as_str()) {
            Some(p) => p,
            None => {
                proof {
                    assert(groups@[g as int].1@[0]@.auth == key@);
                    assert(msk.spec_has_auth(key@));
                    assert(false);
                }
                vstd::pervasive::unreached()
            },
        };
        proof {
            let i0 = msk_index_of(*msk, key@);
            assert(0 <= i0 < msk.partial_keys@.len() && msk.partial_keys@[i0].auth@ == key@) by {
                assert(msk.spec_has_auth(key@));
            }
            let ip = choose|ip: int|
                0 <= ip < msk.partial_keys@.len() && *partial_msk == msk.partial_keys@[ip]
                    && partial_msk.spec_auth() == key@;
            if i0 != ip {
                assert(msk.partial_keys@[i0].spec_auth() == msk.partial_keys@[ip].spec_auth());
                assert(false);
            }
            assert(*partial_msk == msk_slot(*msk, key@));
        }
        let partial = keygen_partial(rng, key, members, partial_msk, &g_gid);
        proof {
            assert(!usk.spec_has_auth(partial.spec_auth())) by {
                assert forall|i: int|
                    0 <= i < usk.partial_keys@.len() implies (
                #[trigger] usk.partial_keys@[i]).spec_auth() != partial.spec_auth() by {
                    assert(usk.partial_keys@[i].auth@ == groups@[i].0@);
                    assert(partial.auth@ == groups@[g as int].0@);
                }
            }
        }
        let ghost before = usk.partial_keys@;
        usk.add_partial_key(partial);
        proof {
            assert forall|i: int, e: int|
                0 <= i < g + 1 && 0 <= e < usk.partial_keys@[i].k_1_map@.len() implies view_in(
                groups@[i].1@,
                (AttrView {
                    auth: usk.partial_keys@[i].auth@,
                    lbl: (#[trigger] usk.partial_keys@[i].k_1_map@[e]).0.0@,
                    attr: usk.partial_keys@[i].k_1_map@[e].0.1@,
                }),
            ) by {
                if i < g {
                    assert(usk.partial_keys@[i] == before[i]);
                }
            }
            assert forall|i: int, m: int|
                0 <= i < g + 1 && 0 <= m < groups@[i].1@.len() implies alist2_has(
                usk.partial_keys@[i].k_1_map@,
                (#[trigger] groups@[i].1@[m])@.lbl,
                groups@[i].1@[m]@.attr,
            ) by {
                if i < g {
                    assert(usk.partial_keys@[i] == before[i]);
                }
            }
            assert forall|i: int, e: int|
                0 <= i < g + 1 && 0 <= e < usk.partial_keys@[i].k_1_map@.len() implies k_1_entry_equation(
                #[trigger] usk.partial_keys@[i].k_1_map@[e],
                usk.partial_keys@[i].auth@,
                msk_slot(*msk, usk.partial_keys@[i].auth@).beta,
                msk_slot(*msk, usk.partial_keys@[i].auth@).b,
                crate::hashing::gid_point(gid@),
            ) by {
                if i < g {
                    assert(usk.partial_keys@[i] == before[i]);
                }
            }
            assert forall|i: int, e: int|
                0 <= i < g + 1 && 0 <= e < usk.partial_keys@[i].k_3_map@.len() implies k_3_entry_equation(
                #[trigger] usk.partial_keys@[i].k_3_map@[e],
                usk.partial_keys@[i].auth@,
            ) by {
                if i < g {
                    assert(usk.partial_keys@[i] == before[i]);
                }
            }
        }
        g = g + 1;
    }
    proof {
        assert forall|i: int, e: int|
            0 <= i < usk.partial_keys@.len() && 0 <= e < usk.partial_keys@[i].k_1_map@.len()
                implies crate::policy::holds_triple(
            crate::policy::views_of(user_attrs@),
            usk.partial_keys@[i].auth@,
            (#[trigger] usk.partial_keys@[i].k_1_map@[e]).0.0@,
            usk.partial_keys@[i].k_1_map@[e].0.1@,
        ) by {
            let v = AttrView {
                auth: usk.partial_keys@[i].auth@,
                lbl: usk.partial_keys@[i].k_1_map@[e].0.0@,
                attr: usk.partial_keys@[i].k_1_map@[e].0.1@,
            };
            assert(view_in(groups@[i].1@, v));
            let m = choose|m: int| 0 <= m < groups@[i].1@.len() && (#[trigger] groups@[i].1@[m])@ == v;
            assert(view_in(user_attrs@, v));
            lemma_view_in_holds_triple(user_attrs@, v);
        }
        assert forall|k: int|
            0 <= k < user_attrs@.len() implies usk_holds(
            usk.partial_keys@,
            (#[trigger] user_attrs@[k])@.auth,
            user_attrs@[k]@.lbl,
            user_attrs@[k]@.attr,
        ) by {
            assert(group_covers(groups@, user_attrs@[k]));
            let gg = choose|gg: int|
                0 <= gg < groups@.len() && (#[trigger] groups@[gg]).0@ == user_attrs@[k]@.auth
                    && view_in(groups@[gg].1@, user_attrs@[k]@);
            let m = choose|m: int|
                0 <= m < groups@[gg].1@.len() && (#[trigger] groups@[gg].1@[m])@
                    == user_attrs@[k]@;
            assert(alist2_has(
                usk.partial_keys@[gg].k_1_map@,
                groups@[gg].1@[m]@.lbl,
                groups@[gg].1@[m]@.attr,
            ));
            assert(usk.partial_keys@[gg].auth@ == user_attrs@[k]@.auth);
        }
    }
    usk
}

/// Every leaf's authority has a public key.
pub open spec fn mpk_covers(mpk: MPK, p: Policy) -> bool {
    forall|j: int|
        0 <= j < p.spec_leaves().len() ==> mpk.spec_has_auth(
            (#[trigger] p.spec_leaves()[j]).0@.auth,
        )
}

/// The position of the authority's partial master secret.
pub open spec fn msk_index_of(msk: MSK, a: Seq<char>) -> int {
    choose|i: int| 0 <= i < msk.partial_keys@.len() && (#[trigger] msk.partial_keys@[i]).auth@ == a
}

/// The authority's partial master secret.
pub open spec fn msk_slot(msk: MSK, a: Seq<char>) -> PartialMSK {
    msk.partial_keys@[msk_index_of(msk, a)]
}

/// The position of the authority's partial public key.
pub open spec fn mpk_index_of(mpk: MPK, a: Seq<char>) -> int {
    choose|i: int| 0 <= i < mpk.partial_keys@.len() && (#[trigger] mpk.partial_keys@[i]).auth@ == a
}

/// The authority's partial public key.
pub open spec fn mpk_slot(mpk: MPK, a: Seq<char>) -> PartialMPK {
    mpk.partial_keys@[mpk_index_of(mpk, a)]
}

/// What one ciphertext slot holds for its leaf, given the blinding scalar
/// drawn for the slot and the share-variable vectors: the masking share
/// under the leaf's identity line, the leaf's label line at its value's
/// point blinded, the payload share under the session-key line, and the
/// blinding exponent itself.
pub open spec fn slot_equations(
    ct: Ciphertext,
    p: Policy,
    mpk: MPK,
    j: int,
    s_j: ScalarField,
    v: Seq<ScalarField>,
    vp: Seq<ScalarField>,
) -> bool {
    let leaf = p.spec_leaves()[j];
    let auth = leaf.0@.auth;
    let lbl = leaf.0@.lbl;
    let attr = leaf.0@.attr;
    let neg = leaf.1;
    let pm = mpk_slot(mpk, auth);
    &&& ct.c_1_vec@[j] == h_sum_op(
        h_of(signed_combo(p.spec_splits()[j], vp)),
        crate::curve::h_scale(
            if neg {
                pm.b_not
            } else {
                pm.b
            },
            s_j,
        ),
    )
    &&& ct.c_2_vec@[j] == crate::curve::g_scale(
        g_sum_op(
            crate::hashing::label_point(auth, lbl, neg, 0),
            crate::curve::g_scale(
                crate::hashing::label_point(auth, lbl, neg, 1),
                crate::hashing::attr_point(attr),
            ),
        ),
        s_j,
    )
    &&& ct.c_3_vec@[j] == h_sum_op(
        h_of(signed_combo(p.spec_splits()[j], v)),
        crate::curve::h_scale(pm.a, s_j),
    )
    &&& ct.c_4_vec@[j] == h_of(s_j)
}

/// A witness that the session key and ciphertext are one honest
/// encryption outcome: a drawn secret, per-slot blinding scalars and the
/// two share-variable vectors — payload seeded with the secret, masking
/// seeded with zero — under which every slot satisfies the slot equations
/// and the key is the pairing of the generators raised to the secret.
pub open spec fn encrypt_witness(
    k: Gt,
    ct: Ciphertext,
    p: Policy,
    mpk: MPK,
    w: (ScalarField, Seq<ScalarField>, Seq<ScalarField>, Seq<ScalarField>),
) -> bool {
    &&& k == crate::curve::session_key_of(w.0)
    &&& w.1.len() == p.spec_leaves().len()
    &&& w.2.len() == p.spec_leaves().len()
    &&& w.3.len() == p.spec_leaves().len()
    &&& w.2[0] == w.0
    &&& w.3[0] == fr_zero_val()
    &&& forall|j: int|
        0 <= j < p.spec_leaves().len() ==> #[trigger] slot_equations(
            ct,
            p,
            mpk,
            j,
            w.1[j],
            w.2,
            w.3,
        )
}

/// The session key and ciphertext are one honest encryption outcome for
/// some drawn randomness: what every public encryption promises of its
/// result, whatever the draws were.
pub open spec fn encrypt_sound(k: Gt, ct: Ciphertext, p: Policy, mpk: MPK) -> bool {
    exists|w: (ScalarField, Seq<ScalarField>, Seq<ScalarField>, Seq<ScalarField>)|
        #[trigger] encrypt_witness(k, ct, p, mpk, w)
}

/// Produces the ciphertext rows for given per-leaf blinding scalars, and
/// the session key the rows hide: the pairing of the two generators
/// raised to the given secret. Every slot satisfies the slot equations
/// over the returned share-variable vectors, whose heads carry the secret
/// and zero.
pub fn encrypt_rows(
    rng: &mut rand::rngs::StdRng,
    mpk: &MPK,
    policy: &Policy,
    s: ScalarField,
    s_vec: Vec<ScalarField>,
) -> (r: (Gt, Ciphertext, Ghost<Seq<ScalarField>>, Ghost<Seq<ScalarField>>))
    requires
        policy.wf(),
        mpk.wf(),
        mpk_covers(*mpk, *policy),
        s_vec@.len() == policy.spec_leaves().len(),
    ensures
        r.1.matches(*policy),
        r.0 == crate::curve::session_key_of(s),
        r.2@.len() == policy.spec_leaves().len(),
        r.3@.len() == policy.spec_leaves().len(),
        r.2@[0] == s,
        r.3@[0] == fr_zero_val(),
        forall|j: int|
            0 <= j < policy.spec_leaves().len() ==> #[trigger] slot_equations(
                r.1,
                *policy,
                *mpk,
                j,
                s_vec@[j],
                r.2@,
                r.3@,
            ),
{
    let n = policy.len();
    let (lambda_vec, mu_vec, Ghost(gv), Ghost(gvp)) = compute_shares(rng, s.clone(), policy);
    let mut c_1_vec: Vec<H> = Vec::new();
    let mut c_2_vec: Vec<G> = Vec::new();
    let mut c_3_vec: Vec<H> = Vec::new();
    let mut c_4_vec: Vec<H> = Vec::new();
    let mut j: usize = 0;
    while j < n
        invariant
            j <= n,
            n == policy.spec_leaves().len(),
            policy.wf(),
            mpk.wf(),
            mpk_covers(*mpk, *policy),
            s_vec@.len() == n,
            lambda_vec@.len() == n,
            mu_vec@.len() == n,
            gv.len() == n,
            gvp.len() == n,
            forall|a: int|
                0 <= a < n ==> (#[trigger] lambda_vec@[a]) == signed_combo(
                    policy.spec_splits()[a],
                    gv,
                ),
            forall|a: int|
                0 <= a < n ==> (#[trigger] mu_vec@[a]) == signed_combo(
                    policy.spec_splits()[a],
                    gvp,
                ),
            c_1_vec@.len() == j,
            c_2_vec@.len() == j,
            c_3_vec@.len() == j,
            c_4_vec@.len() == j,
            forall|a: int|
                0 <= a < j ==> #[trigger] slot_equations(
                    (Ciphertext { c_1_vec, c_2_vec, c_3_vec, c_4_vec }),
                    *policy,
                    *mpk,
                    a,
                    s_vec@[a],
                    gv,
                    gvp,
                ),
        decreases n - j,
    {
        let (ua, is_neg) = policy.get(j);
        let x_attr = crate::hashing::hash_attr(&ua.attr);
        let pm = match mpk.get_partial_key(ua.auth.as_str()) {
            Some(p) => p,
            None => {
                proof {
                    assert(mpk.spec_has_auth(policy.spec_leaves()[j as int].0@.auth));
                    assert(false);
                }
                vstd::pervasive::unreached()
            },
        };
        proof {
            let i0 = mpk_index_of(*mpk, ua@.auth);
            assert(0 <= i0 < mpk.partial_keys@.len() && mpk.partial_keys@[i0].auth@ == ua@.auth);
            let ip = choose|ip: int|
                0 <= ip < mpk.partial_keys@.len() && *pm == mpk.partial_keys@[ip]
                    && pm.spec_auth() == ua@.auth;
            if i0 != ip {
                assert(mpk.partial_keys@[i0].spec_auth() == mpk.partial_keys@[ip].spec_auth());
                assert(false);
            }
            assert(*pm == mpk_slot(*mpk, ua@.auth));
        }
        let s_j = &s_vec[j];
        let b_line = if is_neg {
            &pm.b_not
        } else {
            &pm.b
        };
        let c_1 = H::base(&mu_vec[j]).add(&b_line.mul(s_j));
        let sign = if is_neg {
            crate::hashing::HashSign::NEG
        } else {
            crate::hashing::HashSign::POS
        };
        let lbl_0 = crate::hashing::hash_lbl(&ua.auth, &ua.lbl, sign, 0);
        let lbl_1 = crate::hashing::hash_lbl(&ua.auth, &ua.lbl, sign, 1);
        let c_2 = lbl_0.add(&lbl_1.mul(&x_attr)).mul(s_j);
        let c_3 = H::base(&lambda_vec[j]).add(&pm.a.mul(s_j));
        let c_4 = H::base(s_j);
        let ghost before = (Ciphertext {
            c_1_vec: c_1_vec,
            c_2_vec: c_2_vec,
            c_3_vec: c_3_vec,
            c_4_vec: c_4_vec,
        });
        c_1_vec.push(c_1);
        c_2_vec.push(c_2);
        c_3_vec.push(c_3);
        c_4_vec.push(c_4);
        proof {
            let now = Ciphertext {
                c_1_vec: c_1_vec,
                c_2_vec: c_2_vec,
                c_3_vec: c_3_vec,
                c_4_vec: c_4_vec,
            };
            assert(slot_equations(now, *policy, *mpk, j as int, s_vec@[j as int], gv, gvp)) by {
                assert(now.c_1_vec@[j as int] == c_1);
                assert(now.c_2_vec@[j as int] == c_2);
                assert(now.c_3_vec@[j as int] == c_3);
                assert(now.c_4_vec@[j as int] == c_4);
                assert((sign == crate::hashing::HashSign::NEG) == is_neg);
            }
            assert forall|a: int|
                0 <= a < j + 1 implies #[trigger] slot_equations(
                now,
                *policy,
                *mpk,
                a,
                s_vec@[a],
                gv,
                gvp,
            ) by {
                if a < j {
                    assert(slot_equations(before, *policy, *mpk, a, s_vec@[a], gv, gvp));
                    assert(now.c_1_vec@[a] == before.c_1_vec@[a]);
                    assert(now.c_2_vec@[a] == before.c_2_vec@[a]);
                    assert(now.c_3_vec@[a] == before.c_3_vec@[a]);
                    assert(now.c_4_vec@[a] == before.c_4_vec@[a]);
                }
            }
        }
        j = j + 1;
    }
    let k = crate::curve::session_key(&s);
    (k, Ciphertext { c_1_vec, c_2_vec, c_3_vec, c_4_vec }, Ghost(gv), Ghost(gvp))
}

/// Encryption with one fresh blinding scalar per leaf: the reference
/// layout, where no two slots share anything.
pub fn encrypt_common(
    rng: &mut rand::rngs::StdRng,
    mpk: &MPK,
    policy: &Policy,
    _tau: &Tau,
) -> (r: (Gt, Ciphertext))
    requires
        policy.wf(),
        mpk.wf(),
        mpk_covers(*mpk, *policy),
    ensures
        r.1.matches(*policy),
        encrypt_sound(r.0, r.1, *policy, *mpk),
{
    let s = ScalarField::rand(rng);
    let n = policy.len();
    let mut s_vec: Vec<ScalarField> = Vec::new();
    let mut j: usize = 0;
    while j < n
        invariant
            j <= n,
            s_vec@.len() == j,
        decreases n - j,
    {
        s_vec.push(ScalarField::rand(rng));
        j = j + 1;
    }
    let ghost gsv = s_vec@;
    let (k, ct, Ghost(gv), Ghost(gvp)) = encrypt_rows(rng, mpk, policy, s, s_vec);
    proof {
        assert(encrypt_witness(k, ct, *policy, *mpk, (s, gsv, gv, gvp)));
    }
    (k, ct)
}

/// Encryption that shares one blinding scalar among all leaves testing the
/// same triple, following the ciphertext-side index: slots of one class
/// then carry identical blinding rows — their fourth-row entries are
/// equal, and so are the second-row entries of same-signed slots — which
/// decryption exploits by pairing against one representative slot.
pub fn encrypt_shared(
    rng: &mut rand::rngs::StdRng,
    mpk: &MPK,
    policy: &Policy,
    tau: &Tau,
) -> (r: (Gt, Ciphertext))
    requires
        policy.wf(),
        mpk.wf(),
        mpk_covers(*mpk, *policy),
        tau.matches(*policy),
    ensures
        r.1.matches(*policy),
        encrypt_sound(r.0, r.1, *policy, *mpk),
        forall|j1: int, j2: int|
            0 <= j1 < policy.spec_leaves().len() && 0 <= j2 < policy.spec_leaves().len() && (
            #[trigger] policy.spec_leaves()[j1]).0@ == (#[trigger] policy.spec_leaves()[j2]).0@
                ==> r.1.c_4_vec@[j1] == r.1.c_4_vec@[j2],
        forall|j1: int, j2: int|
            0 <= j1 < policy.spec_leaves().len() && 0 <= j2 < policy.spec_leaves().len() && (
            #[trigger] policy.spec_leaves()[j1]).0@ == (#[trigger] policy.spec_leaves()[j2]).0@
                && policy.spec_leaves()[j1].1 == policy.spec_leaves()[j2].1 ==> r.1.c_2_vec@[j1]
                == r.1.c_2_vec@[j2],
{
    let s = ScalarField::rand(rng);
    let ghost n = policy.spec_leaves().len() as int;
    let s_vec = shared_blinding(rng, policy, tau);
    let ghost sv = s_vec@;
    let (k, ct, Ghost(gv), Ghost(gvp)) = encrypt_rows(rng, mpk, policy, s, s_vec);
    proof {
        assert(encrypt_witness(k, ct, *policy, *mpk, (s, sv, gv, gvp)));
        assert forall|j1: int, j2: int|
            0 <= j1 < n && 0 <= j2 < n && (#[trigger] policy.spec_leaves()[j1]).0@ == (
        #[trigger] policy.spec_leaves()[j2]).0@ implies ct.c_4_vec@[j1] == ct.c_4_vec@[j2] by {
            assert(slot_equations(ct, *policy, *mpk, j1, sv[j1], gv, gvp));
            assert(slot_equations(ct, *policy, *mpk, j2, sv[j2], gv, gvp));
        }
        assert forall|j1: int, j2: int|
            0 <= j1 < n && 0 <= j2 < n && (#[trigger] policy.spec_leaves()[j1]).0@ == (
        #[trigger] policy.spec_leaves()[j2]).0@ && policy.spec_leaves()[j1].1
            == policy.spec_leaves()[j2].1 implies ct.c_2_vec@[j1] == ct.c_2_vec@[j2] by {
            assert(slot_equations(ct, *policy, *mpk, j1, sv[j1], gv, gvp));
            assert(slot_equations(ct, *policy, *mpk, j2, sv[j2], gv, gvp));
        }
    }
    (k, ct)
}

/// One blinding scalar per distinct leaf triple: each leaf's slot carries
/// the scalar of its class representative, so same-triple slots hold the
/// same scalar.
fn shared_blinding(rng: &mut rand::rngs::StdRng, policy: &Policy, tau: &Tau) -> (r: Vec<
    ScalarField,
>)
    requires
        policy.wf(),
        tau.matches(*policy),
    ensures
        r@.len() == policy.spec_leaves().len(),
        forall|j1: int, j2: int|
            0 <= j1 < policy.spec_leaves().len() && 0 <= j2 < policy.spec_leaves().len() && (
            #[trigger] policy.spec_leaves()[j1]).0@ == (#[trigger] policy.spec_leaves()[j2]).0@
                ==> r@[j1] == r@[j2],
{
    let n = policy.len();
    let mut s_vec: Vec<ScalarField> = Vec::new();
    let mut tils: Vec<usize> = Vec::new();
    let mut j: usize = 0;
    while j < n
        invariant
            j <= n,
            n == policy.spec_leaves().len(),
            policy.wf(),
            tau.matches(*policy),
            s_vec@.len() == j,
            tils@.len() == j,
            forall|a: int|
                0 <= a < j ==> tau.spec_is_tilde(
                    (policy.spec_leaves()[a]).0@,
                    (#[trigger] tils@[a]) as int,
                ),
            forall|a: int| 0 <= a < j ==> (#[trigger] tils@[a]) <= a,
            forall|a: int| 0 <= a < j ==> s_vec@[a] == s_vec@[(#[trigger] tils@[a]) as int],
        decreases n - j,
    {
        let (ua, _) = policy.get(j);
        let ghost v = policy.spec_leaves()[j as int].0@;
        proof {
            assert(tau.spec_has_rep_le(v, j as int));
            tau.lemma_rep_le_implies_triple(v, j as int);
        }
        let til = tau.get_tilde(&ua.auth, &ua.lbl, &ua.attr);
        proof {
            assert((AttrView { auth: ua.auth@, lbl: ua.lbl@, attr: ua.attr@ }) =~= v);
            assert(tau.spec_is_tilde(v, til as int));
            tau.lemma_tilde_le(v, j as int, til as int);
        }
        let ghost prev = s_vec@;
        let ghost ptils = tils@;
        if til < j {
            let shared = s_vec[til].clone();
            s_vec.push(shared);
            proof {
                assert(s_vec@ == prev.push(prev[til as int]));
            }
        } else {
            s_vec.push(ScalarField::rand(rng));
        }
        tils.push(til);
        proof {
            assert(tils@ == ptils.push(til));
            assert forall|a: int|
                0 <= a < j + 1 implies tau.spec_is_tilde(
                (policy.spec_leaves()[a]).0@,
                (#[trigger] tils@[a]) as int,
            ) && tils@[a] <= a && s_vec@[a] == s_vec@[tils@[a] as int] by {
                if a < j {
                    assert(tils@[a] == ptils[a]);
                    assert(ptils[a] <= a);
                    assert(prev[a] == prev[ptils[a] as int]);
                    assert(tau.spec_is_tilde((policy.spec_leaves()[a]).0@, ptils[a] as int));
                    assert(s_vec@[a] == prev[a]);
                    assert(s_vec@[ptils[a] as int] == prev[ptils[a] as int]);
                } else {
                    assert(tils@[a] == til);
                    assert(policy.spec_leaves()[a].0@ == v);
                    if til < j {
                        assert(s_vec@[a] == prev[til as int]);
                        assert(s_vec@[til as int] == prev[til as int]);
                    }
                }
            }
        }
        j = j + 1;
    }
    proof {
        assert forall|j1: int, j2: int|
            0 <= j1 < n && 0 <= j2 < n && (#[trigger] policy.spec_leaves()[j1]).0@ == (
        #[trigger] policy.spec_leaves()[j2]).0@ implies s_vec@[j1] == s_vec@[j2] by {
            assert(tau.spec_is_tilde((policy.spec_leaves()[j1]).0@, tils@[j1] as int));
            assert(tau.spec_is_tilde((policy.spec_leaves()[j2]).0@, tils@[j2] as int));
            assert(s_vec@[j1] == s_vec@[tils@[j1] as int]);
            assert(s_vec@[j2] == s_vec@[tils@[j2] as int]);
            tau.lemma_tilde_unique(
                policy.spec_leaves()[j1].0@,
                tils@[j1] as int,
                tils@[j2] as int,
            );
        }
    }
    s_vec
}

/// Groups selected leaves by their full (authority, label, value) triple.
pub fn group_by_triple(idxs: &Vec<usize>, policy: &Policy) -> (r: Vec<
    (String, String, String, Vec<usize>),
>)
    requires
        policy.wf(),
        forall|k: int| 0 <= k < idxs@.len() ==> (#[trigger] idxs@[k]) < policy.spec_leaves().len(),
    ensures
        forall|g: int, m: int|
            0 <= g < r@.len() && 0 <= m < r@[g].3@.len() ==> idxs@.contains(
                #[trigger] r@[g].3@[m],
            ) && policy.spec_leaves()[r@[g].3@[m] as int].0@.auth == r@[g].0@
                && policy.spec_leaves()[r@[g].3@[m] as int].0@.lbl == r@[g].1@
                && policy.spec_leaves()[r@[g].3@[m] as int].0@.attr == r@[g].2@,
        forall|g: int| 0 <= g < r@.len() ==> (#[trigger] r@[g]).3@.len() >= 1,
{
    let mut groups: Vec<(String, String, String, Vec<usize>)> = Vec::new();
    let n = idxs.len();
    let mut i: usize = 0;
    while i < n
        invariant
            i <= n,
            n == idxs@.len(),
            policy.wf(),
            forall|k: int| 0 <= k < n ==> (#[trigger] idxs@[k]) < policy.spec_leaves().len(),
            forall|g: int, m: int|
                0 <= g < groups@.len() && 0 <= m < groups@[g].3@.len() ==> idxs@.contains(
                    #[trigger] groups@[g].3@[m],
                ) && policy.spec_leaves()[groups@[g].3@[m] as int].0@.auth == groups@[g].0@
                    && policy.spec_leaves()[groups@[g].3@[m] as int].0@.lbl == groups@[g].1@
                    && policy.spec_leaves()[groups@[g].3@[m] as int].0@.attr == groups@[g].2@,
            forall|g: int| 0 <= g < groups@.len() ==> (#[trigger] groups@[g]).3@.len() >= 1,
        decreases n - i,
    {
        let j = idxs[i];
        proof {
            assert(idxs@.contains(j)) by {
                assert(idxs@[i as int] == j);
            }
        }
        let (ua, _) = policy.get(j);
        let ng = groups.len();
        let mut gi: usize = 0;
        let mut found = ng;
        while gi < ng
            invariant
                gi <= ng,
                ng == groups@.len(),
                found == ng || (found < ng && groups@[found as int].0@ == ua@.auth
                    && groups@[found as int].1@ == ua@.lbl && groups@[found as int].2@
                    == ua@.attr),
            decreases ng - gi,
        {
            if groups[gi].0 == ua.auth && groups[gi].1 == ua.lbl && groups[gi].2 == ua.attr {
                found = gi;
                break ;
            }
            gi = gi + 1;
        }
        let ghost before = groups@;
        if found < ng {
            let (a, l, t, mut members) = groups.remove(found);
            members.push(j);
            groups.insert(found, (a, l, t, members));
            proof {
                assert(groups@.len() == before.len());
                assert forall|g: int|
                    0 <= g < groups@.len() && g != found as int implies groups@[g] == before[g] by {
                    if g < found as int {
                        assert(groups@[g] == before[g]);
                    }
                }
                assert(groups@[found as int].0 == before[found as int].0);
                assert(groups@[found as int].3@ == before[found as int].3@.push(j));
            }
        } else {
            let mut members: Vec<usize> = Vec::new();
            members.push(j);
            groups.push((ua.auth, ua.lbl, ua.attr, members));
            proof {
                assert forall|g: int| 0 <= g < before.len() implies groups@[g] == before[g] by {}
                assert(groups@[groups@.len() - 1].3@ =~= Seq::<usize>::empty().push(j));
            }
        }
        i = i + 1;
    }
    groups
}

/// Groups selected leaves by authority and value.
pub fn group_by_auth_attr(idxs: &Vec<usize>, policy: &Policy) -> (r: Vec<
    (String, String, Vec<usize>),
>)
    requires
        policy.wf(),
        forall|k: int| 0 <= k < idxs@.len() ==> (#[trigger] idxs@[k]) < policy.spec_leaves().len(),
    ensures
        forall|g: int, m: int|
            0 <= g < r@.len() && 0 <= m < r@[g].2@.len() ==> idxs@.contains(
                #[trigger] r@[g].2@[m],
            ) && policy.spec_leaves()[r@[g].2@[m] as int].0@.auth == r@[g].0@
                && policy.spec_leaves()[r@[g].2@[m] as int].0@.attr == r@[g].1@,
        forall|g: int| 0 <= g < r@.len() ==> (#[trigger] r@[g]).2@.len() >= 1,
{
    let mut groups: Vec<(String, String, Vec<usize>)> = Vec::new();
    let n = idxs.len();
    let mut i: usize = 0;
    while i < n
        invariant
            i <= n,
            n == idxs@.len(),
            policy.wf(),
            forall|k: int| 0 <= k < n ==> (#[trigger] idxs@[k]) < policy.spec_leaves().len(),
            forall|g: int, m: int|
                0 <= g < groups@.len() && 0 <= m < groups@[g].2@.len() ==> idxs@.contains(
                    #[trigger] groups@[g].2@[m],
                ) && policy.spec_leaves()[groups@[g].2@[m] as int].0@.auth == groups@[g].0@
                    && policy.spec_leaves()[groups@[g].2@[m] as int].0@.attr == groups@[g].1@,
            forall|g: int| 0 <= g < groups@.len() ==> (#[trigger] groups@[g]).2@.len() >= 1,
        decreases n - i,
    {
        let j = idxs[i];
        proof {
            assert(idxs@.contains(j)) by {
                assert(idxs@[i as int] == j);
            }
        }
        let (ua, _) = policy.get(j);
        let ng = groups.len();
        let mut gi: usize = 0;
        let mut found = ng;
        while gi < ng
            invariant
                gi <= ng,
                ng == groups@.len(),
                found == ng || (found < ng && groups@[found as int].0@ == ua@.auth
                    && groups@[found as int].1@ == ua@.attr),
            decreases ng - gi,
        {
            if groups[gi].0 == ua.auth && groups[gi].1 == ua.attr {
                found = gi;
                break ;
            }
            gi = gi + 1;
        }
        let ghost before = groups@;
        if found < ng {
            let (a, t, mut members) = groups.remove(found);
            members.push(j);
            groups.insert(found, (a, t, members));
            proof {
                assert(groups@.len() == before.len());
                assert forall|g: int|
                    0 <= g < groups@.len() && g != found as int implies groups@[g] == before[g] by {
                    if g < found as int {
                        assert(groups@[g] == before[g]);
                    }
                }
                assert(groups@[found as int].0 == before[found as int].0);
                assert(groups@[found as int].2@ == before[found as int].2@.push(j));
            }
        } else {
            let mut members: Vec<usize> = Vec::new();
            members.push(j);
            groups.push((ua.auth, ua.attr, members));
            proof {
                assert forall|g: int| 0 <= g < before.len() implies groups@[g] == before[g] by {}
                assert(groups@[groups@.len() - 1].2@ =~= Seq::<usize>::empty().push(j));
            }
        }
        i = i + 1;
    }
    groups
}

/// Groups selected leaves by their representative slot: all leaves of one
/// class share one blinding row, so one pairing against the
/// representative's row serves the whole class.
pub fn group_by_tilde(idxs: &Vec<usize>, policy: &Policy, tau: &Tau) -> (r: Vec<
    (usize, Vec<usize>),
>)
    requires
        policy.wf(),
        tau.matches(*policy),
        forall|k: int| 0 <= k < idxs@.len() ==> (#[trigger] idxs@[k]) < policy.spec_leaves().len(),
    ensures
        forall|g: int| 0 <= g < r@.len() ==> (#[trigger] r@[g]).0 < policy.spec_leaves().len(),
        forall|g: int, m: int|
            0 <= g < r@.len() && 0 <= m < r@[g].1@.len() ==> idxs@.contains(
                #[trigger] r@[g].1@[m],
            ) && policy.spec_leaves()[r@[g].1@[m] as int].0@ == policy.spec_leaves()[r@[g].0 as int].0@,
        forall|g: int| 0 <= g < r@.len() ==> (#[trigger] r@[g]).1@.len() >= 1,
{
    let mut groups: Vec<(usize, Vec<usize>)> = Vec::new();
    let n = idxs.len();
    let mut i: usize = 0;
    while i < n
        invariant
            i <= n,
            n == idxs@.len(),
            policy.wf(),
            tau.matches(*policy),
            forall|k: int| 0 <= k < n ==> (#[trigger] idxs@[k]) < policy.spec_leaves().len(),
            forall|g: int| 0 <= g < groups@.len() ==> (#[trigger] groups@[g]).0 < policy.spec_leaves().len(),
            forall|g: int, m: int|
                0 <= g < groups@.len() && 0 <= m < groups@[g].1@.len() ==> idxs@.contains(
                    #[trigger] groups@[g].1@[m],
                ) && policy.spec_leaves()[groups@[g].1@[m] as int].0@
                    == policy.spec_leaves()[groups@[g].0 as int].0@,
            forall|g: int| 0 <= g < groups@.len() ==> (#[trigger] groups@[g]).1@.len() >= 1,
        decreases n - i,
    {
        let j = idxs[i];
        proof {
            assert(idxs@.contains(j)) by {
                assert(idxs@[i as int] == j);
            }
        }
        let (ua, _) = policy.get(j);
        let ghost v = policy.spec_leaves()[j as int].0@;
        proof {
            assert(tau.spec_has_rep_le(v, j as int));
            tau.lemma_rep_le_implies_triple(v, j as int);
        }
        let til = tau.get_tilde(&ua.auth, &ua.lbl, &ua.attr);
        proof {
            let k = choose|k: int|
                0 <= k < tau.reps@.len() && (#[trigger] tau.reps@[k]).0@ == v && tau.reps@[k].1
                    == til as int;
            assert(tau.reps@[k].1 < policy.spec_leaves().len());
            assert(policy.spec_leaves()[til as int].0@ == v);
        }
        let ng = groups.len();
        let mut gi: usize = 0;
        let mut found = ng;
        while gi < ng
            invariant
                gi <= ng,
                ng == groups@.len(),
                found == ng || (found < ng && groups@[found as int].0 == til),
            decreases ng - gi,
        {
            if groups[gi].0 == til {
                found = gi;
                break ;
            }
            gi = gi + 1;
        }
        let ghost before = groups@;
        if found < ng {
            let (key, mut members) = groups.remove(found);
            members.push(j);
            groups.insert(found, (key, members));
            proof {
                assert(groups@.len() == before.len());
                assert forall|g: int|
                    0 <= g < groups@.len() && g != found as int implies groups@[g] == before[g] by {
                    if g < found as int {
                        assert(groups@[g] == before[g]);
                    }
                }
                assert(groups@[found as int].0 == before[found as int].0);
                assert(groups@[found as int].1@ == before[found as int].1@.push(j));
            }
        } else {
            let mut members: Vec<usize> = Vec::new();
            members.push(j);
            groups.push((til, members));
            proof {
                assert forall|g: int| 0 <= g < before.len() implies groups@[g] == before[g] by {}
                assert(groups@[groups@.len() - 1].1@ =~= Seq::<usize>::empty().push(j));
            }
        }
        i = i + 1;
    }
    groups
}

} // verus!
