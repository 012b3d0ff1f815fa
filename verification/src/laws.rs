//! Laws of policy satisfaction. Satisfaction — and with it the outcome of
//! the reconstruction solver, whose result is `Some` exactly on satisfied
//! policies — depends only on *which* attributes are held, never on how
//! often or in what order they are presented; and a negated leaf is opened
//! by any one alternative value and closed by the excluded value itself.
use vstd::prelude::*;

use crate::attribute::AttrView;
use crate::attribute::UserAttribute;
use crate::policy::{holds_label, holds_triple, leaf_sat, node_sat, Node, Policy};

verus! {

/// Proves that satisfaction sees only membership: two attribute sets that
/// answer every triple and every label query alike satisfy exactly the
/// same subtrees.
pub proof fn lemma_sat_depends_on_membership(
    n: Node,
    leaves: Seq<(UserAttribute, bool)>,
    attrs1: Seq<AttrView>,
    attrs2: Seq<AttrView>,
)
    requires
        forall|a: Seq<char>, l: Seq<char>, t: Seq<char>|
            #[trigger] holds_triple(attrs1, a, l, t) == holds_triple(attrs2, a, l, t),
        forall|a: Seq<char>, l: Seq<char>|
            #[trigger] holds_label(attrs1, a, l) == holds_label(attrs2, a, l),
    ensures
        node_sat(n, leaves, attrs1) == node_sat(n, leaves, attrs2),
    decreases n,
{
    match n {
        Node::Leaf(i) => {
            if 0 <= i < leaves.len() {
                let v = leaves[i as int].0@;
                assert(holds_triple(attrs1, v.auth, v.lbl, v.attr) == holds_triple(
                    attrs2,
                    v.auth,
                    v.lbl,
                    v.attr,
                ));
                assert(holds_label(attrs1, v.auth, v.lbl) == holds_label(attrs2, v.auth, v.lbl));
            }
        },
        Node::And(l, r) => {
            lemma_sat_depends_on_membership(*l, leaves, attrs1, attrs2);
            lemma_sat_depends_on_membership(*r, leaves, attrs1, attrs2);
        },
        Node::Or(l, r) => {
            lemma_sat_depends_on_membership(*l, leaves, attrs1, attrs2);
            lemma_sat_depends_on_membership(*r, leaves, attrs1, attrs2);
        },
    }
}

/// Holding an attribute twice changes nothing: appending a copy of an
/// attribute already present leaves the satisfaction of every policy as
/// it was, so a duplicate entry yields the same decryption outcome as a
/// single one.
pub proof fn lemma_duplicate_attribute(p: Policy, attrs: Seq<AttrView>, i: int)
    requires
        0 <= i < attrs.len(),
    ensures
        p.spec_sat(attrs.push(attrs[i])) == p.spec_sat(attrs),
{
    let attrs2 = attrs.push(attrs[i]);
    assert forall|a: Seq<char>, l: Seq<char>, t: Seq<char>|
        #[trigger] holds_triple(attrs2, a, l, t) == holds_triple(attrs, a, l, t) by {
        if holds_triple(attrs2, a, l, t) {
            let k = choose|k: int|
                0 <= k < attrs2.len() && (#[trigger] attrs2[k]).auth == a && attrs2[k].lbl == l
                    && attrs2[k].attr == t;
            if k < attrs.len() {
                assert(attrs[k] == attrs2[k]);
            } else {
                assert(attrs2[k] == attrs[i]);
            }
        }
        if holds_triple(attrs, a, l, t) {
            let k = choose|k: int|
                0 <= k < attrs.len() && (#[trigger] attrs[k]).auth == a && attrs[k].lbl == l
                    && attrs[k].attr == t;
            assert(attrs2[k] == attrs[k]);
        }
    }
    assert forall|a: Seq<char>, l: Seq<char>|
        #[trigger] holds_label(attrs2, a, l) == holds_label(attrs, a, l) by {
        if holds_label(attrs2, a, l) {
            let k = choose|k: int|
                0 <= k < attrs2.len() && (#[trigger] attrs2[k]).auth == a && attrs2[k].lbl == l;
            if k < attrs.len() {
                assert(attrs[k] == attrs2[k]);
            } else {
                assert(attrs2[k] == attrs[i]);
            }
        }
        if holds_label(attrs, a, l) {
            let k = choose|k: int|
                0 <= k < attrs.len() && (#[trigger] attrs[k]).auth == a && attrs[k].lbl == l;
            assert(attrs2[k] == attrs[k]);
        }
    }
    lemma_sat_depends_on_membership(p.spec_tree(), p.spec_leaves(), attrs2, attrs);
}

/// Any one alternative opens a negated leaf: a set that does not hold the
/// excluded value passes the negated test as soon as any value other than
/// the excluded one is presented under the leaf's authority and label —
/// whichever witness it is.
pub proof fn lemma_negation_witness_alternative(
    v: AttrView,
    witness: Seq<char>,
    attrs: Seq<AttrView>,
)
    requires
        witness != v.attr,
        !holds_triple(attrs, v.auth, v.lbl, v.attr),
    ensures
        leaf_sat(v, true, attrs.push(AttrView { auth: v.auth, lbl: v.lbl, attr: witness })),
{
    let w = AttrView { auth: v.auth, lbl: v.lbl, attr: witness };
    let attrs2 = attrs.push(w);
    assert(holds_label(attrs2, v.auth, v.lbl)) by {
        assert(attrs2[attrs2.len() - 1] == w);
    }
    assert(!holds_triple(attrs2, v.auth, v.lbl, v.attr)) by {
        if holds_triple(attrs2, v.auth, v.lbl, v.attr) {
            let k = choose|k: int|
                0 <= k < attrs2.len() && (#[trigger] attrs2[k]).auth == v.auth && attrs2[k].lbl
                    == v.lbl && attrs2[k].attr == v.attr;
            if k < attrs.len() {
                assert(attrs[k] == attrs2[k]);
            }
        }
    }
}

/// The excluded value itself closes a negated leaf: a set that presents
/// the excluded value under the leaf's authority and label fails the
/// negated test, whatever else it holds.
pub proof fn lemma_negation_excluded_value(v: AttrView, attrs: Seq<AttrView>)
    ensures
        !leaf_sat(v, true, attrs.push(AttrView { auth: v.auth, lbl: v.lbl, attr: v.attr })),
{
    let attrs2 = attrs.push(AttrView { auth: v.auth, lbl: v.lbl, attr: v.attr });
    assert(holds_triple(attrs2, v.auth, v.lbl, v.attr)) by {
        assert(attrs2[attrs2.len() - 1].auth == v.auth);
    }
}

} // verus!
