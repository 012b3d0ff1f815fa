//! The linear secret-sharing scheme over a policy tree, and its
//! reconstruction solver.
//!
//! Sharing assigns every leaf a *recipe*: a signed list of leaf indices. A
//! recipe entry `e >= 0` stands for `+` the share variable of leaf `e`, an
//! entry `e < 0` for `-` the share variable of leaf `-e`. Leaf 0's variable
//! carries the root secret; every other variable is drawn fresh. The leaf's
//! own share is the signed sum its recipe names. A disjunction hands both
//! children the parent's recipe, so either alone can stand in for the
//! parent; a conjunction splits the parent's recipe against a fresh
//! variable — the left child owes the parent's value minus the fresh one,
//! the right child owes the fresh one — so both must contribute.
//!
//! The solver picks, for a set of held attributes, a set of satisfied
//! leaves whose recipes sum — variable by variable — to exactly the root
//! variable and nothing else. That accounting identity is proved here once
//! and for all: it is what makes every decryption below recombine the
//! session key exactly when the policy is satisfied.
use vstd::prelude::*;

use crate::attribute::UserAttribute;
use crate::policy::{holds_label, holds_triple, leaf_sat, lemma_leaf_count_pos, node_sat, node_wf, leaf_count, views_of, Node, Policy, MAX_LEAVES};

verus! {

/// The entries of a recipe as mathematical integers.
pub open spec fn int_entries(s: Seq<isize>) -> Seq<int> {
    s.map_values(|x: isize| x as int)
}

/// The index of the leftmost leaf under the node.
pub open spec fn first_leaf(n: Node) -> int
    decreases n,
{
    match n {
        Node::Leaf(i) => i as int,
        Node::And(l, _) => first_leaf(*l),
        Node::Or(l, _) => first_leaf(*l),
    }
}

/// The recipe each leaf under `n` receives when the node itself owes the
/// recipe `expr`, keyed by absolute leaf index.
pub open spec fn map_splits(n: Node, expr: Seq<int>) -> Map<int, Seq<int>>
    decreases n,
{
    match n {
        Node::Leaf(i) => map![i as int => expr],
        Node::And(l, r) => map_splits(*l, expr.push(-first_leaf(*r))).union_prefer_right(
            map_splits(*r, seq![first_leaf(*r)]),
        ),
        Node::Or(l, r) => map_splits(*l, expr).union_prefer_right(map_splits(*r, expr)),
    }
}

/// What one recipe entry contributes to the coefficient of leaf variable
/// `v`: `+1` when it names `+v`, `-1` when it names `-v`, nothing otherwise.
pub open spec fn entry_coeff(e: int, v: int) -> int {
    if e == v {
        1
    } else if e == -v && v != 0 {
        -1
    } else {
        0
    }
}

/// The coefficient of leaf variable `v` in the signed sum a recipe names.
pub open spec fn recipe_coeff(r: Seq<int>, v: int) -> int
    decreases r.len(),
{
    if r.len() == 0 {
        0
    } else {
        recipe_coeff(r.drop_last(), v) + entry_coeff(r.last(), v)
    }
}

/// The coefficient of leaf variable `v` in the sum of the recipes of the
/// selected leaves.
pub open spec fn sel_coeff(m: Map<int, Seq<int>>, sel: Seq<usize>, v: int) -> int
    decreases sel.len(),
{
    if sel.len() == 0 {
        0
    } else {
        sel_coeff(m, sel.drop_last(), v) + recipe_coeff(m[sel.last() as int], v)
    }
}

/// A selection of leaf indices is strictly increasing.
pub open spec fn strictly_increasing(sel: Seq<usize>) -> bool {
    forall|k1: int, k2: int| 0 <= k1 < k2 < sel.len() ==> sel[k1] < sel[k2]
}

/// Every selected leaf lies in the range and passes its own test.
pub open spec fn sel_ok(
    sel: Seq<usize>,
    lo: int,
    hi: int,
    leaves: Seq<(UserAttribute, bool)>,
    attrs: Seq<crate::attribute::AttrView>,
) -> bool {
    forall|k: int|
        0 <= k < sel.len() ==> lo <= sel[k] < hi && leaf_sat(
            leaves[sel[k] as int].0@,
            leaves[sel[k] as int].1,
            attrs,
        )
}

impl Policy {
    /// The recipe of every leaf of the policy, the root owing the recipe
    /// `[+0]`: leaf 0's variable is the root secret.
    pub open spec fn spec_splits(self) -> Map<int, Seq<int>> {
        map_splits(self.spec_tree(), seq![0])
    }
}

/// Proves that the recipes of a well-formed node cover exactly its span of
/// leaf indices.
pub proof fn lemma_splits_dom(n: Node, expr: Seq<int>, lo: int)
    requires
        node_wf(n, lo),
    ensures
        forall|i: int|
            map_splits(n, expr).dom().contains(i) <==> lo <= i < lo + leaf_count(n),
    decreases n,
{
    match n {
        Node::Leaf(i) => {
            assert(map_splits(n, expr) == map![i as int => expr]);
            assert forall|j: int|
                map_splits(n, expr).dom().contains(j) <==> lo <= j < lo + leaf_count(n) by {
                assert(map![i as int => expr].dom().contains(j) <==> j == i as int);
                assert(leaf_count(n) == 1);
            }
        },
        Node::And(l, r) => {
            lemma_leaf_count_pos(*l);
            lemma_leaf_count_pos(*r);
            lemma_splits_dom(*l, expr.push(-first_leaf(*r)), lo);
            lemma_splits_dom(*r, seq![first_leaf(*r)], lo + leaf_count(*l));
            assert(map_splits(n, expr) == map_splits(*l, expr.push(-first_leaf(*r)))
                .union_prefer_right(map_splits(*r, seq![first_leaf(*r)])));
            assert(leaf_count(n) == leaf_count(*l) + leaf_count(*r));
        },
        Node::Or(l, r) => {
            lemma_leaf_count_pos(*l);
            lemma_leaf_count_pos(*r);
            lemma_splits_dom(*l, expr, lo);
            lemma_splits_dom(*r, expr, lo + leaf_count(*l));
            assert(map_splits(n, expr) == map_splits(*l, expr).union_prefer_right(
                map_splits(*r, expr),
            ));
            assert(leaf_count(n) == leaf_count(*l) + leaf_count(*r));
        },
    }
}

/// Proves that the leftmost leaf of a well-formed node is its low index.
pub proof fn lemma_first_leaf(n: Node, lo: int)
    requires
        node_wf(n, lo),
    ensures
        first_leaf(n) == lo,
    decreases n,
{
    match n {
        Node::Leaf(_) => {},
        Node::And(l, _) => {
            lemma_first_leaf(*l, lo);
        },
        Node::Or(l, _) => {
            lemma_first_leaf(*l, lo);
        },
    }
}

/// Proves that summing recipe coefficients distributes over concatenation
/// of selections.
pub proof fn lemma_sel_coeff_concat(m: Map<int, Seq<int>>, a: Seq<usize>, b: Seq<usize>, v: int)
    ensures
        sel_coeff(m, a + b, v) == sel_coeff(m, a, v) + sel_coeff(m, b, v),
    decreases b.len(),
{
    if b.len() == 0 {
        assert(a + b =~= a);
    } else {
        lemma_sel_coeff_concat(m, a, b.drop_last(), v);
        assert((a + b).drop_last() =~= a + b.drop_last());
        assert((a + b).last() == b.last());
    }
}

/// Proves that the coefficient sum of a selection depends only on the
/// recipes of the selected leaves.
pub proof fn lemma_sel_coeff_congruent(
    m1: Map<int, Seq<int>>,
    m2: Map<int, Seq<int>>,
    sel: Seq<usize>,
    v: int,
)
    requires
        forall|k: int| 0 <= k < sel.len() ==> m1[#[trigger] sel[k] as int] == m2[sel[k] as int],
    ensures
        sel_coeff(m1, sel, v) == sel_coeff(m2, sel, v),
    decreases sel.len(),
{
    if sel.len() > 0 {
        lemma_sel_coeff_congruent(m1, m2, sel.drop_last(), v);
        assert(sel[sel.len() - 1] == sel.last());
    }
}

/// The index of the leftmost leaf under the node.
fn first_leaf_exec(n: &Node) -> (r: usize)
    ensures
        r as int == first_leaf(*n),
    decreases n,
{
    match n {
        Node::Leaf(i) => *i,
        Node::And(l, _) => first_leaf_exec(l),
        Node::Or(l, _) => first_leaf_exec(l),
    }
}

/// A recipe entry lies strictly between `-bound` and `bound`.
pub open spec fn entry_in_bound(e: int, bound: int) -> bool {
    -bound < e < bound
}

/// Appends the recipe of every leaf under `n` to `out`, in leaf order,
/// when the node itself owes the recipe `expr`. On entry `out` holds the
/// recipes of all leaves to the left of the node.
fn share_node(n: &Node, expr: Vec<isize>, out: &mut Vec<Vec<isize>>, Ghost(bound): Ghost<int>)
    requires
        node_wf(*n, old(out)@.len() as int),
        old(out)@.len() + leaf_count(*n) <= bound <= MAX_LEAVES,
        forall|j: int| 0 <= j < expr@.len() ==> entry_in_bound((#[trigger] expr@[j]) as int, bound),
    ensures
        final(out)@.len() == old(out)@.len() + leaf_count(*n),
        forall|k: int| 0 <= k < old(out)@.len() ==> final(out)@[k] == old(out)@[k],
        forall|i: int|
            old(out)@.len() <= i < final(out)@.len() ==> int_entries(#[trigger] final(out)@[i]@)
                == map_splits(*n, int_entries(expr@))[i],
        forall|i: int, j: int|
            old(out)@.len() <= i < final(out)@.len() && 0 <= j < final(out)@[i]@.len()
                ==> entry_in_bound((#[trigger] final(out)@[i]@[j]) as int, bound),
    decreases n,
{
    let ghost lo = out@.len() as int;
    match n {
        Node::Leaf(i) => {
            let ghost e0 = expr@;
            out.push(expr);
            proof {
                assert(out@[lo as int]@ == e0);
                let m = map_splits(Node::Leaf(*i), int_entries(e0));
                assert(m == map![*i as int => int_entries(e0)]);
                assert(m[*i as int] == int_entries(e0));
            }
        },
        Node::And(l, r) => {
            proof {
                lemma_leaf_count_pos(**l);
                lemma_leaf_count_pos(**r);
                lemma_first_leaf(**r, lo + leaf_count(**l));
            }
            let m0 = first_leaf_exec(r);
            let mut expr_l = expr.clone();
            proof {
                assert(expr_l@ =~= expr@);
            }
            expr_l.push(-(m0 as isize));
            let mut expr_r: Vec<isize> = Vec::new();
            expr_r.push(m0 as isize);
            let ghost gl = int_entries(expr@).push(-first_leaf(**r));
            let ghost gr = seq![first_leaf(**r)];
            proof {
                assert(int_entries(expr_l@) =~= gl);
                assert(int_entries(expr_r@) =~= gr);
            }
            share_node(l, expr_l, out, Ghost(bound));
            share_node(r, expr_r, out, Ghost(bound));
            proof {
                let ml = map_splits(**l, gl);
                let mr = map_splits(**r, gr);
                assert(map_splits(*n, int_entries(expr@)) == ml.union_prefer_right(mr));
                lemma_splits_dom(**l, gl, lo);
                lemma_splits_dom(**r, gr, lo + leaf_count(**l));
                assert forall|i: int|
                    lo <= i < final(out)@.len() implies int_entries(#[trigger] final(out)@[i]@)
                    == map_splits(*n, int_entries(expr@))[i] by {
                    if i < lo + leaf_count(**l) {
                        assert(!mr.dom().contains(i));
                        assert(ml.union_prefer_right(mr)[i] == ml[i]);
                    } else {
                        assert(mr.dom().contains(i));
                        assert(ml.union_prefer_right(mr)[i] == mr[i]);
                    }
                }
            }
        },
        Node::Or(l, r) => {
            proof {
                lemma_leaf_count_pos(**l);
                lemma_leaf_count_pos(**r);
            }
            let expr_r = expr.clone();
            proof {
                assert(expr_r@ =~= expr@);
            }
            share_node(l, expr, out, Ghost(bound));
            share_node(r, expr_r, out, Ghost(bound));
            proof {
                let ghost ge = int_entries(expr_r@);
                let ml = map_splits(**l, ge);
                let mr = map_splits(**r, ge);
                assert(map_splits(*n, ge) == ml.union_prefer_right(mr));
                lemma_splits_dom(**l, ge, lo);
                lemma_splits_dom(**r, ge, lo + leaf_count(**l));
                assert forall|i: int|
                    lo <= i < final(out)@.len() implies int_entries(#[trigger] final(out)@[i]@)
                    == map_splits(*n, ge)[i] by {
                    if i < lo + leaf_count(**l) {
                        assert(!mr.dom().contains(i));
                        assert(ml.union_prefer_right(mr)[i] == ml[i]);
                    } else {
                        assert(mr.dom().contains(i));
                        assert(ml.union_prefer_right(mr)[i] == mr[i]);
                    }
                }
            }
        },
    }
}

/// Whether the held attributes contain the exact triple.
fn holds_triple_exec(
    user_attrs: &Vec<UserAttribute>,
    auth: &String,
    lbl: &String,
    attr: &String,
) -> (r: bool)
    ensures
        r == holds_triple(views_of(user_attrs@), auth@, lbl@, attr@),
{
    let n = user_attrs.len();
    let mut k: usize = 0;
    while k < n
        invariant
            k <= n,
            n == user_attrs@.len(),
            forall|j: int|
                0 <= j < k ==> !(views_of(user_attrs@)[j].auth == auth@ && views_of(user_attrs@)[j].lbl
                    == lbl@ && views_of(user_attrs@)[j].attr == attr@),
        decreases n - k,
    {
        let ua = &user_attrs[k];
        if ua.auth == *auth && ua.lbl == *lbl && ua.attr == *attr {
            assert(views_of(user_attrs@)[k as int] == ua@);
            return true;
        }
        assert(views_of(user_attrs@)[k as int] == ua@);
        k = k + 1;
    }
    false
}

/// Whether the held attributes contain some value under (authority, label).
fn holds_label_exec(user_attrs: &Vec<UserAttribute>, auth: &String, lbl: &String) -> (r: bool)
    ensures
        r == holds_label(views_of(user_attrs@), auth@, lbl@),
{
    let n = user_attrs.len();
    let mut k: usize = 0;
    while k < n
        invariant
            k <= n,
            n == user_attrs@.len(),
            forall|j: int|
                0 <= j < k ==> !(views_of(user_attrs@)[j].auth == auth@ && views_of(user_attrs@)[j].lbl
                    == lbl@),
        decreases n - k,
    {
        let ua = &user_attrs[k];
        if ua.auth == *auth && ua.lbl == *lbl {
            assert(views_of(user_attrs@)[k as int] == ua@);
            return true;
        }
        assert(views_of(user_attrs@)[k as int] == ua@);
        k = k + 1;
    }
    false
}

/// Whether one leaf test passes against the held attributes.
fn leaf_sat_exec(ua: &UserAttribute, neg: bool, user_attrs: &Vec<UserAttribute>) -> (r: bool)
    ensures
        r == leaf_sat(ua@, neg, views_of(user_attrs@)),
{
    if neg {
        holds_label_exec(user_attrs, &ua.auth, &ua.lbl) && !holds_triple_exec(
            user_attrs,
            &ua.auth,
            &ua.lbl,
            &ua.attr,
        )
    } else {
        holds_triple_exec(user_attrs, &ua.auth, &ua.lbl, &ua.attr)
    }
}

/// Selects satisfied leaves under `n` whose recipes sum to the recipe the
/// node owes, or reports that the subtree cannot be satisfied.
fn solve_node(
    n: &Node,
    leaves: &Vec<(UserAttribute, bool)>,
    user_attrs: &Vec<UserAttribute>,
    Ghost(lo): Ghost<int>,
    Ghost(expr): Ghost<Seq<int>>,
) -> (r: Option<Vec<usize>>)
    requires
        node_wf(*n, lo),
        0 <= lo,
        lo + leaf_count(*n) <= leaves@.len(),
    ensures
        r.is_some() == node_sat(*n, leaves@, views_of(user_attrs@)),
        r.is_some() ==> sel_ok(
            r.unwrap()@,
            lo,
            lo + leaf_count(*n),
            leaves@,
            views_of(user_attrs@),
        ),
        r.is_some() ==> strictly_increasing(r.unwrap()@),
        r.is_some() ==> forall|v: int|
            sel_coeff(map_splits(*n, expr), #[trigger] r.unwrap()@, v) == recipe_coeff(expr, v),
    decreases n,
{
    match n {
        Node::Leaf(i) => {
            let (ua, neg) = &leaves[*i];
            if leaf_sat_exec(ua, *neg, user_attrs) {
                let mut sel: Vec<usize> = Vec::new();
                sel.push(*i);
                proof {
                    let s = sel@;
                    assert(s =~= Seq::<usize>::empty().push(*i));
                    assert forall|v: int|
                        sel_coeff(map_splits(*n, expr), s, v) == recipe_coeff(expr, v) by {
                        assert(map_splits(*n, expr) == map![*i as int => expr]);
                        assert(s.drop_last() =~= Seq::<usize>::empty());
                        assert(sel_coeff(map_splits(*n, expr), s.drop_last(), v) == 0);
                        assert(map![*i as int => expr][*i as int] == expr);
                    }
                }
                Some(sel)
            } else {
                None
            }
        },
        Node::And(l, r) => {
            proof {
                lemma_leaf_count_pos(**l);
                lemma_leaf_count_pos(**r);
                lemma_first_leaf(**r, lo + leaf_count(**l));
            }
            let ghost m0 = first_leaf(**r);
            let ghost gl = expr.push(-m0);
            let ghost gr = seq![m0];
            let left = solve_node(l, leaves, user_attrs, Ghost(lo), Ghost(gl));
            let mut sl = match left {
                Some(s) => s,
                None => {
                    return None;
                },
            };
            let right = solve_node(r, leaves, user_attrs, Ghost(lo + leaf_count(**l)), Ghost(gr));
            let mut sr = match right {
                Some(s) => s,
                None => {
                    return None;
                },
            };
            let ghost sl0 = sl@;
            let ghost sr0 = sr@;
            sl.append(&mut sr);
            proof {
                assert(sl@ =~= sl0 + sr0);
                let ml = map_splits(**l, gl);
                let mr = map_splits(**r, gr);
                let m = map_splits(*n, expr);
                assert(m == ml.union_prefer_right(mr));
                lemma_splits_dom(**l, gl, lo);
                lemma_splits_dom(**r, gr, lo + leaf_count(**l));
                assert forall|k: int| 0 <= k < sl0.len() implies m[#[trigger] sl0[k] as int]
                    == ml[sl0[k] as int] by {
                    assert(lo <= sl0[k] < lo + leaf_count(**l));
                    assert(!mr.dom().contains(sl0[k] as int));
                }
                assert forall|k: int| 0 <= k < sr0.len() implies m[#[trigger] sr0[k] as int]
                    == mr[sr0[k] as int] by {
                    assert(mr.dom().contains(sr0[k] as int));
                }
                assert forall|v: int| sel_coeff(m, sl@, v) == recipe_coeff(expr, v) by {
                    lemma_sel_coeff_concat(m, sl0, sr0, v);
                    lemma_sel_coeff_congruent(m, ml, sl0, v);
                    lemma_sel_coeff_congruent(m, mr, sr0, v);
                    assert(recipe_coeff(gl, v) == recipe_coeff(expr, v) + entry_coeff(-m0, v)) by {
                        assert(gl.drop_last() =~= expr);
                    }
                    assert(recipe_coeff(gr, v) == entry_coeff(m0, v)) by {
                        assert(gr.len() == 1);
                        assert(gr.last() == m0);
                        assert(gr.drop_last() =~= Seq::<int>::empty());
                        assert(recipe_coeff(Seq::<int>::empty(), v) == 0);
                        assert(recipe_coeff(gr, v) == recipe_coeff(gr.drop_last(), v)
                            + entry_coeff(gr.last(), v));
                    }
                    assert(m0 >= 1);
                    assert(entry_coeff(-m0, v) + entry_coeff(m0, v) == 0);
                }
            }
            Some(sl)
        },
        Node::Or(l, r) => {
            proof {
                lemma_leaf_count_pos(**l);
                lemma_leaf_count_pos(**r);
                lemma_splits_dom(**l, expr, lo);
                lemma_splits_dom(**r, expr, lo + leaf_count(**l));
            }
            let ghost ml = map_splits(**l, expr);
            let ghost mr = map_splits(**r, expr);
            let ghost m = map_splits(*n, expr);
            let left = solve_node(l, leaves, user_attrs, Ghost(lo), Ghost(expr));
            match left {
                Some(s) => {
                    proof {
                        assert(m == ml.union_prefer_right(mr));
                        assert forall|k: int| 0 <= k < s@.len() implies m[#[trigger] s@[k] as int]
                            == ml[s@[k] as int] by {
                            assert(lo <= s@[k] < lo + leaf_count(**l));
                            assert(!mr.dom().contains(s@[k] as int));
                        }
                        assert forall|v: int| sel_coeff(m, s@, v) == recipe_coeff(expr, v) by {
                            lemma_sel_coeff_congruent(m, ml, s@, v);
                        }
                    }
                    Some(s)
                },
                None => {
                    let right = solve_node(
                        r,
                        leaves,
                        user_attrs,
                        Ghost(lo + leaf_count(**l)),
                        Ghost(expr),
                    );
                    match right {
                        Some(s) => {
                            proof {
                                assert(m == ml.union_prefer_right(mr));
                                assert forall|k: int|
                                    0 <= k < s@.len() implies m[#[trigger] s@[k] as int] == mr[s@[k]
                                    as int] by {
                                    assert(mr.dom().contains(s@[k] as int));
                                }
                                assert forall|v: int|
                                    sel_coeff(m, s@, v) == recipe_coeff(expr, v) by {
                                    lemma_sel_coeff_congruent(m, mr, s@, v);
                                }
                            }
                            Some(s)
                        },
                        None => None,
                    }
                },
            }
        },
    }
}

impl Policy {
    /// Assigns every leaf its sharing recipe: leaf 0's variable carries the
    /// root secret, and a set of leaves can recombine it exactly when their
    /// recipes sum to that one variable.
    pub fn share_secret(&self) -> (r: Vec<Vec<isize>>)
        requires
            self.wf(),
        ensures
            r@.len() == self.spec_leaves().len(),
            forall|i: int|
                0 <= i < r@.len() ==> int_entries(#[trigger] r@[i]@) == self.spec_splits()[i],
            forall|i: int, j: int|
                0 <= i < r@.len() && 0 <= j < r@[i]@.len()
                    ==> entry_in_bound((#[trigger] r@[i]@[j]) as int, r@.len() as int),
    {
        let mut out: Vec<Vec<isize>> = Vec::new();
        let mut expr: Vec<isize> = Vec::new();
        expr.push(0);
        proof {
            assert(int_entries(expr@) =~= seq![0int]);
        }
        share_node(&self.tree, expr, &mut out, Ghost(self.leaves@.len() as int));
        out
    }

    /// Finds a set of leaf indices whose tests the held attributes pass and
    /// whose recipes recombine the root secret — the coefficient of leaf
    /// variable 0 in their sum is one, of every other variable zero — or
    /// reports that the held attributes do not satisfy the policy. The
    /// selected indices are strictly increasing, so no leaf is used twice.
    pub fn reconstruct_secret(&self, user_attrs: &Vec<UserAttribute>) -> (r: Option<Vec<usize>>)
        requires
            self.wf(),
        ensures
            r.is_some() == self.spec_sat(views_of(user_attrs@)),
            r.is_some() ==> sel_ok(
                r.unwrap()@,
                0,
                self.spec_leaves().len() as int,
                self.spec_leaves(),
                views_of(user_attrs@),
            ),
            r.is_some() ==> strictly_increasing(r.unwrap()@),
            r.is_some() ==> forall|v: int|
                sel_coeff(self.spec_splits(), #[trigger] r.unwrap()@, v) == (if v == 0 {
                    1int
                } else {
                    0int
                }),
    {
        let ghost root_expr: Seq<int> = seq![0int];
        let r = solve_node(&self.tree, &self.leaves, user_attrs, Ghost(0), Ghost(root_expr));
        proof {
            if r.is_some() {
                let sel = r.unwrap()@;
                assert forall|v: int|
                    sel_coeff(self.spec_splits(), sel, v) == (if v == 0 {
                        1int
                    } else {
                        0int
                    }) by {
                    assert(self.spec_splits() == map_splits(self.spec_tree(), root_expr)) by {
                        assert(root_expr =~= seq![0int]);
                    }
                    assert(recipe_coeff(root_expr, v) == entry_coeff(0, v)) by {
                        assert(root_expr.len() == 1);
                        assert(root_expr.last() == 0);
                        assert(root_expr.drop_last() =~= Seq::<int>::empty());
                        assert(recipe_coeff(Seq::<int>::empty(), v) == 0);
                        assert(recipe_coeff(root_expr, v) == recipe_coeff(root_expr.drop_last(), v)
                            + entry_coeff(root_expr.last(), v));
                    }
                }
            }
        }
        r
    }
}

} // verus!
