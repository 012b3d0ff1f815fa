//! Access policies: boolean formulas over attribute tests, parsed from the
//! grammar `formula := term (("&" | "|") term)*`, `term := "!"? (atom | "("
//! formula ")")`, `atom := AUTHORITY.LABEL:VALUE`, with `&` and `|` grouped
//! strictly left to right, without precedence between them.
//!
//! A policy stores its leaves as an ordered sequence — every index a
//! ciphertext or a reconstruction refers to is an index into that order —
//! together with a tree that says how the leaves combine. A negation in the
//! text is pushed down to the leaves: negating a parenthesized group swaps
//! its conjunctions and disjunctions and flips the flag of every leaf under
//! it.
use vstd::prelude::*;

use crate::attribute::{AttrView, UserAttribute};
use crate::errors::ParseError;

verus! {

/// The largest number of leaves a policy may have; indices below this bound
/// fit comfortably in every integer type the sharing recipes use.
pub const MAX_LEAVES: usize = 268435456;

/// The shape of a policy formula: a leaf (an index into the policy's leaf
/// order) or a conjunction or disjunction of two subtrees.
#[derive(Debug)]
pub enum Node {
    Leaf(usize),
    And(Box<Node>, Box<Node>),
    Or(Box<Node>, Box<Node>),
}

/// How many leaves stand under the node.
pub open spec fn leaf_count(n: Node) -> int
    decreases n,
{
    match n {
        Node::Leaf(_) => 1,
        Node::And(l, r) => leaf_count(*l) + leaf_count(*r),
        Node::Or(l, r) => leaf_count(*l) + leaf_count(*r),
    }
}

/// The node covers exactly the leaf indices `lo`, `lo + 1`, ... in order:
/// a leaf is its own index, and the right child of an inner node starts
/// where the left child ends.
pub open spec fn node_wf(n: Node, lo: int) -> bool
    decreases n,
{
    match n {
        Node::Leaf(i) => i == lo,
        Node::And(l, r) => node_wf(*l, lo) && node_wf(*r, lo + leaf_count(*l)),
        Node::Or(l, r) => node_wf(*l, lo) && node_wf(*r, lo + leaf_count(*l)),
    }
}

/// The set of attributes holds the exact triple (authority, label, value).
pub open spec fn holds_triple(
    attrs: Seq<AttrView>,
    auth: Seq<char>,
    lbl: Seq<char>,
    attr: Seq<char>,
) -> bool {
    exists|k: int|
        0 <= k < attrs.len() && attrs[k].auth == auth && attrs[k].lbl == lbl && attrs[k].attr
            == attr
}

/// The set of attributes holds some value under (authority, label).
pub open spec fn holds_label(attrs: Seq<AttrView>, auth: Seq<char>, lbl: Seq<char>) -> bool {
    exists|k: int| 0 <= k < attrs.len() && attrs[k].auth == auth && attrs[k].lbl == lbl
}

/// Whether one leaf test passes against a set of held attributes. A plain
/// leaf asks for the exact triple. A negated leaf names an excluded value:
/// it passes when the user holds some value under the same authority and
/// label, and does not hold the excluded value itself — holding the excluded
/// value, even beside alternatives, fails the test.
pub open spec fn leaf_sat(ua: AttrView, neg: bool, attrs: Seq<AttrView>) -> bool {
    if neg {
        holds_label(attrs, ua.auth, ua.lbl) && !holds_triple(attrs, ua.auth, ua.lbl, ua.attr)
    } else {
        holds_triple(attrs, ua.auth, ua.lbl, ua.attr)
    }
}

/// Whether the subtree is satisfied by the held attributes.
pub open spec fn node_sat(n: Node, leaves: Seq<(UserAttribute, bool)>, attrs: Seq<AttrView>) -> bool
    decreases n,
{
    match n {
        Node::Leaf(i) => 0 <= i < leaves.len() && leaf_sat(leaves[i as int].0@, leaves[i as int].1, attrs),
        Node::And(l, r) => node_sat(*l, leaves, attrs) && node_sat(*r, leaves, attrs),
        Node::Or(l, r) => node_sat(*l, leaves, attrs) || node_sat(*r, leaves, attrs),
    }
}

/// The views of a sequence of attributes.
pub open spec fn views_of(s: Seq<UserAttribute>) -> Seq<AttrView> {
    s.map_values(|ua: UserAttribute| ua@)
}

/// A boolean formula over attribute tests, with its leaves in a stable
/// order. Immutable once constructed, by parsing or by composition.
#[derive(Debug)]
pub struct Policy {
    /// The leaves in text order; reconstruction indices refer to this order.
    pub leaves: Vec<(UserAttribute, bool)>,
    /// How the leaves combine.
    pub tree: Node,
}

/// The left-leaning chain of conjunctions over leaves `0 .. n`, the shape
/// that both the parser (for text without parentheses or `|`) and
/// [`Policy::conjunction_of`] produce.
pub open spec fn and_chain(n: int) -> Node
    decreases n,
{
    if n <= 1 {
        Node::Leaf(0)
    } else {
        Node::And(Box::new(and_chain(n - 1)), Box::new(Node::Leaf((n - 1) as usize)))
    }
}

impl Policy {
    /// The leaves in order, each an attribute test and its negation flag.
    pub open spec fn spec_leaves(self) -> Seq<(UserAttribute, bool)> {
        self.leaves@
    }

    /// The tree of the formula.
    pub open spec fn spec_tree(self) -> Node {
        self.tree
    }

    /// A policy is well formed when its tree covers exactly its leaf
    /// sequence, in order, and the policy is non-empty and not beyond the
    /// size bound.
    pub open spec fn wf(self) -> bool {
        &&& node_wf(self.tree, 0)
        &&& leaf_count(self.tree) == self.leaves@.len()
        &&& 1 <= self.leaves@.len() <= MAX_LEAVES
    }

    /// Whether the held attributes satisfy the formula.
    pub open spec fn spec_sat(self, attrs: Seq<AttrView>) -> bool {
        node_sat(self.tree, self.leaves@, attrs)
    }

    /// How many leaves the policy has.
    pub fn len(&self) -> (r: usize)
        ensures
            r == self.spec_leaves().len(),
    {
        self.leaves.len()
    }

    /// The leaf at the index: its attribute test and whether it is negated.
    pub fn get(&self, idx: usize) -> (r: (UserAttribute, bool))
        requires
            idx < self.spec_leaves().len(),
        ensures
            r.0@ == self.spec_leaves()[idx as int].0@,
            r.1 == self.spec_leaves()[idx as int].1,
    {
        let (ua, neg) = &self.leaves[idx];
        (ua.duplicate(), *neg)
    }

    /// The conjunction of every attribute in the universe, in order, with
    /// the last `num_negs` of them negated.
    pub fn conjunction_of(universe: &Vec<UserAttribute>, num_negs: usize) -> (r: Policy)
        requires
            1 <= universe@.len() <= MAX_LEAVES,
            num_negs <= universe@.len(),
        ensures
            r.wf(),
            r.spec_leaves().len() == universe@.len(),
            forall|i: int|
                0 <= i < universe@.len() ==> r.spec_leaves()[i].0@ == universe@[i]@
                    && r.spec_leaves()[i].1 == (i >= universe@.len() - num_negs),
            r.spec_tree() == and_chain(universe@.len() as int),
    {
        let n = universe.len();
        let mut leaves: Vec<(UserAttribute, bool)> = Vec::new();
        let mut i: usize = 0;
        while i < n
            invariant
                i <= n,
                n == universe@.len(),
                num_negs <= n,
                leaves@.len() == i,
                forall|k: int|
                    0 <= k < i ==> leaves@[k].0@ == universe@[k]@ && leaves@[k].1 == (k >= n
                        - num_negs),
            decreases n - i,
        {
            let neg = i >= n - num_negs;
            leaves.push((universe[i].duplicate(), neg));
            i = i + 1;
        }
        let mut tree = Node::Leaf(0);
        let mut j: usize = 1;
        while j < n
            invariant
                1 <= j <= n,
                tree == and_chain(j as int),
            decreases n - j,
        {
            tree = Node::And(Box::new(tree), Box::new(Node::Leaf(j)));
            j = j + 1;
        }
        proof {
            lemma_and_chain_wf(n as int);
        }
        Policy { leaves, tree }
    }

    /// Parses policy text. On success the policy is well formed; the leaf
    /// order is the order of the atoms in the text.
    pub fn parse(text: &str) -> (r: Result<Policy, ParseError>)
        ensures
            r.is_ok() ==> r.unwrap().wf(),
    {
        let toks = tokenize(text)?;
        let mut leaves: Vec<(UserAttribute, bool)> = Vec::new();
        let mut pos: usize = 0;
        let tree = parse_formula(&toks, &mut pos, &mut leaves)?;
        if pos != toks.len() {
            // a closing parenthesis without its mate, or other trailing text
            match toks[pos] {
                Tok::Close => {
                    return Err(ParseError::UnbalancedParenthesis);
                },
                _ => {
                    return Err(ParseError::UnexpectedToken);
                },
            }
        }
        if leaves.len() > MAX_LEAVES {
            return Err(ParseError::FormulaTooLarge);
        }
        proof {
            lemma_leaf_count_pos(tree);
        }
        Ok(Policy { leaves, tree })
    }
}

/// Proves that the left-leaning conjunction chain over `n` leaves is well
/// formed and covers exactly `n` leaves.
pub proof fn lemma_and_chain_wf(n: int)
    requires
        1 <= n <= usize::MAX,
    ensures
        node_wf(and_chain(n), 0),
        leaf_count(and_chain(n)) == n,
    decreases n,
{
    if n <= 1 {
        assert(and_chain(n) == Node::Leaf(0));
        assert(node_wf(Node::Leaf(0), 0));
        assert(leaf_count(Node::Leaf(0)) == 1);
    } else {
        lemma_and_chain_wf(n - 1);
        let l = Box::new(and_chain(n - 1));
        let r = Box::new(Node::Leaf((n - 1) as usize));
        assert(and_chain(n) == Node::And(l, r));
        assert(leaf_count(Node::And(l, r)) == leaf_count(*l) + leaf_count(*r));
        assert(leaf_count(Node::Leaf((n - 1) as usize)) == 1);
        assert(node_wf(Node::And(l, r), 0) == (node_wf(*l, 0) && node_wf(*r, leaf_count(*l))));
        assert(node_wf(Node::Leaf((n - 1) as usize), n - 1));
    }
}

/// Proves that every tree has at least one leaf.
pub proof fn lemma_leaf_count_pos(n: Node)
    ensures
        leaf_count(n) >= 1,
    decreases n,
{
    match n {
        Node::Leaf(_) => {},
        Node::And(l, r) => {
            lemma_leaf_count_pos(*l);
            lemma_leaf_count_pos(*r);
        },
        Node::Or(l, r) => {
            lemma_leaf_count_pos(*l);
            lemma_leaf_count_pos(*r);
        },
    }
}

impl Clone for Policy {
    fn clone(&self) -> (r: Self)
        ensures
            r.spec_leaves().len() == self.spec_leaves().len(),
            forall|i: int|
                0 <= i < self.spec_leaves().len() ==> r.spec_leaves()[i].0@
                    == self.spec_leaves()[i].0@ && r.spec_leaves()[i].1
                    == self.spec_leaves()[i].1,
            r.spec_tree() == self.spec_tree(),
    {
        let mut leaves: Vec<(UserAttribute, bool)> = Vec::new();
        let n = self.leaves.len();
        let mut i: usize = 0;
        while i < n
            invariant
                i <= n,
                n == self.leaves@.len(),
                leaves@.len() == i,
                forall|k: int|
                    0 <= k < i ==> leaves@[k].0@ == self.leaves@[k].0@ && leaves@[k].1
                        == self.leaves@[k].1,
            decreases n - i,
        {
            let (ua, neg) = &self.leaves[i];
            leaves.push((ua.duplicate(), *neg));
            i = i + 1;
        }
        Policy { leaves, tree: clone_node(&self.tree) }
    }
}

/// A copy of a tree, equal to the one copied.
fn clone_node(n: &Node) -> (r: Node)
    ensures
        r == *n,
    decreases n,
{
    match n {
        Node::Leaf(i) => Node::Leaf(*i),
        Node::And(l, r) => Node::And(Box::new(clone_node(l)), Box::new(clone_node(r))),
        Node::Or(l, r) => Node::Or(Box::new(clone_node(l)), Box::new(clone_node(r))),
    }
}

/// Whether two trees are equal.
fn node_eq(a: &Node, b: &Node) -> (r: bool)
    ensures
        r == (*a == *b),
    decreases a,
{
    match (a, b) {
        (Node::Leaf(i), Node::Leaf(j)) => *i == *j,
        (Node::And(al, ar), Node::And(bl, br)) => node_eq(al, bl) && node_eq(ar, br),
        (Node::Or(al, ar), Node::Or(bl, br)) => node_eq(al, bl) && node_eq(ar, br),
        _ => false,
    }
}

impl PartialEq for Policy {
    fn eq(&self, other: &Self) -> (r: bool) {
        if self.leaves.len() != other.leaves.len() {
            return false;
        }
        let n = self.leaves.len();
        let mut i: usize = 0;
        while i < n
            invariant
                i <= n,
                n == self.leaves@.len() == other.leaves@.len(),
                forall|k: int|
                    0 <= k < i ==> self.leaves@[k].0@ == other.leaves@[k].0@ && self.leaves@[k].1
                        == other.leaves@[k].1,
            decreases n - i,
        {
            let (ua_a, neg_a) = &self.leaves[i];
            let (ua_b, neg_b) = &other.leaves[i];
            if !(ua_a == ua_b) || *neg_a != *neg_b {
                return false;
            }
            i = i + 1;
        }
        node_eq(&self.tree, &other.tree)
    }
}

impl vstd::std_specs::cmp::PartialEqSpecImpl for Policy {
    open spec fn obeys_eq_spec() -> bool {
        true
    }

    open spec fn eq_spec(&self, other: &Self) -> bool {
        &&& self.leaves@.len() == other.leaves@.len()
        &&& forall|k: int|
            0 <= k < self.leaves@.len() ==> self.leaves@[k].0@ == other.leaves@[k].0@
                && self.leaves@[k].1 == other.leaves@[k].1
        &&& self.tree == other.tree
    }
}

/// One token of policy text.
enum Tok {
    AndOp,
    OrOp,
    Not,
    Open,
    Close,
    Atom(UserAttribute),
}

/// Whether the character separates tokens without being one.
fn is_space(c: char) -> bool {
    c == ' ' || c == '\t' || c == '\n' || c == '\r'
}

/// Whether the character is an operator or parenthesis token of its own.
fn is_special(c: char) -> bool {
    c == '&' || c == '|' || c == '!' || c == '(' || c == ')'
}

/// Splits policy text into tokens: operators and parentheses stand alone,
/// any other run of non-blank characters is an atom, parsed as an
/// attribute test.
fn tokenize(text: &str) -> Result<Vec<Tok>, ParseError> {
    let n = text.unicode_len();
    let mut toks: Vec<Tok> = Vec::new();
    let mut i: usize = 0;
    while i < n
        invariant
            i <= n,
            n == text@.len(),
        decreases n - i,
    {
        let c = text.get_char(i);
        if is_space(c) {
            i = i + 1;
        } else if c == '&' {
            toks.push(Tok::AndOp);
            i = i + 1;
        } else if c == '|' {
            toks.push(Tok::OrOp);
            i = i + 1;
        } else if c == '!' {
            toks.push(Tok::Not);
            i = i + 1;
        } else if c == '(' {
            toks.push(Tok::Open);
            i = i + 1;
        } else if c == ')' {
            toks.push(Tok::Close);
            i = i + 1;
        } else {
            let start = i;
            let mut j = i + 1;
            while j < n
                invariant
                    start < j <= n,
                    n == text@.len(),
                decreases n - j,
            {
                let d = text.get_char(j);
                if is_space(d) || is_special(d) {
                    break ;
                }
                j = j + 1;
            }
            let atom_text = text.substring_char(start, j);
            let ua = UserAttribute::parse(atom_text)?;
            toks.push(Tok::Atom(ua));
            i = j;
        }
    }
    Ok(toks)
}

/// Parses `term (("&" | "|") term)*`, grouped left to right, appending the
/// atoms met on the way to `leaves`.
fn parse_formula(toks: &Vec<Tok>, pos: &mut usize, leaves: &mut Vec<(UserAttribute, bool)>) -> (r:
    Result<Node, ParseError>)
    requires
        old(pos)@ <= toks@.len(),
    ensures
        *old(pos) <= *final(pos) <= toks@.len(),
        final(leaves)@.len() >= old(leaves)@.len(),
        forall|k: int| 0 <= k < old(leaves)@.len() ==> final(leaves)@[k] == old(leaves)@[k],
        r.is_ok() ==> node_wf(r.unwrap(), old(leaves)@.len() as int) && old(leaves)@.len()
            + leaf_count(r.unwrap()) == final(leaves)@.len(),
    decreases toks@.len() - *old(pos), 1int,
{
    let mut node = parse_term(toks, pos, leaves)?;
    loop
        invariant
            *old(pos) < *pos <= toks@.len(),
            leaves@.len() >= old(leaves)@.len(),
            forall|k: int| 0 <= k < old(leaves)@.len() ==> leaves@[k] == old(leaves)@[k],
            node_wf(node, old(leaves)@.len() as int),
            old(leaves)@.len() + leaf_count(node) == leaves@.len(),
        decreases toks@.len() - *pos,
    {
        if *pos >= toks.len() {
            break ;
        }
        let is_and = match &toks[*pos] {
            Tok::AndOp => true,
            Tok::OrOp => false,
            _ => {
                break ;
            },
        };
        *pos = *pos + 1;
        let rhs = parse_term(toks, pos, leaves)?;
        node = if is_and {
            Node::And(Box::new(node), Box::new(rhs))
        } else {
            Node::Or(Box::new(node), Box::new(rhs))
        };
    }
    Ok(node)
}

/// Parses `"!"? (atom | "(" formula ")")`, appending the atoms met on the
/// way to `leaves`.
fn parse_term(toks: &Vec<Tok>, pos: &mut usize, leaves: &mut Vec<(UserAttribute, bool)>) -> (r:
    Result<Node, ParseError>)
    requires
        old(pos)@ <= toks@.len(),
    ensures
        *old(pos) <= *final(pos) <= toks@.len(),
        final(leaves)@.len() >= old(leaves)@.len(),
        forall|k: int| 0 <= k < old(leaves)@.len() ==> final(leaves)@[k] == old(leaves)@[k],
        r.is_ok() ==> node_wf(r.unwrap(), old(leaves)@.len() as int) && old(leaves)@.len()
            + leaf_count(r.unwrap()) == final(leaves)@.len(),
        r.is_ok() ==> *final(pos) > *old(pos),
    decreases toks@.len() - *old(pos), 0int,
{
    if *pos >= toks.len() {
        return Err(ParseError::EmptyFormula);
    }
    let mut negated = false;
    match &toks[*pos] {
        Tok::Not => {
            negated = true;
            *pos = *pos + 1;
            if *pos >= toks.len() {
                return Err(ParseError::UnexpectedToken);
            }
        },
        _ => {},
    }
    match &toks[*pos] {
        Tok::Atom(ua) => {
            let idx = leaves.len();
            leaves.push((ua.duplicate(), negated));
            *pos = *pos + 1;
            Ok(Node::Leaf(idx))
        },
        Tok::Open => {
            *pos = *pos + 1;
            let ghost_lo: Ghost<int> = Ghost(leaves@.len() as int);
            let inner = parse_formula(toks, pos, leaves)?;
            if *pos >= toks.len() {
                return Err(ParseError::UnbalancedParenthesis);
            }
            match &toks[*pos] {
                Tok::Close => {
                    *pos = *pos + 1;
                },
                _ => {
                    return Err(ParseError::UnexpectedToken);
                },
            }
            if negated {
                proof {
                    lemma_leaf_count_pos(inner);
                }
                let flipped = negate_node(inner, leaves, Ghost(ghost_lo@));
                Ok(flipped)
            } else {
                Ok(inner)
            }
        },
        Tok::Close => Err(if negated {
            ParseError::UnexpectedToken
        } else {
            ParseError::EmptyFormula
        }),
        _ => Err(ParseError::UnexpectedToken),
    }
}

/// The negation of a subtree, pushed down to the leaves: conjunction and
/// disjunction swap, and every leaf under the subtree flips its flag while
/// keeping its attribute; leaves outside the subtree stay as they were.
fn negate_node(n: Node, leaves: &mut Vec<(UserAttribute, bool)>, Ghost(lo): Ghost<int>) -> (r:
    Node)
    requires
        node_wf(n, lo),
        0 <= lo,
        lo + leaf_count(n) <= old(leaves)@.len(),
    ensures
        final(leaves)@.len() == old(leaves)@.len(),
        leaf_count(r) == leaf_count(n),
        node_wf(r, lo),
        forall|k: int|
            0 <= k < old(leaves)@.len() && !(lo <= k < lo + leaf_count(n)) ==> final(leaves)@[k]
                == old(leaves)@[k],
        forall|k: int|
            lo <= k < lo + leaf_count(n) ==> final(leaves)@[k].0@ == old(leaves)@[k].0@
                && final(leaves)@[k].1 == !old(leaves)@[k].1,
    decreases n,
{
    match n {
        Node::Leaf(i) => {
            let flag = leaves[i].1;
            let (ua, _) = &leaves[i];
            let dup = ua.duplicate();
            leaves.set(i, (dup, !flag));
            Node::Leaf(i)
        },
        Node::And(l, r) => {
            proof {
                lemma_leaf_count_pos(*l);
                lemma_leaf_count_pos(*r);
            }
            let ghost mid = lo + leaf_count(*l);
            let nl = negate_node(*l, leaves, Ghost(lo));
            let nr = negate_node(*r, leaves, Ghost(mid));
            Node::Or(Box::new(nl), Box::new(nr))
        },
        Node::Or(l, r) => {
            proof {
                lemma_leaf_count_pos(*l);
                lemma_leaf_count_pos(*r);
            }
            let ghost mid = lo + leaf_count(*l);
            let nl = negate_node(*l, leaves, Ghost(lo));
            let nr = negate_node(*r, leaves, Ghost(mid));
            Node::And(Box::new(nl), Box::new(nr))
        },
    }
}

} // verus!
