//! Synthesis of test inputs: parameter presets and generators that build
//! families of (attribute set, policy) pairs of controlled shape — varying
//! the number of authorities, labels, values, or the universe size — for
//! exercising the protocol variants on inputs of growing size.
use vstd::prelude::*;
use vstd::string::StringExecFns;

use crate::attribute::UserAttribute;
use crate::policy::{Policy, MAX_LEAVES};

verus! {

/// The digit character of a value below ten.
pub open spec fn digit_char(d: int) -> char {
    if d == 0 {
        '0'
    } else if d == 1 {
        '1'
    } else if d == 2 {
        '2'
    } else if d == 3 {
        '3'
    } else if d == 4 {
        '4'
    } else if d == 5 {
        '5'
    } else if d == 6 {
        '6'
    } else if d == 7 {
        '7'
    } else if d == 8 {
        '8'
    } else {
        '9'
    }
}

/// The decimal text of a number.
pub open spec fn dec_rep(n: int) -> Seq<char>
    decreases n,
{
    if n < 10 {
        seq![digit_char(n)]
    } else {
        dec_rep(n / 10).push(digit_char(n % 10))
    }
}

/// The digit character of a value below ten, as text.
fn digit_str(d: usize) -> (r: &'static str)
    requires
        d < 10,
    ensures
        r@ == seq![digit_char(d as int)],
{
    proof {
        reveal_strlit("0");
        reveal_strlit("1");
        reveal_strlit("2");
        reveal_strlit("3");
        reveal_strlit("4");
        reveal_strlit("5");
        reveal_strlit("6");
        reveal_strlit("7");
        reveal_strlit("8");
        reveal_strlit("9");
    }
    if d == 0 {
        "0"
    } else if d == 1 {
        "1"
    } else if d == 2 {
        "2"
    } else if d == 3 {
        "3"
    } else if d == 4 {
        "4"
    } else if d == 5 {
        "5"
    } else if d == 6 {
        "6"
    } else if d == 7 {
        "7"
    } else if d == 8 {
        "8"
    } else {
        "9"
    }
}

/// The decimal text of a number.
pub fn num_to_string(n: usize) -> (r: String)
    ensures
        r@ == dec_rep(n as int),
    decreases n,
{
    if n < 10 {
        digit_str(n).to_owned()
    } else {
        let prefix = num_to_string(n / 10);
        prefix.concat(digit_str(n % 10))
    }
}

/// How many digits the decimal text of a number has.
pub fn digit_count(n: usize) -> (r: usize)
    ensures
        r as int == dec_rep(n as int).len(),
        r >= 1,
{
    let text = num_to_string(n);
    let r = text.as_str().unicode_len();
    proof {
        assert(dec_rep(n as int).len() >= 1);
    }
    r
}

/// A run of zero characters.
pub open spec fn zeroes(k: int) -> Seq<char>
    decreases k,
{
    if k <= 0 {
        Seq::empty()
    } else {
        zeroes(k - 1).push('0')
    }
}

/// The decimal text of a number, left-padded with zeroes to the width.
pub fn num_padded(n: usize, width: usize) -> (r: String)
    ensures
        r@ == zeroes(width - dec_rep(n as int).len()) + dec_rep(n as int),
        r@.len() >= 1,
{
    let digits = digit_count(n);
    let target = if width > digits {
        width - digits
    } else {
        0
    };
    proof {
        if width <= digits {
            assert(zeroes(width - dec_rep(n as int).len()) =~= Seq::<char>::empty());
        }
    }
    let mut out = String::new();
    let mut pad: usize = 0;
    while pad < target
        invariant
            pad <= target,
            out@ =~= zeroes(pad as int),
        decreases target - pad,
    {
        proof {
            reveal_strlit("0");
        }
        out.append("0");
        proof {
            assert(out@ =~= zeroes(pad as int).push('0'));
        }
        pad = pad + 1;
    }
    let num = num_to_string(n);
    let r = out.concat(num.as_str());
    proof {
        assert(dec_rep(n as int).len() >= 1);
        assert(r@ =~= zeroes(width - dec_rep(n as int).len()) + dec_rep(n as int));
    }
    r
}

/// Joins a stem and a number with an underscore: the names the generators
/// give to authorities, labels and values.
pub fn stem_num(stem: &str, n: usize) -> (r: String)
    ensures
        r@ == stem@ + seq!['_'] + dec_rep(n as int),
{
    proof {
        reveal_strlit("_");
    }
    let mut out = stem.to_owned();
    out.append("_");
    let num = num_to_string(n);
    let r = out.concat(num.as_str());
    proof {
        assert(r@ =~= stem@ + seq!['_'] + dec_rep(n as int));
    }
    r
}

/// Joins a stem and a zero-padded number with an underscore.
pub fn stem_num_padded(stem: &str, n: usize, width: usize) -> (r: String)
    ensures
        r@ == stem@ + seq!['_'] + zeroes(width - dec_rep(n as int).len()) + dec_rep(n as int),
{
    proof {
        reveal_strlit("_");
    }
    let mut out = stem.to_owned();
    out.append("_");
    let num = num_padded(n, width);
    let r = out.concat(num.as_str());
    proof {
        assert(r@ =~= stem@ + seq!['_'] + zeroes(width - dec_rep(n as int).len()) + dec_rep(
            n as int,
        ));
    }
    r
}

/// A preset of benchmark dimensions: the policy length and which test
/// sizes and negation degrees to sweep.
pub struct BenchParams {
    /// How many leaves the policies have.
    pub policy_len: usize,
    /// The test sizes to sweep.
    pub test_sizes: Vec<usize>,
    /// The negation degrees to sweep.
    pub neg_degrees: Vec<usize>,
}

impl BenchParams {
    pub fn micro() -> (r: Self)
        ensures
            r.policy_len == 6,
            r.test_sizes@ == seq![1usize, 2usize, 3usize, 6usize],
            r.neg_degrees@ == seq![0usize, 1usize],
    {
        let mut test_sizes: Vec<usize> = Vec::new();
        test_sizes.push(1);
        test_sizes.push(2);
        test_sizes.push(3);
        test_sizes.push(6);
        let mut neg_degrees: Vec<usize> = Vec::new();
        neg_degrees.push(0);
        neg_degrees.push(1);
        proof {
            assert(test_sizes@ =~= seq![1usize, 2usize, 3usize, 6usize]);
            assert(neg_degrees@ =~= seq![0usize, 1usize]);
        }
        BenchParams { policy_len: 6, test_sizes, neg_degrees }
    }

    pub fn small() -> (r: Self)
        ensures
            r.policy_len == 12,
            r.test_sizes@ == seq![1usize, 2usize, 3usize, 4usize, 6usize, 12usize],
            r.neg_degrees@ == seq![0usize, 2usize],
    {
        let mut test_sizes: Vec<usize> = Vec::new();
        test_sizes.push(1);
        test_sizes.push(2);
        test_sizes.push(3);
        test_sizes.push(4);
        test_sizes.push(6);
        test_sizes.push(12);
        let mut neg_degrees: Vec<usize> = Vec::new();
        neg_degrees.push(0);
        neg_degrees.push(2);
        proof {
            assert(test_sizes@ =~= seq![1usize, 2usize, 3usize, 4usize, 6usize, 12usize]);
            assert(neg_degrees@ =~= seq![0usize, 2usize]);
        }
        BenchParams { policy_len: 12, test_sizes, neg_degrees }
    }

    pub fn medium() -> (r: Self)
        ensures
            r.policy_len == 30,
            r.test_sizes@ == seq![1usize, 2usize, 3usize, 5usize, 6usize, 10usize, 15usize, 30usize],
            r.neg_degrees@ == seq![0usize, 3usize, 6usize, 9usize],
    {
        let mut test_sizes: Vec<usize> = Vec::new();
        test_sizes.push(1);
        test_sizes.push(2);
        test_sizes.push(3);
        test_sizes.push(5);
        test_sizes.push(6);
        test_sizes.push(10);
        test_sizes.push(15);
        test_sizes.push(30);
        let mut neg_degrees: Vec<usize> = Vec::new();
        neg_degrees.push(0);
        neg_degrees.push(3);
        neg_degrees.push(6);
        neg_degrees.push(9);
        proof {
            assert(test_sizes@ =~= seq![1usize, 2usize, 3usize, 5usize, 6usize, 10usize, 15usize, 30usize]);
            assert(neg_degrees@ =~= seq![0usize, 3usize, 6usize, 9usize]);
        }
        BenchParams { policy_len: 30, test_sizes, neg_degrees }
    }

    pub fn large_strat_01a() -> (r: Self)
        ensures
            r.policy_len == 100,
            r.test_sizes@ == Seq::<usize>::empty(),
            r.neg_degrees@ == Seq::<usize>::empty(),
    {
        let test_sizes: Vec<usize> = Vec::new();
        let neg_degrees: Vec<usize> = Vec::new();
        proof {
            assert(test_sizes@ =~= Seq::<usize>::empty());
            assert(neg_degrees@ =~= Seq::<usize>::empty());
        }
        BenchParams { policy_len: 100, test_sizes, neg_degrees }
    }

    pub fn large_strat_01b() -> (r: Self)
        ensures
            r.policy_len == 50,
            r.test_sizes@ == Seq::<usize>::empty(),
            r.neg_degrees@ == Seq::<usize>::empty(),
    {
        let test_sizes: Vec<usize> = Vec::new();
        let neg_degrees: Vec<usize> = Vec::new();
        proof {
            assert(test_sizes@ =~= Seq::<usize>::empty());
            assert(neg_degrees@ =~= Seq::<usize>::empty());
        }
        BenchParams { policy_len: 50, test_sizes, neg_degrees }
    }

    pub fn large_strat_02() -> (r: Self)
        ensures
            r.policy_len == 60,
            r.test_sizes@ == seq![1usize, 2usize, 3usize, 4usize, 5usize, 6usize, 10usize, 12usize, 30usize, 60usize],
            r.neg_degrees@ == seq![0usize, 1usize, 4usize, 7usize],
    {
        let mut test_sizes: Vec<usize> = Vec::new();
        test_sizes.push(1);
        test_sizes.push(2);
        test_sizes.push(3);
        test_sizes.push(4);
        test_sizes.push(5);
        test_sizes.push(6);
        test_sizes.push(10);
        test_sizes.push(12);
        test_sizes.push(30);
        test_sizes.push(60);
        let mut neg_degrees: Vec<usize> = Vec::new();
        neg_degrees.push(0);
        neg_degrees.push(1);
        neg_degrees.push(4);
        neg_degrees.push(7);
        proof {
            assert(test_sizes@ =~= seq![1usize, 2usize, 3usize, 4usize, 5usize, 6usize, 10usize, 12usize, 30usize, 60usize]);
            assert(neg_degrees@ =~= seq![0usize, 1usize, 4usize, 7usize]);
        }
        BenchParams { policy_len: 60, test_sizes, neg_degrees }
    }

    pub fn huge() -> (r: Self)
        ensures
            r.policy_len == 120,
            r.test_sizes@ == seq![1usize, 2usize, 3usize, 4usize, 5usize, 6usize, 8usize, 10usize, 12usize, 15usize, 24usize, 30usize, 40usize, 60usize, 120usize],
            r.neg_degrees@ == seq![0usize, 20usize],
    {
        let mut test_sizes: Vec<usize> = Vec::new();
        test_sizes.push(1);
        test_sizes.push(2);
        test_sizes.push(3);
        test_sizes.push(4);
        test_sizes.push(5);
        test_sizes.push(6);
        test_sizes.push(8);
        test_sizes.push(10);
        test_sizes.push(12);
        test_sizes.push(15);
        test_sizes.push(24);
        test_sizes.push(30);
        test_sizes.push(40);
        test_sizes.push(60);
        test_sizes.push(120);
        let mut neg_degrees: Vec<usize> = Vec::new();
        neg_degrees.push(0);
        neg_degrees.push(20);
        proof {
            assert(test_sizes@ =~= seq![1usize, 2usize, 3usize, 4usize, 5usize, 6usize, 8usize, 10usize, 12usize, 15usize, 24usize, 30usize, 40usize, 60usize, 120usize]);
            assert(neg_degrees@ =~= seq![0usize, 20usize]);
        }
        BenchParams { policy_len: 120, test_sizes, neg_degrees }
    }

    /// One benchmark case's name: the variant, the swept parameter, the
    /// test size, the policy length and the negation degree, joined by
    /// underscores.
    pub fn describe(
        &self,
        scheme_variant: &str,
        test_param: &str,
        test_size: usize,
        neg_degree: usize,
    ) -> (r: String)
        ensures
            r@ == scheme_variant@ + seq!['_'] + test_param@ + seq!['_'] + dec_rep(
                test_size as int,
            ) + seq!['_'] + dec_rep(self.policy_len as int) + seq!['_'] + dec_rep(
                neg_degree as int,
            ),
    {
        proof {
            reveal_strlit("_");
        }
        let mut out = scheme_variant.to_owned();
        out.append("_");
        out.append(test_param);
        out.append("_");
        let a = num_to_string(test_size);
        out.append(a.as_str());
        out.append("_");
        let b = num_to_string(self.policy_len);
        out.append(b.as_str());
        out.append("_");
        let c = num_to_string(neg_degree);
        let r = out.concat(c.as_str());
        proof {
            assert(r@ =~= scheme_variant@ + seq!['_'] + test_param@ + seq!['_'] + dec_rep(
                test_size as int,
            ) + seq!['_'] + dec_rep(self.policy_len as int) + seq!['_'] + dec_rep(
                neg_degree as int,
            ));
        }
        r
    }
}

/// Which position of the attribute the swept item fills when one item is
/// merged with a universe of pairs.
pub enum UnaryRole {
    AsAuth,
    AsLbl,
    AsAttr,
}

/// Which position of the attribute the universe fills when a pair of items
/// is merged with a universe of single names.
pub enum BinaryRole {
    UniverseIsLbl,
    UniverseIsAttr,
    UniverseIsAuth,
}

/// The name a stem and a number join to.
pub open spec fn plain_name(stem: Seq<char>, n: int) -> Seq<char> {
    stem + seq!['_'] + dec_rep(n)
}

/// The name a stem and a zero-padded number join to.
pub open spec fn padded_name(stem: Seq<char>, n: int, width: int) -> Seq<char> {
    stem + seq!['_'] + zeroes(width - dec_rep(n).len()) + dec_rep(n)
}

/// The attribute a universe pair and a swept item merge to, the item
/// filling the given position.
pub open spec fn unary_merge(
    x: Seq<char>,
    y: Seq<char>,
    z: Seq<char>,
    role: UnaryRole,
) -> crate::attribute::AttrView {
    match role {
        UnaryRole::AsAuth => crate::attribute::AttrView { auth: z, lbl: x, attr: y },
        UnaryRole::AsLbl => crate::attribute::AttrView { auth: x, lbl: z, attr: y },
        UnaryRole::AsAttr => crate::attribute::AttrView { auth: x, lbl: y, attr: z },
    }
}

/// The attribute a universe name and a swept item pair merge to, the
/// universe filling the given position.
pub open spec fn binary_merge(
    z: Seq<char>,
    x: Seq<char>,
    y: Seq<char>,
    role: BinaryRole,
) -> crate::attribute::AttrView {
    match role {
        BinaryRole::UniverseIsLbl => crate::attribute::AttrView { auth: x, lbl: z, attr: y },
        BinaryRole::UniverseIsAttr => crate::attribute::AttrView { auth: x, lbl: y, attr: z },
        BinaryRole::UniverseIsAuth => crate::attribute::AttrView { auth: z, lbl: x, attr: y },
    }
}

/// Evenly distributes the paired universe over the swept items: each item
/// takes one contiguous chunk. Uneven division is a configuration error,
/// ruled out by the precondition.
fn distribute_unary(
    items: &Vec<(String, String)>,
    groups: &Vec<String>,
    role: &UnaryRole,
) -> (r: Vec<UserAttribute>)
    requires
        groups@.len() >= 1,
        items@.len() >= groups@.len(),
        items@.len() % groups@.len() == 0,
    ensures
        r@.len() == items@.len(),
        forall|i: int|
            0 <= i < r@.len() ==> (#[trigger] r@[i])@ == unary_merge(
                items@[i].0@,
                items@[i].1@,
                groups@[i / (items@.len() as int / groups@.len() as int)]@,
                *role,
            ),
{
    let group_size = items.len() / groups.len();
    let mut out: Vec<UserAttribute> = Vec::new();
    let ng = groups.len();
    let mut g: usize = 0;
    while g < ng
        invariant
            g <= ng,
            ng == groups@.len(),
            ng >= 1,
            group_size as int == items@.len() as int / ng as int,
            items@.len() as int % ng as int == 0,
            out@.len() as int == g as int * group_size as int,
            forall|i: int|
                0 <= i < out@.len() ==> (#[trigger] out@[i])@ == unary_merge(
                    items@[i].0@,
                    items@[i].1@,
                    groups@[i / (items@.len() as int / ng as int)]@,
                    *role,
                ),
        decreases ng - g,
    {
        let z = &groups[g];
        let mut c: usize = 0;
        while c < group_size
            invariant
                c <= group_size,
                g < ng,
                ng == groups@.len(),
                group_size as int == items@.len() as int / ng as int,
                items@.len() as int % ng as int == 0,
                out@.len() as int == g as int * group_size as int + c as int,
                z == &groups@[g as int],
                forall|i: int|
                    0 <= i < out@.len() ==> (#[trigger] out@[i])@ == unary_merge(
                        items@[i].0@,
                        items@[i].1@,
                        groups@[i / (items@.len() as int / ng as int)]@,
                        *role,
                    ),
            decreases group_size - c,
        {
            proof {
                assert((g as int * group_size as int + c as int) < (ng as int
                    * group_size as int)) by (nonlinear_arith)
                    requires
                        0 <= g < ng,
                        0 <= c < group_size,
                ;
                assert((ng as int * group_size as int) <= items@.len() as int) by (nonlinear_arith)
                    requires
                        ng >= 1,
                        group_size as int == items@.len() as int / ng as int,
                        items@.len() as int % ng as int == 0,
                ;
                assert((g as int * group_size as int + c as int) < items@.len() as int);
            }
            let idx = out.len();
            let (x, y) = &items[idx];
            let ua = match role {
                UnaryRole::AsAuth => UserAttribute::new(z.as_str(), x.as_str(), y.as_str()),
                UnaryRole::AsLbl => UserAttribute::new(x.as_str(), z.as_str(), y.as_str()),
                UnaryRole::AsAttr => UserAttribute::new(x.as_str(), y.as_str(), z.as_str()),
            };
            proof {
                assert((idx as int) / (items@.len() as int / ng as int) == g as int)
                    by (nonlinear_arith)
                    requires
                        group_size as int == items@.len() as int / ng as int,
                        group_size >= 1,
                        idx as int == g as int * group_size as int + c as int,
                        0 <= c < group_size,
                        0 <= g,
                ;
                assert(ua@ == unary_merge(
                    items@[idx as int].0@,
                    items@[idx as int].1@,
                    groups@[g as int]@,
                    *role,
                ));
            }
            out.push(ua);
            c = c + 1;
        }
        proof {
            assert(((g + 1) as int * group_size as int) == (g as int * group_size as int
                + group_size as int)) by (nonlinear_arith);
        }
        g = g + 1;
    }
    proof {
        assert((ng as int * group_size as int) == items@.len() as int) by (nonlinear_arith)
            requires
                ng >= 1,
                group_size as int == items@.len() as int / ng as int,
                items@.len() as int % ng as int == 0,
        ;
    }
    out
}

/// Evenly distributes the single-name universe over the swept item pairs.
fn distribute_binary(
    items: &Vec<String>,
    groups: &Vec<(String, String)>,
    role: &BinaryRole,
) -> (r: Vec<UserAttribute>)
    requires
        groups@.len() >= 1,
        items@.len() >= groups@.len(),
        items@.len() % groups@.len() == 0,
    ensures
        r@.len() == items@.len(),
        forall|i: int|
            0 <= i < r@.len() ==> (#[trigger] r@[i])@ == binary_merge(
                items@[i]@,
                groups@[i / (items@.len() as int / groups@.len() as int)].0@,
                groups@[i / (items@.len() as int / groups@.len() as int)].1@,
                *role,
            ),
{
    let group_size = items.len() / groups.len();
    let mut out: Vec<UserAttribute> = Vec::new();
    let ng = groups.len();
    let mut g: usize = 0;
    while g < ng
        invariant
            g <= ng,
            ng == groups@.len(),
            ng >= 1,
            group_size as int == items@.len() as int / ng as int,
            items@.len() as int % ng as int == 0,
            out@.len() as int == g as int * group_size as int,
            forall|i: int|
                0 <= i < out@.len() ==> (#[trigger] out@[i])@ == binary_merge(
                    items@[i]@,
                    groups@[i / (items@.len() as int / ng as int)].0@,
                    groups@[i / (items@.len() as int / ng as int)].1@,
                    *role,
                ),
        decreases ng - g,
    {
        let (x, y) = &groups[g];
        let mut c: usize = 0;
        while c < group_size
            invariant
                c <= group_size,
                g < ng,
                ng == groups@.len(),
                group_size as int == items@.len() as int / ng as int,
                items@.len() as int % ng as int == 0,
                out@.len() as int == g as int * group_size as int + c as int,
                x == &groups@[g as int].0,
                y == &groups@[g as int].1,
                forall|i: int|
                    0 <= i < out@.len() ==> (#[trigger] out@[i])@ == binary_merge(
                        items@[i]@,
                        groups@[i / (items@.len() as int / ng as int)].0@,
                        groups@[i / (items@.len() as int / ng as int)].1@,
                        *role,
                    ),
            decreases group_size - c,
        {
            proof {
                assert((g as int * group_size as int + c as int) < (ng as int
                    * group_size as int)) by (nonlinear_arith)
                    requires
                        0 <= g < ng,
                        0 <= c < group_size,
                ;
                assert((ng as int * group_size as int) <= items@.len() as int) by (nonlinear_arith)
                    requires
                        ng >= 1,
                        group_size as int == items@.len() as int / ng as int,
                        items@.len() as int % ng as int == 0,
                ;
                assert((g as int * group_size as int + c as int) < items@.len() as int);
            }
            let idx = out.len();
            let z = &items[idx];
            let ua = match role {
                BinaryRole::UniverseIsLbl => UserAttribute::new(x.as_str(), z.as_str(), y.as_str()),
                BinaryRole::UniverseIsAttr => UserAttribute::new(
                    x.as_str(),
                    y.as_str(),
                    z.as_str(),
                ),
                BinaryRole::UniverseIsAuth => UserAttribute::new(
                    z.as_str(),
                    x.as_str(),
                    y.as_str(),
                ),
            };
            proof {
                assert((idx as int) / (items@.len() as int / ng as int) == g as int)
                    by (nonlinear_arith)
                    requires
                        group_size as int == items@.len() as int / ng as int,
                        group_size >= 1,
                        idx as int == g as int * group_size as int + c as int,
                        0 <= c < group_size,
                        0 <= g,
                ;
                assert(ua@ == binary_merge(
                    items@[idx as int]@,
                    groups@[g as int].0@,
                    groups@[g as int].1@,
                    *role,
                ));
            }
            out.push(ua);
            c = c + 1;
        }
        proof {
            assert(((g + 1) as int * group_size as int) == (g as int * group_size as int
                + group_size as int)) by (nonlinear_arith);
        }
        g = g + 1;
    }
    proof {
        assert((ng as int * group_size as int) == items@.len() as int) by (nonlinear_arith)
            requires
                ng >= 1,
                group_size as int == items@.len() as int / ng as int,
                items@.len() as int % ng as int == 0,
        ;
    }
    out
}

/// The attribute view is one a policy's expansion may produce: a plain
/// leaf's own attribute, or an alternative for a negated leaf — the same
/// authority and label, with the excluded value extended by an underscore
/// and a number below the degree.
pub open spec fn expansion_witness(
    v: crate::attribute::AttrView,
    leaves: Seq<(UserAttribute, bool)>,
    deg: int,
    w: (int, int),
) -> bool {
    &&& 0 <= w.0 < leaves.len()
    &&& if leaves[w.0].1 {
        &&& 0 <= w.1 < deg
        &&& v.auth == leaves[w.0].0@.auth
        &&& v.lbl == leaves[w.0].0@.lbl
        &&& v.attr == plain_name(leaves[w.0].0@.attr, w.1)
    } else {
        v == leaves[w.0].0@
    }
}

/// The attribute view comes from the policy's expansion.
pub open spec fn expanded_from(
    v: crate::attribute::AttrView,
    leaves: Seq<(UserAttribute, bool)>,
    deg: int,
) -> bool {
    exists|w: (int, int)| #[trigger] expansion_witness(v, leaves, deg, w)
}

/// Expands a policy's attribute side for a negation degree: every plain
/// leaf contributes its own attribute, and each first negated leaf of an
/// (authority, label) pair contributes that many alternative values.
/// Every produced attribute is a plain leaf's own, or an alternative for
/// a negated leaf.
fn expand_neg_alternatives(policy: &Policy, neg_degree: usize) -> (r: Vec<UserAttribute>)
    requires
        policy.wf(),
    ensures
        forall|a: int|
            0 <= a < r@.len() ==> expanded_from(
                (#[trigger] r@[a])@,
                policy.spec_leaves(),
                neg_degree as int,
            ),
{
    let mut user_attrs: Vec<UserAttribute> = Vec::new();
    let mut done: Vec<(String, String)> = Vec::new();
    let n = policy.len();
    let mut i: usize = 0;
    while i < n
        invariant
            i <= n,
            n == policy.spec_leaves().len(),
            policy.wf(),
            forall|a: int|
                0 <= a < user_attrs@.len() ==> expanded_from(
                    (#[trigger] user_attrs@[a])@,
                    policy.spec_leaves(),
                    neg_degree as int,
                ),
        decreases n - i,
    {
        let (ua, neg) = policy.get(i);
        if neg {
            let mut seen = false;
            let nd = done.len();
            let mut d: usize = 0;
            while d < nd
                invariant
                    d <= nd,
                    nd == done@.len(),
                decreases nd - d,
            {
                if done[d].0 == ua.auth && done[d].1 == ua.lbl {
                    seen = true;
                    break ;
                }
                d = d + 1;
            }
            if !seen {
                let mut j: usize = 0;
                while j < neg_degree
                    invariant
                        j <= neg_degree,
                        i < n,
                        n == policy.spec_leaves().len(),
                        policy.wf(),
                        policy.spec_leaves()[i as int].1,
                        ua@ == policy.spec_leaves()[i as int].0@,
                        forall|a: int|
                            0 <= a < user_attrs@.len() ==> expanded_from(
                                (#[trigger] user_attrs@[a])@,
                                policy.spec_leaves(),
                                neg_degree as int,
                            ),
                    decreases neg_degree - j,
                {
                    let alt = stem_num(ua.attr.as_str(), j);
                    let fresh = UserAttribute::new(ua.auth.as_str(), ua.lbl.as_str(), alt.as_str());
                    proof {
                        assert(expansion_witness(
                            fresh@,
                            policy.spec_leaves(),
                            neg_degree as int,
                            (i as int, j as int),
                        ));
                    }
                    user_attrs.push(fresh);
                    j = j + 1;
                }
                done.push((ua.auth.clone(), ua.lbl.clone()));
            }
        } else {
            proof {
                assert(expansion_witness(
                    ua@,
                    policy.spec_leaves(),
                    neg_degree as int,
                    (i as int, 0int),
                ));
            }
            user_attrs.push(ua);
        }
        i = i + 1;
    }
    user_attrs
}

/// The fields of a one-dimensional sweep built from the given dimensions
/// with the given padding width: a paired universe of numbered names, the
/// swept items likewise, the counts as given, and every swept leaf
/// negated exactly when the degree is positive.
pub open spec fn unary_sweep_fields(
    v: UnaryVariation,
    size: int,
    deg: int,
    counts: Seq<usize>,
    s1: Seq<char>,
    s2: Seq<char>,
    item: Seq<char>,
    role: UnaryRole,
    w: int,
) -> bool {
    &&& v.universe@.len() == size
    &&& forall|j: int|
        0 <= j < size ==> (#[trigger] v.universe@[j]).0@ == padded_name(s1, j, w)
            && v.universe@[j].1@ == padded_name(s2, j, w)
    &&& forall|j: int|
        0 <= j < v.test_items@.len() ==> (#[trigger] v.test_items@[j])@ == padded_name(item, j, w)
    &&& v.test_item_counts@ == counts
    &&& v.neg_degree as int == deg
    &&& v.num_negs as int == (if deg != 0 {
        size
    } else {
        0
    })
    &&& v.curr == 0
    &&& v.role == role
}

/// The sweep was built from the given dimensions, for some padding width.
pub open spec fn unary_sweep_built(
    v: UnaryVariation,
    size: int,
    deg: int,
    counts: Seq<usize>,
    s1: Seq<char>,
    s2: Seq<char>,
    item: Seq<char>,
    role: UnaryRole,
) -> bool {
    exists|w: int| #[trigger] unary_sweep_fields(v, size, deg, counts, s1, s2, item, role, w)
}

/// The fields of a two-dimensional sweep built from the given dimensions
/// with the given padding width.
pub open spec fn binary_sweep_fields(
    v: BinaryVariation,
    size: int,
    deg: int,
    counts: Seq<usize>,
    ulbl: Seq<char>,
    s1: Seq<char>,
    s2: Seq<char>,
    role: BinaryRole,
    w: int,
) -> bool {
    &&& v.universe@.len() == size
    &&& forall|j: int|
        0 <= j < size ==> (#[trigger] v.universe@[j])@ == padded_name(ulbl, j, w)
    &&& forall|j: int|
        0 <= j < v.test_items@.len() ==> (#[trigger] v.test_items@[j]).0@ == padded_name(s1, j, w)
            && v.test_items@[j].1@ == padded_name(s2, j, w)
    &&& v.test_item_counts@ == counts
    &&& v.neg_degree as int == deg
    &&& v.num_negs as int == (if deg != 0 {
        size
    } else {
        0
    })
    &&& v.curr == 0
    &&& v.role == role
}

/// The sweep was built from the given dimensions, for some padding width.
pub open spec fn binary_sweep_built(
    v: BinaryVariation,
    size: int,
    deg: int,
    counts: Seq<usize>,
    ulbl: Seq<char>,
    s1: Seq<char>,
    s2: Seq<char>,
    role: BinaryRole,
) -> bool {
    exists|w: int| #[trigger] binary_sweep_fields(v, size, deg, counts, ulbl, s1, s2, role, w)
}

/// The fixed sweep: one case per universe size, a fully negated (or fully
/// plain) conjunction over a universe of that size.
pub struct Fixed {
    /// The universe sizes to sweep.
    pub policy_lens: Vec<usize>,
    /// The negation degree of every case.
    pub neg_degree: usize,
    /// The next case.
    pub curr: usize,
}

impl Fixed {
    /// The sizes are within the policy bound and positive.
    pub open spec fn wf(self) -> bool {
        &&& self.curr <= self.policy_lens@.len()
        &&& forall|i: int|
            0 <= i < self.policy_lens@.len() ==> 1 <= (#[trigger] self.policy_lens@[i])
                <= MAX_LEAVES
    }

    pub fn new(policy_lens: Vec<usize>, neg_degree: usize) -> (r: Self)
        requires
            forall|i: int|
                0 <= i < policy_lens@.len() ==> 1 <= (#[trigger] policy_lens@[i]) <= MAX_LEAVES,
        ensures
            r.wf(),
            r.policy_lens@ == policy_lens@,
            r.neg_degree == neg_degree,
            r.curr == 0,
    {
        Fixed { policy_lens, neg_degree, curr: 0 }
    }

    /// The next case, if one is left: a conjunction over a fresh universe
    /// of the swept size, every leaf negated exactly when the negation
    /// degree is positive, with numbered authority, label and value names.
    pub fn next_input(&mut self) -> (r: Option<(usize, Vec<UserAttribute>, Policy, usize)>)
        requires
            old(self).wf(),
        ensures
            final(self).wf(),
            r.is_some() == (old(self).curr < old(self).policy_lens@.len()),
            r.is_some() ==> {
                let (sz, attrs, pol, deg) = r.unwrap();
                &&& pol.wf()
                &&& deg == old(self).neg_degree
                &&& sz == old(self).policy_lens@[old(self).curr as int]
                &&& pol.spec_leaves().len() == sz
                &&& forall|i: int|
                    0 <= i < pol.spec_leaves().len() ==> (#[trigger] pol.spec_leaves()[i]).0@
                        == (crate::attribute::AttrView {
                        auth: plain_name("auth"@, i),
                        lbl: plain_name("lbl"@, i),
                        attr: plain_name("attr"@, i),
                    }) && pol.spec_leaves()[i].1 == (old(self).neg_degree != 0)
            },
    {
        if self.curr >= self.policy_lens.len() {
            return None;
        }
        let policy_len = self.policy_lens[self.curr];
        self.curr = self.curr + 1;
        let mut universe: Vec<UserAttribute> = Vec::new();
        let mut j: usize = 0;
        while j < policy_len
            invariant
                j <= policy_len,
                universe@.len() == j,
                forall|k: int|
                    0 <= k < j ==> (#[trigger] universe@[k])@ == (crate::attribute::AttrView {
                        auth: plain_name("auth"@, k),
                        lbl: plain_name("lbl"@, k),
                        attr: plain_name("attr"@, k),
                    }),
            decreases policy_len - j,
        {
            let auth = stem_num("auth", j);
            let lbl = stem_num("lbl", j);
            let attr = stem_num("attr", j);
            universe.push(UserAttribute::new(auth.as_str(), lbl.as_str(), attr.as_str()));
            j = j + 1;
        }
        let num_negs = if self.neg_degree == 0 {
            0
        } else {
            universe.len()
        };
        let policy = Policy::conjunction_of(&universe, num_negs);
        let user_attrs = if self.neg_degree == 0 {
            universe
        } else {
            expand_neg_alternatives(&policy, self.neg_degree)
        };
        Some((policy_len, user_attrs, policy, self.neg_degree))
    }
}

/// The one-dimensional sweep: a fixed universe of (name, name) pairs, and
/// a growing count of single swept items each taking an even share.
pub struct UnaryVariation {
    /// The swept counts.
    pub test_item_counts: Vec<usize>,
    /// The swept items, built once for the largest count.
    pub test_items: Vec<String>,
    /// The fixed paired universe.
    pub universe: Vec<(String, String)>,
    /// How many trailing leaves each case negates.
    pub num_negs: usize,
    /// How many alternative values each negated pair yields.
    pub neg_degree: usize,
    /// The next case.
    pub curr: usize,
    /// Which position the swept item fills.
    pub role: UnaryRole,
}

impl UnaryVariation {
    /// Every swept count divides the universe evenly and is covered by the
    /// built items.
    pub open spec fn wf(self) -> bool {
        &&& self.curr <= self.test_item_counts@.len()
        &&& 1 <= self.universe@.len() <= MAX_LEAVES
        &&& self.num_negs <= self.universe@.len()
        &&& forall|i: int|
            0 <= i < self.test_item_counts@.len() ==> 1 <= (#[trigger] self.test_item_counts@[i])
                <= self.universe@.len() && self.universe@.len() as int % self.test_item_counts@[i] as int == 0
                && self.test_item_counts@[i] <= self.test_items@.len()
    }

    fn new(
        universe_size: usize,
        neg_degree: usize,
        universe_lbls: (&str, &str),
        test_item_counts: Vec<usize>,
        item_lbl: &str,
        role: UnaryRole,
    ) -> (r: Self)
        requires
            1 <= universe_size <= MAX_LEAVES,
            test_item_counts@.len() >= 1,
            forall|i: int|
                0 <= i < test_item_counts@.len() ==> 1 <= (#[trigger] test_item_counts@[i])
                    <= universe_size && universe_size as int % test_item_counts@[i] as int == 0,
        ensures
            r.wf(),
            unary_sweep_built(
                r,
                universe_size as int,
                neg_degree as int,
                test_item_counts@,
                universe_lbls.0@,
                universe_lbls.1@,
                item_lbl@,
                role,
            ),
    {
        let max_item_count = max_of(&test_item_counts);
        let max_num = if universe_size > max_item_count {
            universe_size
        } else {
            max_item_count
        };
        let fmt_width = digit_count_of_max(max_num);
        let (s1, s2) = universe_lbls;
        let universe = build_binary_universe(universe_size, s1, s2, fmt_width);
        let test_items = build_unary_test_items(max_item_count, item_lbl, fmt_width);
        let num_negs = if neg_degree != 0 {
            universe_size
        } else {
            0
        };
        let r = UnaryVariation {
            test_item_counts,
            test_items,
            universe,
            num_negs,
            neg_degree,
            curr: 0,
            role,
        };
        proof {
            assert(unary_sweep_fields(
                r,
                universe_size as int,
                neg_degree as int,
                r.test_item_counts@,
                universe_lbls.0@,
                universe_lbls.1@,
                item_lbl@,
                r.role,
                fmt_width as int,
            ));
        }
        r
    }

    /// The next case, if one is left: a conjunction over the universe
    /// distributed evenly over the first swept items, with the trailing
    /// leaves negated as the sweep's negation count says.
    pub fn next_input(&mut self) -> (r: Option<(usize, Vec<UserAttribute>, Policy, usize)>)
        requires
            old(self).wf(),
        ensures
            final(self).wf(),
            r.is_some() == (old(self).curr < old(self).test_item_counts@.len()),
            r.is_some() ==> {
                let (sz, attrs, pol, deg) = r.unwrap();
                let n = old(self).test_item_counts@[old(self).curr as int] as int;
                let gs = old(self).universe@.len() as int / n;
                &&& pol.wf()
                &&& deg == old(self).neg_degree
                &&& sz as int == n
                &&& pol.spec_leaves().len() == old(self).universe@.len()
                &&& forall|i: int|
                    0 <= i < pol.spec_leaves().len() ==> (#[trigger] pol.spec_leaves()[i]).0@
                        == unary_merge(
                        old(self).universe@[i].0@,
                        old(self).universe@[i].1@,
                        old(self).test_items@[i / gs]@,
                        old(self).role,
                    ) && pol.spec_leaves()[i].1 == (i >= old(self).universe@.len()
                        - old(self).num_negs)
            },
    {
        if self.curr >= self.test_item_counts.len() {
            return None;
        }
        let n = self.test_item_counts[self.curr];
        self.curr = self.curr + 1;
        let mut items: Vec<String> = Vec::new();
        let mut i: usize = 0;
        while i < n
            invariant
                i <= n,
                n <= self.test_items@.len(),
                items@.len() == i,
                forall|k: int| 0 <= k < i ==> (#[trigger] items@[k]) == self.test_items@[k],
            decreases n - i,
        {
            items.push(self.test_items[i].clone());
            i = i + 1;
        }
        let merged = distribute_unary(&self.universe, &items, &self.role);
        let policy = Policy::conjunction_of(&merged, self.num_negs);
        proof {
            let ulen = self.universe@.len() as int;
            let gs = ulen / n as int;
            assert(items@.len() == n);
            assert((n as int) * gs == ulen && gs >= 1) by (nonlinear_arith)
                requires
                    n >= 1,
                    n <= ulen,
                    gs == ulen / n as int,
                    ulen % n as int == 0,
            ;
            assert forall|i: int|
                0 <= i < policy.spec_leaves().len() implies (#[trigger] policy.spec_leaves()[i]).0@
                == unary_merge(
                self.universe@[i].0@,
                self.universe@[i].1@,
                self.test_items@[i / gs]@,
                self.role,
            ) by {
                assert(i < merged@.len());
                assert(items@.len() as int == n as int);
                assert(self.universe@.len() as int / items@.len() as int == gs);
                assert(merged@[i]@ == unary_merge(
                    self.universe@[i].0@,
                    self.universe@[i].1@,
                    items@[i / (self.universe@.len() as int / items@.len() as int)]@,
                    self.role,
                ));
                assert(merged@[i]@ == unary_merge(
                    self.universe@[i].0@,
                    self.universe@[i].1@,
                    items@[i / gs]@,
                    self.role,
                ));
                assert(0 <= i / gs < n as int) by (nonlinear_arith)
                    requires
                        0 <= i,
                        gs >= 1,
                        i < (n as int) * gs,
                ;
                assert(items@[i / gs] == self.test_items@[i / gs]);
            }
        }
        let user_attrs = expand_for_degree(&policy, &merged, self.neg_degree, self.num_negs);
        Some((n, user_attrs, policy, self.neg_degree))
    }
}

/// The two-dimensional sweep: a fixed universe of single names, and a
/// growing count of swept (name, name) item pairs each taking an even
/// share.
pub struct BinaryVariation {
    /// The swept counts.
    pub test_item_counts: Vec<usize>,
    /// The swept item pairs, built once for the largest count.
    pub test_items: Vec<(String, String)>,
    /// The fixed single-name universe.
    pub universe: Vec<String>,
    /// How many trailing leaves each case negates.
    pub num_negs: usize,
    /// How many alternative values each negated pair yields.
    pub neg_degree: usize,
    /// The next case.
    pub curr: usize,
    /// Which position the universe fills.
    pub role: BinaryRole,
}

impl BinaryVariation {
    /// Every swept count divides the universe evenly and is covered by the
    /// built items.
    pub open spec fn wf(self) -> bool {
        &&& self.curr <= self.test_item_counts@.len()
        &&& 1 <= self.universe@.len() <= MAX_LEAVES
        &&& self.num_negs <= self.universe@.len()
        &&& forall|i: int|
            0 <= i < self.test_item_counts@.len() ==> 1 <= (#[trigger] self.test_item_counts@[i])
                <= self.universe@.len() && self.universe@.len() as int % self.test_item_counts@[i] as int == 0
                && self.test_item_counts@[i] <= self.test_items@.len()
    }

    pub fn new(
        universe_size: usize,
        neg_degree: usize,
        universe_lbl: &str,
        test_item_counts: Vec<usize>,
        item_lbls: (&str, &str),
        role: BinaryRole,
    ) -> (r: Self)
        requires
            1 <= universe_size <= MAX_LEAVES,
            test_item_counts@.len() >= 1,
            forall|i: int|
                0 <= i < test_item_counts@.len() ==> 1 <= (#[trigger] test_item_counts@[i])
                    <= universe_size && universe_size as int % test_item_counts@[i] as int == 0,
        ensures
            r.wf(),
            binary_sweep_built(
                r,
                universe_size as int,
                neg_degree as int,
                test_item_counts@,
                universe_lbl@,
                item_lbls.0@,
                item_lbls.1@,
                role,
            ),
    {
        let max_item_count = max_of(&test_item_counts);
        let max_num = if universe_size > max_item_count {
            universe_size
        } else {
            max_item_count
        };
        let fmt_width = digit_count_of_max(max_num);
        let (s1, s2) = item_lbls;
        let universe = build_unary_universe(universe_size, universe_lbl, fmt_width);
        let test_items = build_binary_test_items(max_item_count, s1, s2, fmt_width);
        let num_negs = if neg_degree != 0 {
            universe_size
        } else {
            0
        };
        let r = BinaryVariation {
            test_item_counts,
            test_items,
            universe,
            num_negs,
            neg_degree,
            curr: 0,
            role,
        };
        proof {
            assert(binary_sweep_fields(
                r,
                universe_size as int,
                neg_degree as int,
                r.test_item_counts@,
                universe_lbl@,
                item_lbls.0@,
                item_lbls.1@,
                r.role,
                fmt_width as int,
            ));
        }
        r
    }

    /// The next case, if one is left: a conjunction over the universe
    /// distributed evenly over the first swept item pairs, with the
    /// trailing leaves negated as the sweep's negation count says.
    pub fn next_input(&mut self) -> (r: Option<(usize, Vec<UserAttribute>, Policy, usize)>)
        requires
            old(self).wf(),
        ensures
            final(self).wf(),
            r.is_some() == (old(self).curr < old(self).test_item_counts@.len()),
            r.is_some() ==> {
                let (sz, attrs, pol, deg) = r.unwrap();
                let n = old(self).test_item_counts@[old(self).curr as int] as int;
                let gs = old(self).universe@.len() as int / n;
                &&& pol.wf()
                &&& deg == old(self).neg_degree
                &&& sz as int == n
                &&& pol.spec_leaves().len() == old(self).universe@.len()
                &&& forall|i: int|
                    0 <= i < pol.spec_leaves().len() ==> (#[trigger] pol.spec_leaves()[i]).0@
                        == binary_merge(
                        old(self).universe@[i]@,
                        old(self).test_items@[i / gs].0@,
                        old(self).test_items@[i / gs].1@,
                        old(self).role,
                    ) && pol.spec_leaves()[i].1 == (i >= old(self).universe@.len()
                        - old(self).num_negs)
            },
    {
        if self.curr >= self.test_item_counts.len() {
            return None;
        }
        let n = self.test_item_counts[self.curr];
        self.curr = self.curr + 1;
        let mut items: Vec<(String, String)> = Vec::new();
        let mut i: usize = 0;
        while i < n
            invariant
                i <= n,
                n <= self.test_items@.len(),
                items@.len() == i,
                forall|k: int| 0 <= k < i ==> (#[trigger] items@[k]) == self.test_items@[k],
            decreases n - i,
        {
            let (x, y) = &self.test_items[i];
            items.push((x.clone(), y.clone()));
            i = i + 1;
        }
        let merged = distribute_binary(&self.universe, &items, &self.role);
        let policy = Policy::conjunction_of(&merged, self.num_negs);
        proof {
            let ulen = self.universe@.len() as int;
            let gs = ulen / n as int;
            assert(items@.len() == n);
            assert((n as int) * gs == ulen && gs >= 1) by (nonlinear_arith)
                requires
                    n >= 1,
                    n <= ulen,
                    gs == ulen / n as int,
                    ulen % n as int == 0,
            ;
            assert forall|i: int|
                0 <= i < policy.spec_leaves().len() implies (#[trigger] policy.spec_leaves()[i]).0@
                == binary_merge(
                self.universe@[i]@,
                self.test_items@[i / gs].0@,
                self.test_items@[i / gs].1@,
                self.role,
            ) by {
                assert(i < merged@.len());
                assert(merged@[i]@ == binary_merge(
                    self.universe@[i]@,
                    items@[i / gs].0@,
                    items@[i / gs].1@,
                    self.role,
                ));
                assert(0 <= i / gs < n as int) by (nonlinear_arith)
                    requires
                        0 <= i,
                        gs >= 1,
                        i < (n as int) * gs,
                ;
                assert(items@[i / gs] == self.test_items@[i / gs]);
            }
        }
        let user_attrs = expand_for_degree(&policy, &merged, self.neg_degree, self.num_negs);
        Some((n, user_attrs, policy, self.neg_degree))
    }
}

/// The attribute side of one case: the merged attributes themselves when
/// nothing is negated, the expanded alternatives otherwise.
fn expand_for_degree(
    policy: &Policy,
    merged: &Vec<UserAttribute>,
    neg_degree: usize,
    num_negs: usize,
) -> (r: Vec<UserAttribute>)
    requires
        policy.wf(),
    ensures
        num_negs == 0 ==> r@.len() == merged@.len() && forall|a: int|
            0 <= a < r@.len() ==> (#[trigger] r@[a])@ == merged@[a]@,
        num_negs != 0 ==> forall|a: int|
            0 <= a < r@.len() ==> expanded_from(
                (#[trigger] r@[a])@,
                policy.spec_leaves(),
                neg_degree as int,
            ),
{
    if num_negs == 0 {
        let mut out: Vec<UserAttribute> = Vec::new();
        let n = merged.len();
        let mut i: usize = 0;
        while i < n
            invariant
                i <= n,
                n == merged@.len(),
                out@.len() == i,
                forall|a: int| 0 <= a < i ==> (#[trigger] out@[a])@ == merged@[a]@,
            decreases n - i,
        {
            out.push(merged[i].duplicate());
            i = i + 1;
        }
        out
    } else {
        expand_neg_alternatives(policy, neg_degree)
    }
}

/// The largest of a non-empty list of sizes.
fn max_of(v: &Vec<usize>) -> (r: usize)
    requires
        v@.len() >= 1,
    ensures
        forall|i: int| 0 <= i < v@.len() ==> (#[trigger] v@[i]) <= r,
{
    let mut best = v[0];
    let n = v.len();
    let mut i: usize = 1;
    while i < n
        invariant
            1 <= i <= n,
            n == v@.len(),
            forall|j: int| 0 <= j < i ==> (#[trigger] v@[j]) <= best,
        decreases n - i,
    {
        if v[i] > best {
            best = v[i];
        }
        i = i + 1;
    }
    best
}

/// The width every number of a sweep is padded to: the digit count of the
/// largest number in play.
fn digit_count_of_max(max_num: usize) -> usize {
    digit_count(max_num)
}

/// The paired universe of a one-dimensional sweep.
fn build_binary_universe(size: usize, s1: &str, s2: &str, width: usize) -> (r: Vec<
    (String, String),
>)
    ensures
        r@.len() == size,
        forall|j: int|
            0 <= j < size ==> (#[trigger] r@[j]).0@ == padded_name(s1@, j, width as int)
                && r@[j].1@ == padded_name(s2@, j, width as int),
{
    let mut universe: Vec<(String, String)> = Vec::new();
    let mut j: usize = 0;
    while j < size
        invariant
            j <= size,
            universe@.len() == j,
            forall|a: int|
                0 <= a < j ==> (#[trigger] universe@[a]).0@ == padded_name(s1@, a, width as int)
                    && universe@[a].1@ == padded_name(s2@, a, width as int),
        decreases size - j,
    {
        let x = stem_num_padded(s1, j, width);
        let y = stem_num_padded(s2, j, width);
        universe.push((x, y));
        j = j + 1;
    }
    universe
}

/// The swept items of a one-dimensional sweep.
fn build_unary_test_items(count: usize, s: &str, width: usize) -> (r: Vec<String>)
    ensures
        r@.len() == count,
        forall|j: int| 0 <= j < count ==> (#[trigger] r@[j])@ == padded_name(s@, j, width as int),
{
    let mut test_items: Vec<String> = Vec::new();
    let mut j: usize = 0;
    while j < count
        invariant
            j <= count,
            test_items@.len() == j,
            forall|a: int|
                0 <= a < j ==> (#[trigger] test_items@[a])@ == padded_name(s@, a, width as int),
        decreases count - j,
    {
        test_items.push(stem_num_padded(s, j, width));
        j = j + 1;
    }
    test_items
}

/// The single-name universe of a two-dimensional sweep.
fn build_unary_universe(size: usize, s1: &str, width: usize) -> (r: Vec<String>)
    ensures
        r@.len() == size,
        forall|j: int| 0 <= j < size ==> (#[trigger] r@[j])@ == padded_name(s1@, j, width as int),
{
    let mut universe: Vec<String> = Vec::new();
    let mut j: usize = 0;
    while j < size
        invariant
            j <= size,
            universe@.len() == j,
            forall|a: int|
                0 <= a < j ==> (#[trigger] universe@[a])@ == padded_name(s1@, a, width as int),
        decreases size - j,
    {
        universe.push(stem_num_padded(s1, j, width));
        j = j + 1;
    }
    universe
}

/// The swept item pairs of a two-dimensional sweep.
fn build_binary_test_items(count: usize, s1: &str, s2: &str, width: usize) -> (r: Vec<
    (String, String),
>)
    ensures
        r@.len() == count,
        forall|j: int|
            0 <= j < count ==> (#[trigger] r@[j]).0@ == padded_name(s1@, j, width as int)
                && r@[j].1@ == padded_name(s2@, j, width as int),
{
    let mut test_items: Vec<(String, String)> = Vec::new();
    let mut j: usize = 0;
    while j < count
        invariant
            j <= count,
            test_items@.len() == j,
            forall|a: int|
                0 <= a < j ==> (#[trigger] test_items@[a]).0@ == padded_name(s1@, a, width as int)
                    && test_items@[a].1@ == padded_name(s2@, a, width as int),
        decreases count - j,
    {
        let x = stem_num_padded(s1, j, width);
        let y = stem_num_padded(s2, j, width);
        test_items.push((x, y));
        j = j + 1;
    }
    test_items
}

/// A family of test inputs, produced one case at a time.
pub struct InputGenerator {
    /// The name of the swept parameter.
    pub descr: String,
    /// The sweep itself.
    pub variation: Result<Result<UnaryVariation, BinaryVariation>, Fixed>,
}

impl InputGenerator {
    /// The inner sweep is well formed.
    pub open spec fn wf(self) -> bool {
        match self.variation {
            Ok(Ok(v)) => v.wf(),
            Ok(Err(v)) => v.wf(),
            Err(v) => v.wf(),
        }
    }

    /// One fully negated (or fully plain) conjunction per universe size.
    pub fn vary_size(universe_sizes: Vec<usize>, neg_degree: usize) -> (r: Self)
        requires
            forall|i: int|
                0 <= i < universe_sizes@.len() ==> 1 <= (#[trigger] universe_sizes@[i])
                    <= MAX_LEAVES,
        ensures
            r.wf(),
            r.descr@ == "vary_size"@,
            (match r.variation {
                Err(v) => v.policy_lens@ == universe_sizes@ && v.neg_degree == neg_degree
                    && v.curr == 0,
                _ => false,
            }),
    {
        let fixed = Fixed::new(universe_sizes, neg_degree);
        InputGenerator { descr: "vary_size".to_owned(), variation: Err(fixed) }
    }

    /// Sweeps how many authorities share a fixed universe of labels and
    /// values.
    pub fn vary_auth(universe_size: usize, neg_degree: usize, test_item_counts: Vec<usize>) -> (r:
        Self)
        requires
            1 <= universe_size <= MAX_LEAVES,
            test_item_counts@.len() >= 1,
            forall|i: int|
                0 <= i < test_item_counts@.len() ==> 1 <= (#[trigger] test_item_counts@[i])
                    <= universe_size && universe_size as int % test_item_counts@[i] as int == 0,
        ensures
            r.wf(),
            r.descr@ == "vary_auth"@,
            (match r.variation {
                Ok(Ok(v)) => unary_sweep_built(
                    v,
                    universe_size as int,
                    neg_degree as int,
                    test_item_counts@,
                    "lbl"@,
                    "attr"@,
                    "auth"@,
                    UnaryRole::AsAuth,
                ),
                _ => false,
            }),
    {
        let unary_var = UnaryVariation::new(
            universe_size,
            neg_degree,
            ("lbl", "attr"),
            test_item_counts,
            "auth",
            UnaryRole::AsAuth,
        );
        InputGenerator { descr: "vary_auth".to_owned(), variation: Ok(Ok(unary_var)) }
    }

    /// Sweeps how many labels share a fixed universe of authorities and
    /// values.
    pub fn vary_lbl(universe_size: usize, neg_degree: usize, test_item_counts: Vec<usize>) -> (r:
        Self)
        requires
            1 <= universe_size <= MAX_LEAVES,
            test_item_counts@.len() >= 1,
            forall|i: int|
                0 <= i < test_item_counts@.len() ==> 1 <= (#[trigger] test_item_counts@[i])
                    <= universe_size && universe_size as int % test_item_counts@[i] as int == 0,
        ensures
            r.wf(),
            r.descr@ == "vary_lbl"@,
            (match r.variation {
                Ok(Ok(v)) => unary_sweep_built(
                    v,
                    universe_size as int,
                    neg_degree as int,
                    test_item_counts@,
                    "auth"@,
                    "attr"@,
                    "lbl"@,
                    UnaryRole::AsLbl,
                ),
                _ => false,
            }),
    {
        let unary_var = UnaryVariation::new(
            universe_size,
            neg_degree,
            ("auth", "attr"),
            test_item_counts,
            "lbl",
            UnaryRole::AsLbl,
        );
        InputGenerator { descr: "vary_lbl".to_owned(), variation: Ok(Ok(unary_var)) }
    }

    /// Sweeps how many values share a fixed universe of authorities and
    /// labels.
    pub fn vary_attr(universe_size: usize, neg_degree: usize, test_item_counts: Vec<usize>) -> (r:
        Self)
        requires
            1 <= universe_size <= MAX_LEAVES,
            test_item_counts@.len() >= 1,
            forall|i: int|
                0 <= i < test_item_counts@.len() ==> 1 <= (#[trigger] test_item_counts@[i])
                    <= universe_size && universe_size as int % test_item_counts@[i] as int == 0,
        ensures
            r.wf(),
            r.descr@ == "vary_attr"@,
            (match r.variation {
                Ok(Ok(v)) => unary_sweep_built(
                    v,
                    universe_size as int,
                    neg_degree as int,
                    test_item_counts@,
                    "auth"@,
                    "lbl"@,
                    "attr"@,
                    UnaryRole::AsAttr,
                ),
                _ => false,
            }),
    {
        let unary_var = UnaryVariation::new(
            universe_size,
            neg_degree,
            ("auth", "lbl"),
            test_item_counts,
            "attr",
            UnaryRole::AsAttr,
        );
        InputGenerator { descr: "vary_attr".to_owned(), variation: Ok(Ok(unary_var)) }
    }

    /// Sweeps (authority, value) pairs over a fixed universe of labels.
    pub fn vary_auth_and_attr(
        universe_size: usize,
        neg_degree: usize,
        test_item_counts: Vec<usize>,
    ) -> (r: Self)
        requires
            1 <= universe_size <= MAX_LEAVES,
            test_item_counts@.len() >= 1,
            forall|i: int|
                0 <= i < test_item_counts@.len() ==> 1 <= (#[trigger] test_item_counts@[i])
                    <= universe_size && universe_size as int % test_item_counts@[i] as int == 0,
        ensures
            r.wf(),
            r.descr@ == "vary_auth_attr"@,
            (match r.variation {
                Ok(Err(v)) => binary_sweep_built(
                    v,
                    universe_size as int,
                    neg_degree as int,
                    test_item_counts@,
                    "lbl"@,
                    "auth"@,
                    "attr"@,
                    BinaryRole::UniverseIsLbl,
                ),
                _ => false,
            }),
    {
        let binary_var = BinaryVariation::new(
            universe_size,
            neg_degree,
            "lbl",
            test_item_counts,
            ("auth", "attr"),
            BinaryRole::UniverseIsLbl,
        );
        InputGenerator { descr: "vary_auth_attr".to_owned(), variation: Ok(Err(binary_var)) }
    }

    /// Sweeps (authority, label) pairs over a fixed universe of values.
    pub fn vary_auth_and_lbl(
        universe_size: usize,
        neg_degree: usize,
        test_item_counts: Vec<usize>,
    ) -> (r: Self)
        requires
            1 <= universe_size <= MAX_LEAVES,
            test_item_counts@.len() >= 1,
            forall|i: int|
                0 <= i < test_item_counts@.len() ==> 1 <= (#[trigger] test_item_counts@[i])
                    <= universe_size && universe_size as int % test_item_counts@[i] as int == 0,
        ensures
            r.wf(),
            r.descr@ == "vary_auth_lbl"@,
            (match r.variation {
                Ok(Err(v)) => binary_sweep_built(
                    v,
                    universe_size as int,
                    neg_degree as int,
                    test_item_counts@,
                    "attr"@,
                    "auth"@,
                    "lbl"@,
                    BinaryRole::UniverseIsAttr,
                ),
                _ => false,
            }),
    {
        let binary_var = BinaryVariation::new(
            universe_size,
            neg_degree,
            "attr",
            test_item_counts,
            ("auth", "lbl"),
            BinaryRole::UniverseIsAttr,
        );
        InputGenerator { descr: "vary_auth_lbl".to_owned(), variation: Ok(Err(binary_var)) }
    }

    /// Sweeps (label, value) pairs over a fixed universe of authorities.
    pub fn vary_lbl_and_attr(
        universe_size: usize,
        neg_degree: usize,
        test_item_counts: Vec<usize>,
    ) -> (r: Self)
        requires
            1 <= universe_size <= MAX_LEAVES,
            test_item_counts@.len() >= 1,
            forall|i: int|
                0 <= i < test_item_counts@.len() ==> 1 <= (#[trigger] test_item_counts@[i])
                    <= universe_size && universe_size as int % test_item_counts@[i] as int == 0,
        ensures
            r.wf(),
            r.descr@ == "vary_lbl_attr"@,
            (match r.variation {
                Ok(Err(v)) => binary_sweep_built(
                    v,
                    universe_size as int,
                    neg_degree as int,
                    test_item_counts@,
                    "auth"@,
                    "lbl"@,
                    "attr"@,
                    BinaryRole::UniverseIsAuth,
                ),
                _ => false,
            }),
    {
        let binary_var = BinaryVariation::new(
            universe_size,
            neg_degree,
            "auth",
            test_item_counts,
            ("lbl", "attr"),
            BinaryRole::UniverseIsAuth,
        );
        InputGenerator { descr: "vary_lbl_attr".to_owned(), variation: Ok(Err(binary_var)) }
    }

    /// Which parameter the generator sweeps.
    pub fn get_descr(&self) -> (r: String)
        ensures
            r@ == self.descr@,
    {
        self.descr.clone()
    }

    /// The next case, if one is left.
    pub fn next_input(&mut self) -> (r: Option<(usize, Vec<UserAttribute>, Policy, usize)>)
        requires
            old(self).wf(),
        ensures
            final(self).wf(),
            r.is_some() ==> r.unwrap().2.wf(),
    {
        match &mut self.variation {
            Ok(Ok(var)) => var.next_input(),
            Ok(Err(var)) => var.next_input(),
            Err(var) => var.next_input(),
        }
    }
}

} // verus!
