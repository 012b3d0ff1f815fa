//! Derivation of per-attribute scalars and per-label and per-user group
//! elements from strings. Every derivation builds a domain-separated text
//! and maps its bytes into the scalar field; group elements are the
//! generator raised to such a scalar. Each function's contract pins its
//! result as a function of the input text, in the named vocabulary of the
//! curve layer, so the protocol contracts can relate what key generation,
//! encryption and decryption derive from the same strings.
use vstd::prelude::*;
use vstd::string::StringExecFns;

use crate::curve::{g_of, scalar_of, G, ScalarField};

verus! {

/// Whether a label element belongs to the plain or the negated line of a
/// label: the two lines use independent base points.
#[derive(Clone, Copy, PartialEq, Eq, Structural, Debug)]
pub enum HashSign {
    POS,
    NEG,
}

/// The domain-separated text an attribute value hashes through.
pub open spec fn attr_tag(attr: Seq<char>) -> Seq<char> {
    "atr/"@ + attr
}

/// The interpolation point of an attribute value: the scalar its
/// domain-separated text maps to.
pub open spec fn attr_point(attr: Seq<char>) -> ScalarField {
    scalar_of(attr_tag(attr))
}

/// The domain-separated text a label's base point hashes through.
pub open spec fn lbl_tag(auth: Seq<char>, lbl: Seq<char>, neg: bool, idx: int) -> Seq<char> {
    "lbl/"@ + auth + "/"@ + lbl + (if neg {
        "/-"@
    } else {
        "/+"@
    }) + (if idx == 0 {
        "/0"@
    } else {
        "/1"@
    })
}

/// The base point of a label's line: the generator raised to the scalar
/// the label's domain-separated text maps to.
pub open spec fn label_point(auth: Seq<char>, lbl: Seq<char>, neg: bool, idx: int) -> G {
    g_of(scalar_of(lbl_tag(auth, lbl, neg, idx)))
}

/// The domain-separated text a user's global identity hashes through.
pub open spec fn gid_tag(gid: Seq<char>) -> Seq<char> {
    "gid/"@ + gid
}

/// The identity element of a user: the generator raised to the scalar the
/// identity's domain-separated text maps to.
pub open spec fn gid_point(gid: Seq<char>) -> G {
    g_of(scalar_of(gid_tag(gid)))
}

/// The scalar an attribute value hashes to: the interpolation point of the
/// negation mechanism.
pub fn hash_attr(attr: &String) -> (r: ScalarField)
    ensures
        r == attr_point(attr@),
{
    let mut text = String::new();
    text.append("atr/");
    text.append(attr.as_str());
    proof {
        assert(text@ == attr_tag(attr@));
    }
    ScalarField::from_string_bytes(&text)
}

/// The base point of a label's line: index 0 is the constant term, index 1
/// the coefficient of the attribute point.
pub fn hash_lbl(auth: &String, lbl: &String, sign: HashSign, idx: usize) -> (r: G)
    ensures
        r == label_point(auth@, lbl@, sign == HashSign::NEG, if idx == 0 {
            0int
        } else {
            1int
        }),
{
    let mut text = String::new();
    text.append("lbl/");
    text.append(auth.as_str());
    text.append("/");
    text.append(lbl.as_str());
    match sign {
        HashSign::POS => text.append("/+"),
        HashSign::NEG => text.append("/-"),
    }
    if idx == 0 {
        text.append("/0");
    } else {
        text.append("/1");
    }
    proof {
        assert(text@ == lbl_tag(auth@, lbl@, sign == HashSign::NEG, if idx == 0 {
            0int
        } else {
            1int
        }));
    }
    G::base(&ScalarField::from_string_bytes(&text))
}

/// The group element a user's global identity hashes to: what binds every
/// partial key to its owner.
pub fn hash_gid(gid: &str) -> (r: G)
    ensures
        r == gid_point(gid@),
{
    let mut text = String::new();
    text.append("gid/");
    text.append(gid);
    proof {
        assert(text@ == gid_tag(gid@));
    }
    G::base(&ScalarField::from_string_bytes(&text))
}

} // verus!
