//! User attributes: the facts a user may hold, each issued by an authority
//! under a label with a value, written `AUTHORITY.LABEL:VALUE`.
use vstd::prelude::*;

use crate::errors::ParseError;

verus! {

/// The mathematical value of a [`UserAttribute`]: its three strings as
/// character sequences.
#[verifier::ext_equal]
pub struct AttrView {
    pub auth: Seq<char>,
    pub lbl: Seq<char>,
    pub attr: Seq<char>,
}

/// A user attribute: a triple of authority, label and value. Two attributes
/// are the same exactly when all three fields agree; an attribute has no
/// identity beyond that.
#[derive(Debug)]
pub struct UserAttribute {
    pub auth: String,
    pub lbl: String,
    pub attr: String,
}

impl View for UserAttribute {
    type V = AttrView;

    open spec fn view(&self) -> AttrView {
        AttrView { auth: self.auth@, lbl: self.lbl@, attr: self.attr@ }
    }
}

/// Holds when `i` is the position of the first occurrence of `c` in `s`.
pub open spec fn first_occurrence(s: Seq<char>, c: char, i: int) -> bool {
    &&& 0 <= i < s.len()
    &&& s[i] == c
    &&& forall|k: int| 0 <= k < i ==> s[k] != c
}

/// Holds when the text `s` decomposes as `AUTHORITY.LABEL:VALUE` with the dot
/// at `i` (the first dot of the text), the colon at `j` (the first colon
/// after the dot), and all three parts non-empty.
pub open spec fn attr_text_split(s: Seq<char>, i: int, j: int) -> bool {
    &&& first_occurrence(s, '.', i)
    &&& 1 <= i
    &&& i + 2 <= j < s.len() - 1
    &&& s[j] == ':'
    &&& forall|k: int| i < k < j ==> s[k] != ':'
}

/// Holds when the text `s` is a well-formed attribute: `AUTHORITY.LABEL:VALUE`.
pub open spec fn valid_attr_text(s: Seq<char>) -> bool {
    exists|i: int, j: int| attr_text_split(s, i, j)
}

impl UserAttribute {
    pub fn new(auth: &str, lbl: &str, attr: &str) -> (r: Self)
        ensures
            r@ == (AttrView { auth: auth@, lbl: lbl@, attr: attr@ }),
    {
        UserAttribute { auth: auth.to_owned(), lbl: lbl.to_owned(), attr: attr.to_owned() }
    }

    /// A copy of the attribute with the same three fields.
    pub fn duplicate(&self) -> (r: Self)
        ensures
            r@ == self@,
    {
        UserAttribute { auth: self.auth.clone(), lbl: self.lbl.clone(), attr: self.attr.clone() }
    }

    /// Parses `AUTHORITY.LABEL:VALUE`: the authority reaches to the first
    /// dot, the label from there to the first following colon, the value is
    /// the rest; each part must be non-empty.
    pub fn parse(text: &str) -> (r: Result<Self, ParseError>)
        ensures
            r.is_ok() <==> valid_attr_text(text@),
            r.is_ok() ==> exists|i: int, j: int|
                attr_text_split(text@, i, j) && r.unwrap()@ == (AttrView {
                    auth: text@.subrange(0, i),
                    lbl: text@.subrange(i + 1, j),
                    attr: text@.subrange(j + 1, text@.len() as int),
                }),
    {
        let n = text.unicode_len();
        let dot = match find_char(text, '.', 0) {
            Some(i) => i,
            None => {
                return Err(ParseError::MalformedAttribute);
            },
        };
        if dot < 1 {
            return Err(ParseError::MalformedAttribute);
        }
        let colon = match find_char(text, ':', dot + 1) {
            Some(j) => j,
            None => {
                assert(forall|i: int, j: int| !attr_text_split(text@, i, j)) by {
                    assert forall|i: int, j: int| !attr_text_split(text@, i, j) by {
                        if attr_text_split(text@, i, j) {
                            assert(i == dot);
                        }
                    }
                }
                return Err(ParseError::MalformedAttribute);
            },
        };
        if colon < dot + 2 || n - colon < 2 {
            assert(forall|i: int, j: int| !attr_text_split(text@, i, j)) by {
                assert forall|i: int, j: int| !attr_text_split(text@, i, j) by {
                    if attr_text_split(text@, i, j) {
                        assert(i == dot);
                        assert(j == colon);
                    }
                }
            }
            return Err(ParseError::MalformedAttribute);
        }
        let auth = text.substring_char(0, dot);
        let lbl = text.substring_char(dot + 1, colon);
        let attr = text.substring_char(colon + 1, n);
        assert(attr_text_split(text@, dot as int, colon as int));
        Ok(UserAttribute { auth: auth.to_owned(), lbl: lbl.to_owned(), attr: attr.to_owned() })
    }

    /// The three fields as a tuple.
    pub fn auth_lbl_attr(&self) -> (r: (String, String, String))
        ensures
            r.0@ == self@.auth,
            r.1@ == self@.lbl,
            r.2@ == self@.attr,
    {
        (self.auth.clone(), self.lbl.clone(), self.attr.clone())
    }

    /// The authority and label as a pair.
    pub fn auth_lbl(&self) -> (r: (String, String))
        ensures
            r.0@ == self@.auth,
            r.1@ == self@.lbl,
    {
        (self.auth.clone(), self.lbl.clone())
    }

    /// The authority and value as a pair.
    pub fn auth_attr(&self) -> (r: (String, String))
        ensures
            r.0@ == self@.auth,
            r.1@ == self@.attr,
    {
        (self.auth.clone(), self.attr.clone())
    }
}

impl Clone for UserAttribute {
    fn clone(&self) -> (r: Self)
        ensures
            r@ == self@,
    {
        self.duplicate()
    }
}

impl PartialEq for UserAttribute {
    fn eq(&self, other: &Self) -> (r: bool) {
        self.auth == other.auth && self.lbl == other.lbl && self.attr == other.attr
    }
}

impl vstd::std_specs::cmp::PartialEqSpecImpl for UserAttribute {
    open spec fn obeys_eq_spec() -> bool {
        true
    }

    open spec fn eq_spec(&self, other: &Self) -> bool {
        self@ == other@
    }
}

/// The position of the first occurrence of `c` in `s` at or after `from`,
/// if there is one.
pub fn find_char(s: &str, c: char, from: usize) -> (r: Option<usize>)
    requires
        from <= s@.len(),
    ensures
        match r {
            Some(i) => from <= i < s@.len() && s@[i as int] == c && forall|k: int|
                from <= k < i ==> s@[k] != c,
            None => forall|k: int| from <= k < s@.len() ==> s@[k] != c,
        },
{
    let n = s.unicode_len();
    let mut i = from;
    while i < n
        invariant
            from <= i <= n,
            n == s@.len(),
            forall|k: int| from <= k < i ==> s@[k] != c,
        decreases n - i,
    {
        if s.get_char(i) == c {
            return Some(i);
        }
        i = i + 1;
    }
    None
}

} // verus!
