//! Errors reported while reading policy or attribute text. Parse failures
//! are recoverable results, kept distinct from decryption failure, which is
//! an ordinary `None`.
use vstd::prelude::*;

verus! {

/// Why a piece of policy or attribute text was rejected.
#[derive(Debug, PartialEq, Eq, Structural, Clone, Copy)]
pub enum ParseError {
    /// An atom was not of the shape `AUTHORITY.LABEL:VALUE` with all three
    /// parts non-empty.
    MalformedAttribute,
    /// A closing parenthesis without its opening mate, or the reverse.
    UnbalancedParenthesis,
    /// A token where the grammar allows none, such as two operators in a
    /// row or a trailing `&`.
    UnexpectedToken,
    /// A formula, or a parenthesized group, with nothing inside.
    EmptyFormula,
    /// A formula with more leaves than the size bound allows.
    FormulaTooLarge,
}

} // verus!
