//! CEL's doubles: carried, never computed with.
use vstd::prelude::*;

verus! {

/// [`cel::common::types::CelDouble`], the double of a CEL value.
#[verifier::external_type_specification]
#[verifier::external_body]
pub struct ExCelDouble(cel::common::types::CelDouble);

/// A double with two digits after the decimal point, as `format!("{:.2}")`
/// writes it.
pub uninterp spec fn fixed_two(d: cel::common::types::CelDouble) -> Seq<char>;

/// `format!` with a precision of two, on the number that
/// [`cel::common::types::CelDouble::inner`] gives: the text depends on the
/// number alone.
#[verifier::external_body]
pub(crate) fn fixed_two_text(d: &cel::common::types::CelDouble) -> (r: String)
    ensures
        r@ == fixed_two(*d),
{
    format!("{:.2}", d.inner())
}

/// Whether a double is neither an infinity nor a NaN.
pub uninterp spec fn is_finite(d: cel::common::types::CelDouble) -> bool;

/// `is_finite` of the number that [`cel::common::types::CelDouble::inner`]
/// gives: true unless it is an infinity or a NaN.
#[verifier::external_body]
pub(crate) fn finite(d: &cel::common::types::CelDouble) -> (r: bool)
    ensures
        r == is_finite(*d),
{
    d.inner().is_finite()
}

}
