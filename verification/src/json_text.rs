//! JSON text of values, as `serde_json` writes it.

use vstd::prelude::*;
use crate::serde_values::value_of;
use crate::text::push_char;
use crate::value::{JVal, JsonValue};

verus! {

/// The compact JSON text that `serde_json::to_string` writes for a value:
/// object members in their order, strings escaped as serde_json escapes
/// them, a number as its text.
pub uninterp spec fn compact(v: JVal) -> Seq<char>;

/// The indented JSON text that `serde_json::to_string_pretty` writes for a
/// value.
pub uninterp spec fn pretty(v: JVal) -> Seq<char>;

/// Append the characters of `cs` to `out`.
pub fn append_chars(out: &mut String, cs: &[char])
    ensures
        final(out)@ == old(out)@ + cs@,
{
    let mut i: usize = 0;
    while i < cs.len()
        invariant
            i <= cs.len(),
            out@ == old(out)@ + cs@.take(i as int),
        decreases cs.len() - i,
    {
        push_char(out, cs[i]);
        i = i + 1;
        proof {
            assert(out@ =~= old(out)@ + cs@.take(i as int));
        }
    }
    proof {
        assert(cs@.take(cs.len() as int) == cs@);
    }
}

/// The compact JSON text of `v`.
///
/// Trusted: `serde_json::to_string` of the `serde_json` value of the same
/// shape; its text is named `compact`. Writing a `serde_json::Value` does
/// not fail (its map keys are strings), so the empty default is never
/// taken.
#[verifier::external_body]
pub fn to_compact(v: &JsonValue) -> (r: String)
    ensures
        r@ == compact(v@),
{
    serde_json::to_string(&value_of(v)).unwrap_or_default()
}

/// The indented JSON text of `v`.
///
/// Trusted: `serde_json::to_string_pretty` of the `serde_json` value of the
/// same shape; its text is named `pretty`. Writing a `serde_json::Value`
/// does not fail, so the empty default is never taken.
#[verifier::external_body]
pub fn to_pretty(v: &JsonValue) -> (r: String)
    ensures
        r@ == pretty(v@),
{
    serde_json::to_string_pretty(&value_of(v)).unwrap_or_default()
}

} // verus!
