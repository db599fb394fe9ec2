//! Debug output of text.

use vstd::prelude::*;
use vstd::string::*;

verus! {

/// The text in double quotes with its special characters escaped, as the
/// `Debug` implementation of `str` writes it.
pub uninterp spec fn quoted(s: Seq<char>) -> Seq<char>;

/// Calls the `Debug` implementation of `str` through `format!`. The claim is
/// only that the result depends on the characters of `s` alone; which
/// characters are escaped, and how, is not stated.
#[verifier::external_body]
pub(crate) fn quote(s: &str) -> (r: String)
    ensures
        r@ == quoted(s@),
{
    format!("{:?}", s)
}

/// The items with a comma and a space between any two.
pub open spec fn joined(items: Seq<Seq<char>>) -> Seq<char>
    decreases items.len(),
{
    if items.len() == 0 {
        seq![]
    } else if items.len() == 1 {
        items[0]
    } else {
        joined(items.drop_last()) + ", "@ + items.last()
    }
}

/// The items as a list in square brackets.
pub open spec fn list_text(items: Seq<Seq<char>>) -> Seq<char> {
    "["@ + joined(items) + "]"@
}

/// Writes the items as a list in square brackets.
pub fn list(items: &Vec<String>) -> (r: String)
    ensures
        r@ == list_text(items@.map_values(|s: String| s@)),
{
    let ghost texts = items@.map_values(|s: String| s@);
    let mut r: String = String::new();
    for i in 0..items.len()
        invariant
            texts == items@.map_values(|s: String| s@),
            r@ == joined(texts.take(i as int)),
    {
        proof {
            assert(texts.take(i + 1).drop_last() =~= texts.take(i as int));
            assert(texts.take(i + 1).last() == texts[i as int]);
        }
        if i > 0 {
            r.append(", ");
        }
        r.append(items[i].as_str());
    }
    assert(texts.take(texts.len() as int) =~= texts);
    "[".to_owned().concat(r.as_str()).concat("]")
}

} // verus!
