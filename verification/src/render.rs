//! The printed form of a zipper.

use crate::zipper::Zipper;
use itertools::Itertools;
use std::fmt::Display;
use vstd::prelude::*;
use vstd::string::{to_string_from_display_ensures, StringExecFns};

verus! {

/// The texts of `parts` one after another, with `sep` between neighbours.
pub open spec fn joined(parts: Seq<Seq<char>>, sep: Seq<char>) -> Seq<char>
    decreases parts.len(),
{
    if parts.len() == 0 {
        Seq::empty()
    } else if parts.len() == 1 {
        parts[0]
    } else {
        joined(parts.drop_last(), sep) + sep + parts.last()
    }
}

/// The texts of `parts` as a list: in square brackets, with a comma and a
/// space between neighbours.
pub open spec fn bracketed(parts: Seq<Seq<char>>) -> Seq<char> {
    seq!['['] + joined(parts, seq![',', ' ']) + seq![']']
}

/// The text of each string of `parts`.
pub open spec fn texts(parts: Seq<String>) -> Seq<Seq<char>> {
    parts.map_values(|part: String| part@)
}

/// Joins `parts` with `Itertools::join`, which writes the first item and
/// then, for each further item, the separator and the item.
///
/// The contract rests on that description of `join` and is not proved here.
/// `join` reserves `sep.len() * (parts.len() - 1)` bytes before it writes,
/// so the product has to stay in range. Writing a `String` cannot fail.
#[verifier::external_body]
fn join(parts: &Vec<String>, sep: &str) -> (text: String)
    requires
        sep.len() * parts@.len() <= isize::MAX,
    ensures
        text@ == joined(texts(parts@), sep@),
{
    parts.iter().join(sep)
}

/// Writes the texts of `parts` as a list in square brackets.
pub fn render(parts: &Vec<String>) -> (text: String)
    requires
        2 * parts@.len() <= isize::MAX,
    ensures
        text@ == bracketed(texts(parts@)),
{
    proof {
        reveal_strlit("[");
        reveal_strlit(", ");
        reveal_strlit("]");
        vstd::string::is_ascii_spec_bytes(", ");
    }
    let inner = join(parts, ", ");
    let mut text = String::from_str("[");
    text.append(inner.as_str());
    text.append("]");
    proof {
        assert("["@ =~= seq!['[']);
        assert(", "@ =~= seq![',', ' ']);
        assert("]"@ =~= seq![']']);
    }
    text
}

impl<T> Zipper<T> {
    /// The zipper printed as a list of its elements, in ring order from the
    /// focus on, each element as its `Display` writes it.
    pub fn to_string(&self) -> (text: String) where T: Display
        requires
            self.wf(),
            2 * self@.len() <= isize::MAX,
        ensures
            exists|parts: Seq<String>|
                {
                    &&& parts.len() == self@.len()
                    &&& forall|i: int|
                        0 <= i < parts.len() ==> to_string_from_display_ensures::<T>(
                            &self@.elements()[i],
                            #[trigger] parts[i],
                        )
                    &&& text@ == bracketed(texts(parts))
                },
    {
        let mut parts: Vec<String> = Vec::new();
        let mut it = self.iter();
        loop
            invariant
                it.wf(),
                parts@.len() <= self@.len(),
                it@ == self@.elements().skip(parts@.len() as int),
                forall|i: int|
                    0 <= i < parts@.len() ==> to_string_from_display_ensures::<T>(
                        &self@.elements()[i],
                        #[trigger] parts@[i],
                    ),
            ensures
                parts@.len() == self@.len(),
            decreases self@.len() - parts@.len(),
        {
            match it.next() {
                Some(elem) => {
                    parts.push(elem.to_string());
                },
                None => {
                    break;
                },
            }
        }
        render(&parts)
    }
}

} // verus!
