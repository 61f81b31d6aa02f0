//! Laws of the zipper, stated of the values that the operations' contracts
//! speak of.

use crate::split::Split;
use crate::zipper::SequenceDirection;
use vstd::arithmetic::div_mod::{
    lemma_add_mod_noop_right, lemma_mod_add_multiples_vanish, lemma_mod_bound,
    lemma_mod_self_0, lemma_mod_sub_multiples_vanish, lemma_small_mod,
};
use vstd::prelude::*;

verus! {

/// A zipper built over `items` and stepped forwards `k` times holds, from its
/// focus on, the rotation of `items` that starts at index `k` modulo their
/// number.
pub proof fn law_steps_rotate<T>(items: Seq<T>, k: nat)
    ensures
        items.len() == 0 ==> Split::from_seq(items).stepped(SequenceDirection::Original, k).elements()
            == items,
        items.len() > 0 ==> Split::from_seq(items).stepped(SequenceDirection::Original, k).elements()
            == items.skip(k as int % items.len() as int) + items.take(
            k as int % items.len() as int,
        ),
{
    let start = Split::from_seq(items);
    start.lemma_stepped(SequenceDirection::Original, k);
    assert(start.base() =~= items);
    if items.len() == 0 {
        assert(start.elements() =~= items);
    } else {
        let to = k as int % items.len() as int;
        lemma_mod_bound(k as int, items.len() as int);
        Split::lemma_at(items, to);
    }
}

/// A reset to either end, done again, changes nothing; and a reset to the
/// start undoes a reset to the end.
pub proof fn law_resets_settle<T>(s: Split<T>)
    ensures
        s.reset_start().reset_start() == s.reset_start(),
        s.reset_end().reset_end() == s.reset_end(),
        s.reset_start().reset_end().reset_start() == s.reset_start(),
{
    let base = s.base();
    let n = s.len() as int;
    assert(base.len() == n);
    Split::lemma_at(base, 0);
    if n > 0 {
        Split::lemma_at(base, n - 1);
    } else {
        assert(s.reset_start().forward =~= s.forward);
        assert(s.reset_start().backward =~= s.backward);
    }
}

/// A step in one direction and then a step in the other lead back to the
/// same zipper, whichever comes first.
pub proof fn law_step_round_trip<T>(s: Split<T>)
    requires
        s.focused(),
    ensures
        s.step(SequenceDirection::Original).step(SequenceDirection::Reverse) == s,
        s.step(SequenceDirection::Reverse).step(SequenceDirection::Original) == s,
{
    s.lemma_advanced_twice(1, -1);
    s.lemma_advanced_twice(-1, 1);
    s.lemma_advanced_zero();
}

/// The element no place away from the focus is the focus.
pub proof fn law_ith_zero_is_focus<T>(s: Split<T>)
    requires
        s.focused(),
    ensures
        s.ith(0) == s.focus(),
{
    if s.len() > 0 {
        lemma_small_mod(0, s.len());
    }
}

/// An offset reaches the same element as the offset one round less and the
/// offset one round more.
pub proof fn law_ith_wraps<T>(s: Split<T>, i: int)
    requires
        s.len() > 0,
    ensures
        s.ith(i) == s.ith(i - s.len()),
        s.ith(i) == s.ith(i + s.len()),
{
    let n = s.len() as int;
    lemma_mod_add_multiples_vanish(i, n);
    lemma_mod_sub_multiples_vanish(i, n);
}

/// Where the first element that `f` holds of ahead of the focus and the first
/// one behind it are equal, a search forwards and a search backwards end on
/// the same focused element.
pub proof fn law_refocus_same_element<T>(s: Split<T>, f: spec_fn(T) -> bool)
    requires
        s.focused(),
        exists|i: int| 0 <= i < s.len() && f(#[trigger] s.elements()[i]),
        s.place(s.moves_ahead(f)) == s.place_behind(s.moves_behind(f)),
    ensures
        s.refocused(f).focus() == s.refocused_backwards(f).focus(),
        s.refocused(f).focus() is Some,
        f(s.refocused(f).focus()->0),
{
    let n = s.len() as int;
    s.lemma_advanced(s.moves_ahead(f));
    s.lemma_advanced(-s.moves_behind(f));
    s.lemma_moves_ahead_from(f, 1);
    let i = choose|i: int| 0 <= i < s.len() && f(#[trigger] s.elements()[i]);
    let j = if i == 0 { n } else { i };
    if i == 0 {
        lemma_mod_self_0(n);
    } else {
        lemma_small_mod(i as nat, n as nat);
    }
    assert(f(s.place(j)));
}

/// Where `f` holds of the element at one place of the ring and of no other,
/// a search forwards and a search backwards end in the same zipper, with
/// that element in focus.
pub proof fn law_refocus_one_match<T>(s: Split<T>, f: spec_fn(T) -> bool, at: int)
    requires
        s.focused(),
        0 <= at < s.len(),
        forall|i: int| 0 <= i < s.len() ==> (f(#[trigger] s.elements()[i]) <==> i == at),
    ensures
        s.refocused(f) == s.refocused_backwards(f),
        s.refocused(f).focus() == Some(s.elements()[at]),
{
    let n = s.len() as int;
    let b = s.position() as int;
    let ahead = s.moves_ahead(f);
    let behind = s.moves_behind(f);
    s.lemma_moves_ahead_from(f, 1);
    s.lemma_moves_behind_from(f, 1);
    // Some number of moves from 1 to n reaches `at`, in either direction.
    let up = if at == 0 { n } else { at };
    let down = n - at;
    if at == 0 {
        lemma_mod_self_0(n);
        lemma_mod_sub_multiples_vanish(0, n);
        lemma_small_mod(0, n as nat);
    } else {
        lemma_small_mod(at as nat, n as nat);
        lemma_mod_add_multiples_vanish(-down, n);
    }
    assert(f(s.place(up)));
    assert(f(s.place_behind(down)));
    lemma_mod_bound(ahead, n);
    lemma_mod_bound(-behind, n);
    assert(f(s.place(ahead)));
    assert(f(s.place_behind(behind)));
    assert(ahead % n == at);
    assert((-behind) % n == at);
    lemma_add_mod_noop_right(b, ahead, n);
    lemma_add_mod_noop_right(b, -behind, n);
    s.lemma_advanced(ahead);
}

} // verus!
