//! The four moves on double-ended queues from which every zipper operation is
//! built. A queue is read as a stack whose top is its front.

use std::collections::VecDeque;
use vstd::prelude::*;

verus! {

/// Puts `t` on top of `n` and hands `n` back.
pub fn push_and_yield<T>(n: &mut VecDeque<T>, t: T) -> (r: &mut VecDeque<T>)
    ensures
        r@ == seq![t] + old(n)@,
        *final(n) == *final(r),
{
    n.push_front(t);
    n
}

/// Puts `t` under the bottom of `n` and hands `n` back.
pub fn push_back_and_yield<T>(n: &mut VecDeque<T>, t: T) -> (r: &mut VecDeque<T>)
    ensures
        r@ == old(n)@.push(t),
        *final(n) == *final(r),
{
    n.push_back(t);
    n
}

/// Empties `pl` onto `nl`, top first, so that the elements of `pl` end up on
/// `nl` in reverse order, above what `nl` held before.
pub fn reset<T>(nl: &mut VecDeque<T>, pl: &mut VecDeque<T>)
    ensures
        final(nl)@ == old(pl)@.reverse() + old(nl)@,
        final(pl)@ == Seq::<T>::empty(),
{
    let ghost moved: int = 0;
    loop
        invariant
            0 <= moved <= old(pl)@.len(),
            pl@ == old(pl)@.skip(moved),
            nl@ == old(pl)@.take(moved).reverse() + old(nl)@,
        ensures
            pl@ == Seq::<T>::empty(),
            nl@ == old(pl)@.reverse() + old(nl)@,
        decreases pl@.len(),
    {
        match pl.pop_front() {
            Some(t) => {
                push_and_yield(nl, t);
                proof {
                    moved = moved + 1;
                }
            },
            None => {
                break;
            },
        }
    }
}

/// Moves the top of `pop` onto `push`.
pub fn pop_push<T>(pop: &mut VecDeque<T>, push: &mut VecDeque<T>)
    requires
        old(pop)@.len() > 0,
    ensures
        final(pop)@ == old(pop)@.skip(1),
        final(push)@ == seq![old(pop)@[0]] + old(push)@,
{
    push.push_front(pop.pop_front().unwrap())
}

} // verus!
