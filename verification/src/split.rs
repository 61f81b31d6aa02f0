//! The mathematical value of a zipper: two sequences around a focus.

use crate::zipper::SequenceDirection;
use vstd::arithmetic::div_mod::{
    lemma_add_mod_noop_right, lemma_mod_add_multiples_vanish,
    lemma_mod_bound, lemma_mod_self_0, lemma_small_mod,
};
use vstd::prelude::*;

verus! {

/// What a zipper holds, as two sequences.
///
/// `forward` starts with the focused element and runs on to the end of the
/// source order. `backward` holds the elements before the focus, the nearest
/// one first.
pub struct Split<T> {
    pub forward: Seq<T>,
    pub backward: Seq<T>,
}

impl<T> Split<T> {
    /// The split of an empty zipper.
    pub open spec fn empty() -> Self {
        Split { forward: Seq::empty(), backward: Seq::empty() }
    }

    /// The split that focuses the first element of `s`.
    pub open spec fn from_seq(s: Seq<T>) -> Self {
        Split { forward: s, backward: Seq::empty() }
    }

    /// The split of `base` that focuses the element at `position`.
    pub open spec fn at(base: Seq<T>, position: int) -> Self {
        Split { forward: base.skip(position), backward: base.take(position).reverse() }
    }

    /// The number of elements.
    pub open spec fn len(self) -> nat {
        self.forward.len() + self.backward.len()
    }

    /// A split that holds anything has a focus.
    pub open spec fn focused(self) -> bool {
        self.forward.len() == 0 ==> self.backward.len() == 0
    }

    /// The elements in source order.
    pub open spec fn base(self) -> Seq<T> {
        self.backward.reverse() + self.forward
    }

    /// The index of the focus in `base()`.
    pub open spec fn position(self) -> nat {
        self.backward.len()
    }

    /// The elements in ring order: from the focus to the end of the source
    /// order, then from its start up to the focus.
    pub open spec fn elements(self) -> Seq<T> {
        self.forward + self.backward.reverse()
    }

    /// The elements in ring order read backwards: the focus, then the element
    /// before it, and so on down to the element after the focus.
    pub open spec fn elements_behind(self) -> Seq<T> {
        Seq::new(self.len(), |i: int| self.place_behind(i))
    }

    /// The focused element, if there is one.
    pub open spec fn focus(self) -> Option<T> {
        if self.forward.len() > 0 {
            Some(self.forward[0])
        } else {
            None
        }
    }

    /// The element `i` places after the focus on the ring, or `-i` places
    /// before it where `i` is negative.
    pub open spec fn ith(self, i: int) -> Option<T> {
        if self.len() == 0 {
            None
        } else {
            Some(self.place(i))
        }
    }

    /// The element `i` places after the focus on the ring of a split that is
    /// not empty: the offset is taken modulo the number of elements.
    pub open spec fn place(self, i: int) -> T {
        self.elements()[i % (self.len() as int)]
    }

    /// The element `i` places before the focus on the ring of a split that is
    /// not empty.
    pub open spec fn place_behind(self, i: int) -> T {
        self.place(-i)
    }

    /// The focus moved `k` places along the ring; backwards where `k` is
    /// negative. The source order stays as it is.
    pub open spec fn advanced(self, k: int) -> Self {
        if self.len() == 0 {
            self
        } else {
            Self::at(self.base(), (self.position() as int + k) % (self.len() as int))
        }
    }

    /// The focus moved one place in the direction `dir`.
    pub open spec fn step(self, dir: SequenceDirection) -> Self {
        match dir {
            SequenceDirection::Original => self.advanced(1),
            SequenceDirection::Reverse => self.advanced(-1),
        }
    }

    /// The focus moved one place in the direction `dir`, `k` times over.
    pub open spec fn stepped(self, dir: SequenceDirection, k: nat) -> Self
        decreases k,
    {
        if k == 0 {
            self
        } else {
            self.stepped(dir, (k - 1) as nat).step(dir)
        }
    }

    /// The focus on the first element of the source order.
    pub open spec fn reset_start(self) -> Self {
        Self::at(self.base(), 0)
    }

    /// The focus on the last element of the source order.
    pub open spec fn reset_end(self) -> Self {
        if self.len() == 0 {
            self
        } else {
            Self::at(self.base(), self.len() - 1)
        }
    }

    /// `elem` put in front of the focus, where it becomes the new focus.
    pub open spec fn push_focus(self, elem: T) -> Self {
        Split { forward: seq![elem] + self.forward, backward: self.backward }
    }

    /// The element before the focus on the ring, if there is one. In a split
    /// of one element that is the focus itself.
    pub open spec fn previous(self) -> Option<T> {
        if self.len() == 0 {
            None
        } else {
            Some(self.elements().last())
        }
    }

    /// The split without its focus. The element after it on the ring becomes
    /// the new focus.
    pub open spec fn without_focus(self) -> Self {
        if self.forward.len() <= 1 {
            Split { forward: self.backward.reverse(), backward: Seq::empty() }
        } else {
            Split { forward: self.forward.skip(1), backward: self.backward }
        }
    }

    /// The split without the element before its focus. The focus stays where
    /// it is, unless it was the only element.
    pub open spec fn without_previous(self) -> Self {
        if self.len() == 0 {
            self
        } else if self.backward.len() > 0 {
            Split { forward: self.forward, backward: self.backward.skip(1) }
        } else {
            Split { forward: self.forward.drop_last(), backward: Seq::empty() }
        }
    }

    /// One element carried across the focus: in direction `Original` the top
    /// of `forward` goes onto `backward`, in direction `Reverse` the other
    /// way round.
    pub open spec fn carried(self, dir: SequenceDirection) -> Self {
        match dir {
            SequenceDirection::Original => Split {
                forward: self.forward.skip(1),
                backward: seq![self.forward[0]] + self.backward,
            },
            SequenceDirection::Reverse => Split {
                forward: seq![self.backward[0]] + self.forward,
                backward: self.backward.skip(1),
            },
        }
    }

    /// All of `forward` turned over onto `backward`. This leaves no focus.
    pub open spec fn poured_backward(self) -> Self {
        Split { forward: Seq::empty(), backward: self.forward.reverse() + self.backward }
    }

    /// The side that a move in direction `dir` takes from, refilled from the
    /// other side where it has run empty.
    pub open spec fn refilled(self, dir: SequenceDirection) -> Self {
        match dir {
            SequenceDirection::Original => if self.forward.len() == 0 {
                self.reset_start()
            } else {
                self
            },
            SequenceDirection::Reverse => if self.backward.len() == 0 {
                self.poured_backward()
            } else {
                self
            },
        }
    }
}

/// One place up on a ring of `n` places.
pub proof fn lemma_next_place(x: int, n: int)
    requires
        0 <= x < n,
    ensures
        (x + 1) % n == if x + 1 == n { 0 } else { x + 1 },
{
    if x + 1 == n {
        lemma_mod_self_0(n);
    } else {
        lemma_small_mod((x + 1) as nat, n as nat);
    }
}

/// One place down on a ring of `n` places.
pub proof fn lemma_previous_place(x: int, n: int)
    requires
        0 <= x < n,
    ensures
        (x - 1) % n == if x == 0 { n - 1 } else { x - 1 },
{
    if x == 0 {
        lemma_mod_add_multiples_vanish(-1, n);
        lemma_small_mod((n - 1) as nat, n as nat);
    } else {
        lemma_small_mod((x - 1) as nat, n as nat);
    }
}

impl<T> Split<T> {
    /// Every split is the split of its base at its position.
    pub proof fn lemma_at_base(self)
        ensures
            Self::at(self.base(), self.position() as int) == self,
            self.base().len() == self.len(),
    {
        let b = self.backward.len() as int;
        assert(self.base().skip(b) =~= self.forward);
        assert(self.base().take(b) =~= self.backward.reverse());
        assert(self.backward.reverse().reverse() =~= self.backward);
    }

    /// What a split of `base` at a place inside it holds.
    pub proof fn lemma_at(base: Seq<T>, position: int)
        requires
            0 <= position <= base.len(),
        ensures
            Self::at(base, position).base() == base,
            Self::at(base, position).position() == position,
            Self::at(base, position).len() == base.len(),
            Self::at(base, position).elements() == base.skip(position) + base.take(position),
            position < base.len() ==> Self::at(base, position).focused(),
            position < base.len() ==> Self::at(base, position).focus() == Some(base[position]),
    {
        let s = Self::at(base, position);
        assert(base.take(position).reverse().reverse() =~= base.take(position));
        assert(s.base() =~= base);
    }

    /// Carrying the focus onto `backward`, and refilling `forward` where that
    /// emptied it, moves the focus one place on.
    pub proof fn lemma_step_forwards(self)
        requires
            self.forward.len() > 0,
        ensures
            self.carried(SequenceDirection::Original).refilled(SequenceDirection::Original)
                == self.advanced(1),
    {
        let n = self.len() as int;
        let b = self.backward.len() as int;
        let base = self.base();
        let stepped = self.carried(SequenceDirection::Original).refilled(
            SequenceDirection::Original,
        );
        lemma_next_place(b, n);
        if self.forward.len() == 1 {
            assert(self.carried(SequenceDirection::Original).base() =~= base);
        } else {
            assert(stepped.forward =~= base.skip(b + 1));
            assert(stepped.backward =~= base.take(b + 1).reverse());
        }
    }

    /// Refilling `backward` where it is empty, and carrying its top onto
    /// `forward`, moves the focus one place back.
    pub proof fn lemma_step_backwards(self)
        requires
            self.forward.len() > 0,
        ensures
            self.refilled(SequenceDirection::Reverse).carried(SequenceDirection::Reverse)
                == self.advanced(-1),
    {
        let n = self.len() as int;
        let b = self.backward.len() as int;
        let base = self.base();
        let stepped = self.refilled(SequenceDirection::Reverse).carried(
            SequenceDirection::Reverse,
        );
        lemma_previous_place(b, n);
        if b == 0 {
            assert(stepped.forward =~= base.skip(n - 1));
            assert(stepped.backward =~= base.take(n - 1).reverse());
        } else {
            assert(stepped.forward =~= base.skip(b - 1));
            assert(stepped.backward =~= base.take(b - 1).reverse());
        }
    }

    /// Moving the focus leaves a focused split of the same elements, whose
    /// focus is the element that many places away.
    pub proof fn lemma_advanced(self, k: int)
        requires
            self.focused(),
            self.len() > 0,
        ensures
            self.advanced(k).focused(),
            self.advanced(k).len() == self.len(),
            self.advanced(k).base() == self.base(),
            self.advanced(k).position() == (self.position() + k) % (self.len() as int),
            self.advanced(k).focus() == Some(self.place(k)),
    {
        let n = self.len() as int;
        let b = self.position() as int;
        let to = (b + k) % n;
        lemma_mod_bound(b + k, n);
        lemma_mod_bound(k, n);
        Self::lemma_at(self.base(), to);
        lemma_add_mod_noop_right(b, k, n);
        let m = k % n;
        if b + m < n {
            lemma_small_mod((b + m) as nat, n as nat);
        } else {
            lemma_mod_add_multiples_vanish(b + m - n, n);
            lemma_small_mod((b + m - n) as nat, n as nat);
        }
    }

    /// Moving the focus twice is moving it once by the sum.
    pub proof fn lemma_advanced_twice(self, j: int, k: int)
        requires
            self.focused(),
        ensures
            self.advanced(j).advanced(k) == self.advanced(j + k),
    {
        if self.len() > 0 {
            let n = self.len() as int;
            let b = self.position() as int;
            self.lemma_advanced(j);
            lemma_add_mod_noop_right(k, b + j, n);
        }
    }

    /// Moving the focus by no place leaves a focused split as it is.
    pub proof fn lemma_advanced_zero(self)
        requires
            self.focused(),
        ensures
            self.advanced(0) == self,
    {
        if self.len() > 0 {
            lemma_small_mod(self.position(), self.len());
            self.lemma_at_base();
        }
    }

    /// Stepping `k` times moves the focus `k` places.
    pub proof fn lemma_stepped(self, dir: SequenceDirection, k: nat)
        requires
            self.focused(),
        ensures
            self.stepped(dir, k) == match dir {
                SequenceDirection::Original => self.advanced(k as int),
                SequenceDirection::Reverse => self.advanced(-(k as int)),
            },
        decreases k,
    {
        if k == 0 {
            self.lemma_advanced_zero();
        } else {
            self.lemma_stepped(dir, (k - 1) as nat);
            match dir {
                SequenceDirection::Original => self.lemma_advanced_twice(k - 1, 1),
                SequenceDirection::Reverse => self.lemma_advanced_twice(-(k - 1), -1),
            }
        }
    }
}

} // verus!
