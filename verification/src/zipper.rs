//! The zipper itself: construction, movement, search, and change at the
//! focus.

use crate::search::answers_as;
use crate::split::Split;
use crate::stacks::{pop_push, push_back_and_yield, reset};
use std::collections::VecDeque;
use vstd::arithmetic::div_mod::{lemma_mod_add_multiples_vanish, lemma_mod_bound};
use vstd::prelude::*;
use vstd::std_specs::cmp::{PartialEqSpec, PartialEqSpecImpl};

verus! {

/// The direction of a move or of a walk, relative to the order in which the
/// elements were given.
#[derive(Clone, Copy, Debug, Eq, PartialEq)]
pub enum SequenceDirection {
    /// From each element to the one given after it.
    Original,
    /// From each element to the one given before it.
    Reverse,
}

/// A sequence with a focus on one of its elements. The focus can move in
/// both directions, and the sequence is closed into a ring: after the last
/// element comes the first.
///
/// Two zippers are equal when both of their stacks are, so two zippers that
/// show the same ring from the same focus may still differ.
#[derive(Clone, Debug)]
pub struct Zipper<T> {
    /// The focused element and those after it, the focused one on top.
    pub(crate) forward: VecDeque<T>,
    /// The elements before the focus, the nearest one on top.
    pub(crate) backward: VecDeque<T>,
}

impl<T> View for Zipper<T> {
    type V = Split<T>;

    closed spec fn view(&self) -> Split<T> {
        Split { forward: self.forward@, backward: self.backward@ }
    }
}

impl<T> Zipper<T> {
    /// A zipper is well formed when it has a focus unless it is empty, and
    /// when a signed offset can reach each of its elements.
    pub open spec fn wf(&self) -> bool {
        &&& self@.focused()
        &&& self@.len() <= isize::MAX
    }

    /// An empty zipper.
    pub fn new() -> (z: Self)
        ensures
            z@ == Split::<T>::empty(),
            z.wf(),
    {
        Self { forward: VecDeque::new(), backward: VecDeque::new() }
    }

    /// A zipper over `items` in their order, with the focus on the first of
    /// them.
    pub fn from_vec(items: Vec<T>) -> (z: Self)
        requires
            items@.len() <= isize::MAX,
        ensures
            z@ == Split::from_seq(items@),
            z.wf(),
    {
        let mut s = Self::new();
        for item in it: items.into_iter()
            invariant
                it.seq() == items@,
                s.forward@ == items@.take(it.index()),
                s.backward@ == Seq::<T>::empty(),
        {
            push_back_and_yield(&mut s.forward, item);
        }
        assert(s.forward@ =~= items@);
        s
    }

    /// The number of elements.
    pub fn size(&self) -> (n: usize)
        requires
            self@.len() <= usize::MAX,
        ensures
            n == self@.len(),
    {
        self.forward.len() + self.backward.len()
    }

    /// The focused element, or nothing where the zipper is empty.
    pub fn focus(&self) -> (r: Option<&T>)
        ensures
            match r {
                Some(t) => self@.focus() == Some(*t),
                None => self@.focus() is None,
            },
    {
        if self.forward.len() > 0 {
            Some(&self.forward[0])
        } else {
            None
        }
    }

    /// Carries one element across the focus: it is popped from the stack
    /// that a move in direction `dir` takes from and pushed onto the other.
    fn advance_focus(&mut self, dir: SequenceDirection) -> (r: &mut Self)
        requires
            dir is Original ==> old(self)@.forward.len() > 0,
            dir is Reverse ==> old(self)@.backward.len() > 0,
        ensures
            r@ == old(self)@.carried(dir),
            *final(self) == *final(r),
    {
        match dir {
            SequenceDirection::Original => pop_push(&mut self.forward, &mut self.backward),
            SequenceDirection::Reverse => pop_push(&mut self.backward, &mut self.forward),
        };

        self
    }

    /// Moves the focus to the first element of the source order, wherever it
    /// was.
    pub fn reset_start(&mut self) -> (r: &mut Self)
        ensures
            r@ == old(self)@.reset_start(),
            r@.base() == old(self)@.base(),
            r@.focused(),
            old(self)@.len() <= isize::MAX ==> r.wf(),
            *final(self) == *final(r),
    {
        reset(&mut self.forward, &mut self.backward);
        proof {
            let base = old(self)@.base();
            assert(self@.forward =~= base.skip(0));
            assert(self@.backward =~= base.take(0).reverse());
        }
        self
    }

    /// Turns all of `forward` over onto `backward`. That leaves a zipper that
    /// is not empty without a focus, so the caller has to carry one element
    /// back.
    fn unsafe_reset_end(&mut self) -> (r: &mut Self)
        ensures
            r@ == old(self)@.poured_backward(),
            *final(self) == *final(r),
    {
        reset(&mut self.backward, &mut self.forward);
        self
    }

    /// Refills the stack that a move in direction `dir` takes from, where it
    /// has run empty, with all of the other stack. This is what closes the
    /// sequence into a ring.
    fn rotate_stacks(&mut self, dir: SequenceDirection) -> (r: &mut Self)
        ensures
            r@ == old(self)@.refilled(dir),
            *final(self) == *final(r),
    {
        match dir {
            SequenceDirection::Original if self.forward.len() == 0 => self.reset_start(),
            SequenceDirection::Reverse if self.backward.len() == 0 => self.unsafe_reset_end(),
            _ => self,
        }
    }

    /// Moves the focus one place in the direction `dir`, past either end of
    /// the source order round to the other. An empty zipper stays as it is.
    pub fn step(&mut self, dir: SequenceDirection) -> (r: &mut Self)
        requires
            old(self).wf(),
        ensures
            r@ == old(self)@.step(dir),
            r@.base() == old(self)@.base(),
            r.wf(),
            *final(self) == *final(r),
    {
        if self.size() == 0 {
            return self;
        }
        proof {
            old(self)@.lemma_step_forwards();
            old(self)@.lemma_step_backwards();
            old(self)@.lemma_advanced(1);
            old(self)@.lemma_advanced(-1);
        }
        match dir {
            SequenceDirection::Original => self.advance_focus(dir).rotate_stacks(dir),
            SequenceDirection::Reverse => self.rotate_stacks(dir).advance_focus(dir),
        }
    }

    /// Moves the focus one place in the direction `Original`.
    pub fn step_forwards(&mut self) -> (r: &mut Self)
        requires
            old(self).wf(),
        ensures
            r@ == old(self)@.advanced(1),
            r@.base() == old(self)@.base(),
            r.wf(),
            *final(self) == *final(r),
    {
        self.step(SequenceDirection::Original)
    }

    /// Moves the focus one place in the direction `Reverse`.
    pub fn step_backwards(&mut self) -> (r: &mut Self)
        requires
            old(self).wf(),
        ensures
            r@ == old(self)@.advanced(-1),
            r@.base() == old(self)@.base(),
            r.wf(),
            *final(self) == *final(r),
    {
        self.step(SequenceDirection::Reverse)
    }

    /// Moves the focus to the last element of the source order, wherever it
    /// was: all of `forward` goes onto `backward`, and one element is carried
    /// back to be the focus.
    pub fn reset_end(&mut self) -> (r: &mut Self)
        requires
            old(self).wf(),
        ensures
            r@ == old(self)@.reset_end(),
            r@.base() == old(self)@.base(),
            r.wf(),
            *final(self) == *final(r),
    {
        if self.size() == 0 {
            return self;
        }
        proof {
            let n = old(self)@.len() as int;
            let base = old(self)@.base();
            let end = old(self)@.poured_backward().carried(SequenceDirection::Reverse);
            assert(end.forward =~= base.skip(n - 1));
            assert(end.backward =~= base.take(n - 1).reverse());
            Split::lemma_at(base, n - 1);
        }
        self.unsafe_reset_end().advance_focus(SequenceDirection::Reverse)
    }

    /// Takes the focused element out. The element after it on the ring
    /// becomes the focus. An empty zipper gives nothing and stays empty.
    pub fn take_current_focus(&mut self) -> (next: Option<T>)
        requires
            old(self).wf(),
        ensures
            next == old(self)@.focus(),
            final(self)@ == old(self)@.without_focus(),
            old(self)@.len() > 0 ==> final(self)@.elements() == old(self)@.elements().skip(1),
            final(self).wf(),
    {
        let next = self.forward.pop_front();

        if self.forward.len() == 0 {
            reset(&mut self.forward, &mut self.backward);
        }

        next
    }

    /// Takes out the element before the focus on the ring. The focus stays
    /// on its element, unless that was the only one. An empty zipper gives
    /// nothing and stays empty.
    pub fn take_previous_focus(&mut self) -> (previous: Option<T>)
        requires
            old(self).wf(),
        ensures
            previous == old(self)@.previous(),
            final(self)@ == old(self)@.without_previous(),
            old(self)@.len() > 0 ==> final(self)@.elements() == old(self)@.elements().drop_last(),
            final(self).wf(),
    {
        if self.size() == 0 {
            return None;
        }
        if self.backward.len() == 0 {
            reset(&mut self.backward, &mut self.forward);
        }
        pop_push(&mut self.backward, &mut self.forward);
        let previous = self.forward.pop_front();
        if self.forward.len() == 0 {
            reset(&mut self.forward, &mut self.backward);
        }
        proof {
            let before = old(self)@;
            let after = before.without_previous();
            assert(self@.forward =~= after.forward);
            assert(self@.backward =~= after.backward);
        }
        previous
    }

    /// Puts `elem` in front of the focus and focuses it. The element that was
    /// in focus comes next after it.
    pub fn push_focus(&mut self, elem: T) -> (r: &mut Self)
        requires
            old(self).wf(),
            old(self)@.len() < isize::MAX,
        ensures
            r@ == old(self)@.push_focus(elem),
            r@.elements() == seq![elem] + old(self)@.elements(),
            r.wf(),
            *final(self) == *final(r),
    {
        self.forward.push_front(elem);
        self
    }

    /// The element `i` places from the focus: in the direction `Original`
    /// where `i` is positive, in the direction `Reverse` where it is
    /// negative, and as often round the ring as it takes. An empty zipper
    /// has no such element.
    pub fn ith(&self, i: isize) -> (r: Option<&T>)
        requires
            self.wf(),
        ensures
            match r {
                Some(t) => self@.ith(i as int) == Some(*t),
                None => self@.ith(i as int) is None,
            },
    {
        let count = self.size() as isize;
        let shifted = if i < 0 {
            i + count
        } else {
            i
        };
        match shifted.checked_rem_euclid(count) {
            None => None,
            Some(place) => {
                proof {
                    lemma_mod_add_multiples_vanish(i as int, count as int);
                    lemma_mod_bound(i as int, count as int);
                }
                let place = place as usize;
                let fw_len = self.forward.len();
                let bw_len = self.backward.len();
                if place < fw_len {
                    Some(&self.forward[place])
                } else {
                    Some(&self.backward[bw_len - (place - fw_len + 1)])
                }
            },
        }
    }

    /// Steps forwards until `p` accepts the focused element. The search
    /// steps before it asks, so the element in focus at the start is the
    /// last one it comes to. Where `p` has turned down every element, it
    /// makes one step more and stops: then the focus ends one place after
    /// where it began.
    pub fn refocus(&mut self, mut p: impl FnMut(&T) -> bool) -> (r: &mut Self)
        requires
            old(self).wf(),
            forall|i: int|
                0 <= i < old(self)@.len() ==> call_requires(
                    p,
                    (&#[trigger] old(self)@.elements()[i],),
                ),
        ensures
            old(self)@.len() == 0 ==> r@ == old(self)@,
            old(self)@.len() > 0 ==> exists|k: int|
                old(self)@.stops_ahead(p, k) && r@ == old(self)@.advanced(k),
            forall|f: spec_fn(T) -> bool| #[trigger]
                answers_as(p, f) ==> r@ == old(self)@.refocused(f),
            r@.base() == old(self)@.base(),
            r.wf(),
            *final(self) == *final(r),
    {
        let mut counter: usize = 0;
        let ghost start = self@;
        let ghost stop: int = 0;
        let ghost asked = p;
        proof {
            start.lemma_advanced_zero();
        }
        loop
            invariant_except_break
                self@ == start.advanced(counter as int),
                forall|j: int|
                    1 <= j <= counter ==> call_ensures(p, (&#[trigger] start.place(j),), false),
            invariant
                p == asked,
                start == old(self)@,
                start.focused(),
                start.len() <= isize::MAX,
                counter <= start.len(),
                self.wf(),
                self@.len() == start.len(),
                self@.base() == start.base(),
                forall|i: int|
                    0 <= i < start.len() ==> call_requires(p, (&#[trigger] start.elements()[i],)),
            ensures
                start.len() == 0 ==> self@ == start,
                start.len() > 0 ==> start.stops_ahead(p, stop) && self@ == start.advanced(stop),
            decreases start.len() - counter,
        {
            proof {
                start.lemma_advanced_twice(counter as int, 1);
                if start.len() > 0 {
                    start.lemma_advanced(counter + 1);
                    lemma_mod_bound(counter + 1, start.len() as int);
                }
            }
            self.step_forwards();
            match self.focus() {
                None => {
                    break;
                },
                Some(t) => {
                    if p(t) {
                        proof {
                            stop = counter + 1;
                        }
                        break;
                    }
                    if !(counter < self.size()) {
                        proof {
                            stop = counter + 1;
                        }
                        break;
                    }
                    counter += 1;
                },
            }
        }
        assert forall|f: spec_fn(T) -> bool| #[trigger] answers_as(asked, f) implies self@
            == start.refocused(f) by {
            if start.len() > 0 {
                start.lemma_stops_ahead(asked, f, stop);
            }
        }
        self
    }

    /// Steps backwards until `p` accepts the focused element, in the way of
    /// `refocus`. Where `p` has turned down every element, the focus ends
    /// one place before where it began.
    pub fn refocus_backwards(&mut self, mut p: impl FnMut(&T) -> bool) -> (r: &mut Self)
        requires
            old(self).wf(),
            forall|i: int|
                0 <= i < old(self)@.len() ==> call_requires(
                    p,
                    (&#[trigger] old(self)@.elements()[i],),
                ),
        ensures
            old(self)@.len() == 0 ==> r@ == old(self)@,
            old(self)@.len() > 0 ==> exists|k: int|
                old(self)@.stops_behind(p, k) && r@ == old(self)@.advanced(-k),
            forall|f: spec_fn(T) -> bool| #[trigger]
                answers_as(p, f) ==> r@ == old(self)@.refocused_backwards(f),
            r@.base() == old(self)@.base(),
            r.wf(),
            *final(self) == *final(r),
    {
        let mut counter: usize = 0;
        let ghost start = self@;
        let ghost stop: int = 0;
        let ghost asked = p;
        proof {
            start.lemma_advanced_zero();
        }
        loop
            invariant_except_break
                self@ == start.advanced(-(counter as int)),
                forall|j: int|
                    1 <= j <= counter ==> call_ensures(
                        p,
                        (&#[trigger] start.place_behind(j),),
                        false,
                    ),
            invariant
                p == asked,
                start == old(self)@,
                start.focused(),
                start.len() <= isize::MAX,
                counter <= start.len(),
                self.wf(),
                self@.len() == start.len(),
                self@.base() == start.base(),
                forall|i: int|
                    0 <= i < start.len() ==> call_requires(p, (&#[trigger] start.elements()[i],)),
            ensures
                start.len() == 0 ==> self@ == start,
                start.len() > 0 ==> start.stops_behind(p, stop) && self@ == start.advanced(-stop),
            decreases start.len() - counter,
        {
            proof {
                start.lemma_advanced_twice(-(counter as int), -1);
                if start.len() > 0 {
                    start.lemma_advanced(-(counter + 1));
                    lemma_mod_bound(-(counter + 1), start.len() as int);
                }
            }
            self.step_backwards();
            match self.focus() {
                None => {
                    break;
                },
                Some(t) => {
                    if p(t) {
                        proof {
                            stop = counter + 1;
                        }
                        break;
                    }
                    if !(counter < self.size()) {
                        proof {
                            stop = counter + 1;
                        }
                        break;
                    }
                    counter += 1;
                },
            }
        }
        assert forall|f: spec_fn(T) -> bool| #[trigger] answers_as(asked, f) implies self@
            == start.refocused_backwards(f) by {
            if start.len() > 0 {
                start.lemma_stops_behind(asked, f, stop);
            }
        }
        self
    }
}

/// `a` and `b` are as long as each other and hold equal elements place by
/// place, as `==` of the elements has it.
pub open spec fn same_elements<T: PartialEq>(a: Seq<T>, b: Seq<T>) -> bool {
    &&& a.len() == b.len()
    &&& forall|i: int| 0 <= i < a.len() ==> #[trigger] a[i].eq_spec(&b[i])
}

/// Compares two stacks from the top down.
fn same_stack<T: PartialEq>(a: &VecDeque<T>, b: &VecDeque<T>) -> (r: bool)
    ensures
        T::obeys_eq_spec() ==> r == same_elements(a@, b@),
{
    if a.len() != b.len() {
        return false;
    }
    let mut i: usize = 0;
    while i < a.len()
        invariant
            i <= a@.len(),
            a@.len() == b@.len(),
            T::obeys_eq_spec() ==> forall|j: int| 0 <= j < i ==> #[trigger] a@[j].eq_spec(&b@[j]),
        decreases a@.len() - i,
    {
        if !(a[i] == b[i]) {
            return false;
        }
        i += 1;
    }
    true
}

impl<T: PartialEq> PartialEq for Zipper<T> {
    /// Two zippers are equal when both of their stacks are.
    fn eq(&self, other: &Self) -> (r: bool) {
        same_stack(&self.forward, &other.forward) && same_stack(&self.backward, &other.backward)
    }
}

impl<T: PartialEq> PartialEqSpecImpl for Zipper<T> {
    open spec fn obeys_eq_spec() -> bool {
        T::obeys_eq_spec()
    }

    open spec fn eq_spec(&self, other: &Self) -> bool {
        &&& same_elements(self@.forward, other@.forward)
        &&& same_elements(self@.backward, other@.backward)
    }
}

impl<T: Eq> Eq for Zipper<T> {}

} // verus!
