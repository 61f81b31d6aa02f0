//! Walks over a zipper. Each starts at the focus and ends after one round of
//! the ring.

use crate::zipper::{SequenceDirection, Zipper};
use vstd::arithmetic::div_mod::{lemma_mod_add_multiples_vanish, lemma_small_mod};
use vstd::prelude::*;

verus! {

/// A walk once round a zipper by reference, from the focus on, in one of
/// the two directions. The zipper itself does not move.
pub struct ZipperIter<'a, T> {
    /// The zipper under the walk.
    zipper: &'a Zipper<T>,
    /// The number of elements of the zipper.
    count: usize,
    /// The offset from the focus of the element to give out next. It counts
    /// up in the direction `Original` and down in the direction `Reverse`.
    cursor: isize,
    /// The direction of the walk.
    dir: SequenceDirection,
}

impl<'a, T> View for ZipperIter<'a, T> {
    type V = Seq<T>;

    /// The elements that the walk has yet to give out, in their order.
    closed spec fn view(&self) -> Seq<T> {
        match self.dir {
            SequenceDirection::Original => self.zipper@.elements().skip(self.cursor as int),
            SequenceDirection::Reverse => self.zipper@.elements_behind().skip(-self.cursor),
        }
    }
}

impl<'a, T> ZipperIter<'a, T> {
    /// The walk stands on a well-formed zipper and has not gone round it
    /// more than once.
    pub closed spec fn wf(&self) -> bool {
        &&& self.zipper.wf()
        &&& self.count == self.zipper@.len()
        &&& match self.dir {
            SequenceDirection::Original => 0 <= self.cursor <= self.count,
            SequenceDirection::Reverse => -self.count <= self.cursor <= 0,
        }
    }

    /// Gives out the next element of the walk, or nothing once the round is
    /// complete.
    pub fn next(&mut self) -> (r: Option<&'a T>)
        requires
            old(self).wf(),
        ensures
            final(self).wf(),
            match r {
                Some(t) => {
                    &&& old(self)@.len() > 0
                    &&& *t == old(self)@[0]
                    &&& final(self)@ == old(self)@.skip(1)
                },
                None => {
                    &&& old(self)@.len() == 0
                    &&& final(self)@ == old(self)@
                },
            },
    {
        if self.cursor <= -1 * (self.count as isize) || self.cursor >= self.count as isize {
            return None;
        }
        let i = self.cursor;
        self.cursor += match &self.dir {
            SequenceDirection::Original => 1,
            SequenceDirection::Reverse => -1,
        };

        proof {
            let n = self.count as int;
            if i >= 0 {
                lemma_small_mod(i as nat, n as nat);
            } else {
                lemma_mod_add_multiples_vanish(i as int, n);
                lemma_small_mod((i + n) as nat, n as nat);
            }
            assert(old(self)@.skip(1) =~= self@);
        }
        self.zipper.ith(i)
    }
}

/// A walk that takes the elements out of a zipper, the focus first.
pub struct ZipperIntoIter<T> {
    /// What is left of the zipper.
    zipper: Zipper<T>,
}

impl<T> View for ZipperIntoIter<T> {
    type V = Seq<T>;

    /// The elements that the walk has yet to give out, in their order.
    closed spec fn view(&self) -> Seq<T> {
        self.zipper@.elements()
    }
}

impl<T> ZipperIntoIter<T> {
    /// The walk stands on a well-formed zipper.
    pub closed spec fn wf(&self) -> bool {
        self.zipper.wf()
    }

    /// Takes the next element out of the zipper, or nothing once the zipper
    /// is empty.
    pub fn next(&mut self) -> (r: Option<T>)
        requires
            old(self).wf(),
        ensures
            final(self).wf(),
            match r {
                Some(t) => {
                    &&& old(self)@.len() > 0
                    &&& t == old(self)@[0]
                    &&& final(self)@ == old(self)@.skip(1)
                },
                None => {
                    &&& old(self)@.len() == 0
                    &&& final(self)@ == old(self)@
                },
            },
    {
        self.zipper.take_current_focus()
    }
}

impl<T> Zipper<T> {
    /// A walk once round the ring in the direction `Original`, from the
    /// focus on.
    pub fn iter(&'_ self) -> (it: ZipperIter<'_, T>)
        requires
            self.wf(),
        ensures
            it.wf(),
            it@ == self@.elements(),
    {
        ZipperIter { zipper: self, count: self.size(), cursor: 0, dir: SequenceDirection::Original }
    }

    /// A walk once round the ring in the direction `Reverse`, from the focus
    /// on.
    pub fn reverse_iter(&'_ self) -> (it: ZipperIter<'_, T>)
        requires
            self.wf(),
        ensures
            it.wf(),
            it@ == self@.elements_behind(),
    {
        ZipperIter { zipper: self, count: self.size(), cursor: 0, dir: SequenceDirection::Reverse }
    }

    /// Turns the zipper into a walk that takes its elements out, the focused
    /// one first and then on in the direction `Original`.
    pub fn into_iter(self) -> (it: ZipperIntoIter<T>)
        requires
            self.wf(),
        ensures
            it.wf(),
            it@ == self@.elements(),
    {
        ZipperIntoIter { zipper: self }
    }
}

} // verus!
