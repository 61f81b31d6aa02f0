//! What a search along the ring finds, stated for the predicate it is given.

use crate::split::Split;
use vstd::prelude::*;

verus! {

/// `p` answers as `f` says: a call of `p` on an element returns what `f`
/// holds of that element.
pub open spec fn answers_as<T, P: FnMut(&T) -> bool>(p: P, f: spec_fn(T) -> bool) -> bool {
    forall|t: T, b: bool| #[trigger] call_ensures(p, (&t,), b) ==> b == f(t)
}

impl<T> Split<T> {
    /// A search that moves the focus forwards one place at a time, and asks
    /// `p` about each new focus, can end after `k` moves: `p` turned down the
    /// first `k - 1` elements it was asked about, and then either accepted
    /// the next one, or turned that one down too after `len() + 1` moves.
    pub open spec fn stops_ahead<P: FnMut(&T) -> bool>(self, p: P, k: int) -> bool {
        &&& 1 <= k <= self.len() + 1
        &&& forall|j: int| 1 <= j < k ==> call_ensures(p, (&#[trigger] self.place(j),), false)
        &&& (call_ensures(p, (&self.place(k),), true) || (k == self.len() + 1 && call_ensures(
            p,
            (&self.place(k),),
            false,
        )))
    }

    /// The same for a search that moves the focus backwards.
    pub open spec fn stops_behind<P: FnMut(&T) -> bool>(self, p: P, k: int) -> bool {
        &&& 1 <= k <= self.len() + 1
        &&& forall|j: int|
            1 <= j < k ==> call_ensures(p, (&#[trigger] self.place_behind(j),), false)
        &&& (call_ensures(p, (&self.place_behind(k),), true) || (k == self.len() + 1
            && call_ensures(p, (&self.place_behind(k),), false)))
    }

    /// The least number of moves forwards, `from` or more, after which `f`
    /// holds of the focus; `len() + 1` where there is none up to `len()`.
    pub open spec fn moves_ahead_from(self, f: spec_fn(T) -> bool, from: int) -> int
        decreases self.len() + 1 - from,
    {
        if from > self.len() {
            self.len() as int + 1
        } else if f(self.place(from)) {
            from
        } else {
            self.moves_ahead_from(f, from + 1)
        }
    }

    /// The least number of moves backwards, `from` or more, after which `f`
    /// holds of the focus; `len() + 1` where there is none up to `len()`.
    pub open spec fn moves_behind_from(self, f: spec_fn(T) -> bool, from: int) -> int
        decreases self.len() + 1 - from,
    {
        if from > self.len() {
            self.len() as int + 1
        } else if f(self.place_behind(from)) {
            from
        } else {
            self.moves_behind_from(f, from + 1)
        }
    }

    /// How many moves a search forwards for `f` makes. It makes at least
    /// one, so the focus it starts from is the last element it looks at; and
    /// where `f` holds of no element it makes one move more than there are
    /// elements.
    pub open spec fn moves_ahead(self, f: spec_fn(T) -> bool) -> int {
        self.moves_ahead_from(f, 1)
    }

    /// How many moves a search backwards for `f` makes.
    pub open spec fn moves_behind(self, f: spec_fn(T) -> bool) -> int {
        self.moves_behind_from(f, 1)
    }

    /// The split after a search forwards for `f`.
    pub open spec fn refocused(self, f: spec_fn(T) -> bool) -> Self {
        self.advanced(self.moves_ahead(f))
    }

    /// The split after a search backwards for `f`.
    pub open spec fn refocused_backwards(self, f: spec_fn(T) -> bool) -> Self {
        self.advanced(-self.moves_behind(f))
    }

    /// `moves_ahead_from` is the first place at or after `from` where `f`
    /// holds.
    pub proof fn lemma_moves_ahead_from(self, f: spec_fn(T) -> bool, from: int)
        requires
            1 <= from <= self.len() + 1,
        ensures
            from <= self.moves_ahead_from(f, from) <= self.len() + 1,
            forall|j: int| from <= j < self.moves_ahead_from(f, from) ==> !f(#[trigger] self.place(j)),
            self.moves_ahead_from(f, from) <= self.len() ==> f(
                self.place(self.moves_ahead_from(f, from)),
            ),
        decreases self.len() + 1 - from,
    {
        if from <= self.len() && !f(self.place(from)) {
            self.lemma_moves_ahead_from(f, from + 1);
        }
    }

    /// `moves_behind_from` is the first place at or before `-from` where `f`
    /// holds.
    pub proof fn lemma_moves_behind_from(self, f: spec_fn(T) -> bool, from: int)
        requires
            1 <= from <= self.len() + 1,
        ensures
            from <= self.moves_behind_from(f, from) <= self.len() + 1,
            forall|j: int|
                from <= j < self.moves_behind_from(f, from) ==> !f(#[trigger] self.place_behind(j)),
            self.moves_behind_from(f, from) <= self.len() ==> f(
                self.place_behind(self.moves_behind_from(f, from)),
            ),
        decreases self.len() + 1 - from,
    {
        if from <= self.len() && !f(self.place_behind(from)) {
            self.lemma_moves_behind_from(f, from + 1);
        }
    }

    /// A predicate that answers as `f` says leaves a search forwards one
    /// place to stop.
    pub proof fn lemma_stops_ahead<P: FnMut(&T) -> bool>(self, p: P, f: spec_fn(T) -> bool, k: int)
        requires
            answers_as(p, f),
            self.stops_ahead(p, k),
        ensures
            k == self.moves_ahead(f),
    {
        self.lemma_moves_ahead_from(f, 1);
        let m = self.moves_ahead(f);
        if m < k {
            assert(call_ensures(p, (&self.place(m),), false));
        }
        assert(call_ensures(p, (&self.place(k),), f(self.place(k))));
    }

    /// A predicate that answers as `f` says leaves a search backwards one
    /// place to stop.
    pub proof fn lemma_stops_behind<P: FnMut(&T) -> bool>(
        self,
        p: P,
        f: spec_fn(T) -> bool,
        k: int,
    )
        requires
            answers_as(p, f),
            self.stops_behind(p, k),
        ensures
            k == self.moves_behind(f),
    {
        self.lemma_moves_behind_from(f, 1);
        let m = self.moves_behind(f);
        if m < k {
            assert(call_ensures(p, (&self.place_behind(m),), false));
        }
        assert(call_ensures(p, (&self.place_behind(k),), f(self.place_behind(k))));
    }
}

} // verus!
