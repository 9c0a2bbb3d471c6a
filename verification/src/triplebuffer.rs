//! A buffer of three slots that keeps the most recent values written to it.
use vstd::prelude::*;

verus! {

/// Three slots written in turn; the slot written last holds the value that
/// `top` reads.
pub struct TripleBuffer<T> {
    data: [Option<T>; 3],
    last: Option<usize>,
    time: u64,
}

/// The slot that follows slot `i`.
pub open spec fn next_slot(i: usize) -> usize {
    if i + 1 == 3 {
        0
    } else {
        (i + 1) as usize
    }
}

impl<T> TripleBuffer<T> {
    #[verifier::type_invariant]
    spec fn slot_in_range(self) -> bool {
        self.last matches Some(i) ==> i < 3
    }

    /// The contents of the three slots.
    pub closed spec fn slots(&self) -> Seq<Option<T>> {
        seq![self.data[0], self.data[1], self.data[2]]
    }

    /// The slot written last, if any.
    pub closed spec fn last_slot(&self) -> Option<usize> {
        self.last
    }

    /// The time given with the last write.
    pub closed spec fn stamp(&self) -> u64 {
        self.time
    }

    /// The value written last, if any.
    pub open spec fn latest(&self) -> Option<T> {
        match self.last_slot() {
            Some(i) => self.slots()[i as int],
            None => None,
        }
    }

    /// `self` is `before` after writing `x` at time `t`: the slot after the
    /// one written last receives `x` and becomes the last one, the other two
    /// keep what they held.
    pub open spec fn is_push_of(&self, before: Self, x: T, t: u64) -> bool {
        &&& before.last_slot() matches Some(i)
        &&& i < 3
        &&& self.last_slot() == Some(next_slot(i))
        &&& self.slots() == before.slots().update(next_slot(i) as int, Some(x))
        &&& self.stamp() == t
    }
}

impl<T: Clone> TripleBuffer<T> {
    /// A buffer with three empty slots and none written.
    pub fn new() -> (r: Self)
        ensures
            r.slots() == seq![None::<T>, None, None],
            r.last_slot() is None,
            r.stamp() == 0,
    {
        let r = TripleBuffer { data: [None, None, None], last: None, time: 0 };
        r
    }

    /// Writes `x` at time `time` into the slot after the one written last.
    /// A buffer that was never written has no slot written last: the write
    /// needs one.
    pub fn push(&mut self, x: T, time: u64)
        requires
            old(self).last_slot() is Some,
        ensures
            final(self).is_push_of(*old(self), x, time),
    {
        proof {
            use_type_invariant(&*self);
        }
        let mut nl: usize = self.last.unwrap() + 1;
        if nl == 3 {
            nl = 0;
        }
        let ghost before = self.data@;
        self.data[nl] = Some(x);
        self.last = Some(nl);
        self.time = time;
        assert(self.data@ == before.update(nl as int, Some(x)));
        assert(self.slots() =~= old(self).slots().update(nl as int, Some(x)));
    }

    /// A copy of the value written last, if any.
    pub fn top(&self) -> (r: Option<T>)
        ensures
            self.latest() is None ==> r is None,
            self.latest() matches Some(v) ==> r matches Some(w) && cloned::<T>(v, w),
    {
        proof {
            use_type_invariant(self);
        }
        if let Some(x) = self.last {
            self.data[x].clone()
        } else {
            None
        }
    }

    /// Whether some slot was written: true once a write was made.
    pub fn empty(&self) -> (r: bool)
        ensures
            r == (self.last_slot() is Some),
    {
        if let Some(_) = self.last {
            true
        } else {
            false
        }
    }
}

/// What `top` reads after a write is the value written.
pub proof fn law_top_reads_last_push<T>(before: TripleBuffer<T>, after: TripleBuffer<T>, x: T, t: u64)
    requires
        after.is_push_of(before, x, t),
    ensures
        after.latest() == Some(x),
{
}

/// A write keeps the two values written before it, in the other two slots.
pub proof fn law_push_keeps_two_older_values<T>(
    before: TripleBuffer<T>,
    after: TripleBuffer<T>,
    x: T,
    t: u64,
    j: int,
)
    requires
        after.is_push_of(before, x, t),
        0 <= j < 3,
        before.last_slot() matches Some(i) && j != next_slot(i),
    ensures
        after.slots()[j] == before.slots()[j],
{
}

} // verus!
