//! The checkpoints of a stream.
use vstd::multiset::Multiset;
use vstd::prelude::*;

verus! {

/// A position of a stream which can be gone back to.
///
/// A stream keeps its text from its earliest checkpoint on. A checkpoint is therefore given back to
/// its stream when it is no longer of use: by going back to it, by reading the range that it
/// delimits, or by releasing it.
#[must_use]
pub struct CheckPoint(u64);

impl CheckPoint {
    /// The position, in bytes since the beginning of the text.
    pub closed spec fn position(&self) -> nat {
        self.0 as nat
    }

    /// Whether the checkpoint is not after the other one.
    pub fn precedes(&self, other: &CheckPoint) -> (b: bool)
        ensures
            b == (self.position() <= other.position()),
    {
        self.0 <= other.0
    }

    pub(crate) fn new(position: u64) -> (checkpoint: CheckPoint)
        ensures
            checkpoint.position() == position,
    {
        CheckPoint(position)
    }

    pub(crate) fn inner(&self) -> (position: u64)
        ensures
            position == self.position(),
    {
        self.0
    }
}

/// The checkpoints of a stream that were not given back yet.
pub struct CheckPointSet(Vec<u64>);

impl View for CheckPointSet {
    type V = Multiset<nat>;

    closed spec fn view(&self) -> Multiset<nat> {
        as_positions(self.0@).to_multiset()
    }
}

spec fn as_positions(positions: Seq<u64>) -> Seq<nat> {
    positions.map_values(|position: u64| position as nat)
}

impl CheckPointSet {
    /// The set of a stream that made no checkpoint yet.
    pub fn new() -> (set: CheckPointSet)
        ensures
            set@ == Multiset::<nat>::empty(),
    {
        let set = CheckPointSet(Vec::new());
        proof {
            as_positions(set.0@).to_multiset_ensures();
            assert(set@ =~= Multiset::<nat>::empty());
        }
        set
    }

    /// Makes a checkpoint at `position`.
    pub fn insert(&mut self, position: u64) -> (checkpoint: CheckPoint)
        ensures
            checkpoint.position() == position,
            final(self)@ == old(self)@.insert(position as nat),
    {
        self.0.push(position);
        proof {
            as_positions(old(self).0@).to_multiset_ensures();
            assert(as_positions(self.0@) =~= as_positions(old(self).0@).push(position as nat));
        }
        CheckPoint::new(position)
    }

    /// Takes a checkpoint back.
    pub fn remove(&mut self, checkpoint: CheckPoint)
        requires
            old(self)@.count(checkpoint.position()) > 0,
        ensures
            final(self)@ == old(self)@.remove(checkpoint.position()),
    {
        let position = checkpoint.inner();
        proof {
            as_positions(self.0@).to_multiset_ensures();
            assert(as_positions(self.0@).contains(position as nat));
            let i = choose|i: int|
                0 <= i < self.0@.len() && as_positions(self.0@)[i] == position as nat;
            assert(self.0@[i] == position);
        }
        let mut i: usize = self.0.len() - 1;
        while self.0[i] != position
            invariant
                i < self.0@.len(),
                exists|j: int| 0 <= j <= i && self.0@[j] == position,
            decreases i,
        {
            i = i - 1;
        }
        self.0.remove(i);
        proof {
            assert(as_positions(self.0@) =~= as_positions(old(self).0@).remove(i as int));
        }
    }

    /// The smallest position of a checkpoint.
    pub fn min_checkpoint_position(&self) -> (least: Option<u64>)
        ensures
            match least {
                Some(least) => {
                    &&& self@.count(least as nat) > 0
                    &&& forall|mark: nat| #[trigger] self@.count(mark) > 0 ==> least <= mark
                },
                None => self@ == Multiset::<nat>::empty(),
            },
    {
        proof {
            as_positions(self.0@).to_multiset_ensures();
        }
        if self.0.len() == 0 {
            assert(self@ =~= Multiset::<nat>::empty());
            return None;
        }
        let mut least: u64 = self.0[0];
        let mut i: usize = 1;
        while i < self.0.len()
            invariant
                1 <= i <= self.0@.len(),
                forall|j: int| 0 <= j < i ==> least <= self.0@[j],
                exists|j: int| 0 <= j < i && self.0@[j] == least,
            decreases self.0@.len() - i,
        {
            if self.0[i] < least {
                least = self.0[i];
            }
            i = i + 1;
        }
        proof {
            let positions = as_positions(self.0@);
            assert forall|mark: nat| #[trigger] self@.count(mark) > 0 implies least <= mark by {
                assert(positions.contains(mark));
            }
            let j = choose|j: int| 0 <= j < self.0@.len() && self.0@[j] == least;
            assert(positions[j] == least as nat);
            assert(positions.contains(least as nat));
        }
        Some(least)
    }
}

} // verus!
