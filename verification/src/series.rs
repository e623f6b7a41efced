//! The series: timestamps and loads side by side, and the checks on its
//! spacing.

use vstd::prelude::*;
use crate::timestamp::Timestamp;

verus! {

/// A load series: `load[i]` was measured at `time[i]`.
///
/// A load is a fixed-point number of millionths, or `None` where there is no
/// valid measurement for that instant.
#[derive(Clone, Debug)]
pub struct TimeLoad {
    /// When each sample was taken.
    pub time: Vec<Timestamp>,
    /// What was measured, in millionths, or `None`.
    pub load: Vec<Option<i64>>,
}

/// The most samples that room is set aside for ahead of their arrival.
pub const RESERVE_LIMIT: usize = 1_048_576;

/// Why a series was refused by a check on its timestamps.
#[derive(Clone, Copy, Debug, PartialEq, Eq, Structural)]
pub enum SeriesError {
    /// The timestamp at `index` is not later than the one before it.
    NotOrdered { index: usize },
    /// The step that ends at `index` differs from the step before it.
    NotContinuous { index: usize },
}

/// The seconds from sample `i` to sample `i + 1`.
pub open spec fn step_at(t: Seq<Timestamp>, i: int) -> int {
    t[i + 1].secs - t[i].secs
}

/// Every timestamp is later than the one before it.
pub open spec fn ordered(t: Seq<Timestamp>) -> bool {
    forall|i: int| 0 <= i < t.len() - 1 ==> #[trigger] step_at(t, i) > 0
}

/// Every step between neighbours is `step` seconds long.
pub open spec fn evenly_spaced(t: Seq<Timestamp>, step: int) -> bool {
    forall|i: int| 0 <= i < t.len() - 1 ==> #[trigger] step_at(t, i) == step
}

/// All steps between neighbours are equally long.
pub open spec fn continuous(t: Seq<Timestamp>) -> bool {
    t.len() >= 2 ==> evenly_spaced(t, step_at(t, 0))
}

/// In an ordered series, a later sample has a later timestamp.
pub proof fn lemma_ordered_pairs(t: Seq<Timestamp>, i: int, j: int)
    requires
        ordered(t),
        0 <= i < j < t.len(),
    ensures
        t[i].secs < t[j].secs,
    decreases j - i,
{
    assert(step_at(t, j - 1) > 0);
    if i < j - 1 {
        lemma_ordered_pairs(t, i, j - 1);
    }
}

impl TimeLoad {
    /// Every timestamp has its load.
    pub open spec fn wf(&self) -> bool {
        self.time.len() == self.load.len()
    }

    /// An empty series with room for `capacity` samples, or for
    /// `RESERVE_LIMIT` samples where `capacity` is above that.
    pub fn new(capacity: usize) -> (timeload: TimeLoad)
        ensures
            timeload.time@ == Seq::<Timestamp>::empty(),
            timeload.load@ == Seq::<Option<i64>>::empty(),
            timeload.wf(),
    {
        let room: usize = if capacity > RESERVE_LIMIT {
            RESERVE_LIMIT
        } else {
            capacity
        };
        let time: Vec<Timestamp> = Vec::with_capacity(room);
        let load: Vec<Option<i64>> = Vec::with_capacity(room);
        TimeLoad { time, load }
    }

    /// Check that every timestamp is later than the one before it.
    ///
    /// On failure the error names the first timestamp that is not.
    pub fn is_ordered(&self) -> (checked: Result<(), SeriesError>)
        ensures
            checked is Ok <==> ordered(self.time@),
            match checked {
                Ok(_) => true,
                Err(SeriesError::NotOrdered { index }) => {
                    &&& 1 <= index < self.time.len()
                    &&& ordered(self.time@.take(index as int))
                    &&& self.time[index as int].secs <= self.time[index - 1].secs
                },
                Err(SeriesError::NotContinuous { .. }) => false,
            },
    {
        let n: usize = self.time.len();
        if n == 0 {
            return Ok(());
        }
        let mut i: usize = 1;
        while i < n
            invariant
                n == self.time.len(),
                1 <= i <= n,
                ordered(self.time@.take(i as int)),
            decreases n - i,
        {
            if self.time[i].secs <= self.time[i - 1].secs {
                proof {
                    assert(!(step_at(self.time@, i - 1) > 0));
                }
                return Err(SeriesError::NotOrdered { index: i });
            }
            proof {
                let a = self.time@.take(i as int);
                let b = self.time@.take(i + 1);
                assert forall|k: int| 0 <= k < b.len() - 1 implies #[trigger] step_at(b, k) > 0 by {
                    if k < i - 1 {
                        assert(step_at(a, k) > 0);
                    }
                }
            }
            i += 1;
        }
        proof {
            assert(self.time@.take(n as int) == self.time@);
        }
        Ok(())
    }

    /// Check that every timestamp is later than the one before it and that
    /// all steps are equally long.
    ///
    /// The pairs of neighbours are gone through from the start. On failure the
    /// error names the later timestamp of the first pair that is out of order
    /// or whose step differs from the step before.
    pub fn is_ordered_and_continuous(&self) -> (checked: Result<(), SeriesError>)
        ensures
            checked is Ok <==> ordered(self.time@) && continuous(self.time@),
            match checked {
                Ok(_) => true,
                Err(SeriesError::NotOrdered { index }) => {
                    &&& 1 <= index < self.time.len()
                    &&& ordered(self.time@.take(index as int))
                    &&& continuous(self.time@.take(index as int))
                    &&& self.time[index as int].secs <= self.time[index - 1].secs
                },
                Err(SeriesError::NotContinuous { index }) => {
                    &&& 2 <= index < self.time.len()
                    &&& ordered(self.time@.take(index + 1))
                    &&& continuous(self.time@.take(index as int))
                    &&& step_at(self.time@, index - 1) != step_at(self.time@, index - 2)
                },
            },
    {
        let n: usize = self.time.len();
        if n == 0 {
            return Ok(());
        }
        let mut i: usize = 1;
        while i < n
            invariant
                n == self.time.len(),
                1 <= i <= n,
                ordered(self.time@.take(i as int)),
                continuous(self.time@.take(i as int)),
            decreases n - i,
        {
            let ghost a = self.time@.take(i as int);
            let ghost b = self.time@.take(i + 1);
            if self.time[i].secs <= self.time[i - 1].secs {
                proof {
                    assert(!(step_at(self.time@, i - 1) > 0));
                }
                return Err(SeriesError::NotOrdered { index: i });
            }
            proof {
                assert forall|k: int| 0 <= k < b.len() - 1 implies #[trigger] step_at(b, k) > 0 by {
                    if k < i - 1 {
                        assert(step_at(a, k) > 0);
                    }
                }
            }
            if i >= 2 {
                let step: i128 = self.time[i].secs as i128 - self.time[i - 1].secs as i128;
                let before: i128 = self.time[i - 1].secs as i128 - self.time[i - 2].secs as i128;
                if step != before {
                    proof {
                        assert(step_at(self.time@, i - 1) == step);
                        assert(step_at(self.time@, i - 2) == before);
                        if continuous(self.time@) {
                            assert(step_at(self.time@, i - 1) == step_at(self.time@, 0));
                            assert(step_at(self.time@, i - 2) == step_at(self.time@, 0));
                        }
                    }
                    return Err(SeriesError::NotContinuous { index: i });
                }
                proof {
                    assert(step_at(a, i - 2) == step_at(a, 0));
                    assert forall|k: int| 0 <= k < b.len() - 1 implies #[trigger] step_at(b, k)
                        == step_at(b, 0) by {
                        if k < i - 1 {
                            assert(step_at(a, k) == step_at(a, 0));
                        }
                    }
                }
            }
            i += 1;
        }
        proof {
            assert(self.time@.take(n as int) == self.time@);
        }
        Ok(())
    }
}

} // verus!
