//! Evenly spaced numbers between two ends.

use vstd::prelude::*;
use crate::arith::floor_div;

verus! {

/// Walks from `start` towards `end` in `steps` equal steps, from either side.
///
/// It gives `steps` numbers: the one at position `pos` lies `pos` steps of
/// the way from `start` to `end`, rounded down to the next millionth. `end`
/// itself is not given. The numbers are fixed-point, as the loads are.
#[derive(Clone, Copy, Debug)]
pub struct FloatIterator {
    current: u64,
    current_back: u64,
    steps: u64,
    start: i64,
    end: i64,
}

/// The number that lies `pos` of `steps` steps of the way from `start` to
/// `end`, rounded down.
pub open spec fn interpolated(start: i64, end: i64, steps: u64, pos: int) -> int {
    ((steps - pos) * start + pos * end) / (steps as int)
}

/// A point between two 64-bit numbers, times the steps, stays within the
/// steps times the 64-bit range.
proof fn lemma_interpolation_bounds(start: i64, end: i64, steps: u64, pos: u64)
    requires
        pos <= steps,
    ensures
        i64::MIN * steps <= (steps - pos) * start + pos * end <= i64::MAX * steps,
{
    assert(i64::MIN * (steps - pos) <= (steps - pos) * start <= i64::MAX * (steps - pos))
        by (nonlinear_arith)
        requires
            0 <= steps - pos,
            i64::MIN <= start <= i64::MAX,
    ;
    assert(i64::MIN * pos <= pos * end <= i64::MAX * pos) by (nonlinear_arith)
        requires
            0 <= pos,
            i64::MIN <= end <= i64::MAX,
    ;
    assert(i64::MIN * (steps - pos) + i64::MIN * pos == i64::MIN * steps) by (nonlinear_arith);
    assert(i64::MAX * (steps - pos) + i64::MAX * pos == i64::MAX * steps) by (nonlinear_arith);
}

impl FloatIterator {
    #[verifier::type_invariant]
    spec fn inv(self) -> bool {
        self.current <= self.current_back <= self.steps
    }

    /// The numbers that are still to come, from the front to the back.
    pub closed spec fn remaining(self) -> Seq<int> {
        Seq::new(
            (self.current_back - self.current) as nat,
            |k: int| interpolated(self.start, self.end, self.steps, self.current + k),
        )
    }

    /// The `steps` numbers from `start` towards `end`.
    pub open spec fn spaced(start: i64, end: i64, steps: u64) -> Seq<int> {
        Seq::new(steps as nat, |k: int| interpolated(start, end, steps, k))
    }

    /// Walk from `start` towards `end` in `steps` steps.
    pub fn new(start: i64, end: i64, steps: u64) -> (iter: Self)
        ensures
            iter.remaining() == Self::spaced(start, end, steps),
    {
        let iter = FloatIterator { current: 0, current_back: steps, steps: steps, start: start, end: end };
        assert(iter.remaining() =~= Self::spaced(start, end, steps));
        iter
    }

    /// How many steps of length `step` lead from `start` to `end`: the
    /// distance divided by the length of a step, rounded to the nearest whole
    /// number, a half rounded up.
    pub open spec fn steps_for(start: i64, end: i64, step: i64) -> int {
        let distance: int = if end >= start {
            end - start
        } else {
            start - end
        };
        let length: int = if step >= 0 {
            step as int
        } else {
            -step
        };
        (2 * distance + length) / (2 * length)
    }

    /// Walk from `start` towards `end` in steps of length `step`, as many as
    /// `steps_for` says. There is no walk with steps of length zero.
    pub fn new_with_step(start: i64, end: i64, step: i64) -> (iter: Option<Self>)
        ensures
            match iter {
                Some(it) => {
                    &&& step != 0
                    &&& 0 <= Self::steps_for(start, end, step) <= u64::MAX
                    &&& it.remaining() == Self::spaced(
                        start,
                        end,
                        Self::steps_for(start, end, step) as u64,
                    )
                },
                None => step == 0,
            },
    {
        if step == 0 {
            return None;
        }
        let distance: u128 = if end >= start {
            (end as i128 - start as i128) as u128
        } else {
            (start as i128 - end as i128) as u128
        };
        let length: u128 = if step >= 0 {
            step as u128
        } else {
            (-(step as i128)) as u128
        };
        let steps: u128 = (2 * distance + length) / (2 * length);
        assert(steps <= u64::MAX) by (nonlinear_arith)
            requires
                steps == (2 * distance + length) as int / (2 * length) as int,
                0 <= distance <= u64::MAX,
                length >= 1,
        ;
        Some(Self::new(start, end, steps as u64))
    }

    /// How many numbers are still to come.
    pub fn length(&self) -> (n: u64)
        ensures
            n == self.remaining().len(),
    {
        proof {
            use_type_invariant(self);
        }
        self.current_back - self.current
    }

    /// The number at position `pos`.
    fn at(&self, pos: u64) -> (x: i64)
        requires
            pos < self.steps,
        ensures
            x == interpolated(self.start, self.end, self.steps, pos as int),
    {
        proof {
            lemma_interpolation_bounds(self.start, self.end, self.steps, pos);
            assert(i64::MIN * u64::MAX <= (self.steps - pos) * self.start <= i64::MAX * u64::MAX)
                by (nonlinear_arith)
                requires
                    0 <= self.steps - pos <= u64::MAX,
                    i64::MIN <= self.start <= i64::MAX,
            ;
            assert(i64::MIN * u64::MAX <= pos * self.end <= i64::MAX * u64::MAX)
                by (nonlinear_arith)
                requires
                    0 <= pos <= u64::MAX,
                    i64::MIN <= self.end <= i64::MAX,
            ;
        }
        let from_start: i128 = ((self.steps - pos) as i128) * (self.start as i128);
        let from_end: i128 = (pos as i128) * (self.end as i128);
        floor_div(from_start + from_end, self.steps)
    }

    /// The next number from the front, if any is left.
    pub fn next(&mut self) -> (item: Option<i64>)
        ensures
            match item {
                Some(x) => {
                    &&& old(self).remaining().len() > 0
                    &&& x == old(self).remaining().first()
                    &&& final(self).remaining() == old(self).remaining().drop_first()
                },
                None => {
                    &&& old(self).remaining().len() == 0
                    &&& final(self).remaining() == old(self).remaining()
                },
            },
    {
        proof {
            use_type_invariant(&*self);
        }
        if self.current >= self.current_back {
            return None;
        }
        let result: i64 = self.at(self.current);
        self.current = self.current + 1;
        assert(self.remaining() =~= old(self).remaining().drop_first());
        Some(result)
    }

    /// The next number from the back, if any is left.
    pub fn next_back(&mut self) -> (item: Option<i64>)
        ensures
            match item {
                Some(x) => {
                    &&& old(self).remaining().len() > 0
                    &&& x == old(self).remaining().last()
                    &&& final(self).remaining() == old(self).remaining().drop_last()
                },
                None => {
                    &&& old(self).remaining().len() == 0
                    &&& final(self).remaining() == old(self).remaining()
                },
            },
    {
        proof {
            use_type_invariant(&*self);
        }
        if self.current >= self.current_back {
            return None;
        }
        self.current_back = self.current_back - 1;
        let result: i64 = self.at(self.current_back);
        assert(self.remaining() =~= old(self).remaining().drop_last());
        Some(result)
    }

    /// How many numbers are still to come, as the least and the most that it
    /// can be.
    pub fn size_hint(&self) -> (hint: (u64, Option<u64>))
        ensures
            hint.0 == self.remaining().len(),
            hint.1 == Some(hint.0),
    {
        let l: u64 = self.length();
        (l, Some(l))
    }

    /// How many numbers are still to come.
    pub fn count(self) -> (n: u64)
        ensures
            n == self.remaining().len(),
    {
        self.length()
    }

    /// How many numbers are still to come.
    pub fn len(&self) -> (n: u64)
        ensures
            n == self.remaining().len(),
    {
        self.length()
    }
}

} // verus!
