//! Where the random choices come from.

use vstd::prelude::*;

verus! {

/// A source of random integers. The maze algorithms ask nothing else of it.
pub trait RngWrapper {
    /// Whether the generator keeps a record of the values that it hands out.
    /// A generator that says nothing keeps none.
    open spec fn keeps_record(&self) -> bool {
        false
    }

    /// The values handed out so far, oldest first, where a record is kept.
    open spec fn drawn(&self) -> Seq<usize> {
        Seq::empty()
    }

    /// Picks an integer in `low..high`. Where a record is kept, the value
    /// goes to its end.
    fn gen_range(&mut self, low: usize, high: usize) -> (r: usize)
        requires
            low < high,
        ensures
            low <= r < high,
            old(self).keeps_record() ==> final(self).keeps_record() && final(self).drawn() == old(
                self,
            ).drawn().push(r),
    ;
}

/// A generator that replays a fixed list of values, over and over, and keeps
/// a record of what it hands out.
///
/// The value at the current position is reduced into the range asked for, so
/// that one list of values always gives the same choices.
pub struct TraceRng {
    pub values: Vec<usize>,
    pub position: usize,
    /// The values handed out so far.
    pub record: Ghost<Seq<usize>>,
}

impl TraceRng {
    /// The position of the value that the next call reads.
    pub open spec fn cursor(&self) -> int {
        if self.position < self.values@.len() {
            self.position as int
        } else {
            0
        }
    }

    /// What the next call of `gen_range` returns.
    pub open spec fn next_choice(&self, low: usize, high: usize) -> int {
        if self.values@.len() == 0 {
            low as int
        } else {
            low + self.values@[self.cursor()] as int % (high - low)
        }
    }

    /// A generator that starts at the first of `values`, with an empty
    /// record.
    pub fn new(values: Vec<usize>) -> (rng: TraceRng)
        ensures
            rng.values@ == values@,
            rng.position == 0,
            rng.record@ == Seq::<usize>::empty(),
    {
        TraceRng { values, position: 0, record: Ghost(Seq::empty()) }
    }

    /// Picks the next choice and moves one position on, back to the start
    /// after the last value. The choice goes to the end of the record.
    pub fn pick(&mut self, low: usize, high: usize) -> (r: usize)
        requires
            low < high,
        ensures
            r == old(self).next_choice(low, high),
            low <= r < high,
            final(self).values@ == old(self).values@,
            old(self).values@.len() > 0 ==> final(self).position == old(self).cursor() + 1,
            old(self).values@.len() == 0 ==> final(self).position == old(self).position,
            final(self).record@ == old(self).record@.push(r),
    {
        if self.values.len() == 0 {
            proof {
                self.record@ = self.record@.push(low);
            }
            return low;
        }
        if self.position >= self.values.len() {
            self.position = 0;
        }
        let raw: usize = self.values[self.position];
        self.position = self.position + 1;
        let r: usize = low + raw % (high - low);
        proof {
            self.record@ = self.record@.push(r);
        }
        r
    }
}

impl RngWrapper for TraceRng {
    /// The record is kept.
    open spec fn keeps_record(&self) -> bool {
        true
    }

    open spec fn drawn(&self) -> Seq<usize> {
        self.record@
    }

    /// The value at the current position, reduced into `low..high`; the
    /// generator then stands one position on, back at the start after the
    /// last value. A generator without values answers `low` and stays.
    fn gen_range(&mut self, low: usize, high: usize) -> (r: usize)
        ensures
            r == old(self).next_choice(low, high),
            final(self).values@ == old(self).values@,
            old(self).values@.len() > 0 ==> final(self).position == old(self).cursor() + 1,
            old(self).values@.len() == 0 ==> final(self).position == old(self).position,
    {
        self.pick(low, high)
    }
}

} // verus!
