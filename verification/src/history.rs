//! The bounded price history: a rolling sequence of recent integer prices
//! with an overwrite-when-full policy and a saturating-average query.

use vstd::prelude::*;

verus! {

/// Mathematical sum of a sequence of prices.
pub open spec fn sum_of(s: Seq<u32>) -> int
    decreases s.len(),
{
    if s.len() == 0 {
        0
    } else {
        sum_of(s.drop_last()) + s.last()
    }
}

pub proof fn lemma_sum_nonneg(s: Seq<u32>)
    ensures
        sum_of(s) >= 0,
    decreases s.len(),
{
    if s.len() > 0 {
        lemma_sum_nonneg(s.drop_last());
    }
}

/// The value an iterated `u32::saturating_add` fold of `s` yields.
pub open spec fn saturating_sum(s: Seq<u32>) -> u32 {
    if sum_of(s) > u32::MAX {
        u32::MAX
    } else if sum_of(s) < 0 {
        0
    } else {
        sum_of(s) as u32
    }
}

/// The average the history reports: none when empty, otherwise the
/// saturating sum of the entries divided (integer division) by their count.
pub open spec fn spec_average(s: Seq<u32>) -> Option<u32> {
    if s.len() == 0 {
        None
    } else {
        Some((saturating_sum(s) as int / s.len() as int) as u32)
    }
}

/// The notification emitted once per successful history mutation.
#[derive(Clone, Copy, Debug)]
pub struct NewObservation {
    pub price: u32,
    pub submitter: Option<u64>,
}

/// A bounded rolling sequence of observed prices.
///
/// While below capacity a new price is appended; once at capacity the new
/// price overwrites the slot at index `price % capacity` (a deliberate
/// collision-based replacement, not FIFO eviction). The host guarantees
/// at-most-one-writer-at-a-time; under that external invariant the length
/// never exceeds the capacity.
pub struct PriceHistory {
    prices: Vec<u32>,
    capacity: u32,
}

impl View for PriceHistory {
    type V = Seq<u32>;

    closed spec fn view(&self) -> Seq<u32> {
        self.prices@
    }
}

impl PriceHistory {
    pub closed spec fn spec_capacity(&self) -> u32 {
        self.capacity
    }

    /// Well-formedness: a positive capacity that the length never exceeds.
    pub open spec fn wf(&self) -> bool {
        &&& self.spec_capacity() >= 1
        &&& self@.len() <= self.spec_capacity()
    }

    pub fn new(capacity: u32) -> (h: PriceHistory)
        requires
            capacity >= 1,
        ensures
            h.wf(),
            h@ == Seq::<u32>::empty(),
            h.spec_capacity() == capacity,
    {
        PriceHistory { prices: Vec::new(), capacity }
    }

    pub fn capacity(&self) -> (c: u32)
        ensures
            c == self.spec_capacity(),
    {
        self.capacity
    }

    pub fn len(&self) -> (n: usize)
        ensures
            n == self@.len(),
    {
        self.prices.len()
    }

    /// A read-only copy of the current entries, oldest first.
    pub fn snapshot(&self) -> (r: Vec<u32>)
        ensures
            r@ == self@,
    {
        let mut r: Vec<u32> = Vec::new();
        let mut i: usize = 0;
        while i < self.prices.len()
            invariant
                i <= self.prices@.len(),
                r@ == self.prices@.take(i as int),
            decreases self.prices@.len() - i,
        {
            r.push(self.prices[i]);
            proof {
                assert(self.prices@.take(i + 1 as int) =~= self.prices@.take(i as int).push(
                    self.prices@[i as int],
                ));
            }
            i = i + 1;
        }
        proof {
            assert(self.prices@.take(self.prices@.len() as int) =~= self.prices@);
        }
        r
    }

    /// Fold one observation into the history: append while below capacity,
    /// overwrite the slot at `price % capacity` once at capacity.
    pub fn add(&mut self, price: u32)
        requires
            old(self).wf(),
        ensures
            final(self).wf(),
            final(self).spec_capacity() == old(self).spec_capacity(),
            final(self)@.len() >= 1,
            old(self)@.len() < old(self).spec_capacity() ==> final(self)@ == old(self)@.push(
                price,
            ),
            old(self)@.len() == old(self).spec_capacity() ==> final(self)@ == old(self)@.update(
                price as int % old(self).spec_capacity() as int,
                price,
            ) && final(self)@.len() == old(self)@.len(),
    {
        if self.prices.len() < self.capacity as usize {
            self.prices.push(price);
        } else {
            let i = (price % self.capacity) as usize;
            self.prices[i] = price;
        }
    }

    /// The arithmetic mean over the current entries, computed with
    /// saturating accumulation; none when the history is empty.
    pub fn average(&self) -> (r: Option<u32>)
        requires
            self.wf(),
        ensures
            r == spec_average(self@),
            r is None <==> self@.len() == 0,
    {
        if self.prices.len() == 0 {
            None
        } else {
            let mut acc: u32 = 0;
            let mut i: usize = 0;
            while i < self.prices.len()
                invariant
                    i <= self.prices@.len(),
                    acc == saturating_sum(self.prices@.take(i as int)),
                decreases self.prices@.len() - i,
            {
                proof {
                    assert(self.prices@.take(i + 1 as int).drop_last() =~= self.prices@.take(
                        i as int,
                    ));
                    assert(self.prices@.take(i + 1 as int).last() == self.prices@[i as int]);
                    lemma_sum_nonneg(self.prices@.take(i as int));
                }
                acc = acc.saturating_add(self.prices[i]);
                i = i + 1;
            }
            proof {
                assert(self.prices@.take(self.prices@.len() as int) =~= self.prices@);
            }
            Some(acc / (self.prices.len() as u32))
        }
    }
}

/// Law: a well-formed history never holds more entries than its capacity,
/// whatever sequence of `add` calls produced it.
pub proof fn lemma_history_bounded(h: PriceHistory)
    requires
        h.wf(),
    ensures
        h@.len() <= h.spec_capacity(),
{
}

/// The authenticated handler the host dispatches an accepted submission to:
/// it folds the price into the history, recomputes the average, and returns
/// it with the notification to emit. Authentication happens at the dispatch
/// boundary before this runs; the host's one-writer-at-a-time discipline is
/// assumed.
pub fn submit_price(history: &mut PriceHistory, submitter: Option<u64>, price: u32) -> (r: (
    u32,
    NewObservation,
))
    requires
        old(history).wf(),
    ensures
        final(history).wf(),
        final(history).spec_capacity() == old(history).spec_capacity(),
        old(history)@.len() < old(history).spec_capacity() ==> final(history)@ == old(
            history,
        )@.push(price),
        old(history)@.len() == old(history).spec_capacity() ==> final(history)@ == old(
            history,
        )@.update(price as int % old(history).spec_capacity() as int, price),
        Some(r.0) == spec_average(final(history)@),
        r.1.price == price,
        r.1.submitter == submitter,
{
    history.add(price);
    let avg = history.average();
    let a = avg.unwrap();
    (a, NewObservation { price, submitter })
}

} // verus!
