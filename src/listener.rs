//! The poller's decisions: which feeds to fetch on each tick, and what a finished
//! fetch yields. Running the timer, the fetches and the queue is left to the caller.
use vstd::prelude::*;
use crate::snapshot::Feed;

verus! {

/// The feeds to poll, and which of them have a fetch still running.
/// A feed is fetched at most once at a time: a tick skips a feed whose last fetch
/// has not finished.
pub struct Listener {
    feeds: Vec<Feed>,
    in_flight: Vec<bool>,
    interval_secs: u64,
}

pub struct ListenerView {
    pub feeds: Seq<Feed>,
    pub n_feeds: nat,
    pub in_flight: Seq<bool>,
    pub interval_secs: u64,
}

impl View for Listener {
    type V = ListenerView;

    closed spec fn view(&self) -> ListenerView {
        ListenerView {
            feeds: self.feeds@,
            n_feeds: self.feeds@.len(),
            in_flight: self.in_flight@,
            interval_secs: self.interval_secs,
        }
    }
}

/// The feeds, in order, that a tick launches: those with no fetch running.
pub open spec fn idle_feeds(in_flight: Seq<bool>) -> Seq<usize>
    decreases in_flight.len(),
{
    if in_flight.len() == 0 {
        Seq::empty()
    } else {
        let r = idle_feeds(in_flight.drop_last());
        if in_flight.last() {
            r
        } else {
            r.push((in_flight.len() - 1) as usize)
        }
    }
}

impl Listener {
    pub open spec fn wf(&self) -> bool {
        self@.in_flight.len() == self@.n_feeds
    }

    /// A listener over `feeds` that ticks every `interval_secs` seconds, with nothing running.
    pub fn new(feeds: Vec<Feed>, interval_secs: u64) -> (r: Listener)
        ensures
            r.wf(),
            r@.n_feeds == feeds@.len(),
            r@.feeds == feeds@,
            r@.interval_secs == interval_secs,
            forall|i: int| 0 <= i < r@.in_flight.len() ==> !r@.in_flight[i],
    {
        let mut in_flight: Vec<bool> = Vec::new();
        let mut i: usize = 0;
        while i < feeds.len()
            invariant
                i <= feeds@.len(),
                in_flight@.len() == i,
                forall|k: int| 0 <= k < i ==> !in_flight@[k],
            decreases feeds@.len() - i,
        {
            in_flight.push(false);
            i = i + 1;
        }
        Listener { feeds, in_flight, interval_secs }
    }

    pub fn feed(&self, i: usize) -> (r: &Feed)
        requires
            i < self@.n_feeds,
        ensures
            *r == self@.feeds[i as int],
    {
        &self.feeds[i]
    }

    pub fn interval_secs(&self) -> (r: u64)
        ensures
            r == self@.interval_secs,
    {
        self.interval_secs
    }

    /// How many finished snapshots the queue between the poller and its consumer holds
    /// before a producer waits: two per feed, and one more.
    pub fn queue_capacity(&self) -> (r: usize)
        requires
            2 * self@.n_feeds + 1 <= usize::MAX,
        ensures
            r == 2 * self@.n_feeds + 1,
    {
        self.feeds.len() * 2 + 1
    }

    /// A tick: the feeds to fetch now, which are marked as running.
    pub fn on_tick(&mut self) -> (r: Vec<usize>)
        requires
            old(self).wf(),
        ensures
            final(self).wf(),
            final(self)@.feeds == old(self)@.feeds,
            final(self)@.n_feeds == old(self)@.n_feeds,
            final(self)@.interval_secs == old(self)@.interval_secs,
            r@ == idle_feeds(old(self)@.in_flight),
            forall|i: int| 0 <= i < final(self)@.in_flight.len() ==> final(self)@.in_flight[i],
    {
        let ghost orig = self.in_flight@;
        let mut r: Vec<usize> = Vec::new();
        let mut i: usize = 0;
        while i < self.in_flight.len()
            invariant
                self.wf(),
                self@.feeds == old(self)@.feeds,
                self@.n_feeds == old(self)@.n_feeds,
                self@.interval_secs == old(self)@.interval_secs,
                orig == old(self)@.in_flight,
                self.in_flight@.len() == orig.len(),
                i <= orig.len(),
                r@ == idle_feeds(orig.subrange(0, i as int)),
                forall|k: int| 0 <= k < i ==> self.in_flight@[k],
                forall|k: int| i <= k < orig.len() ==> self.in_flight@[k] == orig[k],
            decreases orig.len() - i,
        {
            assert(orig.subrange(0, i + 1).drop_last() =~= orig.subrange(0, i as int));
            if !self.in_flight[i] {
                r.push(i);
                self.in_flight[i] = true;
            }
            i = i + 1;
        }
        assert(orig.subrange(0, i as int) =~= orig);
        r
    }

    /// A fetch of feed `i` has finished, well or not.
    pub fn on_done(&mut self, i: usize)
        requires
            old(self).wf(),
            i < old(self)@.n_feeds,
        ensures
            final(self).wf(),
            final(self)@.feeds == old(self)@.feeds,
            final(self)@.n_feeds == old(self)@.n_feeds,
            final(self)@.interval_secs == old(self)@.interval_secs,
            final(self)@.in_flight == old(self)@.in_flight.update(i as int, false),
    {
        self.in_flight[i] = false;
    }
}

} // verus!
