//! The per-complex view of upcoming train arrivals.
//!
//! Each feed batch yields, per complex, one candidate per trip: the trip's last
//! listed stop that lies in the complex. Candidates are merged into the long-lived
//! state trip by trip, gated by message time, and stale entries are then evicted.
use vstd::prelude::*;
use crate::datetime::Timestamp;
use crate::error::DecodeError;
use crate::ids::{parent_of, ComplexId, StopId, TripIdStr};
use crate::snapshot::Response;
use crate::msg::{Batch, StopPlanView, UpdateView, msgs_view, plans_view, result_view};
use vstd::seq_lib::{to_multiset_build, to_multiset_insert};

verus! {

/// How long a message stays current, in seconds.
pub const STALE_AFTER_SECS: i64 = 45;

/// The next predicted arrival of a trip at a station.
#[derive(Debug, Clone)]
pub struct Upcoming {
    pub trip: TripIdStr,
    pub stop: StopId,
    pub arrival: Timestamp,
    pub message: Timestamp,
}

pub struct UpcomingView {
    pub trip: Seq<u8>,
    pub stop: Seq<u8>,
    pub arrival: Timestamp,
    pub message: Timestamp,
}

impl View for Upcoming {
    type V = UpcomingView;

    open spec fn view(&self) -> UpcomingView {
        UpcomingView { trip: self.trip@, stop: self.stop@, arrival: self.arrival, message: self.message }
    }
}

impl Upcoming {
    pub fn copy(&self) -> (r: Upcoming)
        ensures
            r@ == self@,
    {
        Upcoming {
            trip: self.trip.copy(),
            stop: self.stop.copy(),
            arrival: self.arrival,
            message: self.message,
        }
    }
}

pub open spec fn ups_view(v: Seq<Upcoming>) -> Seq<UpcomingView> {
    v.map_values(|u: Upcoming| u@)
}

/// The upcoming arrivals of one complex.
#[derive(Debug, Clone)]
pub struct ComplexUpcoming {
    pub complex: ComplexId,
    pub upcoming: Vec<Upcoming>,
}

pub struct ComplexUpcomingView {
    pub complex: ComplexId,
    pub upcoming: Seq<UpcomingView>,
}

impl View for ComplexUpcoming {
    type V = ComplexUpcomingView;

    open spec fn view(&self) -> ComplexUpcomingView {
        ComplexUpcomingView { complex: self.complex, upcoming: ups_view(self.upcoming@) }
    }
}

pub open spec fn cus_view(v: Seq<ComplexUpcoming>) -> Seq<ComplexUpcomingView> {
    v.map_values(|c: ComplexUpcoming| c@)
}

/// Which complex a station or platform belongs to.
#[derive(Debug, Clone)]
pub struct StopComplex {
    pub stop: StopId,
    pub complex: ComplexId,
}

pub struct StopComplexView {
    pub stop: Seq<u8>,
    pub complex: ComplexId,
}

impl View for StopComplex {
    type V = StopComplexView;

    open spec fn view(&self) -> StopComplexView {
        StopComplexView { stop: self.stop@, complex: self.complex }
    }
}

pub open spec fn scs_view(v: Seq<StopComplex>) -> Seq<StopComplexView> {
    v.map_values(|c: StopComplex| c@)
}

/// A complex and the stations and platforms it holds.
#[derive(Debug, Clone)]
pub struct StationComplex {
    pub complex_id: ComplexId,
    pub stop_ids: Vec<StopId>,
}

/// The position of the last entry for trip `t`.
pub open spec fn trip_index(s: Seq<UpcomingView>, t: Seq<u8>) -> Option<int>
    decreases s.len(),
{
    if s.len() == 0 {
        None
    } else if s.last().trip == t {
        Some(s.len() - 1)
    } else {
        trip_index(s.drop_last(), t)
    }
}

/// Folds candidate `u` into a complex's entries: a new trip is added; a known trip takes
/// the candidate's arrival and message time when the candidate is not older and names the
/// same stop; otherwise the entry stays as it was.
pub open spec fn merge_one(s: Seq<UpcomingView>, u: UpcomingView) -> Seq<UpcomingView> {
    match trip_index(s, u.trip) {
        None => s.push(u),
        Some(i) => if s[i].message.secs <= u.message.secs && s[i].stop == u.stop {
            s.update(
                i,
                UpcomingView { trip: s[i].trip, stop: s[i].stop, arrival: u.arrival, message: u.message },
            )
        } else {
            s
        },
    }
}

/// Folds every candidate of `new` into `s`, in order.
pub open spec fn merge_all(s: Seq<UpcomingView>, new: Seq<UpcomingView>) -> Seq<UpcomingView>
    decreases new.len(),
{
    if new.len() == 0 {
        s
    } else {
        merge_one(merge_all(s, new.drop_last()), new.last())
    }
}

/// The entries whose message is not older than `cutoff`, in order.
pub open spec fn keep_fresh(s: Seq<UpcomingView>, cutoff: int) -> Seq<UpcomingView>
    decreases s.len(),
{
    if s.len() == 0 {
        s
    } else {
        let r = keep_fresh(s.drop_last(), cutoff);
        if s.last().message.secs >= cutoff {
            r.push(s.last())
        } else {
            r
        }
    }
}

/// The position of the last entry for complex `c`.
pub open spec fn complex_index(s: Seq<ComplexUpcomingView>, c: ComplexId) -> Option<int>
    decreases s.len(),
{
    if s.len() == 0 {
        None
    } else if s.last().complex == c {
        Some(s.len() - 1)
    } else {
        complex_index(s.drop_last(), c)
    }
}

/// Merges one complex's candidates into the state: a complex not yet known takes the
/// candidates, a known one has each candidate folded in; either way every entry older than
/// `cutoff` is then evicted.
pub open spec fn merge_complex(
    lhs: Seq<ComplexUpcomingView>,
    cu: ComplexUpcomingView,
    cutoff: int,
) -> Seq<ComplexUpcomingView> {
    match complex_index(lhs, cu.complex) {
        None => lhs.push(ComplexUpcomingView { complex: cu.complex, upcoming: keep_fresh(cu.upcoming, cutoff) }),
        Some(i) => lhs.update(
            i,
            ComplexUpcomingView {
                complex: cu.complex,
                upcoming: keep_fresh(merge_all(lhs[i].upcoming, cu.upcoming), cutoff),
            },
        ),
    }
}

pub open spec fn merge_state(
    lhs: Seq<ComplexUpcomingView>,
    rhs: Seq<ComplexUpcomingView>,
    cutoff: int,
) -> Seq<ComplexUpcomingView>
    decreases rhs.len(),
{
    if rhs.len() == 0 {
        lhs
    } else {
        merge_complex(merge_state(lhs, rhs.drop_last(), cutoff), rhs.last(), cutoff)
    }
}

/// The complex of the last entry for `stop`.
pub open spec fn stop_complex(stops: Seq<StopComplexView>, stop: Seq<u8>) -> Option<ComplexId>
    decreases stops.len(),
{
    if stops.len() == 0 {
        None
    } else if stops.last().stop == stop {
        Some(stops.last().complex)
    } else {
        stop_complex(stops.drop_last(), stop)
    }
}

/// One empty entry per complex that the directory names, in order of first mention.
pub open spec fn init_candidates(stops: Seq<StopComplexView>) -> Seq<ComplexUpcomingView>
    decreases stops.len(),
{
    if stops.len() == 0 {
        Seq::empty()
    } else {
        let r = init_candidates(stops.drop_last());
        if complex_index(r, stops.last().complex) is None {
            r.push(ComplexUpcomingView { complex: stops.last().complex, upcoming: Seq::empty() })
        } else {
            r
        }
    }
}

/// The (trip text, stop) pairs of one decoded entity: those of a schedule, none otherwise.
pub open spec fn schedule_entries(m: Result<UpdateView, DecodeError>) -> Seq<(Seq<u8>, StopPlanView)> {
    match m {
        Ok(UpdateView::Schedule(s)) => s.stops.map_values(|p: StopPlanView| (s.trip.text, p)),
        _ => Seq::empty(),
    }
}

pub open spec fn entries(msgs: Seq<Result<UpdateView, DecodeError>>) -> Seq<(Seq<u8>, StopPlanView)>
    decreases msgs.len(),
{
    if msgs.len() == 0 {
        Seq::empty()
    } else {
        entries(msgs.drop_last()) + schedule_entries(msgs.last())
    }
}

/// Replaces the entry for `u`'s trip with `u`, or adds `u`.
pub open spec fn upsert(s: Seq<UpcomingView>, u: UpcomingView) -> Seq<UpcomingView> {
    match trip_index(s, u.trip) {
        Some(i) => s.update(i, u),
        None => s.push(u),
    }
}

/// Adds the candidate that one stop of a schedule makes, keyed by its station's complex;
/// a stop of no known complex adds nothing.
pub open spec fn add_candidate(
    acc: Seq<ComplexUpcomingView>,
    stops: Seq<StopComplexView>,
    e: (Seq<u8>, StopPlanView),
    message: Timestamp,
) -> Seq<ComplexUpcomingView> {
    let stop = parent_of(e.1.id);
    match stop_complex(stops, stop) {
        None => acc,
        Some(c) => {
            let u = UpcomingView { trip: e.0, stop, arrival: e.1.times.t0_spec(), message };
            match complex_index(acc, c) {
                Some(i) => acc.update(i, ComplexUpcomingView { complex: c, upcoming: upsert(acc[i].upcoming, u) }),
                None => acc.push(ComplexUpcomingView { complex: c, upcoming: seq![u] }),
            }
        },
    }
}

pub open spec fn candidates_from(
    acc: Seq<ComplexUpcomingView>,
    stops: Seq<StopComplexView>,
    es: Seq<(Seq<u8>, StopPlanView)>,
    message: Timestamp,
) -> Seq<ComplexUpcomingView>
    decreases es.len(),
{
    if es.len() == 0 {
        acc
    } else {
        add_candidate(candidates_from(acc, stops, es.drop_last(), message), stops, es.last(), message)
    }
}

/// The candidates that a batch yields for each complex of the directory.
pub open spec fn candidates(
    stops: Seq<StopComplexView>,
    msgs: Seq<Result<UpdateView, DecodeError>>,
    message: Timestamp,
) -> Seq<ComplexUpcomingView> {
    candidates_from(init_candidates(stops), stops, entries(msgs), message)
}

pub open spec fn sorted_by_arrival(s: Seq<UpcomingView>) -> bool {
    forall|i: int, j: int| 0 <= i < j < s.len() ==> s[i].arrival.secs <= s[j].arrival.secs
}

/// The station directory flattened: each complex's stops, complex by complex.
pub open spec fn directory_view(cplxs: Seq<StationComplex>) -> Seq<StopComplexView>
    decreases cplxs.len(),
{
    if cplxs.len() == 0 {
        Seq::empty()
    } else {
        let c = cplxs.last();
        directory_view(cplxs.drop_last()) + c.stop_ids@.map_values(
            |s: StopId| StopComplexView { stop: s@, complex: c.complex_id },
        )
    }
}

fn find_trip(v: &Vec<Upcoming>, t: &TripIdStr) -> (r: Option<usize>)
    ensures
        r matches Some(i) ==> trip_index(ups_view(v@), t@) == Some(i as int) && i < v@.len(),
        r is None ==> trip_index(ups_view(v@), t@) is None,
{
    let mut i: usize = v.len();
    assert(ups_view(v@).subrange(0, i as int) =~= ups_view(v@));
    while i > 0
        invariant
            i <= v@.len(),
            trip_index(ups_view(v@), t@) == trip_index(ups_view(v@).subrange(0, i as int), t@),
        decreases i,
    {
        assert(ups_view(v@).subrange(0, i as int).drop_last() =~= ups_view(v@).subrange(0, i - 1));
        if v[i - 1].trip == *t {
            return Some(i - 1);
        }
        i = i - 1;
    }
    None
}

fn find_complex(v: &Vec<ComplexUpcoming>, c: ComplexId) -> (r: Option<usize>)
    ensures
        r matches Some(i) ==> complex_index(cus_view(v@), c) == Some(i as int) && i < v@.len(),
        r is None ==> complex_index(cus_view(v@), c) is None,
{
    let mut i: usize = v.len();
    assert(cus_view(v@).subrange(0, i as int) =~= cus_view(v@));
    while i > 0
        invariant
            i <= v@.len(),
            complex_index(cus_view(v@), c) == complex_index(cus_view(v@).subrange(0, i as int), c),
        decreases i,
    {
        assert(cus_view(v@).subrange(0, i as int).drop_last() =~= cus_view(v@).subrange(0, i - 1));
        if v[i - 1].complex == c {
            return Some(i - 1);
        }
        i = i - 1;
    }
    None
}

fn find_stop_complex(v: &Vec<StopComplex>, stop: &StopId) -> (r: Option<ComplexId>)
    ensures
        r == stop_complex(scs_view(v@), stop@),
{
    let mut i: usize = v.len();
    assert(scs_view(v@).subrange(0, i as int) =~= scs_view(v@));
    while i > 0
        invariant
            i <= v@.len(),
            stop_complex(scs_view(v@), stop@) == stop_complex(scs_view(v@).subrange(0, i as int), stop@),
        decreases i,
    {
        assert(scs_view(v@).subrange(0, i as int).drop_last() =~= scs_view(v@).subrange(0, i - 1));
        if v[i - 1].stop == *stop {
            return Some(v[i - 1].complex);
        }
        i = i - 1;
    }
    None
}

fn copy_ups(v: &Vec<Upcoming>) -> (r: Vec<Upcoming>)
    ensures
        ups_view(r@) == ups_view(v@),
{
    let mut r: Vec<Upcoming> = Vec::new();
    let mut i: usize = 0;
    while i < v.len()
        invariant
            i <= v@.len(),
            ups_view(r@) == ups_view(v@).subrange(0, i as int),
        decreases v@.len() - i,
    {
        let u = v[i].copy();
        assert(ups_view(r@.push(u)) =~= ups_view(r@).push(u@));
        r.push(u);
        i = i + 1;
        assert(ups_view(r@) =~= ups_view(v@).subrange(0, i as int));
    }
    assert(ups_view(v@).subrange(0, i as int) =~= ups_view(v@));
    r
}

fn merge_one_exec(s: &mut Vec<Upcoming>, u: &Upcoming)
    ensures
        ups_view(final(s)@) == merge_one(ups_view(old(s)@), u@),
{
    match find_trip(s, &u.trip) {
        None => {
            let c = u.copy();
            assert(ups_view(s@.push(c)) =~= ups_view(s@).push(c@));
            s.push(c);
        },
        Some(i) => {
            if s[i].message.secs <= u.message.secs && s[i].stop == u.stop {
                let slot = Upcoming {
                    trip: s[i].trip.copy(),
                    stop: s[i].stop.copy(),
                    arrival: u.arrival,
                    message: u.message,
                };
                assert(ups_view(s@.update(i as int, slot)) =~= ups_view(s@).update(i as int, slot@));
                s[i] = slot;
            }
        },
    }
}

fn keep_fresh_exec(s: &Vec<Upcoming>, cutoff: i64) -> (r: Vec<Upcoming>)
    ensures
        ups_view(r@) == keep_fresh(ups_view(s@), cutoff as int),
{
    let mut r: Vec<Upcoming> = Vec::new();
    let mut i: usize = 0;
    while i < s.len()
        invariant
            i <= s@.len(),
            ups_view(r@) == keep_fresh(ups_view(s@).subrange(0, i as int), cutoff as int),
        decreases s@.len() - i,
    {
        assert(ups_view(s@).subrange(0, i + 1).drop_last() =~= ups_view(s@).subrange(0, i as int));
        if s[i].message.secs >= cutoff {
            let u = s[i].copy();
            assert(ups_view(r@.push(u)) =~= ups_view(r@).push(u@));
            r.push(u);
        }
        i = i + 1;
    }
    assert(ups_view(s@).subrange(0, i as int) =~= ups_view(s@));
    r
}

/// Folds `msgs` into a complex's entries and evicts those not later than `cutoff`.
fn merge_trips(old: &Vec<Upcoming>, msgs: &Vec<Upcoming>, cutoff: i64) -> (r: Vec<Upcoming>)
    ensures
        ups_view(r@) == keep_fresh(merge_all(ups_view(old@), ups_view(msgs@)), cutoff as int),
{
    let mut s = copy_ups(old);
    let mut j: usize = 0;
    assert(ups_view(msgs@).subrange(0, 0) =~= Seq::<UpcomingView>::empty());
    while j < msgs.len()
        invariant
            j <= msgs@.len(),
            ups_view(s@) == merge_all(ups_view(old@), ups_view(msgs@).subrange(0, j as int)),
        decreases msgs@.len() - j,
    {
        assert(ups_view(msgs@).subrange(0, j + 1).drop_last() =~= ups_view(msgs@).subrange(0, j as int));
        merge_one_exec(&mut s, &msgs[j]);
        j = j + 1;
    }
    assert(ups_view(msgs@).subrange(0, j as int) =~= ups_view(msgs@));
    keep_fresh_exec(&s, cutoff)
}

/// Merges per-complex candidates `rhs` into the state `lhs`; afterwards each complex of
/// `rhs` holds no entry whose message is older than `cutoff`.
pub fn merge(lhs: &mut Vec<ComplexUpcoming>, rhs: &Vec<ComplexUpcoming>, cutoff: i64)
    ensures
        cus_view(final(lhs)@) == merge_state(cus_view(old(lhs)@), cus_view(rhs@), cutoff as int),
{
    let ghost orig = cus_view(lhs@);
    let mut j: usize = 0;
    assert(cus_view(rhs@).subrange(0, 0) =~= Seq::<ComplexUpcomingView>::empty());
    while j < rhs.len()
        invariant
            j <= rhs@.len(),
            cus_view(lhs@) == merge_state(orig, cus_view(rhs@).subrange(0, j as int), cutoff as int),
        decreases rhs@.len() - j,
    {
        assert(cus_view(rhs@).subrange(0, j + 1).drop_last() =~= cus_view(rhs@).subrange(0, j as int));
        let cu = &rhs[j];
        match find_complex(lhs, cu.complex) {
            None => {
                let c = ComplexUpcoming { complex: cu.complex, upcoming: keep_fresh_exec(&cu.upcoming, cutoff) };
                assert(cus_view(lhs@.push(c)) =~= cus_view(lhs@).push(c@));
                lhs.push(c);
            },
            Some(i) => {
                let ups = merge_trips(&lhs[i].upcoming, &cu.upcoming, cutoff);
                let c = ComplexUpcoming { complex: cu.complex, upcoming: ups };
                assert(cus_view(lhs@.update(i as int, c)) =~= cus_view(lhs@).update(i as int, c@));
                lhs[i] = c;
            },
        }
        j = j + 1;
    }
    assert(cus_view(rhs@).subrange(0, j as int) =~= cus_view(rhs@));
}

fn upsert_exec(s: &mut Vec<Upcoming>, u: Upcoming)
    ensures
        ups_view(final(s)@) == upsert(ups_view(old(s)@), u@),
{
    match find_trip(s, &u.trip) {
        Some(i) => {
            assert(ups_view(s@.update(i as int, u)) =~= ups_view(s@).update(i as int, u@));
            s[i] = u;
        },
        None => {
            assert(ups_view(s@.push(u)) =~= ups_view(s@).push(u@));
            s.push(u);
        },
    }
}

/// Sorts entries by arrival.
fn sorted_copy(v: &Vec<Upcoming>) -> (r: Vec<Upcoming>)
    ensures
        ups_view(r@).to_multiset() == ups_view(v@).to_multiset(),
        sorted_by_arrival(ups_view(r@)),
{
    let mut r: Vec<Upcoming> = Vec::new();
    let mut i: usize = 0;
    proof {
        assert(ups_view(v@).subrange(0, 0) =~= Seq::<UpcomingView>::empty());
        assert(ups_view(r@) =~= Seq::<UpcomingView>::empty());
    }
    while i < v.len()
        invariant
            i <= v@.len(),
            ups_view(r@).to_multiset() == ups_view(v@).subrange(0, i as int).to_multiset(),
            sorted_by_arrival(ups_view(r@)),
        decreases v@.len() - i,
    {
        let x = v[i].copy();
        let mut k: usize = 0;
        while k < r.len() && r[k].arrival.secs <= x.arrival.secs
            invariant
                k <= r@.len(),
                forall|m: int| 0 <= m < k ==> r@[m].arrival.secs <= x.arrival.secs,
            decreases r@.len() - k,
        {
            k = k + 1;
        }
        let ghost before = ups_view(r@);
        proof {
            assert(ups_view(r@.insert(k as int, x)) =~= before.insert(k as int, x@));
            to_multiset_insert(before, k as int, x@);
            assert(ups_view(v@).subrange(0, i + 1) =~= ups_view(v@).subrange(0, i as int).push(x@));
            to_multiset_build(ups_view(v@).subrange(0, i as int), x@);
        }
        r.insert(k, x);
        proof {
            let s = ups_view(r@);
            assert forall|a: int, b: int| 0 <= a < b < s.len() implies s[a].arrival.secs
                <= s[b].arrival.secs by {
                if a < k && b == k {
                } else if a == k && b > k {
                    assert(before[b - 1] == s[b]);
                    if k < before.len() {
                        assert(before[k as int] == s[k + 1]);
                    }
                } else if b < k {
                    assert(before[a] == s[a] && before[b] == s[b]);
                } else if a < k && b > k {
                    assert(before[a] == s[a] && before[b - 1] == s[b]);
                } else {
                    assert(before[a - 1] == s[a] && before[b - 1] == s[b]);
                }
            }
        }
        i = i + 1;
    }
    assert(ups_view(v@).subrange(0, i as int) =~= ups_view(v@));
    r
}

proof fn lemma_trip_index_update(s: Seq<UpcomingView>, i: int, x: UpcomingView, t: Seq<u8>)
    requires
        0 <= i < s.len(),
        x.trip == s[i].trip,
    ensures
        trip_index(s.update(i, x), t) == trip_index(s, t),
    decreases s.len(),
{
    let s2 = s.update(i, x);
    if i < s.len() - 1 {
        assert(s2.drop_last() =~= s.drop_last().update(i, x));
        lemma_trip_index_update(s.drop_last(), i, x, t);
    } else {
        assert(s2.drop_last() =~= s.drop_last());
    }
}

/// Folding the same candidate in twice leaves the entries as folding it in once.
pub proof fn lemma_merge_one_idempotent(s: Seq<UpcomingView>, u: UpcomingView)
    ensures
        merge_one(merge_one(s, u), u) == merge_one(s, u),
{
    let s1 = merge_one(s, u);
    match trip_index(s, u.trip) {
        None => {
            assert(s1.drop_last() =~= s);
            assert(trip_index(s1, u.trip) == Some(s.len() as int));
            assert(s1.update(s.len() as int, s1[s.len() as int]) =~= s1);
        },
        Some(i) => {
            lemma_trip_index_bounds(s, u.trip);
            if s[i].message.secs <= u.message.secs && s[i].stop == u.stop {
                let v = UpcomingView {
                    trip: s[i].trip,
                    stop: s[i].stop,
                    arrival: u.arrival,
                    message: u.message,
                };
                lemma_trip_index_update(s, i, v, u.trip);
                assert(s1[i] == v);
                assert(s1.update(i, v) =~= s1);
            }
        },
    }
}

proof fn lemma_keep_fresh_all_fresh(s: Seq<UpcomingView>, cutoff: int)
    requires
        all_fresh(s, cutoff),
    ensures
        keep_fresh(s, cutoff) == s,
    decreases s.len(),
{
    if s.len() > 0 {
        assert(all_fresh(s.drop_last(), cutoff));
        lemma_keep_fresh_all_fresh(s.drop_last(), cutoff);
        assert(s.drop_last().push(s.last()) =~= s);
    }
}

/// After eviction, a fresh entry that was the last for its trip is still the last for it.
proof fn lemma_keep_fresh_finds(x: Seq<UpcomingView>, t: Seq<u8>, cutoff: int)
    requires
        trip_index(x, t) is Some,
        x[trip_index(x, t)->Some_0].message.secs >= cutoff,
    ensures
        trip_index(keep_fresh(x, cutoff), t) matches Some(k) && keep_fresh(x, cutoff)[k] == x[trip_index(x, t)->Some_0],
        0 <= trip_index(keep_fresh(x, cutoff), t)->Some_0 < keep_fresh(x, cutoff).len(),
    decreases x.len(),
{
    let r = keep_fresh(x.drop_last(), cutoff);
    if x.last().trip == t {
        assert(r.push(x.last()).drop_last() =~= r);
    } else {
        lemma_trip_index_bounds(x.drop_last(), t);
        let i = trip_index(x.drop_last(), t)->Some_0;
        assert(x.drop_last()[i] == x[i]);
        lemma_keep_fresh_finds(x.drop_last(), t, cutoff);
        if x.last().message.secs >= cutoff {
            assert(r.push(x.last()).drop_last() =~= r);
            let k = trip_index(r, t)->Some_0;
            assert(r.push(x.last())[k] == r[k]);
        }
    }
}

proof fn lemma_trip_index_bounds(s: Seq<UpcomingView>, t: Seq<u8>)
    ensures
        trip_index(s, t) matches Some(i) ==> 0 <= i < s.len() && s[i].trip == t,
    decreases s.len(),
{
    if s.len() > 0 && s.last().trip != t {
        lemma_trip_index_bounds(s.drop_last(), t);
    }
}

proof fn lemma_complex_index_bounds(s: Seq<ComplexUpcomingView>, c: ComplexId)
    ensures
        complex_index(s, c) matches Some(i) ==> 0 <= i < s.len() && s[i].complex == c,
    decreases s.len(),
{
    if s.len() > 0 && s.last().complex != c {
        lemma_complex_index_bounds(s.drop_last(), c);
    }
}

proof fn lemma_complex_index_update(
    s: Seq<ComplexUpcomingView>,
    i: int,
    x: ComplexUpcomingView,
    c: ComplexId,
)
    requires
        0 <= i < s.len(),
        x.complex == s[i].complex,
    ensures
        complex_index(s.update(i, x), c) == complex_index(s, c),
    decreases s.len(),
{
    let s2 = s.update(i, x);
    if i < s.len() - 1 {
        assert(s2.drop_last() =~= s.drop_last().update(i, x));
        lemma_complex_index_update(s.drop_last(), i, x, c);
    } else {
        assert(s2.drop_last() =~= s.drop_last());
    }
}

proof fn lemma_complex_index_push(s: Seq<ComplexUpcomingView>, x: ComplexUpcomingView, c: ComplexId)
    ensures
        complex_index(s.push(x), c) == (if x.complex == c {
            Some(s.len() as int)
        } else {
            complex_index(s, c)
        }),
{
    assert(s.push(x).drop_last() =~= s);
}

pub open spec fn all_fresh(s: Seq<UpcomingView>, cutoff: int) -> bool {
    forall|k: int| 0 <= k < s.len() ==> #[trigger] s[k].message.secs >= cutoff
}

proof fn lemma_keep_fresh(s: Seq<UpcomingView>, cutoff: int)
    ensures
        all_fresh(keep_fresh(s, cutoff), cutoff),
    decreases s.len(),
{
    if s.len() > 0 {
        lemma_keep_fresh(s.drop_last(), cutoff);
    }
}

proof fn lemma_merge_complex_keeps(lhs: Seq<ComplexUpcomingView>, cu: ComplexUpcomingView, cutoff: int, c: ComplexId)
    requires
        complex_index(lhs, c) is Some,
    ensures
        complex_index(merge_complex(lhs, cu, cutoff), c) is Some,
        cu.complex != c ==> complex_index(merge_complex(lhs, cu, cutoff), c) == complex_index(lhs, c)
            && merge_complex(lhs, cu, cutoff)[complex_index(lhs, c)->Some_0] == lhs[complex_index(lhs, c)->Some_0],
{
    lemma_complex_index_bounds(lhs, c);
    lemma_complex_index_bounds(lhs, cu.complex);
    lemma_complex_index_push(
        lhs,
        ComplexUpcomingView { complex: cu.complex, upcoming: keep_fresh(cu.upcoming, cutoff) },
        c,
    );
    if let Some(i) = complex_index(lhs, cu.complex) {
        let x = ComplexUpcomingView {
            complex: cu.complex,
            upcoming: keep_fresh(merge_all(lhs[i].upcoming, cu.upcoming), cutoff),
        };
        lemma_complex_index_update(lhs, i, x, c);
    }
}

proof fn lemma_merge_state_keeps(lhs: Seq<ComplexUpcomingView>, rhs: Seq<ComplexUpcomingView>, cutoff: int, c: ComplexId)
    requires
        complex_index(lhs, c) is Some,
    ensures
        complex_index(merge_state(lhs, rhs, cutoff), c) is Some,
    decreases rhs.len(),
{
    if rhs.len() > 0 {
        lemma_merge_state_keeps(lhs, rhs.drop_last(), cutoff, c);
        lemma_merge_complex_keeps(merge_state(lhs, rhs.drop_last(), cutoff), rhs.last(), cutoff, c);
    }
}

/// After the merge, a complex that the candidates name holds only entries whose message
/// is not older than `cutoff`.
pub proof fn lemma_merge_state_evicts(
    lhs: Seq<ComplexUpcomingView>,
    rhs: Seq<ComplexUpcomingView>,
    cutoff: int,
    c: ComplexId,
)
    requires
        complex_index(rhs, c) is Some,
    ensures
        complex_index(merge_state(lhs, rhs, cutoff), c) matches Some(i) && all_fresh(
            merge_state(lhs, rhs, cutoff)[i].upcoming,
            cutoff,
        ),
    decreases rhs.len(),
{
    let prev = merge_state(lhs, rhs.drop_last(), cutoff);
    let cu = rhs.last();
    lemma_complex_index_bounds(prev, c);
    if cu.complex == c {
        match complex_index(prev, c) {
            None => {
                let x = ComplexUpcomingView { complex: c, upcoming: keep_fresh(cu.upcoming, cutoff) };
                lemma_complex_index_push(prev, x, c);
                lemma_keep_fresh(cu.upcoming, cutoff);
            },
            Some(i) => {
                let x = ComplexUpcomingView {
                    complex: cu.complex,
                    upcoming: keep_fresh(merge_all(prev[i].upcoming, cu.upcoming), cutoff),
                };
                lemma_complex_index_update(prev, i, x, c);
                lemma_keep_fresh(merge_all(prev[i].upcoming, cu.upcoming), cutoff);
            },
        }
    } else {
        lemma_merge_state_evicts(lhs, rhs.drop_last(), cutoff, c);
        lemma_merge_complex_keeps(prev, cu, cutoff, c);
    }
}

proof fn lemma_init_candidates_has(stops: Seq<StopComplexView>, k: int)
    requires
        0 <= k < stops.len(),
    ensures
        complex_index(init_candidates(stops), stops[k].complex) is Some,
    decreases stops.len(),
{
    let r = init_candidates(stops.drop_last());
    lemma_complex_index_push(
        r,
        ComplexUpcomingView { complex: stops.last().complex, upcoming: Seq::empty() },
        stops[k].complex,
    );
    if k < stops.len() - 1 {
        lemma_init_candidates_has(stops.drop_last(), k);
    }
}

proof fn lemma_candidates_keep(
    acc: Seq<ComplexUpcomingView>,
    stops: Seq<StopComplexView>,
    es: Seq<(Seq<u8>, StopPlanView)>,
    message: Timestamp,
    c: ComplexId,
)
    requires
        complex_index(acc, c) is Some,
    ensures
        complex_index(candidates_from(acc, stops, es, message), c) is Some,
    decreases es.len(),
{
    if es.len() > 0 {
        lemma_candidates_keep(acc, stops, es.drop_last(), message, c);
        let prev = candidates_from(acc, stops, es.drop_last(), message);
        let e = es.last();
        let stop = parent_of(e.1.id);
        if let Some(d) = stop_complex(stops, stop) {
            let u = UpcomingView { trip: e.0, stop, arrival: e.1.times.t0_spec(), message };
            lemma_complex_index_bounds(prev, d);
            match complex_index(prev, d) {
                Some(i) => lemma_complex_index_update(
                    prev,
                    i,
                    ComplexUpcomingView { complex: d, upcoming: upsert(prev[i].upcoming, u) },
                    c,
                ),
                None => lemma_complex_index_push(
                    prev,
                    ComplexUpcomingView { complex: d, upcoming: seq![u] },
                    c,
                ),
            }
        }
    }
}

/// After an update at `now`, every complex of the directory is in the state and holds
/// no entry whose message is more than 45 seconds older than `now`.
pub proof fn lemma_update_evicts_stale(
    old: TrainStatesView,
    msgs: Seq<Result<UpdateView, DecodeError>>,
    time: Timestamp,
    now: Timestamp,
    c: ComplexId,
)
    requires
        exists|k: int| 0 <= k < old.stops.len() && #[trigger] old.stops[k].complex == c,
    ensures
        ({
            let new = merge_state(old.trains, candidates(old.stops, msgs, time), now.secs - STALE_AFTER_SECS);
            complex_index(new, c) matches Some(i) && all_fresh(new[i].upcoming, now.secs - STALE_AFTER_SECS)
        }),
{
    let k = choose|k: int| 0 <= k < old.stops.len() && #[trigger] old.stops[k].complex == c;
    lemma_init_candidates_has(old.stops, k);
    lemma_candidates_keep(init_candidates(old.stops), old.stops, entries(msgs), time, c);
    lemma_merge_state_evicts(
        old.trains,
        candidates(old.stops, msgs, time),
        now.secs - STALE_AFTER_SECS,
        c,
    );
}

/// No two entries are for the same trip.
pub open spec fn unique_trips(s: Seq<UpcomingView>) -> bool {
    forall|a: int, b: int| 0 <= a < s.len() && 0 <= b < s.len() && a != b ==> #[trigger] s[a].trip != #[trigger] s[b].trip
}

/// No two entries are for the same complex, and each complex's entries are for distinct trips.
pub open spec fn trains_wf(s: Seq<ComplexUpcomingView>) -> bool {
    &&& forall|a: int, b: int| 0 <= a < s.len() && 0 <= b < s.len() && a != b ==> #[trigger] s[a].complex != #[trigger] s[b].complex
    &&& forall|a: int| 0 <= a < s.len() ==> unique_trips(#[trigger] s[a].upcoming)
}

pub open spec fn all_unique_trips(s: Seq<ComplexUpcomingView>) -> bool {
    forall|a: int| 0 <= a < s.len() ==> unique_trips(#[trigger] s[a].upcoming)
}

proof fn lemma_trip_index_none(s: Seq<UpcomingView>, t: Seq<u8>)
    ensures
        trip_index(s, t) is None ==> forall|k: int| 0 <= k < s.len() ==> #[trigger] s[k].trip != t,
    decreases s.len(),
{
    if s.len() > 0 {
        lemma_trip_index_none(s.drop_last(), t);
        if trip_index(s, t) is None {
            assert forall|k: int| 0 <= k < s.len() implies #[trigger] s[k].trip != t by {
                if k < s.len() - 1 {
                    assert(s.drop_last()[k] == s[k]);
                }
            }
        }
    }
}

proof fn lemma_complex_index_none(s: Seq<ComplexUpcomingView>, c: ComplexId)
    ensures
        complex_index(s, c) is None ==> forall|k: int| 0 <= k < s.len() ==> #[trigger] s[k].complex != c,
    decreases s.len(),
{
    if s.len() > 0 {
        lemma_complex_index_none(s.drop_last(), c);
        if complex_index(s, c) is None {
            assert forall|k: int| 0 <= k < s.len() implies #[trigger] s[k].complex != c by {
                if k < s.len() - 1 {
                    assert(s.drop_last()[k] == s[k]);
                }
            }
        }
    }
}

proof fn lemma_push_unique(s: Seq<UpcomingView>, u: UpcomingView)
    requires
        unique_trips(s),
        trip_index(s, u.trip) is None,
    ensures
        unique_trips(s.push(u)),
{
    lemma_trip_index_none(s, u.trip);
    let p = s.push(u);
    assert forall|a: int, b: int| 0 <= a < p.len() && 0 <= b < p.len() && a != b implies #[trigger] p[a].trip != #[trigger] p[b].trip by {
        if a < s.len() && b < s.len() {
            assert(p[a] == s[a] && p[b] == s[b]);
        } else if a < s.len() {
            assert(p[a] == s[a]);
        } else {
            assert(p[b] == s[b]);
        }
    }
}

proof fn lemma_update_unique(s: Seq<UpcomingView>, i: int, v: UpcomingView)
    requires
        unique_trips(s),
        0 <= i < s.len(),
        v.trip == s[i].trip,
    ensures
        unique_trips(s.update(i, v)),
{
    let p = s.update(i, v);
    assert forall|a: int, b: int| 0 <= a < p.len() && 0 <= b < p.len() && a != b implies #[trigger] p[a].trip != #[trigger] p[b].trip by {
        assert(p[a].trip == s[a].trip && p[b].trip == s[b].trip);
    }
}

proof fn lemma_merge_one_unique(s: Seq<UpcomingView>, u: UpcomingView)
    requires
        unique_trips(s),
    ensures
        unique_trips(merge_one(s, u)),
{
    lemma_trip_index_bounds(s, u.trip);
    match trip_index(s, u.trip) {
        None => lemma_push_unique(s, u),
        Some(i) => {
            let v = UpcomingView { trip: s[i].trip, stop: s[i].stop, arrival: u.arrival, message: u.message };
            lemma_update_unique(s, i, v);
        },
    }
}

proof fn lemma_merge_all_unique(s: Seq<UpcomingView>, new: Seq<UpcomingView>)
    requires
        unique_trips(s),
    ensures
        unique_trips(merge_all(s, new)),
    decreases new.len(),
{
    if new.len() > 0 {
        lemma_merge_all_unique(s, new.drop_last());
        lemma_merge_one_unique(merge_all(s, new.drop_last()), new.last());
    }
}

proof fn lemma_keep_fresh_unique(s: Seq<UpcomingView>, cutoff: int)
    requires
        unique_trips(s),
    ensures
        unique_trips(keep_fresh(s, cutoff)),
        forall|k: int| 0 <= k < keep_fresh(s, cutoff).len() ==> exists|j: int| 0 <= j < s.len() && #[trigger] keep_fresh(s, cutoff)[k] == s[j],
    decreases s.len(),
{
    if s.len() > 0 {
        let d = s.drop_last();
        assert(unique_trips(d)) by {
            assert forall|a: int, b: int| 0 <= a < d.len() && 0 <= b < d.len() && a != b implies #[trigger] d[a].trip != #[trigger] d[b].trip by {
                assert(d[a] == s[a] && d[b] == s[b]);
            }
        }
        lemma_keep_fresh_unique(d, cutoff);
        let r = keep_fresh(d, cutoff);
        if s.last().message.secs >= cutoff {
            let p = r.push(s.last());
            assert forall|k: int| 0 <= k < p.len() implies exists|j: int| 0 <= j < s.len() && #[trigger] p[k] == s[j] by {
                if k < r.len() {
                    let j = choose|j: int| 0 <= j < d.len() && #[trigger] r[k] == d[j];
                    assert(p[k] == s[j]);
                } else {
                    assert(p[k] == s[s.len() - 1]);
                }
            }
            assert forall|a: int, b: int| 0 <= a < p.len() && 0 <= b < p.len() && a != b implies #[trigger] p[a].trip != #[trigger] p[b].trip by {
                if a < r.len() && b < r.len() {
                    assert(p[a] == r[a] && p[b] == r[b]);
                } else if a < r.len() {
                    let j = choose|j: int| 0 <= j < d.len() && #[trigger] r[a] == d[j];
                    assert(s[j] == d[j]);
                    assert(p[a] == s[j]);
                    assert(s[j].trip != s[s.len() - 1].trip);
                } else {
                    let j = choose|j: int| 0 <= j < d.len() && #[trigger] r[b] == d[j];
                    assert(s[j] == d[j]);
                    assert(p[b] == s[j]);
                    assert(s[j].trip != s[s.len() - 1].trip);
                }
            }
        } else {
            assert forall|k: int| 0 <= k < r.len() implies exists|j: int| 0 <= j < s.len() && #[trigger] r[k] == s[j] by {
                let j = choose|j: int| 0 <= j < d.len() && #[trigger] r[k] == d[j];
                assert(r[k] == s[j]);
            }
        }
    }
}

proof fn lemma_merge_complex_wf(lhs: Seq<ComplexUpcomingView>, cu: ComplexUpcomingView, cutoff: int)
    requires
        trains_wf(lhs),
        unique_trips(cu.upcoming),
    ensures
        trains_wf(merge_complex(lhs, cu, cutoff)),
{
    lemma_complex_index_bounds(lhs, cu.complex);
    lemma_complex_index_none(lhs, cu.complex);
    let m = merge_complex(lhs, cu, cutoff);
    match complex_index(lhs, cu.complex) {
        None => {
            lemma_keep_fresh_unique(cu.upcoming, cutoff);
            assert forall|a: int, b: int| 0 <= a < m.len() && 0 <= b < m.len() && a != b implies #[trigger] m[a].complex != #[trigger] m[b].complex by {
                if a < lhs.len() {
                    assert(m[a] == lhs[a]);
                }
                if b < lhs.len() {
                    assert(m[b] == lhs[b]);
                }
            }
            assert forall|a: int| 0 <= a < m.len() implies unique_trips(#[trigger] m[a].upcoming) by {
                if a < lhs.len() {
                    assert(m[a] == lhs[a]);
                }
            }
        },
        Some(i) => {
            lemma_merge_all_unique(lhs[i].upcoming, cu.upcoming);
            lemma_keep_fresh_unique(merge_all(lhs[i].upcoming, cu.upcoming), cutoff);
            assert forall|a: int, b: int| 0 <= a < m.len() && 0 <= b < m.len() && a != b implies #[trigger] m[a].complex != #[trigger] m[b].complex by {
                assert(m[a].complex == lhs[a].complex && m[b].complex == lhs[b].complex);
            }
            assert forall|a: int| 0 <= a < m.len() implies unique_trips(#[trigger] m[a].upcoming) by {
                if a != i {
                    assert(m[a] == lhs[a]);
                }
            }
        },
    }
}

/// Merging candidates with distinct trips per complex keeps the state well formed.
pub proof fn lemma_merge_state_wf(lhs: Seq<ComplexUpcomingView>, rhs: Seq<ComplexUpcomingView>, cutoff: int)
    requires
        trains_wf(lhs),
        all_unique_trips(rhs),
    ensures
        trains_wf(merge_state(lhs, rhs, cutoff)),
    decreases rhs.len(),
{
    if rhs.len() > 0 {
        assert(all_unique_trips(rhs.drop_last())) by {
            assert forall|a: int| 0 <= a < rhs.drop_last().len() implies unique_trips(#[trigger] rhs.drop_last()[a].upcoming) by {
                assert(rhs.drop_last()[a] == rhs[a]);
            }
        }
        lemma_merge_state_wf(lhs, rhs.drop_last(), cutoff);
        assert(unique_trips(rhs[rhs.len() - 1].upcoming));
        lemma_merge_complex_wf(merge_state(lhs, rhs.drop_last(), cutoff), rhs.last(), cutoff);
    }
}

proof fn lemma_init_candidates_unique(stops: Seq<StopComplexView>)
    ensures
        all_unique_trips(init_candidates(stops)),
    decreases stops.len(),
{
    if stops.len() > 0 {
        lemma_init_candidates_unique(stops.drop_last());
        let r = init_candidates(stops.drop_last());
        let p = r.push(ComplexUpcomingView { complex: stops.last().complex, upcoming: Seq::empty() });
        assert forall|a: int| 0 <= a < p.len() implies unique_trips(#[trigger] p[a].upcoming) by {
            if a < r.len() {
                assert(p[a] == r[a]);
            }
        }
    }
}

proof fn lemma_candidates_unique(
    acc: Seq<ComplexUpcomingView>,
    stops: Seq<StopComplexView>,
    es: Seq<(Seq<u8>, StopPlanView)>,
    message: Timestamp,
)
    requires
        all_unique_trips(acc),
    ensures
        all_unique_trips(candidates_from(acc, stops, es, message)),
    decreases es.len(),
{
    if es.len() > 0 {
        lemma_candidates_unique(acc, stops, es.drop_last(), message);
        let prev = candidates_from(acc, stops, es.drop_last(), message);
        let e = es.last();
        let stop = parent_of(e.1.id);
        if let Some(d) = stop_complex(stops, stop) {
            let u = UpcomingView { trip: e.0, stop, arrival: e.1.times.t0_spec(), message };
            lemma_complex_index_bounds(prev, d);
            let m = add_candidate(prev, stops, e, message);
            match complex_index(prev, d) {
                Some(i) => {
                    let s = prev[i].upcoming;
                    lemma_trip_index_bounds(s, u.trip);
                    match trip_index(s, u.trip) {
                        Some(j) => lemma_update_unique(s, j, u),
                        None => lemma_push_unique(s, u),
                    }
                    assert forall|a: int| 0 <= a < m.len() implies unique_trips(#[trigger] m[a].upcoming) by {
                        if a != i {
                            assert(m[a] == prev[a]);
                        }
                    }
                },
                None => {
                    assert forall|a: int| 0 <= a < m.len() implies unique_trips(#[trigger] m[a].upcoming) by {
                        if a < prev.len() {
                            assert(m[a] == prev[a]);
                        }
                    }
                },
            }
        }
    }
}

/// Every candidate set that a batch yields has distinct trips per complex.
pub proof fn lemma_candidates_have_unique_trips(
    stops: Seq<StopComplexView>,
    msgs: Seq<Result<UpdateView, DecodeError>>,
    message: Timestamp,
)
    ensures
        all_unique_trips(candidates(stops, msgs, message)),
{
    lemma_init_candidates_unique(stops);
    lemma_candidates_unique(init_candidates(stops), stops, entries(msgs), message);
}

/// Whether entry `e` (for `u`'s trip) is left as it is when `u` is folded into it.
pub open spec fn entry_absorbs(e: UpcomingView, u: UpcomingView) -> bool {
    !(e.message.secs <= u.message.secs && e.stop == u.stop) || (e.arrival == u.arrival
        && e.message == u.message)
}

/// `s` holds a fresh entry for `u`'s trip that folding `u` in leaves alone.
pub open spec fn absorbs(s: Seq<UpcomingView>, u: UpcomingView, cutoff: int) -> bool {
    trip_index(s, u.trip) matches Some(i) && 0 <= i < s.len() && entry_absorbs(s[i], u)
        && s[i].message.secs >= cutoff
}

pub open spec fn all_fresh_cands(m: Seq<UpcomingView>, cutoff: int) -> bool {
    forall|k: int| 0 <= k < m.len() ==> #[trigger] m[k].message.secs >= cutoff
}

/// Every candidate's trip has, in `s`, no entry or a fresh one.
pub open spec fn stored_fresh(s: Seq<UpcomingView>, m: Seq<UpcomingView>, cutoff: int) -> bool {
    forall|k: int| 0 <= k < m.len() ==> (trip_index(s, #[trigger] m[k].trip) matches Some(j) ==> s[j].message.secs >= cutoff)
}

proof fn lemma_merge_one_other(y: Seq<UpcomingView>, u2: UpcomingView, t: Seq<u8>)
    requires
        u2.trip != t,
    ensures
        trip_index(merge_one(y, u2), t) == trip_index(y, t),
        trip_index(y, t) matches Some(i) ==> merge_one(y, u2)[i] == y[i],
{
    lemma_trip_index_bounds(y, u2.trip);
    lemma_trip_index_bounds(y, t);
    match trip_index(y, u2.trip) {
        None => {
            assert(y.push(u2).drop_last() =~= y);
        },
        Some(i2) => {
            let v = UpcomingView { trip: y[i2].trip, stop: y[i2].stop, arrival: u2.arrival, message: u2.message };
            lemma_trip_index_update(y, i2, v, t);
        },
    }
}

proof fn lemma_merge_all_other(s: Seq<UpcomingView>, m: Seq<UpcomingView>, t: Seq<u8>)
    requires
        forall|k: int| 0 <= k < m.len() ==> #[trigger] m[k].trip != t,
    ensures
        trip_index(merge_all(s, m), t) == trip_index(s, t),
        trip_index(s, t) matches Some(i) ==> merge_all(s, m)[i] == s[i],
    decreases m.len(),
{
    if m.len() > 0 {
        assert forall|k: int| 0 <= k < m.drop_last().len() implies #[trigger] m.drop_last()[k].trip != t by {
            assert(m.drop_last()[k] == m[k]);
        }
        lemma_merge_all_other(s, m.drop_last(), t);
        assert(m.last().trip != t);
        lemma_merge_one_other(merge_all(s, m.drop_last()), m.last(), t);
    }
}

proof fn lemma_merge_one_absorbs(y: Seq<UpcomingView>, u: UpcomingView, cutoff: int)
    requires
        u.message.secs >= cutoff,
        trip_index(y, u.trip) matches Some(j) ==> y[j].message.secs >= cutoff,
    ensures
        absorbs(merge_one(y, u), u, cutoff),
{
    lemma_trip_index_bounds(y, u.trip);
    match trip_index(y, u.trip) {
        None => {
            assert(y.push(u).drop_last() =~= y);
        },
        Some(j) => {
            if y[j].message.secs <= u.message.secs && y[j].stop == u.stop {
                let v = UpcomingView { trip: y[j].trip, stop: y[j].stop, arrival: u.arrival, message: u.message };
                lemma_trip_index_update(y, j, v, u.trip);
            }
        },
    }
}

proof fn lemma_absorbs_other(y: Seq<UpcomingView>, u2: UpcomingView, u: UpcomingView, cutoff: int)
    requires
        absorbs(y, u, cutoff),
        u2.trip != u.trip,
    ensures
        absorbs(merge_one(y, u2), u, cutoff),
{
    lemma_merge_one_other(y, u2, u.trip);
    lemma_trip_index_bounds(merge_one(y, u2), u.trip);
}

/// After folding in distinct fresh candidates over fresh stored entries, each candidate is absorbed.
proof fn lemma_merge_all_absorbs(s: Seq<UpcomingView>, m: Seq<UpcomingView>, cutoff: int)
    requires
        unique_trips(m),
        all_fresh_cands(m, cutoff),
        stored_fresh(s, m, cutoff),
    ensures
        forall|k: int| 0 <= k < m.len() ==> absorbs(merge_all(s, m), #[trigger] m[k], cutoff),
    decreases m.len(),
{
    if m.len() > 0 {
        let d = m.drop_last();
        let l = m.last();
        assert(unique_trips(d)) by {
            assert forall|a: int, b: int| 0 <= a < d.len() && 0 <= b < d.len() && a != b implies #[trigger] d[a].trip != #[trigger] d[b].trip by {
                assert(d[a] == m[a] && d[b] == m[b]);
            }
        }
        assert forall|k: int| 0 <= k < d.len() implies (trip_index(s, #[trigger] d[k].trip) matches Some(j) ==> s[j].message.secs >= cutoff) by {
            assert(d[k] == m[k]);
        }
        assert forall|k: int| 0 <= k < d.len() implies #[trigger] d[k].message.secs >= cutoff by {
            assert(d[k] == m[k]);
        }
        lemma_merge_all_absorbs(s, d, cutoff);
        let y = merge_all(s, d);
        assert forall|k: int| 0 <= k < d.len() implies #[trigger] d[k].trip != l.trip by {
            assert(d[k] == m[k]);
            assert(m[k].trip != m[m.len() - 1].trip);
        }
        lemma_merge_all_other(s, d, l.trip);
        lemma_trip_index_bounds(s, l.trip);
        assert(m[m.len() - 1] == l);
        lemma_merge_one_absorbs(y, l, cutoff);
        assert forall|k: int| 0 <= k < m.len() implies absorbs(merge_all(s, m), #[trigger] m[k], cutoff) by {
            if k < m.len() - 1 {
                assert(m[k] == d[k]);
                assert(m[k].trip != l.trip);
                lemma_absorbs_other(y, l, m[k], cutoff);
            }
        }
    }
}

proof fn lemma_absorbs_keep_fresh(x: Seq<UpcomingView>, u: UpcomingView, cutoff: int)
    requires
        absorbs(x, u, cutoff),
    ensures
        absorbs(keep_fresh(x, cutoff), u, cutoff),
{
    lemma_keep_fresh_finds(x, u.trip, cutoff);
}

/// Folding in candidates that are all absorbed changes nothing.
proof fn lemma_merge_all_absorbed(y: Seq<UpcomingView>, m: Seq<UpcomingView>, cutoff: int)
    requires
        forall|k: int| 0 <= k < m.len() ==> absorbs(y, #[trigger] m[k], cutoff),
    ensures
        merge_all(y, m) == y,
    decreases m.len(),
{
    if m.len() > 0 {
        let d = m.drop_last();
        assert forall|k: int| 0 <= k < d.len() implies absorbs(y, #[trigger] d[k], cutoff) by {
            assert(d[k] == m[k]);
        }
        lemma_merge_all_absorbed(y, d, cutoff);
        let l = m.last();
        assert(absorbs(y, m[m.len() - 1], cutoff));
        let i = trip_index(y, l.trip)->Some_0;
        if y[i].message.secs <= l.message.secs && y[i].stop == l.stop {
            let v = UpcomingView { trip: y[i].trip, stop: y[i].stop, arrival: l.arrival, message: l.message };
            lemma_trip_index_bounds(y, l.trip);
            assert(v == y[i]);
            assert(y.update(i, v) =~= y);
        }
    }
}

proof fn lemma_merge_all_into_empty(m: Seq<UpcomingView>)
    requires
        unique_trips(m),
    ensures
        merge_all(Seq::empty(), m) == m,
    decreases m.len(),
{
    if m.len() > 0 {
        let d = m.drop_last();
        assert(unique_trips(d)) by {
            assert forall|a: int, b: int| 0 <= a < d.len() && 0 <= b < d.len() && a != b implies #[trigger] d[a].trip != #[trigger] d[b].trip by {
                assert(d[a] == m[a] && d[b] == m[b]);
            }
        }
        lemma_merge_all_into_empty(d);
        lemma_trip_index_none(d, m.last().trip);
        assert forall|k: int| 0 <= k < d.len() implies #[trigger] d[k].trip != m.last().trip by {
            assert(d[k] == m[k]);
            assert(m[k].trip != m[m.len() - 1].trip);
        }
        lemma_trip_index_bounds(d, m.last().trip);
        assert(d.push(m.last()) =~= m);
    }
}

/// The entries that merging candidates `m` leaves for a complex, merged with the same
/// candidates again, stay as they are.
proof fn lemma_entries_idempotent(s: Seq<UpcomingView>, m: Seq<UpcomingView>, cutoff: int)
    requires
        unique_trips(m),
        all_fresh_cands(m, cutoff),
        stored_fresh(s, m, cutoff),
    ensures
        ({
            let s1 = keep_fresh(merge_all(s, m), cutoff);
            keep_fresh(merge_all(s1, m), cutoff) == s1
        }),
{
    let x = merge_all(s, m);
    let s1 = keep_fresh(x, cutoff);
    lemma_merge_all_absorbs(s, m, cutoff);
    assert forall|k: int| 0 <= k < m.len() implies absorbs(s1, #[trigger] m[k], cutoff) by {
        lemma_absorbs_keep_fresh(x, m[k], cutoff);
    }
    lemma_merge_all_absorbed(s1, m, cutoff);
    lemma_keep_fresh(x, cutoff);
    lemma_keep_fresh_all_fresh(s1, cutoff);
}

/// Whether every complex's candidates in `rhs` are fresh, and each of their trips has in the
/// state `lhs` no entry or a fresh one.
pub open spec fn candidates_fresh(lhs: Seq<ComplexUpcomingView>, rhs: Seq<ComplexUpcomingView>, cutoff: int) -> bool {
    forall|k: int| 0 <= k < rhs.len() ==> {
        &&& all_fresh_cands(#[trigger] rhs[k].upcoming, cutoff)
        &&& (complex_index(lhs, rhs[k].complex) matches Some(i) ==> stored_fresh(lhs[i].upcoming, rhs[k].upcoming, cutoff))
    }
}

pub open spec fn unique_complexes(s: Seq<ComplexUpcomingView>) -> bool {
    forall|a: int, b: int| 0 <= a < s.len() && 0 <= b < s.len() && a != b ==> #[trigger] s[a].complex != #[trigger] s[b].complex
}

/// Merging one complex's candidates again into the state that merging them left changes nothing.
proof fn lemma_merge_complex_again(lhs: Seq<ComplexUpcomingView>, cu: ComplexUpcomingView, cutoff: int)
    requires
        unique_trips(cu.upcoming),
        all_fresh_cands(cu.upcoming, cutoff),
        complex_index(lhs, cu.complex) matches Some(i) ==> stored_fresh(lhs[i].upcoming, cu.upcoming, cutoff),
    ensures
        ({
            let m1 = merge_complex(lhs, cu, cutoff);
            &&& complex_index(m1, cu.complex) matches Some(i) && 0 <= i < m1.len()
                && keep_fresh(merge_all(m1[i].upcoming, cu.upcoming), cutoff) == m1[i].upcoming
                && m1[i].complex == cu.complex
        }),
{
    let m1 = merge_complex(lhs, cu, cutoff);
    lemma_complex_index_bounds(lhs, cu.complex);
    match complex_index(lhs, cu.complex) {
        None => {
            let e = ComplexUpcomingView { complex: cu.complex, upcoming: keep_fresh(cu.upcoming, cutoff) };
            lemma_complex_index_push(lhs, e, cu.complex);
            assert(all_fresh(cu.upcoming, cutoff));
            lemma_keep_fresh_all_fresh(cu.upcoming, cutoff);
            lemma_merge_all_into_empty(cu.upcoming);
            assert forall|k: int| 0 <= k < cu.upcoming.len() implies (trip_index(Seq::<UpcomingView>::empty(), #[trigger] cu.upcoming[k].trip) matches Some(j) ==> false) by {}
            lemma_entries_idempotent(Seq::empty(), cu.upcoming, cutoff);
            assert(m1[lhs.len() as int] == e);
        },
        Some(i) => {
            let e = ComplexUpcomingView {
                complex: cu.complex,
                upcoming: keep_fresh(merge_all(lhs[i].upcoming, cu.upcoming), cutoff),
            };
            lemma_complex_index_update(lhs, i, e, cu.complex);
            lemma_entries_idempotent(lhs[i].upcoming, cu.upcoming, cutoff);
        },
    }
}

/// Merging the same candidates into the state twice leaves it as merging them once, when the
/// candidates name each complex once, are fresh and have distinct trips per complex, and the
/// state's entries for their trips, where there are any, are fresh too.
pub proof fn lemma_merge_state_idempotent(lhs: Seq<ComplexUpcomingView>, rhs: Seq<ComplexUpcomingView>, cutoff: int)
    requires
        unique_complexes(rhs),
        all_unique_trips(rhs),
        candidates_fresh(lhs, rhs, cutoff),
    ensures
        merge_state(merge_state(lhs, rhs, cutoff), rhs, cutoff) == merge_state(lhs, rhs, cutoff),
    decreases rhs.len(),
{
    lemma_merge_state_stable(lhs, rhs, cutoff);
    lemma_merge_state_fixed(merge_state(lhs, rhs, cutoff), rhs, cutoff);
}

/// Merging each complex's candidates of `rhs` into the state `m` changes nothing.
pub open spec fn fixed_for(m: Seq<ComplexUpcomingView>, rhs: Seq<ComplexUpcomingView>, cutoff: int) -> bool {
    forall|k: int| 0 <= k < rhs.len() ==> merge_complex(m, #[trigger] rhs[k], cutoff) == m
}

proof fn lemma_merge_state_fixed(m: Seq<ComplexUpcomingView>, rhs: Seq<ComplexUpcomingView>, cutoff: int)
    requires
        fixed_for(m, rhs, cutoff),
    ensures
        merge_state(m, rhs, cutoff) == m,
    decreases rhs.len(),
{
    if rhs.len() > 0 {
        assert forall|k: int| 0 <= k < rhs.drop_last().len() implies merge_complex(m, #[trigger] rhs.drop_last()[k], cutoff) == m by {
            assert(rhs.drop_last()[k] == rhs[k]);
        }
        lemma_merge_state_fixed(m, rhs.drop_last(), cutoff);
        assert(rhs[rhs.len() - 1] == rhs.last());
    }
}

/// After all of `rhs` is merged, merging any one complex's candidates again changes nothing.
proof fn lemma_merge_state_stable(lhs: Seq<ComplexUpcomingView>, rhs: Seq<ComplexUpcomingView>, cutoff: int)
    requires
        unique_complexes(rhs),
        all_unique_trips(rhs),
        candidates_fresh(lhs, rhs, cutoff),
    ensures
        fixed_for(merge_state(lhs, rhs, cutoff), rhs, cutoff),
    decreases rhs.len(),
{
    if rhs.len() > 0 {
        let d = rhs.drop_last();
        let cu = rhs.last();
        let prev = merge_state(lhs, d, cutoff);
        let m = merge_state(lhs, rhs, cutoff);
        assert(unique_complexes(d)) by {
            assert forall|a: int, b: int| 0 <= a < d.len() && 0 <= b < d.len() && a != b implies #[trigger] d[a].complex != #[trigger] d[b].complex by {
                assert(d[a] == rhs[a] && d[b] == rhs[b]);
            }
        }
        assert(all_unique_trips(d)) by {
            assert forall|a: int| 0 <= a < d.len() implies unique_trips(#[trigger] d[a].upcoming) by {
                assert(d[a] == rhs[a]);
            }
        }
        assert(candidates_fresh(lhs, d, cutoff)) by {
            assert forall|k: int| 0 <= k < d.len() implies {
                &&& all_fresh_cands(#[trigger] d[k].upcoming, cutoff)
                &&& (complex_index(lhs, d[k].complex) matches Some(i) ==> stored_fresh(lhs[i].upcoming, d[k].upcoming, cutoff))
            } by {
                assert(d[k] == rhs[k]);
            }
        }
        lemma_merge_state_stable(lhs, d, cutoff);
        // The last complex is new to the earlier candidates, so its stored entries are lhs's.
        assert forall|k: int| 0 <= k < d.len() implies #[trigger] d[k].complex != cu.complex by {
            assert(d[k] == rhs[k]);
            assert(rhs[k].complex != rhs[rhs.len() - 1].complex);
        }
        lemma_merge_state_untouched(lhs, d, cutoff, cu.complex);
        assert(rhs[rhs.len() - 1] == cu);
        assert(unique_trips(rhs[rhs.len() - 1].upcoming));
        assert(all_fresh_cands(rhs[rhs.len() - 1].upcoming, cutoff));
        lemma_complex_index_bounds(lhs, cu.complex);
        lemma_complex_index_bounds(prev, cu.complex);
        lemma_merge_complex_again(prev, cu, cutoff);
        let j = complex_index(m, cu.complex)->Some_0;
        lemma_complex_index_bounds(m, cu.complex);
        assert(m.update(j, ComplexUpcomingView { complex: cu.complex, upcoming: keep_fresh(merge_all(m[j].upcoming, cu.upcoming), cutoff) }) =~= m);
        assert forall|k: int| 0 <= k < rhs.len() implies merge_complex(m, #[trigger] rhs[k], cutoff) == m by {
            if k < rhs.len() - 1 {
                let ck = rhs[k];
                assert(d[k] == ck);
                assert(merge_complex(prev, ck, cutoff) == prev);
                assert(ck.complex != cu.complex);
                lemma_merge_complex_commutes(prev, cu, ck, cutoff);
            }
        }
    }
}

/// Merging candidates for other complexes leaves a complex's position and entries alone.
proof fn lemma_merge_state_untouched(lhs: Seq<ComplexUpcomingView>, rhs: Seq<ComplexUpcomingView>, cutoff: int, c: ComplexId)
    requires
        forall|k: int| 0 <= k < rhs.len() ==> #[trigger] rhs[k].complex != c,
    ensures
        complex_index(merge_state(lhs, rhs, cutoff), c) == complex_index(lhs, c),
        complex_index(lhs, c) matches Some(i) ==> merge_state(lhs, rhs, cutoff)[i] == lhs[i],
    decreases rhs.len(),
{
    if rhs.len() > 0 {
        assert forall|k: int| 0 <= k < rhs.drop_last().len() implies #[trigger] rhs.drop_last()[k].complex != c by {
            assert(rhs.drop_last()[k] == rhs[k]);
        }
        lemma_merge_state_untouched(lhs, rhs.drop_last(), cutoff, c);
        let prev = merge_state(lhs, rhs.drop_last(), cutoff);
        let cu = rhs.last();
        assert(rhs[rhs.len() - 1] == cu);
        lemma_complex_index_bounds(prev, cu.complex);
        lemma_complex_index_bounds(prev, c);
        match complex_index(prev, cu.complex) {
            None => {
                lemma_complex_index_push(prev, ComplexUpcomingView { complex: cu.complex, upcoming: keep_fresh(cu.upcoming, cutoff) }, c);
            },
            Some(i) => {
                let x = ComplexUpcomingView { complex: cu.complex, upcoming: keep_fresh(merge_all(prev[i].upcoming, cu.upcoming), cutoff) };
                lemma_complex_index_update(prev, i, x, c);
            },
        }
    }
}

/// If merging `ck` into `prev` changes nothing, neither does merging it after another complex's `cu`.
proof fn lemma_merge_complex_commutes(
    prev: Seq<ComplexUpcomingView>,
    cu: ComplexUpcomingView,
    ck: ComplexUpcomingView,
    cutoff: int,
)
    requires
        merge_complex(prev, ck, cutoff) == prev,
        ck.complex != cu.complex,
    ensures
        merge_complex(merge_complex(prev, cu, cutoff), ck, cutoff) == merge_complex(prev, cu, cutoff),
{
    let m = merge_complex(prev, cu, cutoff);
    lemma_complex_index_bounds(prev, ck.complex);
    lemma_complex_index_bounds(prev, cu.complex);
    lemma_complex_index_push(prev, ck, ck.complex);
    match complex_index(prev, ck.complex) {
        None => {
            assert(merge_complex(prev, ck, cutoff).len() == prev.len() + 1);
        },
        Some(i) => {
            let x = ComplexUpcomingView { complex: ck.complex, upcoming: keep_fresh(merge_all(prev[i].upcoming, ck.upcoming), cutoff) };
            assert(prev.update(i, x)[i] == x);
            assert(x == prev[i]);
            lemma_merge_complex_keeps(prev, cu, cutoff, ck.complex);
            lemma_complex_index_bounds(m, ck.complex);
            assert(m[i] == prev[i]);
            assert(m.update(i, x) =~= m);
        },
    }
}

proof fn lemma_push_unique_complex(s: Seq<ComplexUpcomingView>, x: ComplexUpcomingView)
    requires
        unique_complexes(s),
        complex_index(s, x.complex) is None,
    ensures
        unique_complexes(s.push(x)),
{
    lemma_complex_index_none(s, x.complex);
    let p = s.push(x);
    assert forall|a: int, b: int| 0 <= a < p.len() && 0 <= b < p.len() && a != b implies #[trigger] p[a].complex != #[trigger] p[b].complex by {
        if a < s.len() {
            assert(p[a] == s[a]);
        }
        if b < s.len() {
            assert(p[b] == s[b]);
        }
    }
}

proof fn lemma_candidates_unique_complexes(
    acc: Seq<ComplexUpcomingView>,
    stops: Seq<StopComplexView>,
    es: Seq<(Seq<u8>, StopPlanView)>,
    message: Timestamp,
)
    requires
        unique_complexes(acc),
    ensures
        unique_complexes(candidates_from(acc, stops, es, message)),
    decreases es.len(),
{
    if es.len() > 0 {
        lemma_candidates_unique_complexes(acc, stops, es.drop_last(), message);
        let prev = candidates_from(acc, stops, es.drop_last(), message);
        let e = es.last();
        let stop = parent_of(e.1.id);
        if let Some(d) = stop_complex(stops, stop) {
            let u = UpcomingView { trip: e.0, stop, arrival: e.1.times.t0_spec(), message };
            lemma_complex_index_bounds(prev, d);
            let m = add_candidate(prev, stops, e, message);
            match complex_index(prev, d) {
                Some(i) => {
                    assert forall|a: int, b: int| 0 <= a < m.len() && 0 <= b < m.len() && a != b implies #[trigger] m[a].complex != #[trigger] m[b].complex by {
                        assert(m[a].complex == prev[a].complex && m[b].complex == prev[b].complex);
                    }
                },
                None => lemma_push_unique_complex(prev, ComplexUpcomingView { complex: d, upcoming: seq![u] }),
            }
        }
    }
}

proof fn lemma_init_candidates_unique_complexes(stops: Seq<StopComplexView>)
    ensures
        unique_complexes(init_candidates(stops)),
    decreases stops.len(),
{
    if stops.len() > 0 {
        lemma_init_candidates_unique_complexes(stops.drop_last());
        let r = init_candidates(stops.drop_last());
        if complex_index(r, stops.last().complex) is None {
            lemma_push_unique_complex(r, ComplexUpcomingView { complex: stops.last().complex, upcoming: Seq::empty() });
        }
    }
}

proof fn lemma_candidates_message(
    acc: Seq<ComplexUpcomingView>,
    stops: Seq<StopComplexView>,
    es: Seq<(Seq<u8>, StopPlanView)>,
    message: Timestamp,
    cutoff: int,
)
    requires
        forall|k: int| 0 <= k < acc.len() ==> all_fresh_cands(#[trigger] acc[k].upcoming, cutoff),
        message.secs >= cutoff,
    ensures
        ({
            let c = candidates_from(acc, stops, es, message);
            forall|k: int| 0 <= k < c.len() ==> all_fresh_cands(#[trigger] c[k].upcoming, cutoff)
        }),
    decreases es.len(),
{
    if es.len() > 0 {
        lemma_candidates_message(acc, stops, es.drop_last(), message, cutoff);
        let prev = candidates_from(acc, stops, es.drop_last(), message);
        let e = es.last();
        let stop = parent_of(e.1.id);
        if let Some(d) = stop_complex(stops, stop) {
            let u = UpcomingView { trip: e.0, stop, arrival: e.1.times.t0_spec(), message };
            lemma_complex_index_bounds(prev, d);
            let m = add_candidate(prev, stops, e, message);
            match complex_index(prev, d) {
                Some(i) => {
                    let s = prev[i].upcoming;
                    lemma_trip_index_bounds(s, u.trip);
                    assert forall|k: int| 0 <= k < m.len() implies all_fresh_cands(#[trigger] m[k].upcoming, cutoff) by {
                        if k != i {
                            assert(m[k] == prev[k]);
                        } else {
                            let n = upsert(s, u);
                            assert forall|j: int| 0 <= j < n.len() implies #[trigger] n[j].message.secs >= cutoff by {
                                if j < s.len() && n[j] != u {
                                    assert(n[j] == s[j]);
                                }
                            }
                        }
                    }
                },
                None => {
                    assert forall|k: int| 0 <= k < m.len() implies all_fresh_cands(#[trigger] m[k].upcoming, cutoff) by {
                        if k < prev.len() {
                            assert(m[k] == prev[k]);
                        }
                    }
                },
            }
        }
    }
}

/// Every candidate of a batch carries the batch's time as its message time.
proof fn lemma_candidates_fresh_if_batch_fresh(
    stops: Seq<StopComplexView>,
    msgs: Seq<Result<UpdateView, DecodeError>>,
    time: Timestamp,
    cutoff: int,
)
    requires
        time.secs >= cutoff,
    ensures
        forall|k: int| 0 <= k < candidates(stops, msgs, time).len() ==> all_fresh_cands(#[trigger] candidates(stops, msgs, time)[k].upcoming, cutoff),
        unique_complexes(candidates(stops, msgs, time)),
        all_unique_trips(candidates(stops, msgs, time)),
{
    let init = init_candidates(stops);
    lemma_init_candidates_unique(stops);
    assert forall|k: int| 0 <= k < init.len() implies all_fresh_cands(#[trigger] init[k].upcoming, cutoff) by {
        lemma_init_candidates_empty(stops, k);
    }
    lemma_candidates_message(init, stops, entries(msgs), time, cutoff);
    lemma_init_candidates_unique_complexes(stops);
    lemma_candidates_unique_complexes(init, stops, entries(msgs), time);
    lemma_candidates_have_unique_trips(stops, msgs, time);
}

proof fn lemma_init_candidates_empty(stops: Seq<StopComplexView>, k: int)
    requires
        0 <= k < init_candidates(stops).len(),
    ensures
        init_candidates(stops)[k].upcoming.len() == 0,
    decreases stops.len(),
{
    if stops.len() > 0 {
        let r = init_candidates(stops.drop_last());
        if k < r.len() {
            lemma_init_candidates_empty(stops.drop_last(), k);
            if complex_index(r, stops.last().complex) is None {
                assert(r.push(ComplexUpcomingView { complex: stops.last().complex, upcoming: Seq::empty() })[k] == r[k]);
            }
        }
    }
}

/// Folding the same batch in twice at the same time leaves the state as folding it in once,
/// when the batch is not more than 45 seconds older than `now` and the state's entries for
/// the batch's trips, where there are any, are not either.
pub proof fn lemma_update_idempotent(
    old: TrainStatesView,
    msgs: Seq<Result<UpdateView, DecodeError>>,
    time: Timestamp,
    now: Timestamp,
)
    requires
        time.secs >= now.secs - STALE_AFTER_SECS,
        ({
            let c = candidates(old.stops, msgs, time);
            forall|k: int| 0 <= k < c.len() ==> (complex_index(old.trains, #[trigger] c[k].complex) matches Some(i)
                ==> stored_fresh(old.trains[i].upcoming, c[k].upcoming, now.secs - STALE_AFTER_SECS))
        }),
    ensures
        ({
            let c = candidates(old.stops, msgs, time);
            let once = merge_state(old.trains, c, now.secs - STALE_AFTER_SECS);
            merge_state(once, c, now.secs - STALE_AFTER_SECS) == once
        }),
{
    let cutoff = now.secs - STALE_AFTER_SECS;
    let c = candidates(old.stops, msgs, time);
    lemma_candidates_fresh_if_batch_fresh(old.stops, msgs, time, cutoff);
    assert(candidates_fresh(old.trains, c, cutoff));
    lemma_merge_state_idempotent(old.trains, c, cutoff);
}

/// The upcoming arrivals of every complex, and the station directory they are keyed by.
pub struct TrainStates {
    stops: Vec<StopComplex>,
    trains: Vec<ComplexUpcoming>,
}

pub struct TrainStatesView {
    pub stops: Seq<StopComplexView>,
    pub trains: Seq<ComplexUpcomingView>,
}

impl View for TrainStates {
    type V = TrainStatesView;

    closed spec fn view(&self) -> TrainStatesView {
        TrainStatesView { stops: scs_view(self.stops@), trains: cus_view(self.trains@) }
    }
}

impl TrainStates {
    pub open spec fn wf(&self) -> bool {
        trains_wf(self@.trains)
    }

    /// An empty state over the directory `cplxs`.
    pub fn new(cplxs: &[StationComplex]) -> (r: TrainStates)
        ensures
            r.wf(),
            r@.stops == directory_view(cplxs@),
            r@.trains.len() == 0,
    {
        let mut stops: Vec<StopComplex> = Vec::new();
        let mut i: usize = 0;
        assert(cplxs@.subrange(0, 0) =~= Seq::<StationComplex>::empty());
        while i < cplxs.len()
            invariant
                i <= cplxs@.len(),
                scs_view(stops@) == directory_view(cplxs@.subrange(0, i as int)),
            decreases cplxs@.len() - i,
        {
            let c = &cplxs[i];
            let ghost base = scs_view(stops@);
            let mut j: usize = 0;
            while j < c.stop_ids.len()
                invariant
                    j <= c.stop_ids@.len(),
                    scs_view(stops@) == base + c.stop_ids@.subrange(0, j as int).map_values(
                        |s: StopId| StopComplexView { stop: s@, complex: c.complex_id },
                    ),
                decreases c.stop_ids@.len() - j,
            {
                let e = StopComplex { stop: c.stop_ids[j].copy(), complex: c.complex_id };
                proof {
                    assert(scs_view(stops@.push(e)) =~= scs_view(stops@).push(e@));
                    assert(c.stop_ids@.subrange(0, j + 1).map_values(
                        |s: StopId| StopComplexView { stop: s@, complex: c.complex_id },
                    ) =~= c.stop_ids@.subrange(0, j as int).map_values(
                        |s: StopId| StopComplexView { stop: s@, complex: c.complex_id },
                    ).push(e@));
                }
                stops.push(e);
                j = j + 1;
            }
            proof {
                assert(cplxs@.subrange(0, i + 1).drop_last() =~= cplxs@.subrange(0, i as int));
                assert(c.stop_ids@.subrange(0, j as int) =~= c.stop_ids@);
            }
            i = i + 1;
        }
        assert(cplxs@.subrange(0, i as int) =~= cplxs@);
        let r = TrainStates { stops, trains: Vec::new() };
        assert(cus_view(r.trains@) =~= Seq::<ComplexUpcomingView>::empty());
        r
    }

    fn init_candidates_exec(&self) -> (r: Vec<ComplexUpcoming>)
        ensures
            cus_view(r@) == init_candidates(self@.stops),
    {
        let mut r: Vec<ComplexUpcoming> = Vec::new();
        let mut i: usize = 0;
        assert(scs_view(self.stops@).subrange(0, 0) =~= Seq::<StopComplexView>::empty());
        assert(cus_view(r@) =~= Seq::<ComplexUpcomingView>::empty());
        while i < self.stops.len()
            invariant
                i <= self.stops@.len(),
                cus_view(r@) == init_candidates(scs_view(self.stops@).subrange(0, i as int)),
            decreases self.stops@.len() - i,
        {
            assert(scs_view(self.stops@).subrange(0, i + 1).drop_last() =~= scs_view(
                self.stops@,
            ).subrange(0, i as int));
            let c = self.stops[i].complex;
            if find_complex(&r, c).is_none() {
                let e = ComplexUpcoming { complex: c, upcoming: Vec::new() };
                assert(ups_view(e.upcoming@) =~= Seq::<UpcomingView>::empty());
                assert(cus_view(r@.push(e)) =~= cus_view(r@).push(e@));
                r.push(e);
            }
            i = i + 1;
        }
        assert(scs_view(self.stops@).subrange(0, i as int) =~= scs_view(self.stops@));
        r
    }

    fn add_candidate_exec(
        &self,
        acc: &mut Vec<ComplexUpcoming>,
        trip: &TripIdStr,
        plan: &crate::msg::StopPlan,
        message: Timestamp,
    )
        ensures
            cus_view(final(acc)@) == add_candidate(cus_view(old(acc)@), self@.stops, (trip@, plan@), message),
    {
        let stop = plan.id.parent();
        let c = match find_stop_complex(&self.stops, &stop) {
            None => return ,
            Some(c) => c,
        };
        let u = Upcoming { trip: trip.copy(), stop, arrival: plan.times.t0(), message };
        match find_complex(acc, c) {
            Some(i) => {
                let mut ups = copy_ups(&acc[i].upcoming);
                upsert_exec(&mut ups, u);
                let e = ComplexUpcoming { complex: c, upcoming: ups };
                assert(cus_view(acc@.update(i as int, e)) =~= cus_view(acc@).update(i as int, e@));
                acc[i] = e;
            },
            None => {
                let mut ups: Vec<Upcoming> = Vec::new();
                ups.push(u);
                let e = ComplexUpcoming { complex: c, upcoming: ups };
                assert(ups_view(e.upcoming@) =~= seq![u@]);
                assert(cus_view(acc@.push(e)) =~= cus_view(acc@).push(e@));
                acc.push(e);
            },
        }
    }

    /// The per-complex candidates that `batch` yields.
    pub fn preprocess(&self, batch: &Batch) -> (r: Vec<ComplexUpcoming>)
        ensures
            cus_view(r@) == candidates(self@.stops, batch@.msgs, batch.time),
    {
        let message = batch.time;
        let mut acc = self.init_candidates_exec();
        let ghost init = cus_view(acc@);
        let ghost stops = self@.stops;
        let ghost msgs = msgs_view(batch.msgs@);
        let mut i: usize = 0;
        assert(msgs.subrange(0, 0) =~= Seq::<Result<UpdateView, DecodeError>>::empty());
        while i < batch.msgs.len()
            invariant
                i <= batch.msgs@.len(),
                init == init_candidates(stops),
                stops == self@.stops,
                msgs == msgs_view(batch.msgs@),
                message == batch.time,
                cus_view(acc@) == candidates_from(init, stops, entries(msgs.subrange(0, i as int)), message),
            decreases batch.msgs@.len() - i,
        {
            assert(msgs.subrange(0, i + 1).drop_last() =~= msgs.subrange(0, i as int));
            assert(msgs[i as int] == result_view(batch.msgs@[i as int]));
            let ghost done = entries(msgs.subrange(0, i as int));
            match &batch.msgs[i] {
                Ok(crate::msg::Update::Schedule(s)) => {
                    let trip = s.trip().name();
                    let plans = s.stops();
                    let ghost se = schedule_entries(msgs[i as int]);
                    assert(se =~= plans_view(plans@).map_values(|p: StopPlanView| (trip@, p)));
                    let mut j: usize = 0;
                    assert(done + se.subrange(0, 0) =~= done);
                    while j < plans.len()
                        invariant
                            j <= plans@.len(),
                            se.len() == plans@.len(),
                            forall|m: int| 0 <= m < se.len() ==> #[trigger] se[m] == (trip@, plans@[m]@),
                            init == init_candidates(stops),
                            stops == self@.stops,
                            message == batch.time,
                            cus_view(acc@) == candidates_from(
                                init,
                                stops,
                                done + se.subrange(0, j as int),
                                message,
                            ),
                        decreases plans@.len() - j,
                    {
                        assert((done + se.subrange(0, j + 1)).drop_last() =~= done + se.subrange(
                            0,
                            j as int,
                        ));
                        assert(se[j as int] == (trip@, plans@[j as int]@));
                        self.add_candidate_exec(&mut acc, &trip, &plans[j], message);
                        j = j + 1;
                    }
                    assert(se.subrange(0, j as int) =~= se);
                },
                _ => {
                    assert(schedule_entries(msgs[i as int]) =~= Seq::<(Seq<u8>, StopPlanView)>::empty());
                    assert(done + schedule_entries(msgs[i as int]) =~= done);
                },
            }
            i = i + 1;
        }
        assert(msgs.subrange(0, i as int) =~= msgs);
        acc
    }

    /// Folds `batch` into the state, with `now` as the time of merging.
    pub fn update_at(&mut self, batch: &Batch, now: Timestamp)
        requires
            old(self).wf(),
            now.wf(),
        ensures
            final(self).wf(),
            final(self)@.stops == old(self)@.stops,
            final(self)@.trains == merge_state(
                old(self)@.trains,
                candidates(old(self)@.stops, batch@.msgs, batch.time),
                now.secs - STALE_AFTER_SECS,
            ),
    {
        let new = self.preprocess(batch);
        let cutoff = now.secs - STALE_AFTER_SECS;
        proof {
            lemma_candidates_have_unique_trips(self@.stops, batch@.msgs, batch.time);
            lemma_merge_state_wf(self@.trains, cus_view(new@), cutoff as int);
        }
        merge(&mut self.trains, &new, cutoff);
    }

    /// Folds a snapshot's batch into the state as of the current time.
    pub fn update(&mut self, rsp: &Response)
        requires
            old(self).wf(),
        ensures
            final(self).wf(),
            final(self)@.stops == old(self)@.stops,
            exists|now: Timestamp|
                now.wf() && final(self)@.trains == merge_state(
                    old(self)@.trains,
                    candidates(old(self)@.stops, rsp.data@.msgs, rsp.data.time),
                    now.secs - STALE_AFTER_SECS,
                ),
    {
        let now = Timestamp::now();
        self.update_at(&rsp.data, now)
    }

    /// The entries of complex `id`, by arrival, or `None` for a complex with none yet.
    pub fn get(&self, id: ComplexId) -> (r: Option<Vec<Upcoming>>)
        ensures
            r is None <==> complex_index(self@.trains, id) is None,
            r matches Some(v) ==> {
                let i = complex_index(self@.trains, id)->Some_0;
                &&& ups_view(v@).to_multiset() == self@.trains[i].upcoming.to_multiset()
                &&& sorted_by_arrival(ups_view(v@))
            },
    {
        match find_complex(&self.trains, id) {
            None => None,
            Some(i) => Some(sorted_copy(&self.trains[i].upcoming)),
        }
    }
}

} // verus!
