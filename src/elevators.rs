//! Elevator and escalator outages, per complex.
use vstd::prelude::*;
use crate::datetime::Timestamp;
use crate::ids::{ComplexId, EquipmentId, Route, StopId};

verus! {

/// One row of the equipment directory.
#[derive(Debug, Clone)]
pub struct AccessEquipment {
    pub station: String,
    pub trains: Vec<Route>,
    pub equipmentno: EquipmentId,
    /// `EL` for an elevator, `ES` for an escalator.
    pub equipmenttype: String,
    pub serving: String,
    pub ada: bool,
    pub isactive: bool,
    pub non_nyct: bool,
    pub shortdescription: String,
    pub linesservedbyelevator: Vec<Route>,
    pub stop_ids: Vec<StopId>,
    pub elevatormrn: String,
    pub complex_id: ComplexId,
    pub nextadanorth: String,
    pub nextadasouth: String,
    pub redundant: i32,
    pub busconnections: String,
    pub alternativeroute: String,
}

/// One outage report.
#[derive(Debug, Clone)]
pub struct AccessOutage {
    pub station: String,
    pub routes: Vec<Route>,
    pub equipment: EquipmentId,
    pub equipmenttype: String,
    pub serving: String,
    pub ada: bool,
    pub outagedate: Timestamp,
    pub estimatedreturntoservice: Timestamp,
    pub reason: String,
    pub isupcomingoutage: bool,
    pub ismaintenanceoutage: bool,
    pub asof: Timestamp,
}

/// An outage as attached to a piece of equipment.
#[derive(Debug, Clone)]
pub struct Outage {
    pub id: EquipmentId,
    pub start: Timestamp,
    pub ada: bool,
    pub est_return: Timestamp,
    pub reason: String,
    pub upcoming: bool,
    pub maintenance: bool,
}

pub struct OutageView {
    pub id: Seq<u8>,
    pub start: Timestamp,
    pub ada: bool,
    pub est_return: Timestamp,
    pub reason: Seq<char>,
    pub upcoming: bool,
    pub maintenance: bool,
}

impl View for Outage {
    type V = OutageView;

    open spec fn view(&self) -> OutageView {
        OutageView {
            id: self.id@,
            start: self.start,
            ada: self.ada,
            est_return: self.est_return,
            reason: self.reason@,
            upcoming: self.upcoming,
            maintenance: self.maintenance,
        }
    }
}

pub open spec fn outage_of(x: &AccessOutage) -> OutageView {
    OutageView {
        id: x.equipment@,
        start: x.outagedate,
        ada: x.ada,
        est_return: x.estimatedreturntoservice,
        reason: x.reason@,
        upcoming: x.isupcomingoutage,
        maintenance: x.ismaintenanceoutage,
    }
}

impl Outage {
    pub fn from(x: &AccessOutage) -> (r: Outage)
        ensures
            r@ == outage_of(x),
    {
        Outage {
            id: x.equipment.copy(),
            start: x.outagedate,
            ada: x.ada,
            est_return: x.estimatedreturntoservice,
            reason: x.reason.clone(),
            upcoming: x.isupcomingoutage,
            maintenance: x.ismaintenanceoutage,
        }
    }

    pub fn copy(&self) -> (r: Outage)
        ensures
            r@ == self@,
    {
        Outage {
            id: self.id.copy(),
            start: self.start,
            ada: self.ada,
            est_return: self.est_return,
            reason: self.reason.clone(),
            upcoming: self.upcoming,
            maintenance: self.maintenance,
        }
    }
}

pub open spec fn routes_view(v: Seq<Route>) -> Seq<Seq<u8>> {
    v.map_values(|r: Route| r@)
}

fn copy_routes(v: &Vec<Route>) -> (r: Vec<Route>)
    ensures
        routes_view(r@) == routes_view(v@),
{
    let mut r: Vec<Route> = Vec::new();
    let mut i: usize = 0;
    while i < v.len()
        invariant
            i <= v@.len(),
            routes_view(r@) == routes_view(v@).subrange(0, i as int),
        decreases v@.len() - i,
    {
        let x = v[i].copy();
        assert(routes_view(r@.push(x)) =~= routes_view(r@).push(x@));
        r.push(x);
        i = i + 1;
        assert(routes_view(r@) =~= routes_view(v@).subrange(0, i as int));
    }
    assert(routes_view(v@).subrange(0, i as int) =~= routes_view(v@));
    r
}

/// A piece of equipment, with its current outage if it has one.
#[derive(Debug, Clone)]
pub struct Elevator {
    pub id: EquipmentId,
    pub complex_id: ComplexId,
    pub lines: Vec<Route>,
    pub is_escalator: bool,
    pub ada: bool,
    pub is_active: bool,
    pub desc: String,
    pub serving: String,
    pub nearby: Vec<(ComplexId, Route)>,
    pub buses: String,
    pub alt_desc: String,
    pub outage: Option<Outage>,
}

pub struct ElevatorView {
    pub id: Seq<u8>,
    pub complex_id: ComplexId,
    pub lines: Seq<Seq<u8>>,
    pub is_escalator: bool,
    pub ada: bool,
    pub is_active: bool,
    pub desc: Seq<char>,
    pub serving: Seq<char>,
    pub nearby_len: nat,
    pub buses: Seq<char>,
    pub alt_desc: Seq<char>,
    pub outage: Option<OutageView>,
}

pub open spec fn opt_outage_view(o: Option<Outage>) -> Option<OutageView> {
    match o {
        Some(x) => Some(x@),
        None => None,
    }
}

impl View for Elevator {
    type V = ElevatorView;

    open spec fn view(&self) -> ElevatorView {
        ElevatorView {
            id: self.id@,
            complex_id: self.complex_id,
            lines: routes_view(self.lines@),
            is_escalator: self.is_escalator,
            ada: self.ada,
            is_active: self.is_active,
            desc: self.desc@,
            serving: self.serving@,
            nearby_len: self.nearby@.len(),
            buses: self.buses@,
            alt_desc: self.alt_desc@,
            outage: opt_outage_view(self.outage),
        }
    }
}

pub open spec fn elevator_of(x: &AccessEquipment) -> ElevatorView {
    ElevatorView {
        id: x.equipmentno@,
        complex_id: x.complex_id,
        lines: routes_view(x.linesservedbyelevator@),
        is_escalator: x.equipmenttype@ == "ES"@,
        ada: x.ada,
        is_active: x.isactive,
        desc: x.shortdescription@,
        serving: x.serving@,
        nearby_len: 0,
        buses: x.busconnections@,
        alt_desc: x.alternativeroute@,
        outage: None,
    }
}

/// `e` with outage `o`.
pub open spec fn with_outage(e: ElevatorView, o: Option<OutageView>) -> ElevatorView {
    ElevatorView { outage: o, ..e }
}

impl Elevator {
    pub fn from(x: &AccessEquipment) -> (r: Elevator)
        ensures
            r@ == elevator_of(x),
    {
        let es = <String as vstd::string::StringExecFns>::from_str("ES");
        Elevator {
            id: x.equipmentno.copy(),
            complex_id: x.complex_id,
            is_escalator: x.equipmenttype == es,
            is_active: x.isactive,
            ada: x.ada,
            serving: x.serving.clone(),
            lines: copy_routes(&x.linesservedbyelevator),
            desc: x.shortdescription.clone(),
            nearby: Vec::new(),
            buses: x.busconnections.clone(),
            alt_desc: x.alternativeroute.clone(),
            outage: None,
        }
    }

    /// A copy with outage `o`.
    fn with(&self, o: Option<Outage>) -> (r: Elevator)
        requires
            self.nearby@.len() == 0,
        ensures
            r@ == with_outage(self@, opt_outage_view(o)),
    {
        Elevator {
            id: self.id.copy(),
            complex_id: self.complex_id,
            is_escalator: self.is_escalator,
            is_active: self.is_active,
            ada: self.ada,
            serving: self.serving.clone(),
            lines: copy_routes(&self.lines),
            desc: self.desc.clone(),
            nearby: Vec::new(),
            buses: self.buses.clone(),
            alt_desc: self.alt_desc.clone(),
            outage: o,
        }
    }
}

pub open spec fn els_view(v: Seq<Elevator>) -> Seq<ElevatorView> {
    v.map_values(|e: Elevator| e@)
}

pub open spec fn outs_view(v: Seq<Option<Outage>>) -> Seq<Option<OutageView>> {
    v.map_values(|o: Option<Outage>| opt_outage_view(o))
}

/// The complexes with at least one outage.
#[derive(Debug, Clone)]
pub struct ElevatorSummary {
    pub outages: Vec<ComplexId>,
}

/// The position of the last piece of equipment with id `e`.
pub open spec fn last_with_id(els: Seq<ElevatorView>, e: Seq<u8>) -> Option<int>
    decreases els.len(),
{
    if els.len() == 0 {
        None
    } else if els.last().id == e {
        Some(els.len() - 1)
    } else {
        last_with_id(els.drop_last(), e)
    }
}

pub open spec fn is_first_in(els: Seq<ElevatorView>, c: ComplexId, e: Seq<u8>, k: int) -> bool {
    &&& 0 <= k < els.len()
    &&& els[k].complex_id == c
    &&& els[k].id == e
    &&& forall|j: int| 0 <= j < k ==> (#[trigger] els[j]).complex_id != c || els[j].id != e
}

/// The piece of equipment that a report for `e` lands on: the directory gives `e`'s
/// complex (its last entry wins), and the first piece of that complex with id `e` takes it.
pub open spec fn outage_target(els: Seq<ElevatorView>, e: Seq<u8>) -> Option<int> {
    match last_with_id(els, e) {
        None => None,
        Some(j) => Some(choose|k: int| is_first_in(els, els[j].complex_id, e, k)),
    }
}

/// The outages after applying every report, in order, to equipment with none.
pub open spec fn apply_reports(els: Seq<ElevatorView>, reports: Seq<AccessOutage>) -> Seq<Option<OutageView>>
    decreases reports.len(),
{
    if reports.len() == 0 {
        Seq::new(els.len(), |i: int| None)
    } else {
        let prev = apply_reports(els, reports.drop_last());
        match outage_target(els, reports.last().equipment@) {
            Some(k) => prev.update(k, Some(outage_of(&reports.last()))),
            None => prev,
        }
    }
}

/// The complexes, in order of first appearance, of the equipment with an outage.
pub open spec fn summary_of(els: Seq<ElevatorView>, outs: Seq<Option<OutageView>>) -> Seq<ComplexId>
    decreases els.len(),
{
    if els.len() == 0 {
        Seq::empty()
    } else {
        let prev = summary_of(els.drop_last(), outs);
        let c = els.last().complex_id;
        if outs[els.len() - 1] is Some && !prev.contains(c) {
            prev.push(c)
        } else {
            prev
        }
    }
}

/// Whether some equipment of complex `c` has an outage.
pub open spec fn has_outage_in(els: Seq<ElevatorView>, outs: Seq<Option<OutageView>>, c: ComplexId) -> bool {
    exists|k: int| 0 <= k < els.len() && #[trigger] els[k].complex_id == c && outs[k] is Some
}

/// The summary lists each complex with an outage once, and no other.
pub proof fn lemma_summary_of(els: Seq<ElevatorView>, outs: Seq<Option<OutageView>>)
    requires
        outs.len() >= els.len(),
    ensures
        summary_of(els, outs).no_duplicates(),
        forall|c: ComplexId| summary_of(els, outs).contains(c) <==> has_outage_in(els, outs, c),
    decreases els.len(),
{
    if els.len() > 0 {
        let d = els.drop_last();
        lemma_summary_of(d, outs);
        let prev = summary_of(d, outs);
        let last = els.len() - 1;
        assert forall|c: ComplexId| summary_of(els, outs).contains(c) <==> has_outage_in(els, outs, c) by {
            if has_outage_in(els, outs, c) {
                let k = choose|k: int| 0 <= k < els.len() && #[trigger] els[k].complex_id == c && outs[k] is Some;
                if k < last {
                    assert(d[k].complex_id == c);
                    assert(has_outage_in(d, outs, c));
                }
                let sm = summary_of(els, outs);
                if prev.contains(c) {
                    let j = choose|j: int| 0 <= j < prev.len() && prev[j] == c;
                    assert(sm[j] == c);
                } else {
                    assert(k == last);
                    assert(sm == prev.push(c));
                    assert(sm[prev.len() as int] == c);
                }
            }
            if summary_of(els, outs).contains(c) {
                if prev.contains(c) {
                    assert(has_outage_in(d, outs, c));
                    let k = choose|k: int| 0 <= k < d.len() && #[trigger] d[k].complex_id == c && outs[k] is Some;
                    assert(els[k].complex_id == c);
                } else {
                    assert(outs[last] is Some && !prev.contains(els.last().complex_id));
                    let grown = prev.push(els.last().complex_id);
                    let j = choose|j: int| 0 <= j < grown.len() && grown[j] == c;
                    if j < prev.len() {
                        assert(prev[j] == c);
                    }
                    assert(els[last].complex_id == c);
                }
            }
        }
        if outs[last] is Some && !prev.contains(els.last().complex_id) {
            let grown = prev.push(els.last().complex_id);
            assert forall|a: int, b: int| 0 <= a < grown.len() && 0 <= b < grown.len() && a != b implies grown[a] != grown[b] by {
                if a < prev.len() && b < prev.len() {
                } else if a == prev.len() {
                    assert(prev[b] == grown[b]);
                } else {
                    assert(prev[a] == grown[a]);
                }
            }
        }
    }
}

/// The equipment of complex `c`, in directory order, with their outages.
pub open spec fn complex_elevators(
    els: Seq<ElevatorView>,
    outs: Seq<Option<OutageView>>,
    c: ComplexId,
) -> Seq<ElevatorView>
    decreases els.len(),
{
    if els.len() == 0 {
        Seq::empty()
    } else {
        let prev = complex_elevators(els.drop_last(), outs, c);
        if els.last().complex_id == c {
            prev.push(with_outage(els.last(), outs[els.len() - 1]))
        } else {
            prev
        }
    }
}

pub struct ElevatorStatesView {
    pub elevators: Seq<ElevatorView>,
    pub outages: Seq<Option<OutageView>>,
    pub cache: Option<Seq<ComplexId>>,
}

/// The equipment directory of every complex, with current outages and a cached summary.
pub struct ElevatorStates {
    elevators: Vec<Elevator>,
    outages: Vec<Option<Outage>>,
    summary_cache: Option<ElevatorSummary>,
}

impl View for ElevatorStates {
    type V = ElevatorStatesView;

    closed spec fn view(&self) -> ElevatorStatesView {
        ElevatorStatesView {
            elevators: els_view(self.elevators@),
            outages: outs_view(self.outages@),
            cache: match self.summary_cache {
                Some(s) => Some(s.outages@),
                None => None,
            },
        }
    }
}

/// What `get_summary` returns and leaves behind: the summary of the current outages,
/// with the state unchanged but for the cache, which then holds it.
pub open spec fn summary_post(pre: ElevatorStatesView, post: ElevatorStatesView, r: Seq<ComplexId>) -> bool {
    &&& r == summary_of(pre.elevators, pre.outages)
    &&& post.elevators == pre.elevators
    &&& post.outages == pre.outages
    &&& post.cache == Some(r)
}

fn find_last_id(els: &Vec<Elevator>, e: &EquipmentId) -> (r: Option<usize>)
    ensures
        r matches Some(j) ==> last_with_id(els_view(els@), e@) == Some(j as int) && j < els@.len(),
        r is None ==> last_with_id(els_view(els@), e@) is None,
{
    let mut i: usize = els.len();
    assert(els_view(els@).subrange(0, i as int) =~= els_view(els@));
    while i > 0
        invariant
            i <= els@.len(),
            last_with_id(els_view(els@), e@) == last_with_id(els_view(els@).subrange(0, i as int), e@),
        decreases i,
    {
        assert(els_view(els@).subrange(0, i as int).drop_last() =~= els_view(els@).subrange(0, i - 1));
        if els[i - 1].id == *e {
            return Some(i - 1);
        }
        i = i - 1;
    }
    None
}

proof fn lemma_last_with_id_bounds(els: Seq<ElevatorView>, e: Seq<u8>)
    ensures
        last_with_id(els, e) matches Some(j) ==> 0 <= j < els.len() && els[j].id == e,
    decreases els.len(),
{
    if els.len() > 0 && els.last().id != e {
        lemma_last_with_id_bounds(els.drop_last(), e);
    }
}

fn find_target(els: &Vec<Elevator>, e: &EquipmentId) -> (r: Option<usize>)
    ensures
        r matches Some(k) ==> outage_target(els_view(els@), e@) == Some(k as int) && k < els@.len(),
        r is None ==> outage_target(els_view(els@), e@) is None,
{
    let ghost v = els_view(els@);
    let j = match find_last_id(els, e) {
        None => return None,
        Some(j) => j,
    };
    proof {
        lemma_last_with_id_bounds(v, e@);
    }
    let c = els[j].complex_id;
    let mut k: usize = 0;
    while k < els.len()
        invariant
            v == els_view(els@),
            j < els@.len(),
            last_with_id(v, e@) == Some(j as int),
            v[j as int].complex_id == c,
            v[j as int].id == e@,
            forall|m: int| 0 <= m < k ==> (#[trigger] v[m]).complex_id != c || v[m].id != e@,
        decreases els@.len() - k,
    {
        if els[k].complex_id == c && els[k].id == *e {
            proof {
                assert(is_first_in(v, c, e@, k as int));
                let w = choose|w: int| is_first_in(v, c, e@, w);
                if w < k {
                    assert(v[w].complex_id != c || v[w].id != e@);
                }
                if k < w {
                    assert(v[k as int].complex_id != c || v[k as int].id != e@);
                }
                assert(w == k);
                assert(last_with_id(v, e@) == Some(j as int));
                assert(outage_target(v, e@) == Some(w));
            }
            return Some(k);
        }
        k = k + 1;
    }
    assert(v[j as int].complex_id == c && v[j as int].id == e@);
    None
}

impl ElevatorStates {
    pub closed spec fn wf(&self) -> bool {
        &&& self.outages@.len() == self.elevators@.len()
        &&& forall|k: int| 0 <= k < self.elevators@.len() ==> (#[trigger] self.elevators@[k]).nearby@.len() == 0
        &&& forall|k: int| 0 <= k < self.elevators@.len() ==> (#[trigger] self.elevators@[k])@.outage is None
        &&& self@.cache matches Some(s) ==> s == summary_of(self@.elevators, self@.outages)
    }

    /// The directory of `equipment`, with no outages.
    pub fn new(equipment: &[AccessEquipment]) -> (r: ElevatorStates)
        ensures
            r.wf(),
            r@.elevators == equipment@.map_values(|x: AccessEquipment| elevator_of(&x)),
            r@.outages == Seq::new(equipment@.len(), |i: int| None::<OutageView>),
            r@.cache is None,
    {
        let mut elevators: Vec<Elevator> = Vec::new();
        let mut outages: Vec<Option<Outage>> = Vec::new();
        let mut i: usize = 0;
        while i < equipment.len()
            invariant
                i <= equipment@.len(),
                els_view(elevators@) == equipment@.subrange(0, i as int).map_values(
                    |x: AccessEquipment| elevator_of(&x),
                ),
                outs_view(outages@) == Seq::new(i as nat, |k: int| None::<OutageView>),
                outages@.len() == elevators@.len(),
                forall|k: int| 0 <= k < elevators@.len() ==> (#[trigger] elevators@[k]).nearby@.len() == 0,
                forall|k: int| 0 <= k < elevators@.len() ==> (#[trigger] elevators@[k])@.outage is None,
            decreases equipment@.len() - i,
        {
            let el = Elevator::from(&equipment[i]);
            proof {
                assert(els_view(elevators@.push(el)) =~= els_view(elevators@).push(el@));
                assert(equipment@.subrange(0, i + 1).map_values(|x: AccessEquipment| elevator_of(&x))
                    =~= equipment@.subrange(0, i as int).map_values(
                    |x: AccessEquipment| elevator_of(&x),
                ).push(elevator_of(&equipment@[i as int])));
                assert(outs_view(outages@.push(None)) =~= outs_view(outages@).push(None));
                assert(outs_view(outages@).push(None) =~= Seq::new(
                    (i + 1) as nat,
                    |k: int| None::<OutageView>,
                ));
            }
            elevators.push(el);
            outages.push(None);
            i = i + 1;
        }
        assert(equipment@.subrange(0, i as int) =~= equipment@);
        ElevatorStates { elevators, outages, summary_cache: None }
    }

    /// Replaces every outage by those of `outages`, and drops the cached summary.
    /// A report for unknown equipment is skipped.
    pub fn update(&mut self, outages: &[AccessOutage])
        requires
            old(self).wf(),
        ensures
            final(self).wf(),
            final(self)@.elevators == old(self)@.elevators,
            final(self)@.outages == apply_reports(old(self)@.elevators, outages@),
            final(self)@.cache is None,
    {
        self.summary_cache = None;
        let ghost els = els_view(self.elevators@);
        let ghost orig = self.elevators@;
        let mut k: usize = 0;
        let n = self.outages.len();
        while k < n
            invariant
                n == self.outages@.len(),
                n == self.elevators@.len(),
                els == els_view(self.elevators@),
                self.elevators@ == orig,
                self.summary_cache is None,
                k <= n,
                forall|m: int| 0 <= m < k ==> (#[trigger] self.outages@[m]) is None,
            decreases n - k,
        {
            self.outages[k] = None;
            k = k + 1;
        }
        assert(outs_view(self.outages@) =~= apply_reports(els, outages@.subrange(0, 0)));
        let mut i: usize = 0;
        while i < outages.len()
            invariant
                i <= outages@.len(),
                n == self.outages@.len(),
                n == self.elevators@.len(),
                els == els_view(self.elevators@),
                self.elevators@ == orig,
                self.summary_cache is None,
                outs_view(self.outages@) == apply_reports(els, outages@.subrange(0, i as int)),
            decreases outages@.len() - i,
        {
            assert(outages@.subrange(0, i + 1).drop_last() =~= outages@.subrange(0, i as int));
            let rep = &outages[i];
            match find_target(&self.elevators, &rep.equipment) {
                Some(t) => {
                    let o = Outage::from(rep);
                    assert(outs_view(self.outages@.update(t as int, Some(o))) =~= outs_view(
                        self.outages@,
                    ).update(t as int, Some(o@)));
                    self.outages[t] = Some(o);
                },
                None => {},
            }
            i = i + 1;
        }
        assert(outages@.subrange(0, i as int) =~= outages@);
    }

    pub fn with_outages(self, outages: &[AccessOutage]) -> (r: ElevatorStates)
        requires
            self.wf(),
        ensures
            r.wf(),
            r@.elevators == self@.elevators,
            r@.outages == apply_reports(self@.elevators, outages@),
            r@.cache is None,
    {
        let mut s = self;
        s.update(outages);
        s
    }

    /// The equipment of complex `id` with their outages, or `None` for a complex with none.
    pub fn get(&self, id: ComplexId) -> (r: Option<Vec<Elevator>>)
        requires
            self.wf(),
        ensures
            r is None <==> complex_elevators(self@.elevators, self@.outages, id).len() == 0,
            r matches Some(v) ==> els_view(v@) == complex_elevators(self@.elevators, self@.outages, id),
    {
        let ghost els = els_view(self.elevators@);
        let ghost outs = outs_view(self.outages@);
        let mut r: Vec<Elevator> = Vec::new();
        let mut i: usize = 0;
        assert(els.subrange(0, 0) =~= Seq::<ElevatorView>::empty());
        assert(els_view(r@) =~= Seq::<ElevatorView>::empty());
        while i < self.elevators.len()
            invariant
                self.wf(),
                i <= self.elevators@.len(),
                els == els_view(self.elevators@),
                outs == outs_view(self.outages@),
                els_view(r@) == complex_elevators(els.subrange(0, i as int), outs, id),
            decreases self.elevators@.len() - i,
        {
            assert(els.subrange(0, i + 1).drop_last() =~= els.subrange(0, i as int));
            let e = &self.elevators[i];
            if e.complex_id == id {
                let o = match &self.outages[i] {
                    Some(x) => Some(x.copy()),
                    None => None,
                };
                let x = e.with(o);
                assert(els_view(r@.push(x)) =~= els_view(r@).push(x@));
                r.push(x);
            }
            i = i + 1;
        }
        assert(els.subrange(0, i as int) =~= els);
        if r.len() == 0 {
            None
        } else {
            Some(r)
        }
    }

    fn make_summary(&self) -> (r: ElevatorSummary)
        requires
            self.wf(),
        ensures
            r.outages@ == summary_of(self@.elevators, self@.outages),
    {
        let ghost els = els_view(self.elevators@);
        let ghost outs = outs_view(self.outages@);
        let mut ids: Vec<ComplexId> = Vec::new();
        let mut i: usize = 0;
        while i < self.elevators.len()
            invariant
                self.wf(),
                i <= self.elevators@.len(),
                els == els_view(self.elevators@),
                outs == outs_view(self.outages@),
                ids@ == summary_of(els.subrange(0, i as int), outs),
            decreases self.elevators@.len() - i,
        {
            assert(els.subrange(0, i + 1).drop_last() =~= els.subrange(0, i as int));
            if self.outages[i].is_some() {
                let c = self.elevators[i].complex_id;
                let mut found = false;
                let mut k: usize = 0;
                while k < ids.len()
                    invariant
                        k <= ids@.len(),
                        found <==> exists|m: int| 0 <= m < k && ids@[m] == c,
                    decreases ids@.len() - k,
                {
                    if ids[k] == c {
                        found = true;
                    }
                    k = k + 1;
                }
                if !found {
                    ids.push(c);
                }
            }
            i = i + 1;
        }
        assert(els.subrange(0, i as int) =~= els);
        ElevatorSummary { outages: ids }
    }

    /// The complexes with at least one outage, computed once after each update.
    pub fn get_summary(&mut self) -> (r: ElevatorSummary)
        requires
            old(self).wf(),
        ensures
            final(self).wf(),
            summary_post(old(self)@, final(self)@, r.outages@),
            r.outages@.no_duplicates(),
            forall|c: ComplexId| r.outages@.contains(c) <==> has_outage_in(old(self)@.elevators, old(self)@.outages, c),
    {
        proof {
            lemma_summary_of(self@.elevators, self@.outages);
        }
        match &self.summary_cache {
            Some(s) => {
                return ElevatorSummary { outages: s.outages.clone() };
            },
            None => {},
        }
        let s = self.make_summary();
        self.summary_cache = Some(ElevatorSummary { outages: s.outages.clone() });
        s
    }
}

/// Reading the summary twice with no update between gives the same list both times,
/// and after the first read the cache holds it.
pub proof fn lemma_summary_read_twice(
    s0: ElevatorStatesView,
    s1: ElevatorStatesView,
    r1: Seq<ComplexId>,
    s2: ElevatorStatesView,
    r2: Seq<ComplexId>,
)
    requires
        summary_post(s0, s1, r1),
        summary_post(s1, s2, r2),
    ensures
        r1 == r2,
        s1.cache == Some(r1),
        s2 == s1,
{
}

} // verus!
