//! The event bus connecting PLATO rooms to the analysis modules: rooms emit
//! events, subscribers receive the events that match their filters, and the
//! bus keeps a bounded log of everything that was emitted.

use vstd::prelude::*;
use vstd::string::*;
use crate::binary64;

verus! {

/// Event types on the bus.
#[derive(Debug, Clone, PartialEq, Eq)]
pub enum NervousEventKind {
    /// A room emitted an alert.
    Alert,
    /// A metric was updated.
    MetricUpdate,
    /// Configuration changed.
    ConfigChange,
    /// Health check result.
    HealthCheck,
    /// Distillation result.
    Distillation,
    /// Analysis result from a math module.
    AnalysisResult,
    /// Custom event.
    Custom(String),
}

/// Mathematical view of an event kind.
pub enum KindView {
    Alert,
    MetricUpdate,
    ConfigChange,
    HealthCheck,
    Distillation,
    AnalysisResult,
    Custom(Seq<char>),
}

impl View for NervousEventKind {
    type V = KindView;

    open spec fn view(&self) -> KindView {
        match self {
            NervousEventKind::Alert => KindView::Alert,
            NervousEventKind::MetricUpdate => KindView::MetricUpdate,
            NervousEventKind::ConfigChange => KindView::ConfigChange,
            NervousEventKind::HealthCheck => KindView::HealthCheck,
            NervousEventKind::Distillation => KindView::Distillation,
            NervousEventKind::AnalysisResult => KindView::AnalysisResult,
            NervousEventKind::Custom(s) => KindView::Custom(s@),
        }
    }
}

impl NervousEventKind {
    /// Whether two kinds are the same kind.
    pub fn same_kind(&self, other: &Self) -> (r: bool)
        ensures
            r == (self@ == other@),
    {
        match self {
            NervousEventKind::Alert => match other {
                NervousEventKind::Alert => true,
                _ => false,
            },
            NervousEventKind::MetricUpdate => match other {
                NervousEventKind::MetricUpdate => true,
                _ => false,
            },
            NervousEventKind::ConfigChange => match other {
                NervousEventKind::ConfigChange => true,
                _ => false,
            },
            NervousEventKind::HealthCheck => match other {
                NervousEventKind::HealthCheck => true,
                _ => false,
            },
            NervousEventKind::Distillation => match other {
                NervousEventKind::Distillation => true,
                _ => false,
            },
            NervousEventKind::AnalysisResult => match other {
                NervousEventKind::AnalysisResult => true,
                _ => false,
            },
            NervousEventKind::Custom(a) => match other {
                NervousEventKind::Custom(b) => *a == *b,
                _ => false,
            },
        }
    }

    /// A copy of this kind.
    pub fn duplicate(&self) -> (r: Self)
        ensures
            r@ == self@,
    {
        match self {
            NervousEventKind::Alert => NervousEventKind::Alert,
            NervousEventKind::MetricUpdate => NervousEventKind::MetricUpdate,
            NervousEventKind::ConfigChange => NervousEventKind::ConfigChange,
            NervousEventKind::HealthCheck => NervousEventKind::HealthCheck,
            NervousEventKind::Distillation => NervousEventKind::Distillation,
            NervousEventKind::AnalysisResult => NervousEventKind::AnalysisResult,
            NervousEventKind::Custom(s) => NervousEventKind::Custom(s.clone()),
        }
    }
}

/// An event on the bus. `timestamp` and `severity` are binary64 bit patterns.
#[derive(Debug, Clone)]
pub struct NervousEvent {
    pub id: u64,
    pub kind: NervousEventKind,
    pub source_room: String,
    pub timestamp: u64,
    pub payload: String,
    pub severity: u64,
}

/// Mathematical view of an event.
pub struct EventView {
    pub id: u64,
    pub kind: KindView,
    pub source_room: Seq<char>,
    pub timestamp: u64,
    pub payload: Seq<char>,
    pub severity: u64,
}

impl View for NervousEvent {
    type V = EventView;

    open spec fn view(&self) -> EventView {
        EventView {
            id: self.id,
            kind: self.kind@,
            source_room: self.source_room@,
            timestamp: self.timestamp,
            payload: self.payload@,
            severity: self.severity,
        }
    }
}

impl NervousEvent {
    /// A new event. The identifier is handed in by the caller, which keeps
    /// the process-wide counter.
    pub fn new(
        id: u64,
        kind: NervousEventKind,
        source_room: &str,
        timestamp: u64,
        payload: &str,
        severity: u64,
    ) -> (e: Self)
        ensures
            e@ == (EventView {
                id,
                kind: kind@,
                source_room: source_room@,
                timestamp,
                payload: payload@,
                severity,
            }),
    {
        NervousEvent {
            id,
            kind,
            source_room: String::from_str(source_room),
            timestamp,
            payload: String::from_str(payload),
            severity,
        }
    }
}

/// A subscriber that receives events matching a filter.
#[derive(Debug, Clone)]
pub struct Subscriber {
    pub id: String,
    pub name: String,
    /// Event kinds this subscriber cares about (none = every kind).
    pub subscriptions: Vec<NervousEventKind>,
    /// Room filter (None = all rooms).
    pub room_filter: Option<String>,
}

/// Views of a sequence of kinds.
pub open spec fn kind_views(kinds: Seq<NervousEventKind>) -> Seq<KindView> {
    kinds.map_values(|k: NervousEventKind| k@)
}

/// Views of a sequence of strings.
pub open spec fn string_views(strings: Seq<String>) -> Seq<Seq<char>> {
    strings.map_values(|s: String| s@)
}

impl Subscriber {
    /// The room filter as a view.
    pub open spec fn filter_view(&self) -> Option<Seq<char>> {
        match self.room_filter {
            Some(r) => Some(r@),
            None => None,
        }
    }

    /// The subscriber accepts events of this kind.
    pub open spec fn accepts_kind(&self, kind: KindView) -> bool {
        self.subscriptions@.len() == 0 || kind_views(self.subscriptions@).contains(kind)
    }

    /// The subscriber accepts events from this room.
    pub open spec fn accepts_room(&self, room: Seq<char>) -> bool {
        match self.filter_view() {
            Some(r) => r == room,
            None => true,
        }
    }

    /// The subscriber should receive this event.
    pub open spec fn accepts(&self, e: EventView) -> bool {
        self.accepts_kind(e.kind) && self.accepts_room(e.source_room)
    }

    /// A subscriber with no subscriptions (it receives every kind) and no
    /// room filter.
    pub fn new(id: &str, name: &str) -> (s: Self)
        ensures
            s.id@ == id@,
            s.name@ == name@,
            s.subscriptions@.len() == 0,
            s.room_filter is None,
    {
        Subscriber {
            id: String::from_str(id),
            name: String::from_str(name),
            subscriptions: Vec::new(),
            room_filter: None,
        }
    }

    /// Subscribe to an event kind; a kind already subscribed is not added
    /// again.
    pub fn subscribe(&mut self, kind: NervousEventKind)
        ensures
            final(self).id == old(self).id,
            final(self).name == old(self).name,
            final(self).room_filter == old(self).room_filter,
            kind_views(old(self).subscriptions@).contains(kind@) ==> final(self).subscriptions@
                == old(self).subscriptions@,
            !kind_views(old(self).subscriptions@).contains(kind@) ==> final(self).subscriptions@
                == old(self).subscriptions@.push(kind),
            kind_views(final(self).subscriptions@) == with_kind(
                kind_views(old(self).subscriptions@),
                kind@,
            ),
    {
        let mut i: usize = 0;
        while i < self.subscriptions.len()
            invariant
                i <= self.subscriptions.len(),
                forall|j: int| 0 <= j < i ==> self.subscriptions@[j]@ != kind@,
            decreases self.subscriptions.len() - i,
        {
            if self.subscriptions[i].same_kind(&kind) {
                proof {
                    assert(kind_views(self.subscriptions@)[i as int] == kind@);
                }
                return;
            }
            i = i + 1;
        }
        proof {
            assert forall|j: int| 0 <= j < self.subscriptions@.len() implies kind_views(
                self.subscriptions@,
            )[j] != kind@ by {}
        }
        let ghost before = self.subscriptions@;
        self.subscriptions.push(kind);
        proof {
            assert(kind_views(self.subscriptions@) =~= kind_views(before).push(kind@));
        }
    }

    /// Whether this subscriber should receive the event.
    pub fn matches(&self, event: &NervousEvent) -> (r: bool)
        ensures
            r == self.accepts(event@),
    {
        let mut kind_match: bool = self.subscriptions.len() == 0;
        let mut i: usize = 0;
        while i < self.subscriptions.len()
            invariant
                i <= self.subscriptions.len(),
                kind_match == (self.subscriptions@.len() == 0 || exists|j: int|
                    0 <= j < i && self.subscriptions@[j]@ == event.kind@),
            decreases self.subscriptions.len() - i,
        {
            if self.subscriptions[i].same_kind(&event.kind) {
                kind_match = true;
            }
            i = i + 1;
        }
        proof {
            if kind_views(self.subscriptions@).contains(event.kind@) {
                let j = choose|j: int|
                    0 <= j < self.subscriptions@.len() && kind_views(self.subscriptions@)[j]
                        == event.kind@;
                assert(self.subscriptions@[j]@ == event.kind@);
            }
            if exists|j: int| 0 <= j < i && self.subscriptions@[j]@ == event.kind@ {
                let j = choose|j: int| 0 <= j < i && self.subscriptions@[j]@ == event.kind@;
                assert(kind_views(self.subscriptions@)[j] == event.kind@);
            }
        }
        let room_match: bool = match &self.room_filter {
            Some(r) => *r == event.source_room,
            None => true,
        };
        kind_match && room_match
    }
}

/// A routing entry: the subscribers registered for one event kind, in
/// registration order.
#[derive(Debug, Clone)]
pub struct Route {
    pub kind: NervousEventKind,
    pub subscriber_ids: Vec<String>,
}

/// The identifiers routed to `kind` (empty when no entry has that kind).
pub open spec fn routed_ids(routing: Seq<Route>, kind: KindView) -> Seq<Seq<char>> {
    if exists|i: int| 0 <= i < routing.len() && (#[trigger] routing[i]).kind@ == kind {
        let i = choose|i: int| 0 <= i < routing.len() && (#[trigger] routing[i]).kind@ == kind;
        string_views(routing[i].subscriber_ids@)
    } else {
        Seq::empty()
    }
}

/// No two routing entries have the same kind.
pub open spec fn routes_distinct(routing: Seq<Route>) -> bool {
    forall|i: int, j: int|
        0 <= i < routing.len() && 0 <= j < routing.len() && i != j ==> (#[trigger] routing[i]).kind@
            != (#[trigger] routing[j]).kind@
}

/// How many of the kinds are `kind`.
pub open spec fn kind_count(kinds: Seq<KindView>, kind: KindView) -> nat
    decreases kinds.len(),
{
    if kinds.len() == 0 {
        0
    } else {
        kind_count(kinds.drop_last(), kind) + if kinds.last() == kind {
            1nat
        } else {
            0nat
        }
    }
}

/// No two subscribers have the same identifier.
pub open spec fn subscriber_ids_distinct(subs: Seq<Subscriber>) -> bool {
    forall|i: int, j: int|
        0 <= i < subs.len() && 0 <= j < subs.len() && i != j ==> (#[trigger] subs[i]).id@ != (
        #[trigger] subs[j]).id@
}

/// Views of the events of a log.
pub open spec fn event_views(log: Seq<NervousEvent>) -> Seq<EventView> {
    log.map_values(|e: NervousEvent| e@)
}

/// Identifiers of the subscribers that accept the event, in subscriber order.
pub open spec fn accepting_ids(subs: Seq<Subscriber>, e: EventView) -> Seq<Seq<char>>
    decreases subs.len(),
{
    if subs.len() == 0 {
        Seq::empty()
    } else {
        let rest = accepting_ids(subs.drop_last(), e);
        if subs.last().accepts(e) {
            rest.push(subs.last().id@)
        } else {
            rest
        }
    }
}

/// Every identifier accepting the event is the identifier of one of the
/// subscribers.
proof fn lemma_accepting_ids_from(subs: Seq<Subscriber>, e: EventView, x: Seq<char>)
    requires
        accepting_ids(subs, e).contains(x),
    ensures
        exists|i: int| 0 <= i < subs.len() && (#[trigger] subs[i]).id@ == x,
    decreases subs.len(),
{
    let rest = accepting_ids(subs.drop_last(), e);
    if rest.contains(x) {
        lemma_accepting_ids_from(subs.drop_last(), e, x);
        let i = choose|i: int| 0 <= i < subs.drop_last().len() && (#[trigger] subs.drop_last()[i]).id@ == x;
        assert(subs[i] == subs.drop_last()[i]);
    } else {
        assert(subs[subs.len() - 1].id@ == x);
    }
}

/// With distinct subscriber identifiers, no identifier accepts twice.
proof fn lemma_accepting_ids_distinct(subs: Seq<Subscriber>, e: EventView)
    requires
        subscriber_ids_distinct(subs),
    ensures
        accepting_ids(subs, e).no_duplicates(),
    decreases subs.len(),
{
    if subs.len() > 0 {
        let front = subs.drop_last();
        assert(subscriber_ids_distinct(front)) by {
            assert forall|i: int, j: int|
                0 <= i < front.len() && 0 <= j < front.len() && i != j implies (#[trigger] front[i]).id@
                    != (#[trigger] front[j]).id@ by {
                assert(front[i] == subs[i] && front[j] == subs[j]);
            }
        }
        lemma_accepting_ids_distinct(front, e);
        let rest = accepting_ids(front, e);
        if subs.last().accepts(e) {
            if rest.contains(subs.last().id@) {
                lemma_accepting_ids_from(front, e, subs.last().id@);
                let i = choose|i: int| 0 <= i < front.len() && (#[trigger] front[i]).id@ == subs.last().id@;
                assert(front[i] == subs[i]);
                assert(subs[i].id@ != subs[subs.len() - 1].id@);
            }
            assert forall|a: int, b: int|
                0 <= a < rest.push(subs.last().id@).len() && 0 <= b < rest.push(subs.last().id@).len()
                    && a != b implies rest.push(subs.last().id@)[a] != rest.push(subs.last().id@)[b] by {
                if a < rest.len() && b < rest.len() {
                } else if a < rest.len() {
                    assert(rest.contains(rest[a]));
                } else {
                    assert(rest.contains(rest[b]));
                }
            }
        }
    }
}

/// The log after appending `e`, dropping the oldest entry when the log grows
/// beyond `max`.
pub open spec fn appended_log(log: Seq<EventView>, e: EventView, max: usize) -> Seq<EventView> {
    let grown = log.push(e);
    if grown.len() > max {
        grown.drop_first()
    } else {
        grown
    }
}

/// The events of the log that satisfy `keep`, in log order.
pub open spec fn events_where(log: Seq<NervousEvent>, keep: spec_fn(EventView) -> bool) -> Seq<
    EventView,
>
    decreases log.len(),
{
    if log.len() == 0 {
        Seq::empty()
    } else {
        let rest = events_where(log.drop_last(), keep);
        if keep(log.last()@) {
            rest.push(log.last()@)
        } else {
            rest
        }
    }
}

/// Views of a sequence of event references.
pub open spec fn ref_views(refs: Seq<&NervousEvent>) -> Seq<EventView> {
    refs.map_values(|e: &NervousEvent| e@)
}

/// The default bound on the log length.
pub const DEFAULT_MAX_LOG_SIZE: usize = 10000;

/// The event bus.
#[derive(Debug, Clone)]
pub struct NervousSystem {
    pub rooms: Vec<String>,
    /// Subscribers, keyed by their identifiers.
    pub subscribers: Vec<Subscriber>,
    pub event_log: Vec<NervousEvent>,
    /// Max events to keep in the log.
    pub max_log_size: usize,
    /// Routing table: event kind → subscriber IDs.
    pub routing: Vec<Route>,
}

impl NervousSystem {
    /// An empty bus whose log keeps at most 10000 events.
    pub fn new() -> (ns: Self)
        ensures
            ns.rooms@.len() == 0,
            ns.subscribers@.len() == 0,
            ns.event_log@.len() == 0,
            ns.routing@.len() == 0,
            ns.max_log_size == DEFAULT_MAX_LOG_SIZE,
    {
        NervousSystem {
            rooms: Vec::new(),
            subscribers: Vec::new(),
            event_log: Vec::new(),
            max_log_size: DEFAULT_MAX_LOG_SIZE,
            routing: Vec::new(),
        }
    }

    /// Register a room; a room already registered is not added again.
    pub fn register_room(&mut self, room_id: &str)
        ensures
            final(self).subscribers == old(self).subscribers,
            final(self).event_log == old(self).event_log,
            final(self).max_log_size == old(self).max_log_size,
            final(self).routing == old(self).routing,
            string_views(old(self).rooms@).contains(room_id@) ==> final(self).rooms@ == old(self).rooms@,
            !string_views(old(self).rooms@).contains(room_id@) ==> string_views(final(self).rooms@)
                == string_views(old(self).rooms@).push(room_id@),
            string_views(final(self).rooms@) == with_room(string_views(old(self).rooms@), room_id@),
    {
        let room = String::from_str(room_id);
        let mut i: usize = 0;
        while i < self.rooms.len()
            invariant
                i <= self.rooms.len(),
                room@ == room_id@,
                forall|j: int| 0 <= j < i ==> self.rooms@[j]@ != room_id@,
            decreases self.rooms.len() - i,
        {
            if self.rooms[i] == room {
                proof {
                    assert(string_views(self.rooms@)[i as int] == room_id@);
                }
                return;
            }
            i = i + 1;
        }
        proof {
            assert forall|j: int| 0 <= j < self.rooms@.len() implies string_views(self.rooms@)[j]
                != room_id@ by {}
        }
        let ghost before = self.rooms@;
        self.rooms.push(room);
        proof {
            assert(string_views(self.rooms@) =~= string_views(before).push(room_id@));
        }
    }

    /// Add `id` to the routing entry of `kind`, creating the entry if needed.
    fn route_to(routing: &mut Vec<Route>, kind: &NervousEventKind, id: &String)
        requires
            routes_distinct(old(routing)@),
        ensures
            routes_distinct(final(routing)@),
            forall|k: KindView|
                #![trigger routed_ids(final(routing)@, k)]
                routed_ids(final(routing)@, k) == if k == kind@ {
                    routed_ids(old(routing)@, k).push(id@)
                } else {
                    routed_ids(old(routing)@, k)
                },
    {
        let mut i: usize = 0;
        while i < routing.len()
            invariant
                i <= routing.len(),
                routing@ == old(routing)@,
                routes_distinct(routing@),
                forall|j: int| 0 <= j < i ==> (#[trigger] routing@[j]).kind@ != kind@,
            decreases routing.len() - i,
        {
            if routing[i].kind.same_kind(kind) {
                let ghost before = routing@;
                let mut ids = Vec::new();
                std::mem::swap(&mut ids, &mut routing[i].subscriber_ids);
                let ghost before_ids = ids@;
                let copy = id.clone();
                ids.push(copy);
                std::mem::swap(&mut ids, &mut routing[i].subscriber_ids);
                proof {
                    assert(routing@.len() == before.len());
                    assert forall|j: int| 0 <= j < routing@.len() implies #[trigger] routing@[j].kind@
                        == before[j].kind@ by {}
                    assert forall|j: int| 0 <= j < routing@.len() && j != i implies #[trigger] routing@[j]
                        == before[j] by {}
                    assert(routing@[i as int].subscriber_ids@ == before_ids.push(copy));
                    assert forall|k: KindView| #[trigger]
                        routed_ids(routing@, k) == if k == kind@ {
                            routed_ids(before, k).push(id@)
                        } else {
                            routed_ids(before, k)
                        } by {
                        if k == kind@ {
                            assert(routing@[i as int].kind@ == k);
                            assert(before[i as int].kind@ == k);
                            let c = choose|c: int| 0 <= c < routing@.len() && (#[trigger] routing@[c]).kind@ == k;
                            assert(c == i);
                            let d = choose|d: int| 0 <= d < before.len() && (#[trigger] before[d]).kind@ == k;
                            assert(d == i);
                            assert(string_views(routing@[i as int].subscriber_ids@) =~= string_views(
                                before[i as int].subscriber_ids@,
                            ).push(id@));
                        } else {
                            if exists|c: int| 0 <= c < routing@.len() && (#[trigger] routing@[c]).kind@ == k {
                                let c = choose|c: int|
                                    0 <= c < routing@.len() && (#[trigger] routing@[c]).kind@ == k;
                                assert(before[c].kind@ == k);
                                let d = choose|d: int| 0 <= d < before.len() && (#[trigger] before[d]).kind@ == k;
                                assert(c == d);
                            } else {
                                assert forall|d: int| 0 <= d < before.len() implies (#[trigger] before[d]).kind@
                                    != k by {
                                    assert(routing@[d].kind@ == before[d].kind@);
                                }
                            }
                        }
                    }
                }
                return;
            }
            i = i + 1;
        }
        let ghost before = routing@;
        let mut ids: Vec<String> = Vec::new();
        ids.push(id.clone());
        routing.push(Route { kind: kind.duplicate(), subscriber_ids: ids });
        proof {
            let n = before.len() as int;
            assert(routing@[n].kind@ == kind@);
            assert forall|k: KindView| #[trigger]
                routed_ids(routing@, k) == if k == kind@ {
                    routed_ids(before, k).push(id@)
                } else {
                    routed_ids(before, k)
                } by {
                if k == kind@ {
                    assert(!exists|d: int| 0 <= d < before.len() && (#[trigger] before[d]).kind@ == k);
                    let c = choose|c: int| 0 <= c < routing@.len() && (#[trigger] routing@[c]).kind@ == k;
                    assert(c == n);
                    assert(string_views(routing@[n].subscriber_ids@) =~= seq![id@]);
                    assert(Seq::<Seq<char>>::empty().push(id@) =~= seq![id@]);
                } else {
                    if exists|c: int| 0 <= c < routing@.len() && (#[trigger] routing@[c]).kind@ == k {
                        let c = choose|c: int| 0 <= c < routing@.len() && (#[trigger] routing@[c]).kind@ == k;
                        assert(c < n);
                        assert(before[c].kind@ == k);
                        let d = choose|d: int| 0 <= d < before.len() && (#[trigger] before[d]).kind@ == k;
                        assert(routing@[d] == before[d]);
                        assert(c == d);
                    } else {
                        assert forall|d: int| 0 <= d < before.len() implies (#[trigger] before[d]).kind@ != k by {
                            assert(routing@[d] == before[d]);
                        }
                    }
                }
            }
        }
    }

    /// Register a subscriber: its identifier is added to the routing entry
    /// of each kind it subscribes to, and it replaces any subscriber with
    /// the same identifier.
    pub fn register_subscriber(&mut self, subscriber: Subscriber)
        requires
            routes_distinct(old(self).routing@),
        ensures
            final(self).rooms == old(self).rooms,
            final(self).event_log == old(self).event_log,
            final(self).max_log_size == old(self).max_log_size,
            routes_distinct(final(self).routing@),
            forall|k: KindView|
                #![trigger routed_ids(final(self).routing@, k)]
                routed_ids(final(self).routing@, k) == routed_ids(old(self).routing@, k) + Seq::new(
                    kind_count(kind_views(subscriber.subscriptions@), k),
                    |_i: int| subscriber.id@,
                ),
            (forall|i: int|
                0 <= i < old(self).subscribers@.len() ==> (#[trigger] old(self).subscribers@[i]).id@
                    != subscriber.id@) ==> final(self).subscribers@ == old(self).subscribers@.push(
                subscriber,
            ),
            forall|i: int|
                0 <= i < old(self).subscribers@.len() && (#[trigger] old(self).subscribers@[i]).id@
                    == subscriber.id@ && (forall|j: int|
                    0 <= j < i ==> old(self).subscribers@[j].id@ != subscriber.id@) ==> final(self).subscribers@ == old(self).subscribers@.update(i, subscriber),
            subscriber_ids_distinct(old(self).subscribers@) ==> subscriber_ids_distinct(
                final(self).subscribers@,
            ),
    {
        let ghost start = self.routing@;
        assert(start == old(self).routing@);
        let ghost kinds = kind_views(subscriber.subscriptions@);
        let mut i: usize = 0;
        while i < subscriber.subscriptions.len()
            invariant
                i <= subscriber.subscriptions.len(),
                self.rooms == old(self).rooms,
                self.event_log == old(self).event_log,
                self.max_log_size == old(self).max_log_size,
                self.subscribers == old(self).subscribers,
                kinds == kind_views(subscriber.subscriptions@),
                routes_distinct(self.routing@),
                forall|k: KindView|
                    #![trigger routed_ids(self.routing@, k)]
                    routed_ids(self.routing@, k) == routed_ids(start, k) + Seq::new(
                        kind_count(kinds.take(i as int), k),
                        |_i: int| subscriber.id@,
                    ),
            decreases subscriber.subscriptions.len() - i,
        {
            let ghost before = self.routing@;
            Self::route_to(&mut self.routing, &subscriber.subscriptions[i], &subscriber.id);
            proof {
                assert(kinds.take(i + 1).drop_last() =~= kinds.take(i as int));
                assert(kinds.take(i + 1).last() == subscriber.subscriptions@[i as int]@);
                assert forall|k: KindView| #[trigger]
                    routed_ids(self.routing@, k) == routed_ids(start, k) + Seq::new(
                        kind_count(kinds.take(i + 1), k),
                        |_i: int| subscriber.id@,
                    ) by {
                    let old_n = kind_count(kinds.take(i as int), k);
                    if k == subscriber.subscriptions@[i as int]@ {
                        assert(Seq::new(old_n + 1, |_i: int| subscriber.id@) =~= Seq::new(
                            old_n,
                            |_i: int| subscriber.id@,
                        ).push(subscriber.id@));
                        assert(routed_ids(before, k) == routed_ids(start, k) + Seq::new(
                            old_n,
                            |_i: int| subscriber.id@,
                        ));
                        assert(routed_ids(start, k) + Seq::new(old_n + 1, |_i: int| subscriber.id@)
                            =~= (routed_ids(start, k) + Seq::new(old_n, |_i: int| subscriber.id@)).push(
                            subscriber.id@,
                        ));
                    } else {
                        assert(routed_ids(before, k) == routed_ids(start, k) + Seq::new(
                            old_n,
                            |_i: int| subscriber.id@,
                        ));
                    }
                }
            }
            i = i + 1;
        }
        proof {
            assert(kinds.take(subscriber.subscriptions@.len() as int) =~= kinds);
        }
        let mut j: usize = 0;
        while j < self.subscribers.len()
            invariant
                j <= self.subscribers.len(),
                self.rooms == old(self).rooms,
                self.event_log == old(self).event_log,
                self.max_log_size == old(self).max_log_size,
                self.subscribers == old(self).subscribers,
                routes_distinct(self.routing@),
                forall|k: KindView|
                    #![trigger routed_ids(self.routing@, k)]
                    routed_ids(self.routing@, k) == routed_ids(old(self).routing@, k) + Seq::new(
                        kind_count(kind_views(subscriber.subscriptions@), k),
                        |_i: int| subscriber.id@,
                    ),
                forall|k: int| 0 <= k < j ==> (#[trigger] self.subscribers@[k]).id@ != subscriber.id@,
            decreases self.subscribers.len() - j,
        {
            if self.subscribers[j].id == subscriber.id {
                let ghost before = self.subscribers@;
                self.subscribers.set(j, subscriber);
                proof {
                    if subscriber_ids_distinct(before) {
                        assert forall|a: int, b: int|
                            0 <= a < self.subscribers@.len() && 0 <= b < self.subscribers@.len() && a
                                != b implies (#[trigger] self.subscribers@[a]).id@ != (
                        #[trigger] self.subscribers@[b]).id@ by {
                            if a == j {
                                assert(before[j as int].id@ == self.subscribers@[a].id@);
                                assert(before[b] == self.subscribers@[b]);
                            } else if b == j {
                                assert(before[j as int].id@ == self.subscribers@[b].id@);
                                assert(before[a] == self.subscribers@[a]);
                            } else {
                                assert(before[a] == self.subscribers@[a]);
                                assert(before[b] == self.subscribers@[b]);
                            }
                        }
                    }
                    assert forall|i: int|
                        0 <= i < before.len() && (#[trigger] before[i]).id@ == subscriber.id@ && (forall|
                            k: int,
                        | 0 <= k < i ==> before[k].id@ != subscriber.id@) implies self.subscribers@
                        == before.update(i, subscriber) by {
                        if i < j {
                            assert(before[i].id@ != subscriber.id@);
                        } else if i > j {
                            assert(before[j as int].id@ == subscriber.id@);
                        }
                    }
                }
                return;
            }
            j = j + 1;
        }
        let ghost before = self.subscribers@;
        self.subscribers.push(subscriber);
        proof {
            if subscriber_ids_distinct(before) {
                assert forall|a: int, b: int|
                    0 <= a < self.subscribers@.len() && 0 <= b < self.subscribers@.len() && a
                        != b implies (#[trigger] self.subscribers@[a]).id@ != (
                #[trigger] self.subscribers@[b]).id@ by {
                    if a < before.len() && b < before.len() {
                        assert(before[a] == self.subscribers@[a]);
                        assert(before[b] == self.subscribers@[b]);
                    } else if a < before.len() {
                        assert(before[a] == self.subscribers@[a]);
                    } else {
                        assert(before[b] == self.subscribers@[b]);
                    }
                }
            }
        }
    }

    /// Emit an event: the identifiers of the subscribers that accept it are
    /// returned, in subscriber order, and the event is appended to the log,
    /// dropping the oldest entry when the log grows beyond `max_log_size`.
    pub fn emit(&mut self, event: NervousEvent) -> (matched: Vec<String>)
        ensures
            string_views(matched@) == accepting_ids(old(self).subscribers@, event@),
            event_views(final(self).event_log@) == appended_log(
                event_views(old(self).event_log@),
                event@,
                old(self).max_log_size,
            ),
            final(self).rooms == old(self).rooms,
            final(self).subscribers == old(self).subscribers,
            final(self).max_log_size == old(self).max_log_size,
            final(self).routing == old(self).routing,
            subscriber_ids_distinct(old(self).subscribers@) ==> string_views(
                matched@,
            ).no_duplicates(),
    {
        proof {
            if subscriber_ids_distinct(self.subscribers@) {
                lemma_accepting_ids_distinct(self.subscribers@, event@);
            }
        }
        let mut matched: Vec<String> = Vec::new();
        let mut i: usize = 0;
        while i < self.subscribers.len()
            invariant
                i <= self.subscribers.len(),
                string_views(matched@) == accepting_ids(self.subscribers@.take(i as int), event@),
            decreases self.subscribers.len() - i,
        {
            let ghost prev = matched@;
            if self.subscribers[i].matches(&event) {
                matched.push(self.subscribers[i].id.clone());
                proof {
                    assert(string_views(matched@) =~= string_views(prev).push(
                        self.subscribers@[i as int].id@,
                    ));
                }
            }
            proof {
                assert(self.subscribers@.take(i + 1).drop_last() =~= self.subscribers@.take(
                    i as int,
                ));
            }
            i = i + 1;
        }
        proof {
            assert(self.subscribers@.take(self.subscribers@.len() as int) =~= self.subscribers@);
        }
        let ghost before = self.event_log@;
        self.event_log.push(event);
        proof {
            assert(event_views(self.event_log@) =~= event_views(before).push(event@));
        }
        if self.event_log.len() > self.max_log_size {
            let ghost grown = self.event_log@;
            self.event_log.remove(0);
            proof {
                assert(event_views(self.event_log@) =~= event_views(grown).drop_first());
            }
        }
        matched
    }

    /// Emit an alert event.
    pub fn emit_alert(
        &mut self,
        id: u64,
        room: &str,
        timestamp: u64,
        message: &str,
        severity: u64,
    ) -> (matched: Vec<String>)
        ensures
            ({
                let e = EventView {
                    id,
                    kind: KindView::Alert,
                    source_room: room@,
                    timestamp,
                    payload: message@,
                    severity,
                };
                &&& string_views(matched@) == accepting_ids(old(self).subscribers@, e)
                &&& event_views(final(self).event_log@) == appended_log(
                    event_views(old(self).event_log@),
                    e,
                    old(self).max_log_size,
                )
            }),
            final(self).rooms == old(self).rooms,
            final(self).subscribers == old(self).subscribers,
            final(self).max_log_size == old(self).max_log_size,
            final(self).routing == old(self).routing,
    {
        let event = NervousEvent::new(
            id,
            NervousEventKind::Alert,
            room,
            timestamp,
            message,
            severity,
        );
        self.emit(event)
    }

    /// Emit a metric update (severity +0.0).
    pub fn emit_metric(
        &mut self,
        id: u64,
        room: &str,
        timestamp: u64,
        payload: &str,
    ) -> (matched: Vec<String>)
        ensures
            ({
                let e = EventView {
                    id,
                    kind: KindView::MetricUpdate,
                    source_room: room@,
                    timestamp,
                    payload: payload@,
                    severity: binary64::positive_zero(),
                };
                &&& string_views(matched@) == accepting_ids(old(self).subscribers@, e)
                &&& event_views(final(self).event_log@) == appended_log(
                    event_views(old(self).event_log@),
                    e,
                    old(self).max_log_size,
                )
            }),
            final(self).rooms == old(self).rooms,
            final(self).subscribers == old(self).subscribers,
            final(self).max_log_size == old(self).max_log_size,
            final(self).routing == old(self).routing,
    {
        let event = NervousEvent::new(
            id,
            NervousEventKind::MetricUpdate,
            room,
            timestamp,
            payload,
            0u64,
        );
        self.emit(event)
    }

    /// Emit a health check.
    pub fn emit_health(
        &mut self,
        id: u64,
        room: &str,
        timestamp: u64,
        payload: &str,
        severity: u64,
    ) -> (matched: Vec<String>)
        ensures
            ({
                let e = EventView {
                    id,
                    kind: KindView::HealthCheck,
                    source_room: room@,
                    timestamp,
                    payload: payload@,
                    severity,
                };
                &&& string_views(matched@) == accepting_ids(old(self).subscribers@, e)
                &&& event_views(final(self).event_log@) == appended_log(
                    event_views(old(self).event_log@),
                    e,
                    old(self).max_log_size,
                )
            }),
            final(self).rooms == old(self).rooms,
            final(self).subscribers == old(self).subscribers,
            final(self).max_log_size == old(self).max_log_size,
            final(self).routing == old(self).routing,
    {
        let event = NervousEvent::new(
            id,
            NervousEventKind::HealthCheck,
            room,
            timestamp,
            payload,
            severity,
        );
        self.emit(event)
    }

    /// Emit an analysis result (severity +0.0).
    pub fn emit_analysis(
        &mut self,
        id: u64,
        room: &str,
        timestamp: u64,
        payload: &str,
    ) -> (matched: Vec<String>)
        ensures
            ({
                let e = EventView {
                    id,
                    kind: KindView::AnalysisResult,
                    source_room: room@,
                    timestamp,
                    payload: payload@,
                    severity: binary64::positive_zero(),
                };
                &&& string_views(matched@) == accepting_ids(old(self).subscribers@, e)
                &&& event_views(final(self).event_log@) == appended_log(
                    event_views(old(self).event_log@),
                    e,
                    old(self).max_log_size,
                )
            }),
            final(self).rooms == old(self).rooms,
            final(self).subscribers == old(self).subscribers,
            final(self).max_log_size == old(self).max_log_size,
            final(self).routing == old(self).routing,
    {
        let event = NervousEvent::new(
            id,
            NervousEventKind::AnalysisResult,
            room,
            timestamp,
            payload,
            0u64,
        );
        self.emit(event)
    }

    /// The logged events from the given room, in log order.
    pub fn events_for_room(&self, room_id: &str) -> (events: Vec<&NervousEvent>)
        ensures
            ref_views(events@) == events_where(
                self.event_log@,
                |e: EventView| e.source_room == room_id@,
            ),
    {
        let room = String::from_str(room_id);
        let ghost keep = |e: EventView| e.source_room == room_id@;
        let mut events: Vec<&NervousEvent> = Vec::new();
        let mut i: usize = 0;
        while i < self.event_log.len()
            invariant
                i <= self.event_log.len(),
                room@ == room_id@,
                keep == (|e: EventView| e.source_room == room_id@),
                ref_views(events@) == events_where(self.event_log@.take(i as int), keep),
            decreases self.event_log.len() - i,
        {
            let ghost prev = events@;
            let e = &self.event_log[i];
            if e.source_room == room {
                events.push(e);
                proof {
                    assert(ref_views(events@) =~= ref_views(prev).push(e@));
                }
            }
            proof {
                assert(self.event_log@.take(i + 1).drop_last() =~= self.event_log@.take(i as int));
            }
            i = i + 1;
        }
        proof {
            assert(self.event_log@.take(self.event_log@.len() as int) =~= self.event_log@);
        }
        events
    }

    /// The logged events of the given kind, in log order.
    pub fn events_of_kind(&self, kind: &NervousEventKind) -> (events: Vec<&NervousEvent>)
        ensures
            ref_views(events@) == events_where(self.event_log@, |e: EventView| e.kind == kind@),
    {
        let ghost keep = |e: EventView| e.kind == kind@;
        let mut events: Vec<&NervousEvent> = Vec::new();
        let mut i: usize = 0;
        while i < self.event_log.len()
            invariant
                i <= self.event_log.len(),
                keep == (|e: EventView| e.kind == kind@),
                ref_views(events@) == events_where(self.event_log@.take(i as int), keep),
            decreases self.event_log.len() - i,
        {
            let ghost prev = events@;
            let e = &self.event_log[i];
            if e.kind.same_kind(kind) {
                events.push(e);
                proof {
                    assert(ref_views(events@) =~= ref_views(prev).push(e@));
                }
            }
            proof {
                assert(self.event_log@.take(i + 1).drop_last() =~= self.event_log@.take(i as int));
            }
            i = i + 1;
        }
        proof {
            assert(self.event_log@.take(self.event_log@.len() as int) =~= self.event_log@);
        }
        events
    }

    /// The logged events whose severity is greater than `threshold` (both
    /// binary64 bit patterns, compared as numbers), in log order.
    pub fn high_severity_events(&self, threshold: u64) -> (events: Vec<&NervousEvent>)
        ensures
            ref_views(events@) == events_where(
                self.event_log@,
                |e: EventView| binary64::lt(threshold, e.severity),
            ),
    {
        let ghost keep = |e: EventView| binary64::lt(threshold, e.severity);
        let mut events: Vec<&NervousEvent> = Vec::new();
        let mut i: usize = 0;
        while i < self.event_log.len()
            invariant
                i <= self.event_log.len(),
                keep == (|e: EventView| binary64::lt(threshold, e.severity)),
                ref_views(events@) == events_where(self.event_log@.take(i as int), keep),
            decreases self.event_log.len() - i,
        {
            let ghost prev = events@;
            let e = &self.event_log[i];
            if binary64::less_than(threshold, e.severity) {
                events.push(e);
                proof {
                    assert(ref_views(events@) =~= ref_views(prev).push(e@));
                }
            }
            proof {
                assert(self.event_log@.take(i + 1).drop_last() =~= self.event_log@.take(i as int));
            }
            i = i + 1;
        }
        proof {
            assert(self.event_log@.take(self.event_log@.len() as int) =~= self.event_log@);
        }
        events
    }

    /// Number of events in the log.
    pub fn event_count(&self) -> (n: usize)
        ensures
            n == self.event_log@.len(),
    {
        self.event_log.len()
    }

    /// Number of registered rooms.
    pub fn room_count(&self) -> (n: usize)
        ensures
            n == self.rooms@.len(),
    {
        self.rooms.len()
    }

    /// Number of registered subscribers.
    pub fn subscriber_count(&self) -> (n: usize)
        ensures
            n == self.subscribers@.len(),
    {
        self.subscribers.len()
    }

    /// Clear the event log.
    pub fn clear_log(&mut self)
        ensures
            final(self).event_log@.len() == 0,
            final(self).rooms == old(self).rooms,
            final(self).subscribers == old(self).subscribers,
            final(self).max_log_size == old(self).max_log_size,
            final(self).routing == old(self).routing,
    {
        self.event_log.clear();
    }
}

/// The kinds after subscribing to `k`: unchanged when already present,
/// otherwise `k` appended.
pub open spec fn with_kind(kinds: Seq<KindView>, k: KindView) -> Seq<KindView> {
    if kinds.contains(k) {
        kinds
    } else {
        kinds.push(k)
    }
}

/// The rooms after registering `room`: unchanged when already present,
/// otherwise `room` appended.
pub open spec fn with_room(rooms: Seq<Seq<char>>, room: Seq<char>) -> Seq<Seq<char>> {
    if rooms.contains(room) {
        rooms
    } else {
        rooms.push(room)
    }
}

/// Subscribing twice to a kind is the same as subscribing once.
pub proof fn law_subscribe_idempotent(kinds: Seq<KindView>, k: KindView)
    ensures
        with_kind(with_kind(kinds, k), k) == with_kind(kinds, k),
{
    if !kinds.contains(k) {
        assert(kinds.push(k)[kinds.len() as int] == k);
    }
}

/// Registering a room twice is the same as registering it once.
pub proof fn law_register_room_idempotent(rooms: Seq<Seq<char>>, room: Seq<char>)
    ensures
        with_room(with_room(rooms, room), room) == with_room(rooms, room),
{
    if !rooms.contains(room) {
        assert(rooms.push(room)[rooms.len() as int] == room);
    }
}

/// A subscriber with no subscriptions and no room filter receives every
/// event.
pub proof fn law_wildcard_subscriber(s: Subscriber, e: EventView)
    requires
        s.subscriptions@.len() == 0,
        s.room_filter is None,
    ensures
        s.accepts(e),
{
}

/// A subscriber with a room filter receives no event from another room.
pub proof fn law_room_filter(s: Subscriber, e: EventView)
    requires
        s.filter_view() is Some,
        s.filter_view() != Some(e.source_room),
    ensures
        !s.accepts(e),
{
}

/// Emitting keeps the log within its bound: a log of at most `max` events
/// stays so, and the newest event is the one emitted (when `max > 0`).
pub proof fn law_log_bounded(log: Seq<EventView>, e: EventView, max: usize)
    requires
        log.len() <= max,
    ensures
        appended_log(log, e, max).len() <= max,
        max > 0 ==> appended_log(log, e, max).len() > 0 && appended_log(log, e, max).last() == e,
        max > 0 && log.len() < max ==> appended_log(log, e, max) == log.push(e),
        log.len() == max ==> appended_log(log, e, max) == log.push(e).drop_first(),
{
}

impl Default for NervousSystem {
    fn default() -> (ns: Self)
        ensures
            ns.rooms@.len() == 0,
            ns.subscribers@.len() == 0,
            ns.event_log@.len() == 0,
            ns.routing@.len() == 0,
            ns.max_log_size == DEFAULT_MAX_LOG_SIZE,
    {
        NervousSystem::new()
    }
}

/// A subscriber accepts an event exactly when it has no subscriptions or
/// one of its subscriptions is the event's kind (a custom kind only by the
/// same name), and it has no room filter or the filter names the event's
/// room.
pub proof fn law_subscriber_accepts(s: Subscriber, e: EventView)
    ensures
        s.accepts(e) <==> ((s.subscriptions@.len() == 0 || exists|j: int|
            0 <= j < s.subscriptions@.len() && #[trigger] s.subscriptions@[j]@ == e.kind) && (
        s.room_filter matches Some(r) ==> r@ == e.source_room)),
{
    let kinds = kind_views(s.subscriptions@);
    if kinds.contains(e.kind) {
        let j = choose|j: int| 0 <= j < kinds.len() && kinds[j] == e.kind;
        assert(s.subscriptions@[j]@ == e.kind);
    }
    if exists|j: int| 0 <= j < s.subscriptions@.len() && #[trigger] s.subscriptions@[j]@ == e.kind {
        let j = choose|j: int| 0 <= j < s.subscriptions@.len() && #[trigger] s.subscriptions@[j]@ == e.kind;
        assert(kinds[j] == e.kind);
    }
}

/// Subscribing to `k` keeps the earlier subscriptions in order, adds at
/// most one entry, and leaves `k` subscribed exactly once more than
/// nothing: the set of kinds gains `k` and nothing else.
pub proof fn law_subscribe_adds(kinds: Seq<KindView>, k: KindView)
    ensures
        with_kind(kinds, k).to_set() == kinds.to_set().insert(k),
        with_kind(kinds, k).take(kinds.len() as int) == kinds,
        with_kind(kinds, k).len() <= kinds.len() + 1,
        kinds.contains(k) ==> with_kind(kinds, k).len() == kinds.len(),
{
    let r = with_kind(kinds, k);
    assert forall|x: KindView| r.to_set().contains(x) <==> kinds.to_set().insert(k).contains(x) by {
        if !kinds.contains(k) {
            if r.contains(x) {
                let i = choose|i: int| 0 <= i < r.len() && r[i] == x;
                if i < kinds.len() {
                    assert(kinds[i] == x);
                }
            }
            if kinds.contains(x) {
                let i = choose|i: int| 0 <= i < kinds.len() && kinds[i] == x;
                assert(r[i] == x);
            }
            assert(r[kinds.len() as int] == k);
        }
    }
    assert(r.to_set() =~= kinds.to_set().insert(k));
    assert(r.take(kinds.len() as int) =~= kinds);
}

/// Registering `room` keeps the earlier rooms in order, and the set of
/// rooms gains `room` and nothing else.
pub proof fn law_register_room_adds(rooms: Seq<Seq<char>>, room: Seq<char>)
    ensures
        with_room(rooms, room).to_set() == rooms.to_set().insert(room),
        with_room(rooms, room).take(rooms.len() as int) == rooms,
        with_room(rooms, room).len() <= rooms.len() + 1,
        rooms.contains(room) ==> with_room(rooms, room).len() == rooms.len(),
{
    let r = with_room(rooms, room);
    assert forall|x: Seq<char>| r.to_set().contains(x) <==> rooms.to_set().insert(room).contains(x) by {
        if !rooms.contains(room) {
            if r.contains(x) {
                let i = choose|i: int| 0 <= i < r.len() && r[i] == x;
                if i < rooms.len() {
                    assert(rooms[i] == x);
                }
            }
            if rooms.contains(x) {
                let i = choose|i: int| 0 <= i < rooms.len() && rooms[i] == x;
                assert(r[i] == x);
            }
            assert(r[rooms.len() as int] == room);
        }
    }
    assert(r.to_set() =~= rooms.to_set().insert(room));
    assert(r.take(rooms.len() as int) =~= rooms);
}

/// The identifiers an event is routed to are exactly those of the
/// subscribers that accept it, at most one per subscriber.
pub proof fn law_routed_to_accepting(subs: Seq<Subscriber>, e: EventView, x: Seq<char>)
    ensures
        accepting_ids(subs, e).contains(x) <==> exists|i: int|
            0 <= i < subs.len() && (#[trigger] subs[i]).id@ == x && subs[i].accepts(e),
        accepting_ids(subs, e).len() <= subs.len(),
    decreases subs.len(),
{
    if subs.len() > 0 {
        law_routed_to_accepting(subs.drop_last(), e, x);
        let rest = accepting_ids(subs.drop_last(), e);
        let last = subs[subs.len() - 1];
        assert(subs.last() == last);
        if accepting_ids(subs, e).contains(x) {
            if rest.contains(x) {
                let i = choose|i: int|
                    0 <= i < subs.drop_last().len() && (#[trigger] subs.drop_last()[i]).id@ == x
                        && subs.drop_last()[i].accepts(e);
                assert(subs[i] == subs.drop_last()[i]);
            } else {
                let k = choose|k: int| 0 <= k < accepting_ids(subs, e).len() && accepting_ids(subs, e)[k] == x;
                if last.accepts(e) {
                    if k < rest.len() {
                        assert(rest.contains(x));
                    }
                } else {
                    assert(rest.contains(x));
                }
            }
        }
        if exists|i: int| 0 <= i < subs.len() && (#[trigger] subs[i]).id@ == x && subs[i].accepts(e) {
            let i = choose|i: int| 0 <= i < subs.len() && (#[trigger] subs[i]).id@ == x && subs[i].accepts(e);
            if i < subs.len() - 1 {
                assert(subs.drop_last()[i] == subs[i]);
                let k = choose|k: int| 0 <= k < rest.len() && rest[k] == x;
                if last.accepts(e) {
                    assert(rest.push(last.id@)[k] == x);
                }
            } else {
                assert(rest.push(last.id@)[rest.len() as int] == x);
            }
        }
    }
}

/// The queried events are exactly the logged events that satisfy the
/// query, in log order: the filter of the log.
pub proof fn law_events_where_filters(log: Seq<NervousEvent>, keep: spec_fn(EventView) -> bool)
    ensures
        events_where(log, keep) == event_views(log).filter(keep),
    decreases log.len(),
{
    reveal(Seq::filter);
    if log.len() > 0 {
        law_events_where_filters(log.drop_last(), keep);
        assert(event_views(log).drop_last() =~= event_views(log.drop_last()));
        assert(event_views(log).last() == log.last()@);
    }
}

} // verus!
