//! The counter ledger: counters keyed by scope and label, and the audit
//! record of every mutation event that moved them.
use vstd::prelude::*;
use crate::ranking::{indices_view, is_top_selection, keys_view, top_selection};

verus! {

/// Why an `apply` was refused. A refused `apply` changes nothing.
#[derive(Clone, Copy, Debug, PartialEq, Eq, Structural)]
pub enum LedgerError {
    /// The effect was neither +1 nor -1.
    InvalidEffect,
    /// The event id is already recorded for another scope, label or effect.
    EventConflict,
    /// The new value would not fit a signed 64-bit integer.
    ValueOutOfRange,
}

pub struct CounterModel {
    pub scope_id: Seq<char>,
    pub label: Seq<char>,
    pub value: int,
    pub created_at: int,
    pub updated_at: int,
}

pub struct EventModel {
    pub event_id: Seq<char>,
    pub scope_id: Seq<char>,
    pub channel_id: Seq<char>,
    pub author_id: Seq<char>,
    pub raw_text: Seq<char>,
    pub time_sent: int,
    pub label: Seq<char>,
    pub effect: int,
    pub counter_ref: int,
}

/// The contents of a ledger: counters in order of creation (a counter's
/// position is its identity) and mutation events.
pub struct LedgerModel {
    pub counters: Seq<CounterModel>,
    pub events: Seq<EventModel>,
}

/// One inbound mutation, as `apply` receives it.
pub struct DeliveryModel {
    pub scope_id: Seq<char>,
    pub channel_id: Seq<char>,
    pub author_id: Seq<char>,
    pub event_id: Seq<char>,
    pub raw_text: Seq<char>,
    pub label: Seq<char>,
    pub effect: int,
    pub time_sent: int,
}

/// How many rows a leaderboard shows unless told otherwise.
pub const DEFAULT_LIMIT: usize = 10;

/// A counter: a signed tally named by `label` within `scope_id`.
#[derive(Clone, Debug)]
pub struct Counter {
    pub scope_id: String,
    pub label: String,
    pub value: i64,
    pub created_at: u64,
    pub updated_at: u64,
}

impl View for Counter {
    type V = CounterModel;

    open spec fn view(&self) -> CounterModel {
        CounterModel {
            scope_id: self.scope_id@,
            label: self.label@,
            value: self.value as int,
            created_at: self.created_at as int,
            updated_at: self.updated_at as int,
        }
    }
}

/// The audit record of one applied mutation.
#[derive(Clone, Debug)]
pub struct MutationEvent {
    pub event_id: String,
    pub scope_id: String,
    pub channel_id: String,
    pub author_id: String,
    pub raw_text: String,
    pub time_sent: u64,
    pub label: String,
    pub effect: i64,
    pub counter_ref: usize,
}

impl View for MutationEvent {
    type V = EventModel;

    open spec fn view(&self) -> EventModel {
        EventModel {
            event_id: self.event_id@,
            scope_id: self.scope_id@,
            channel_id: self.channel_id@,
            author_id: self.author_id@,
            raw_text: self.raw_text@,
            time_sent: self.time_sent as int,
            label: self.label@,
            effect: self.effect as int,
            counter_ref: self.counter_ref as int,
        }
    }
}

pub open spec fn counter_matches(c: CounterModel, scope_id: Seq<char>, label: Seq<char>) -> bool {
    c.scope_id == scope_id && c.label == label
}

pub open spec fn has_counter(m: LedgerModel, scope_id: Seq<char>, label: Seq<char>) -> bool {
    exists|i: int|
        0 <= i < m.counters.len() && counter_matches(#[trigger] m.counters[i], scope_id, label)
}

/// The position of the counter named `label` in `scope_id`, where there is one.
pub open spec fn counter_index(m: LedgerModel, scope_id: Seq<char>, label: Seq<char>) -> int {
    choose|i: int|
        0 <= i < m.counters.len() && counter_matches(#[trigger] m.counters[i], scope_id, label)
}

/// The value of a counter; a counter that does not exist yet stands at 0.
pub open spec fn value_of(m: LedgerModel, scope_id: Seq<char>, label: Seq<char>) -> int {
    if has_counter(m, scope_id, label) {
        m.counters[counter_index(m, scope_id, label)].value
    } else {
        0
    }
}

pub open spec fn has_event(m: LedgerModel, event_id: Seq<char>) -> bool {
    exists|k: int| 0 <= k < m.events.len() && (#[trigger] m.events[k]).event_id == event_id
}

pub open spec fn event_index(m: LedgerModel, event_id: Seq<char>) -> int {
    choose|k: int| 0 <= k < m.events.len() && (#[trigger] m.events[k]).event_id == event_id
}

/// Counters are unique by scope and label, events by id, and every event
/// refers to the counter of its own scope and label.
pub open spec fn ledger_wf(m: LedgerModel) -> bool {
    &&& forall|i: int, j: int|
        0 <= i < m.counters.len() && 0 <= j < m.counters.len() && i != j ==> !counter_matches(
            #[trigger] m.counters[i],
            (#[trigger] m.counters[j]).scope_id,
            m.counters[j].label,
        )
    &&& forall|k: int, l: int|
        0 <= k < m.events.len() && 0 <= l < m.events.len() && k != l ==> (#[trigger] m.events[k]).event_id
            != (#[trigger] m.events[l]).event_id
    &&& forall|k: int|
        0 <= k < m.events.len() ==> {
            let e = #[trigger] m.events[k];
            &&& 0 <= e.counter_ref < m.counters.len()
            &&& counter_matches(m.counters[e.counter_ref], e.scope_id, e.label)
        }
    &&& forall|i: int|
        0 <= i < m.counters.len() ==> (#[trigger] m.counters[i]).created_at
            <= m.counters[i].updated_at
}

pub open spec fn event_row(d: DeliveryModel, counter_ref: int) -> EventModel {
    EventModel {
        event_id: d.event_id,
        scope_id: d.scope_id,
        channel_id: d.channel_id,
        author_id: d.author_id,
        raw_text: d.raw_text,
        time_sent: d.time_sent,
        label: d.label,
        effect: d.effect,
        counter_ref,
    }
}

pub open spec fn fits_i64(v: int) -> bool {
    i64::MIN <= v <= i64::MAX
}

pub open spec fn later(a: int, b: int) -> int {
    if a < b {
        b
    } else {
        a
    }
}

/// Ranking keys of the counters: their values.
pub open spec fn counter_keys(m: LedgerModel) -> Seq<int> {
    m.counters.map_values(|c: CounterModel| c.value)
}

pub open spec fn counters_in_scope(m: LedgerModel, scope_id: Seq<char>) -> Seq<bool> {
    m.counters.map_values(|c: CounterModel| c.scope_id == scope_id)
}

pub open spec fn counter_rows(m: LedgerModel, ids: Seq<int>) -> Seq<(Seq<char>, int)> {
    ids.map_values(|i: int| (m.counters[i].label, m.counters[i].value))
}

/// `rows` are the labels and values of the highest counters of `scope_id`,
/// at most `limit`, highest first; equal values in order of creation.
pub open spec fn is_top_counters(m: LedgerModel, scope_id: Seq<char>, limit: int, rows: Seq<(Seq<char>, int)>) -> bool {
    exists|ids: Seq<int>|
        is_top_selection(counter_keys(m), counters_in_scope(m, scope_id), limit, ids) && rows
            == #[trigger] counter_rows(m, ids)
}

/// The number of events of `author_id` in `scope_id` among `es`.
pub open spec fn events_by(es: Seq<EventModel>, scope_id: Seq<char>, author_id: Seq<char>) -> nat
    decreases es.len(),
{
    if es.len() == 0 {
        0
    } else {
        events_by(es.drop_last(), scope_id, author_id) + if es.last().scope_id == scope_id
            && es.last().author_id == author_id {
            1nat
        } else {
            0nat
        }
    }
}

/// Event `k` is the first in `scope_id` by its author.
pub open spec fn first_of_author(m: LedgerModel, scope_id: Seq<char>, k: int) -> bool {
    m.events[k].scope_id == scope_id && forall|j: int|
        0 <= j < k ==> !((#[trigger] m.events[j]).scope_id == scope_id && m.events[j].author_id
            == m.events[k].author_id)
}

/// Ranking keys of the events: how many events in `scope_id` their author has.
pub open spec fn author_keys(m: LedgerModel, scope_id: Seq<char>) -> Seq<int> {
    Seq::new(m.events.len(), |k: int| events_by(m.events, scope_id, m.events[k].author_id) as int)
}

/// An author is represented by their first event in the scope.
pub open spec fn authors_in_scope(m: LedgerModel, scope_id: Seq<char>) -> Seq<bool> {
    Seq::new(m.events.len(), |k: int| first_of_author(m, scope_id, k))
}

pub open spec fn author_rows(m: LedgerModel, scope_id: Seq<char>, ids: Seq<int>) -> Seq<(Seq<char>, int)> {
    ids.map_values(
        |k: int| (m.events[k].author_id, events_by(m.events, scope_id, m.events[k].author_id) as int),
    )
}

/// `rows` are the authors of `scope_id` with the most events and their
/// counts, at most `limit`, most first; equal counts in order of each
/// author's first event.
pub open spec fn is_top_authors(m: LedgerModel, scope_id: Seq<char>, limit: int, rows: Seq<(Seq<char>, int)>) -> bool {
    exists|ids: Seq<int>|
        is_top_selection(author_keys(m, scope_id), authors_in_scope(m, scope_id), limit, ids) && rows
            == #[trigger] author_rows(m, scope_id, ids)
}

pub open spec fn value_rows_view(r: Seq<(String, i64)>) -> Seq<(Seq<char>, int)> {
    r.map_values(|p: (String, i64)| (p.0@, p.1 as int))
}

pub open spec fn count_rows_view(r: Seq<(String, usize)>) -> Seq<(Seq<char>, int)> {
    r.map_values(|p: (String, usize)| (p.0@, p.1 as int))
}

/// What `apply` does with delivery `d` on ledger `m`: the ledger after it,
/// and the counter's new value or the reason for refusal.
///
/// A repeated event id with the same scope, label and effect replaces the
/// audit row and leaves the counter as it is; with anything else it is
/// refused. A new event moves the counter (creating it at the effect when it
/// is new) and records the event, both or neither.
pub open spec fn step(m: LedgerModel, d: DeliveryModel) -> (LedgerModel, Result<int, LedgerError>) {
    if d.effect != 1 && d.effect != -1 {
        (m, Err(LedgerError::InvalidEffect))
    } else if has_event(m, d.event_id) {
        let k = event_index(m, d.event_id);
        let e = m.events[k];
        if e.scope_id == d.scope_id && e.label == d.label && e.effect == d.effect {
            (
                LedgerModel { counters: m.counters, events: m.events.update(k, event_row(d, e.counter_ref)) },
                Ok(m.counters[e.counter_ref].value),
            )
        } else {
            (m, Err(LedgerError::EventConflict))
        }
    } else if has_counter(m, d.scope_id, d.label) {
        let i = counter_index(m, d.scope_id, d.label);
        let c = m.counters[i];
        let v = c.value + d.effect;
        if !fits_i64(v) {
            (m, Err(LedgerError::ValueOutOfRange))
        } else {
            (
                LedgerModel {
                    counters: m.counters.update(
                        i,
                        CounterModel { value: v, updated_at: later(c.updated_at, d.time_sent), ..c },
                    ),
                    events: m.events.push(event_row(d, i)),
                },
                Ok(v),
            )
        }
    } else {
        (
            LedgerModel {
                counters: m.counters.push(
                    CounterModel {
                        scope_id: d.scope_id,
                        label: d.label,
                        value: d.effect,
                        created_at: d.time_sent,
                        updated_at: d.time_sent,
                    },
                ),
                events: m.events.push(event_row(d, m.counters.len() as int)),
            },
            Ok(d.effect),
        )
    }
}

pub proof fn lemma_step_wf(m: LedgerModel, d: DeliveryModel)
    requires
        ledger_wf(m),
    ensures
        ledger_wf(step(m, d).0),
{
    let m2 = step(m, d).0;
    if d.effect != 1 && d.effect != -1 {
    } else if has_event(m, d.event_id) {
        let k = event_index(m, d.event_id);
        assert(m2.events[k].event_id == m.events[k].event_id);
        assert forall|a: int, b: int|
            0 <= a < m2.events.len() && 0 <= b < m2.events.len() && a != b implies (#[trigger] m2.events[a]).event_id
            != (#[trigger] m2.events[b]).event_id by {
            assert(m2.events[a].event_id == m.events[a].event_id);
            assert(m2.events[b].event_id == m.events[b].event_id);
        }
        assert forall|a: int| 0 <= a < m2.events.len() implies {
            let e = #[trigger] m2.events[a];
            &&& 0 <= e.counter_ref < m2.counters.len()
            &&& counter_matches(m2.counters[e.counter_ref], e.scope_id, e.label)
        } by {
            let _ = m.events[a];
        }
    } else if has_counter(m, d.scope_id, d.label) {
        let i = counter_index(m, d.scope_id, d.label);
        assert forall|a: int| 0 <= a < m2.events.len() implies {
            let e = #[trigger] m2.events[a];
            &&& 0 <= e.counter_ref < m2.counters.len()
            &&& counter_matches(m2.counters[e.counter_ref], e.scope_id, e.label)
        } by {
            if a < m.events.len() {
                let _ = m.events[a];
            }
        }
        assert forall|a: int, b: int|
            0 <= a < m2.counters.len() && 0 <= b < m2.counters.len() && a != b implies !counter_matches(
            #[trigger] m2.counters[a],
            (#[trigger] m2.counters[b]).scope_id,
            m2.counters[b].label,
        ) by {
            let _ = m.counters[a];
            let _ = m.counters[b];
        }
        assert forall|a: int, b: int|
            0 <= a < m2.events.len() && 0 <= b < m2.events.len() && a != b implies (#[trigger] m2.events[a]).event_id
            != (#[trigger] m2.events[b]).event_id by {
            if a < m.events.len() && b < m.events.len() {
                let _ = m.events[a];
                let _ = m.events[b];
            } else if a < m.events.len() {
                assert(m.events[a].event_id != d.event_id);
            } else {
                assert(m.events[b].event_id != d.event_id);
            }
        }
        assert forall|a: int| 0 <= a < m2.counters.len() implies (#[trigger] m2.counters[a]).created_at
            <= m2.counters[a].updated_at by {
            let _ = m.counters[a];
        }
    } else {
        let n = m.counters.len() as int;
        assert forall|a: int| 0 <= a < m2.events.len() implies {
            let e = #[trigger] m2.events[a];
            &&& 0 <= e.counter_ref < m2.counters.len()
            &&& counter_matches(m2.counters[e.counter_ref], e.scope_id, e.label)
        } by {
            if a < m.events.len() {
                let _ = m.events[a];
            }
        }
        assert forall|a: int, b: int|
            0 <= a < m2.counters.len() && 0 <= b < m2.counters.len() && a != b implies !counter_matches(
            #[trigger] m2.counters[a],
            (#[trigger] m2.counters[b]).scope_id,
            m2.counters[b].label,
        ) by {
            if a < n && b < n {
                let _ = m.counters[a];
                let _ = m.counters[b];
            } else if a < n {
                let _ = m.counters[a];
            } else {
                let _ = m.counters[b];
            }
        }
        assert forall|a: int, b: int|
            0 <= a < m2.events.len() && 0 <= b < m2.events.len() && a != b implies (#[trigger] m2.events[a]).event_id
            != (#[trigger] m2.events[b]).event_id by {
            if a < m.events.len() && b < m.events.len() {
                let _ = m.events[a];
                let _ = m.events[b];
            } else if a < m.events.len() {
                assert(m.events[a].event_id != d.event_id);
            } else {
                assert(m.events[b].event_id != d.event_id);
            }
        }
        assert forall|a: int| 0 <= a < m2.counters.len() implies (#[trigger] m2.counters[a]).created_at
            <= m2.counters[a].updated_at by {
            if a < n {
                let _ = m.counters[a];
            }
        }
    }
}

/// The ledger store: counters and the audit record of their mutations.
#[derive(Clone, Debug)]
pub struct Ledger {
    counters: Vec<Counter>,
    events: Vec<MutationEvent>,
}

impl View for Ledger {
    type V = LedgerModel;

    closed spec fn view(&self) -> LedgerModel {
        LedgerModel {
            counters: self.counters@.map_values(|c: Counter| c@),
            events: self.events@.map_values(|e: MutationEvent| e@),
        }
    }
}

impl Ledger {
    pub open spec fn wf(&self) -> bool {
        ledger_wf(self@)
    }

    /// An empty ledger.
    pub fn new() -> (r: Ledger)
        ensures
            r.wf(),
            r@.counters.len() == 0,
            r@.events.len() == 0,
    {
        let r = Ledger { counters: Vec::new(), events: Vec::new() };
        proof {
            assert(r@.counters =~= Seq::<CounterModel>::empty());
            assert(r@.events =~= Seq::<EventModel>::empty());
        }
        r
    }

    /// The current value of the counter of `label` in `scope_id`, if it exists.
    pub fn value(&self, scope_id: &str, label: &str) -> (r: Option<i64>)
        requires
            self.wf(),
        ensures
            match r {
                Some(v) => has_counter(self@, scope_id@, label@) && v as int == value_of(self@, scope_id@, label@),
                None => !has_counter(self@, scope_id@, label@),
            },
    {
        match self.find_counter(&scope_id.to_owned(), &label.to_owned()) {
            Some(i) => {
                proof {
                    assert(self@.counters[i as int] == self.counters@[i as int]@);
                }
                Some(self.counters[i].value)
            },
            None => None,
        }
    }

    /// The number of recorded mutation events.
    pub fn event_count(&self) -> (r: usize)
        ensures
            r == self@.events.len(),
    {
        self.events.len()
    }

    fn find_counter(&self, scope_id: &String, label: &String) -> (r: Option<usize>)
        requires
            self.wf(),
        ensures
            match r {
                Some(i) => i < self@.counters.len() && has_counter(self@, scope_id@, label@)
                    && i == counter_index(self@, scope_id@, label@),
                None => !has_counter(self@, scope_id@, label@),
            },
    {
        let mut i: usize = 0;
        while i < self.counters.len()
            invariant
                self.wf(),
                i <= self.counters@.len(),
                forall|j: int|
                    0 <= j < i ==> !counter_matches(#[trigger] self@.counters[j], scope_id@, label@),
            decreases self.counters@.len() - i,
        {
            if self.counters[i].scope_id == *scope_id && self.counters[i].label == *label {
                proof {
                    assert(self@.counters[i as int] == self.counters@[i as int]@);
                    assert(counter_matches(self@.counters[i as int], scope_id@, label@));
                    let c = counter_index(self@, scope_id@, label@);
                    assert(counter_matches(self@.counters[c], scope_id@, label@));
                    if c != i {
                        assert(!counter_matches(
                            self@.counters[c],
                            self@.counters[i as int].scope_id,
                            self@.counters[i as int].label,
                        ));
                    }
                }
                return Some(i);
            }
            proof {
                assert(self@.counters[i as int] == self.counters@[i as int]@);
                assert(!counter_matches(self@.counters[i as int], scope_id@, label@));
            }
            i = i + 1;
        }
        None
    }

    fn find_event(&self, event_id: &String) -> (r: Option<usize>)
        requires
            self.wf(),
        ensures
            match r {
                Some(k) => k < self@.events.len() && has_event(self@, event_id@) && k == event_index(
                    self@,
                    event_id@,
                ),
                None => !has_event(self@, event_id@),
            },
    {
        let mut k: usize = 0;
        while k < self.events.len()
            invariant
                self.wf(),
                k <= self.events@.len(),
                forall|j: int| 0 <= j < k ==> (#[trigger] self@.events[j]).event_id != event_id@,
            decreases self.events@.len() - k,
        {
            if self.events[k].event_id == *event_id {
                proof {
                    assert(self@.events[k as int] == self.events@[k as int]@);
                    assert(self@.events[k as int].event_id == event_id@);
                    let c = event_index(self@, event_id@);
                    assert(self@.events[c].event_id == event_id@);
                    if c != k {
                        assert(self@.events[c].event_id != self@.events[k as int].event_id);
                    }
                }
                return Some(k);
            }
            proof {
                assert(self@.events[k as int] == self.events@[k as int]@);
                assert(self@.events[k as int].event_id != event_id@);
            }
            k = k + 1;
        }
        None
    }

    /// Applies one mutation event as a single atomic change: the counter of
    /// `label` in `scope_id` moves by `effect` (it is created at `effect`
    /// when new) and the event is recorded under `event_id`. Returns the
    /// counter's new value. A repeated `event_id` with the same scope, label
    /// and effect does not move the counter again; see `step`.
    pub fn apply(
        &mut self,
        scope_id: &str,
        channel_id: &str,
        author_id: &str,
        event_id: &str,
        raw_text: &str,
        label: &str,
        effect: i64,
        time_sent: u64,
    ) -> (r: Result<i64, LedgerError>)
        requires
            old(self).wf(),
        ensures
            final(self).wf(),
            ({
                let d = DeliveryModel {
                    scope_id: scope_id@,
                    channel_id: channel_id@,
                    author_id: author_id@,
                    event_id: event_id@,
                    raw_text: raw_text@,
                    label: label@,
                    effect: effect as int,
                    time_sent: time_sent as int,
                };
                &&& final(self)@ == step(old(self)@, d).0
                &&& match r {
                    Ok(v) => step(old(self)@, d).1 == Ok::<int, LedgerError>(v as int),
                    Err(e) => step(old(self)@, d).1 == Err::<int, LedgerError>(e),
                }
            }),
            r is Err ==> final(self)@ == old(self)@,
    {
        let ghost d = DeliveryModel {
            scope_id: scope_id@,
            channel_id: channel_id@,
            author_id: author_id@,
            event_id: event_id@,
            raw_text: raw_text@,
            label: label@,
            effect: effect as int,
            time_sent: time_sent as int,
        };
        proof {
            lemma_step_wf(self@, d);
        }
        if effect != 1 && effect != -1 {
            return Err(LedgerError::InvalidEffect);
        }
        let scope = scope_id.to_owned();
        let name = label.to_owned();
        let id = event_id.to_owned();
        match self.find_event(&id) {
            Some(k) => {
                let same = self.events[k].scope_id == scope && self.events[k].label == name
                    && self.events[k].effect == effect;
                if !same {
                    return Err(LedgerError::EventConflict);
                }
                let counter_ref = self.events[k].counter_ref;
                proof {
                    assert(self@.events[k as int] == self.events@[k as int]@);
                }
                let value = self.counters[counter_ref].value;
                let row = MutationEvent {
                    event_id: id,
                    scope_id: scope,
                    channel_id: channel_id.to_owned(),
                    author_id: author_id.to_owned(),
                    raw_text: raw_text.to_owned(),
                    time_sent,
                    label: name,
                    effect,
                    counter_ref,
                };
                let ghost before = self@;
                self.events.set(k, row);
                proof {
                    assert(self@.events =~= before.events.update(k as int, event_row(d, counter_ref as int)));
                    assert(self@.counters =~= before.counters);
                }
                Ok(value)
            },
            None => {
                match self.find_counter(&scope, &name) {
                    Some(i) => {
                        let old_value = self.counters[i].value;
                        if (effect == 1 && old_value == i64::MAX) || (effect == -1 && old_value
                            == i64::MIN) {
                            return Err(LedgerError::ValueOutOfRange);
                        }
                        let value = old_value + effect;
                        let updated_at = if self.counters[i].updated_at < time_sent {
                            time_sent
                        } else {
                            self.counters[i].updated_at
                        };
                        let c = Counter {
                            scope_id: self.counters[i].scope_id.clone(),
                            label: self.counters[i].label.clone(),
                            value,
                            created_at: self.counters[i].created_at,
                            updated_at,
                        };
                        let row = MutationEvent {
                            event_id: id,
                            scope_id: scope,
                            channel_id: channel_id.to_owned(),
                            author_id: author_id.to_owned(),
                            raw_text: raw_text.to_owned(),
                            time_sent,
                            label: name,
                            effect,
                            counter_ref: i,
                        };
                        let ghost before = self@;
                        self.counters.set(i, c);
                        self.events.push(row);
                        proof {
                            let oc = before.counters[i as int];
                            assert(self@.counters =~= before.counters.update(
                                i as int,
                                CounterModel { value: value as int, updated_at: later(oc.updated_at, time_sent as int), ..oc },
                            ));
                            assert(self@.events =~= before.events.push(event_row(d, i as int)));
                        }
                        Ok(value)
                    },
                    None => {
                        let counter_ref = self.counters.len();
                        let c = Counter {
                            scope_id: scope.clone(),
                            label: name.clone(),
                            value: effect,
                            created_at: time_sent,
                            updated_at: time_sent,
                        };
                        let row = MutationEvent {
                            event_id: id,
                            scope_id: scope,
                            channel_id: channel_id.to_owned(),
                            author_id: author_id.to_owned(),
                            raw_text: raw_text.to_owned(),
                            time_sent,
                            label: name,
                            effect,
                            counter_ref,
                        };
                        let ghost before = self@;
                        self.counters.push(c);
                        self.events.push(row);
                        proof {
                            assert(self@.counters =~= before.counters.push(c@));
                            assert(self@.events =~= before.events.push(event_row(d, counter_ref as int)));
                        }
                        Ok(effect)
                    },
                }
            },
        }
    }

    /// The highest counters of `scope_id`, at most `limit`, as labels and
    /// values, highest first; counters of equal value in order of creation.
    pub fn top_counters(&self, scope_id: &str, limit: usize) -> (r: Vec<(String, i64)>)
        ensures
            is_top_counters(self@, scope_id@, limit as int, value_rows_view(r@)),
    {
        let scope = scope_id.to_owned();
        let mut keys: Vec<i128> = Vec::new();
        let mut eligible: Vec<bool> = Vec::new();
        let mut i: usize = 0;
        while i < self.counters.len()
            invariant
                i <= self.counters@.len(),
                keys@.len() == i,
                eligible@.len() == i,
                forall|t: int| 0 <= t < i ==> #[trigger] keys@[t] as int == counter_keys(self@)[t],
                forall|t: int| 0 <= t < i ==> #[trigger] eligible@[t] == counters_in_scope(self@, scope@)[t],
            decreases self.counters@.len() - i,
        {
            proof {
                assert(self@.counters[i as int] == self.counters@[i as int]@);
            }
            keys.push(self.counters[i].value as i128);
            eligible.push(self.counters[i].scope_id == scope);
            i = i + 1;
        }
        proof {
            assert(keys_view(keys@) =~= counter_keys(self@));
            assert(eligible@ =~= counters_in_scope(self@, scope@));
        }
        let ids = top_selection(&keys, &eligible, limit);
        proof {
            assert forall|q: int| 0 <= q < ids@.len() implies #[trigger] ids@[q] < self.counters@.len() by {
                assert(indices_view(ids@)[q] == ids@[q] as int);
            }
        }
        let mut rows: Vec<(String, i64)> = Vec::new();
        let mut t: usize = 0;
        while t < ids.len()
            invariant
                t <= ids@.len(),
                rows@.len() == t,
                forall|q: int| 0 <= q < ids@.len() ==> #[trigger] ids@[q] < self.counters@.len(),
                forall|q: int|
                    0 <= q < t ==> (#[trigger] rows@[q]).0@ == counter_rows(self@, indices_view(ids@))[q].0
                        && rows@[q].1 as int == counter_rows(self@, indices_view(ids@))[q].1,
            decreases ids@.len() - t,
        {
            let c = ids[t];
            proof {
                assert(indices_view(ids@)[t as int] == c as int);
                assert(self@.counters[c as int] == self.counters@[c as int]@);
            }
            rows.push((self.counters[c].label.clone(), self.counters[c].value));
            t = t + 1;
        }
        proof {
            assert(value_rows_view(rows@) =~= counter_rows(self@, indices_view(ids@)));
        }
        rows
    }

    fn count_events_by(&self, scope_id: &String, author_id: &String) -> (r: usize)
        ensures
            r == events_by(self@.events, scope_id@, author_id@),
    {
        let mut count: usize = 0;
        let mut j: usize = 0;
        while j < self.events.len()
            invariant
                j <= self.events@.len(),
                count <= j,
                count == events_by(self@.events.subrange(0, j as int), scope_id@, author_id@),
            decreases self.events@.len() - j,
        {
            proof {
                assert(self@.events.subrange(0, j + 1).drop_last() =~= self@.events.subrange(0, j as int));
                assert(self@.events[j as int] == self.events@[j as int]@);
            }
            if self.events[j].scope_id == *scope_id && self.events[j].author_id == *author_id {
                count = count + 1;
            }
            j = j + 1;
        }
        proof {
            assert(self@.events.subrange(0, j as int) =~= self@.events);
        }
        count
    }

    fn is_first_of_author(&self, scope_id: &String, k: usize) -> (r: bool)
        requires
            k < self@.events.len(),
        ensures
            r == first_of_author(self@, scope_id@, k as int),
    {
        proof {
            assert(self@.events[k as int] == self.events@[k as int]@);
        }
        if self.events[k].scope_id != *scope_id {
            return false;
        }
        let mut j: usize = 0;
        while j < k
            invariant
                j <= k,
                k < self@.events.len(),
                forall|q: int|
                    0 <= q < j ==> !((#[trigger] self@.events[q]).scope_id == scope_id@
                        && self@.events[q].author_id == self@.events[k as int].author_id),
            decreases k - j,
        {
            proof {
                assert(self@.events[j as int] == self.events@[j as int]@);
                assert(self@.events[k as int] == self.events@[k as int]@);
            }
            if self.events[j].scope_id == *scope_id && self.events[j].author_id == self.events[k].author_id {
                return false;
            }
            j = j + 1;
        }
        true
    }

    /// The authors of `scope_id` with the most mutation events, at most
    /// `limit`, with their counts, most first; equal counts in order of
    /// each author's first event.
    pub fn top_authors(&self, scope_id: &str, limit: usize) -> (r: Vec<(String, usize)>)
        ensures
            is_top_authors(self@, scope_id@, limit as int, count_rows_view(r@)),
    {
        let scope = scope_id.to_owned();
        let mut keys: Vec<i128> = Vec::new();
        let mut counts: Vec<usize> = Vec::new();
        let mut eligible: Vec<bool> = Vec::new();
        let mut k: usize = 0;
        while k < self.events.len()
            invariant
                k <= self.events@.len(),
                keys@.len() == k,
                counts@.len() == k,
                eligible@.len() == k,
                forall|t: int| 0 <= t < k ==> #[trigger] counts@[t] as int == author_keys(self@, scope@)[t],
                forall|t: int| 0 <= t < k ==> #[trigger] keys@[t] as int == author_keys(self@, scope@)[t],
                forall|t: int| 0 <= t < k ==> #[trigger] eligible@[t] == authors_in_scope(self@, scope@)[t],
            decreases self.events@.len() - k,
        {
            proof {
                assert(self@.events[k as int] == self.events@[k as int]@);
            }
            let n = self.count_events_by(&scope, &self.events[k].author_id);
            keys.push(n as i128);
            counts.push(n);
            eligible.push(self.is_first_of_author(&scope, k));
            k = k + 1;
        }
        proof {
            assert(keys_view(keys@) =~= author_keys(self@, scope@));
            assert(eligible@ =~= authors_in_scope(self@, scope@));
        }
        let ids = top_selection(&keys, &eligible, limit);
        proof {
            assert forall|q: int| 0 <= q < ids@.len() implies #[trigger] ids@[q] < self.events@.len() by {
                assert(indices_view(ids@)[q] == ids@[q] as int);
            }
        }
        let mut rows: Vec<(String, usize)> = Vec::new();
        let mut t: usize = 0;
        while t < ids.len()
            invariant
                t <= ids@.len(),
                rows@.len() == t,
                counts@.len() == self@.events.len(),
                forall|q: int| 0 <= q < counts@.len() ==> #[trigger] counts@[q] as int == author_keys(self@, scope@)[q],
                forall|q: int| 0 <= q < ids@.len() ==> #[trigger] ids@[q] < self.events@.len(),
                forall|q: int|
                    0 <= q < t ==> (#[trigger] rows@[q]).0@ == author_rows(self@, scope@, indices_view(ids@))[q].0
                        && rows@[q].1 as int == author_rows(self@, scope@, indices_view(ids@))[q].1,
            decreases ids@.len() - t,
        {
            let e = ids[t];
            proof {
                assert(indices_view(ids@)[t as int] == e as int);
                assert(self@.events[e as int] == self.events@[e as int]@);
            }
            rows.push((self.events[e].author_id.clone(), counts[e]));
            t = t + 1;
        }
        proof {
            assert(count_rows_view(rows@) =~= author_rows(self@, scope@, indices_view(ids@)));
        }
        rows
    }
}

} // verus!
