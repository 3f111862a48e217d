//! Laws that relate the classifier's and the ledger's operations.
use vstd::prelude::*;
use vstd::utf8::*;
use crate::classify::{accepts, accepts_with, MAX_TEXT_BYTES, MIN_TEXT_CHARS};
use crate::ledger::{
    counter_index, counter_matches, event_index, fits_i64, has_counter, has_event, ledger_wf,
    lemma_step_wf, step, value_of, events_by, DeliveryModel, LedgerError, LedgerModel, is_top_counters,
    counter_keys, counters_in_scope, counter_rows, is_top_authors, author_keys, authors_in_scope,
    author_rows,
};
use crate::ranking::{is_top_selection, ranks_before};

verus! {

/// A text of fewer than `MIN_TEXT_CHARS` characters, or of `MAX_TEXT_BYTES`
/// bytes or more, is never a mutation, whatever the emoji policy says.
pub proof fn law_out_of_bounds_text_is_not_a_mutation(s: Seq<char>)
    requires
        s.len() < MIN_TEXT_CHARS || encode_utf8(s).len() >= MAX_TEXT_BYTES,
    ensures
        forall|emoji_ok: bool| !accepts_with(s, emoji_ok),
        !accepts(s),
{
}

/// A text that does not end in `++` or `--` is never a mutation.
pub proof fn law_text_without_operator_is_not_a_mutation(s: Seq<char>)
    requires
        !(s.len() >= 2 && s[s.len() - 2] == '+' && s[s.len() - 1] == '+'),
        !(s.len() >= 2 && s[s.len() - 2] == '-' && s[s.len() - 1] == '-'),
    ensures
        forall|emoji_ok: bool| !accepts_with(s, emoji_ok),
        !accepts(s),
{
}

/// A refused `apply` leaves the whole ledger as it was: no counter moves
/// without its audit record, and no record is kept without its counter move.
pub proof fn law_refused_apply_changes_nothing(m: LedgerModel, d: DeliveryModel)
    requires
        step(m, d).1 is Err,
    ensures
        step(m, d).0 == m,
{
}

/// A counter found at position `i` is the one that `counter_index` names.
pub proof fn lemma_counter_index_at(m: LedgerModel, scope_id: Seq<char>, label: Seq<char>, i: int)
    requires
        ledger_wf(m),
        0 <= i < m.counters.len(),
        counter_matches(m.counters[i], scope_id, label),
    ensures
        has_counter(m, scope_id, label),
        counter_index(m, scope_id, label) == i,
        value_of(m, scope_id, label) == m.counters[i].value,
{
    let c = counter_index(m, scope_id, label);
    if c != i {
        assert(!counter_matches(m.counters[c], m.counters[i].scope_id, m.counters[i].label));
    }
}

/// An event found at position `k` is the one that `event_index` names.
pub proof fn lemma_event_index_at(m: LedgerModel, event_id: Seq<char>, k: int)
    requires
        ledger_wf(m),
        0 <= k < m.events.len(),
        m.events[k].event_id == event_id,
    ensures
        has_event(m, event_id),
        event_index(m, event_id) == k,
{
    let c = event_index(m, event_id);
    if c != k {
        assert(m.events[c].event_id != m.events[k].event_id);
    }
}

/// After a successful `apply`, the event is recorded, and refers to the
/// counter of its scope and label, whose value is the one returned.
proof fn lemma_applied_event_recorded(m: LedgerModel, d: DeliveryModel)
    requires
        ledger_wf(m),
        step(m, d).1 is Ok,
    ensures
        has_event(step(m, d).0, d.event_id),
        ({
            let m1 = step(m, d).0;
            let e = m1.events[event_index(m1, d.event_id)];
            &&& e.scope_id == d.scope_id
            &&& e.label == d.label
            &&& e.effect == d.effect
            &&& step(m, d).1 == Ok::<int, LedgerError>(m1.counters[e.counter_ref].value)
        }),
{
    lemma_step_wf(m, d);
    let m1 = step(m, d).0;
    if has_event(m, d.event_id) {
        let k = event_index(m, d.event_id);
        lemma_event_index_at(m1, d.event_id, k);
    } else {
        lemma_event_index_at(m1, d.event_id, m.events.len() as int);
    }
}

/// Delivering the same event a second time reports the value that the
/// first delivery returned and leaves every counter where the first
/// delivery put it: the effect is not applied twice.
pub proof fn law_redelivery_is_idempotent(m: LedgerModel, d: DeliveryModel)
    requires
        ledger_wf(m),
        step(m, d).1 is Ok,
    ensures
        step(step(m, d).0, d).1 == step(m, d).1,
        step(step(m, d).0, d).0.counters == step(m, d).0.counters,
        value_of(step(step(m, d).0, d).0, d.scope_id, d.label) == value_of(
            step(m, d).0,
            d.scope_id,
            d.label,
        ),
{
    lemma_applied_event_recorded(m, d);
    let m1 = step(m, d).0;
    lemma_step_wf(m, d);
    lemma_step_wf(m1, d);
    let m2 = step(m1, d).0;
    assert(m2.counters == m1.counters);
    if has_counter(m1, d.scope_id, d.label) {
        let i = counter_index(m1, d.scope_id, d.label);
        lemma_counter_index_at(m2, d.scope_id, d.label, i);
    } else {
        assert(!has_counter(m2, d.scope_id, d.label)) by {
            if has_counter(m2, d.scope_id, d.label) {
                let i = counter_index(m2, d.scope_id, d.label);
                assert(m1.counters[i] == m2.counters[i]);
            }
        }
    }
}

/// The ledger after the deliveries `ds`, one after another.
pub open spec fn run(m: LedgerModel, ds: Seq<DeliveryModel>) -> LedgerModel
    decreases ds.len(),
{
    if ds.len() == 0 {
        m
    } else {
        step(run(m, ds.drop_last()), ds.last()).0
    }
}

/// The sum of the effects of the deliveries in `ds` to the counter of
/// `label` in `scope_id`: the increments less the decrements.
pub open spec fn net_effect(ds: Seq<DeliveryModel>, scope_id: Seq<char>, label: Seq<char>) -> int
    decreases ds.len(),
{
    if ds.len() == 0 {
        0
    } else {
        net_effect(ds.drop_last(), scope_id, label) + if ds.last().scope_id == scope_id
            && ds.last().label == label {
            ds.last().effect
        } else {
            0
        }
    }
}

proof fn lemma_step_events(m: LedgerModel, d: DeliveryModel, id: Seq<char>)
    requires
        has_event(step(m, d).0, id),
    ensures
        has_event(m, id) || id == d.event_id,
{
    let m1 = step(m, d).0;
    let k = choose|k: int| 0 <= k < m1.events.len() && (#[trigger] m1.events[k]).event_id == id;
    if k < m.events.len() && m1.events[k].event_id == m.events[k].event_id {
        assert(m.events[k].event_id == id);
    }
}

/// How a step moves the value of one counter: by the effect when the step
/// is a fresh event for it, not at all when the event is for another counter.
proof fn lemma_step_value(m: LedgerModel, d: DeliveryModel, scope_id: Seq<char>, label: Seq<char>)
    requires
        ledger_wf(m),
        !has_event(m, d.event_id),
        d.effect == 1 || d.effect == -1,
    ensures
        (d.scope_id == scope_id && d.label == label && fits_i64(value_of(m, scope_id, label) + d.effect))
            ==> value_of(step(m, d).0, scope_id, label) == value_of(m, scope_id, label) + d.effect,
        !(d.scope_id == scope_id && d.label == label) ==> value_of(step(m, d).0, scope_id, label)
            == value_of(m, scope_id, label),
{
    lemma_step_wf(m, d);
    let m1 = step(m, d).0;
    let same = d.scope_id == scope_id && d.label == label;
    if has_counter(m, d.scope_id, d.label) {
        let j = counter_index(m, d.scope_id, d.label);
        if same {
            if fits_i64(m.counters[j].value + d.effect) {
                lemma_counter_index_at(m1, scope_id, label, j);
            }
        } else if m1 != m {
            if has_counter(m, scope_id, label) {
                let i = counter_index(m, scope_id, label);
                lemma_counter_index_at(m1, scope_id, label, i);
            } else {
                assert(!has_counter(m1, scope_id, label)) by {
                    if has_counter(m1, scope_id, label) {
                        let i = counter_index(m1, scope_id, label);
                        if i != j {
                            assert(m1.counters[i] == m.counters[i]);
                        }
                    }
                }
            }
        }
    } else {
        let n = m.counters.len() as int;
        if same {
            lemma_counter_index_at(m1, scope_id, label, n);
        } else if has_counter(m, scope_id, label) {
            let i = counter_index(m, scope_id, label);
            lemma_counter_index_at(m1, scope_id, label, i);
        } else {
            assert(!has_counter(m1, scope_id, label)) by {
                if has_counter(m1, scope_id, label) {
                    let i = counter_index(m1, scope_id, label);
                    if i != n {
                        assert(m1.counters[i] == m.counters[i]);
                    }
                }
            }
        }
    }
}

/// Starting from a counter that does not exist yet, any sequence of fresh
/// events (distinct ids, each +1 or -1), to it or to other counters in any
/// order, leaves it at its increments less its decrements; when the last
/// event is for it, that last `apply` returns exactly this value.
pub proof fn law_counter_is_net_of_effects(
    m: LedgerModel,
    ds: Seq<DeliveryModel>,
    scope_id: Seq<char>,
    label: Seq<char>,
)
    requires
        ledger_wf(m),
        !has_counter(m, scope_id, label),
        ds.len() <= i64::MAX,
        forall|i: int| 0 <= i < ds.len() ==> (#[trigger] ds[i]).effect == 1 || ds[i].effect == -1,
        forall|i: int| 0 <= i < ds.len() ==> !has_event(m, (#[trigger] ds[i]).event_id),
        forall|i: int, j: int|
            0 <= i < ds.len() && 0 <= j < ds.len() && i != j ==> (#[trigger] ds[i]).event_id
                != (#[trigger] ds[j]).event_id,
    ensures
        ledger_wf(run(m, ds)),
        value_of(run(m, ds), scope_id, label) == net_effect(ds, scope_id, label),
        (ds.len() > 0 && ds.last().scope_id == scope_id && ds.last().label == label) ==> step(
            run(m, ds.drop_last()),
            ds.last(),
        ).1 == Ok::<int, LedgerError>(net_effect(ds, scope_id, label)),
{
    lemma_net_effect_bound(m, ds, scope_id, label);
}

proof fn lemma_net_effect_bound(m: LedgerModel, ds: Seq<DeliveryModel>, scope_id: Seq<char>, label: Seq<char>)
    requires
        ledger_wf(m),
        !has_counter(m, scope_id, label),
        ds.len() <= i64::MAX,
        forall|i: int| 0 <= i < ds.len() ==> (#[trigger] ds[i]).effect == 1 || ds[i].effect == -1,
        forall|i: int| 0 <= i < ds.len() ==> !has_event(m, (#[trigger] ds[i]).event_id),
        forall|i: int, j: int|
            0 <= i < ds.len() && 0 <= j < ds.len() && i != j ==> (#[trigger] ds[i]).event_id
                != (#[trigger] ds[j]).event_id,
    ensures
        ledger_wf(run(m, ds)),
        value_of(run(m, ds), scope_id, label) == net_effect(ds, scope_id, label),
        (ds.len() > 0 && ds.last().scope_id == scope_id && ds.last().label == label) ==> step(
            run(m, ds.drop_last()),
            ds.last(),
        ).1 == Ok::<int, LedgerError>(net_effect(ds, scope_id, label)),
        -(ds.len() as int) <= net_effect(ds, scope_id, label) <= ds.len(),
        forall|id: Seq<char>|
            #[trigger] has_event(run(m, ds), id) ==> has_event(m, id) || exists|i: int|
                0 <= i < ds.len() && (#[trigger] ds[i]).event_id == id,
    decreases ds.len(),
{
    if ds.len() > 0 {
        let rest = ds.drop_last();
        let d = ds.last();
        assert forall|i: int| 0 <= i < rest.len() implies (#[trigger] rest[i]).effect == 1 || rest[i].effect == -1 by {
            assert(rest[i] == ds[i]);
        }
        assert forall|i: int| 0 <= i < rest.len() implies !has_event(m, (#[trigger] rest[i]).event_id) by {
            assert(rest[i] == ds[i]);
        }
        assert forall|i: int, j: int|
            0 <= i < rest.len() && 0 <= j < rest.len() && i != j implies (#[trigger] rest[i]).event_id
                != (#[trigger] rest[j]).event_id by {
            assert(rest[i] == ds[i]);
            assert(rest[j] == ds[j]);
        }
        lemma_net_effect_bound(m, rest, scope_id, label);
        let m1 = run(m, rest);
        assert(d == ds[ds.len() - 1]);
        assert(!has_event(m1, d.event_id)) by {
            if has_event(m1, d.event_id) {
                if !has_event(m, d.event_id) {
                    let i = choose|i: int| 0 <= i < rest.len() && (#[trigger] rest[i]).event_id == d.event_id;
                    assert(rest[i] == ds[i]);
                }
            }
        }
        lemma_step_wf(m1, d);
        lemma_step_value(m1, d, scope_id, label);
        if d.scope_id == scope_id && d.label == label {
            assert(fits_i64(value_of(m1, scope_id, label) + d.effect));
            if has_counter(m1, scope_id, label) {
                let i = counter_index(m1, scope_id, label);
                assert(step(m1, d).1 == Ok::<int, LedgerError>(m1.counters[i].value + d.effect));
            }
        }
        assert forall|id: Seq<char>| #[trigger] has_event(run(m, ds), id) implies has_event(m, id)
            || exists|i: int| 0 <= i < ds.len() && (#[trigger] ds[i]).event_id == id by {
            lemma_step_events(m1, d, id);
            if id == d.event_id {
                assert(ds[ds.len() - 1].event_id == id);
            } else if !has_event(m, id) {
                let i = choose|i: int| 0 <= i < rest.len() && (#[trigger] rest[i]).event_id == id;
                assert(rest[i] == ds[i]);
            }
        }
    }
}


/// `row` is the label and value of a counter of `scope_id`.
pub open spec fn is_counter_row(m: LedgerModel, scope_id: Seq<char>, row: (Seq<char>, int)) -> bool {
    exists|c: int|
        0 <= c < m.counters.len() && (#[trigger] m.counters[c]).scope_id == scope_id
            && m.counters[c].label == row.0 && m.counters[c].value == row.1
}

/// The leaderboard of a scope holds at most `limit` rows, and each row is
/// the label and value of a counter of that scope.
pub proof fn law_top_counters_bounded_and_scoped(
    m: LedgerModel,
    scope_id: Seq<char>,
    limit: int,
    rows: Seq<(Seq<char>, int)>,
)
    requires
        is_top_counters(m, scope_id, limit, rows),
    ensures
        rows.len() <= limit,
        forall|i: int| 0 <= i < rows.len() ==> is_counter_row(m, scope_id, #[trigger] rows[i]),
{
    let ids = choose|ids: Seq<int>|
        is_top_selection(counter_keys(m), counters_in_scope(m, scope_id), limit, ids) && rows
            == #[trigger] counter_rows(m, ids);
    assert forall|i: int| 0 <= i < rows.len() implies is_counter_row(m, scope_id, #[trigger] rows[i]) by {
        let c = ids[i];
        assert(counters_in_scope(m, scope_id)[c]);
        assert(rows[i] == (m.counters[c].label, m.counters[c].value));
        assert(0 <= c < m.counters.len() && m.counters[c].scope_id == scope_id
            && m.counters[c].label == rows[i].0 && m.counters[c].value == rows[i].1);
    }
}

/// A selection of the best-ranked entries is determined by the keys, the
/// eligible entries and the limit: two selections of the same are equal.
pub proof fn law_top_selection_is_unique(
    keys: Seq<int>,
    eligible: Seq<bool>,
    limit: int,
    a: Seq<int>,
    b: Seq<int>,
)
    requires
        is_top_selection(keys, eligible, limit, a),
        is_top_selection(keys, eligible, limit, b),
    ensures
        a == b,
{
    lemma_selections_agree(keys, eligible, limit, a, b);
    lemma_selections_agree(keys, eligible, limit, b, a);
    if a.len() < b.len() {
        lemma_selection_prefix_longer(keys, eligible, limit, a, b);
    } else if b.len() < a.len() {
        lemma_selection_prefix_longer(keys, eligible, limit, b, a);
    }
    assert(a =~= b);
}

/// Where `a` is the shorter, it stops short of `limit`, so `b` cannot hold
/// an eligible entry that `a` lacks.
proof fn lemma_selection_prefix_longer(keys: Seq<int>, eligible: Seq<bool>, limit: int, a: Seq<int>, b: Seq<int>)
    requires
        is_top_selection(keys, eligible, limit, a),
        is_top_selection(keys, eligible, limit, b),
        forall|i: int| 0 <= i < a.len() && i < b.len() ==> a[i] == b[i],
    ensures
        a.len() >= b.len(),
{
    if a.len() < b.len() {
    let c = b[a.len() as int];
    assert(0 <= c < keys.len() && eligible[c]);
    if a.contains(c) {
        let i = choose|i: int| 0 <= i < a.len() && a[i] == c;
        assert(ranks_before(keys, b[i], b[a.len() as int]));
    } else {
        assert(a.len() == limit);
    }
    }
}

/// Two selections agree on every position both have.
proof fn lemma_selections_agree(keys: Seq<int>, eligible: Seq<bool>, limit: int, a: Seq<int>, b: Seq<int>)
    requires
        is_top_selection(keys, eligible, limit, a),
        is_top_selection(keys, eligible, limit, b),
    ensures
        forall|i: int| 0 <= i < a.len() && i < b.len() ==> a[i] == b[i],
{
    assert forall|i: int| 0 <= i < a.len() && i < b.len() implies a[i] == b[i] by {
        lemma_selection_position(keys, eligible, limit, a, b, i);
    }
}

/// By induction on the position: the first position where two selections
/// differ would hold, in one of them, an entry that ranks before the other's.
proof fn lemma_selection_position(
    keys: Seq<int>,
    eligible: Seq<bool>,
    limit: int,
    a: Seq<int>,
    b: Seq<int>,
    i: int,
)
    requires
        is_top_selection(keys, eligible, limit, a),
        is_top_selection(keys, eligible, limit, b),
        0 <= i < a.len(),
        i < b.len(),
    ensures
        a[i] == b[i],
    decreases i,
{
    if i > 0 {
        lemma_selection_position(keys, eligible, limit, a, b, i - 1);
    }
    assert forall|j: int| 0 <= j < i implies a[j] == b[j] by {
        lemma_selection_position(keys, eligible, limit, a, b, j);
    }
    if a[i] != b[i] {
        if ranks_before(keys, a[i], b[i]) {
            lemma_misplaced(keys, eligible, limit, a, b, i);
        } else {
            assert(ranks_before(keys, b[i], a[i]));
            lemma_misplaced(keys, eligible, limit, b, a, i);
        }
    }
}

proof fn lemma_misplaced(keys: Seq<int>, eligible: Seq<bool>, limit: int, a: Seq<int>, b: Seq<int>, i: int)
    requires
        is_top_selection(keys, eligible, limit, a),
        is_top_selection(keys, eligible, limit, b),
        0 <= i < a.len(),
        i < b.len(),
        forall|j: int| 0 <= j < i ==> a[j] == b[j],
    ensures
        !ranks_before(keys, a[i], b[i]),
{
    if ranks_before(keys, a[i], b[i]) {
    let c = a[i];
    if b.contains(c) {
        let j = choose|j: int| 0 <= j < b.len() && b[j] == c;
        if j < i {
            assert(a[j] == c);
            assert(ranks_before(keys, a[j], a[i]));
        } else if j > i {
            assert(ranks_before(keys, b[i], b[j]));
        }
    } else {
        assert(0 <= c < keys.len() && eligible[c]);
        assert(ranks_before(keys, b[i], c));
    }
    }
}


/// `apply` never deletes: counters keep their position, scope, label and
/// creation time, their update time never goes back, and no event is lost.
pub proof fn law_apply_keeps_history(m: LedgerModel, d: DeliveryModel)
    ensures
        step(m, d).0.counters.len() >= m.counters.len(),
        step(m, d).0.events.len() >= m.events.len(),
        forall|i: int|
            0 <= i < m.counters.len() ==> {
                let c = #[trigger] step(m, d).0.counters[i];
                &&& c.scope_id == m.counters[i].scope_id
                &&& c.label == m.counters[i].label
                &&& c.created_at == m.counters[i].created_at
                &&& c.updated_at >= m.counters[i].updated_at
            },
        forall|k: int|
            0 <= k < m.events.len() ==> (#[trigger] step(m, d).0.events[k]).event_id == m.events[k].event_id,
{
}

/// `row` is an author of `scope_id` with the number of their events there.
pub open spec fn is_author_row(m: LedgerModel, scope_id: Seq<char>, row: (Seq<char>, int)) -> bool {
    exists|k: int|
        0 <= k < m.events.len() && (#[trigger] m.events[k]).scope_id == scope_id
            && m.events[k].author_id == row.0 && row.1 == events_by(m.events, scope_id, row.0) as int
}

/// The author leaderboard of a scope holds at most `limit` rows, each an
/// author with events in that scope, each author at most once.
pub proof fn law_top_authors_bounded_and_scoped(
    m: LedgerModel,
    scope_id: Seq<char>,
    limit: int,
    rows: Seq<(Seq<char>, int)>,
)
    requires
        is_top_authors(m, scope_id, limit, rows),
    ensures
        rows.len() <= limit,
        forall|i: int| 0 <= i < rows.len() ==> is_author_row(m, scope_id, #[trigger] rows[i]),
        forall|i: int, j: int| 0 <= i < j < rows.len() ==> (#[trigger] rows[i]).0 != (#[trigger] rows[j]).0,
{
    let ids = choose|ids: Seq<int>|
        is_top_selection(author_keys(m, scope_id), authors_in_scope(m, scope_id), limit, ids) && rows
            == #[trigger] author_rows(m, scope_id, ids);
    assert forall|i: int| 0 <= i < rows.len() implies is_author_row(m, scope_id, #[trigger] rows[i]) by {
        let k = ids[i];
        assert(authors_in_scope(m, scope_id)[k]);
        assert(rows[i] == (m.events[k].author_id, events_by(m.events, scope_id, m.events[k].author_id) as int));
    }
    assert forall|i: int, j: int| 0 <= i < j < rows.len() implies (#[trigger] rows[i]).0 != (#[trigger] rows[j]).0 by {
        let a = ids[i];
        let b = ids[j];
        assert(ranks_before(author_keys(m, scope_id), a, b));
        assert(authors_in_scope(m, scope_id)[a]);
        assert(authors_in_scope(m, scope_id)[b]);
        assert(rows[i].0 == m.events[a].author_id);
        assert(rows[j].0 == m.events[b].author_id);
        if a < b {
            assert(!(m.events[a].scope_id == scope_id && m.events[a].author_id == m.events[b].author_id));
        } else {
            assert(a != b);
            assert(!(m.events[b].scope_id == scope_id && m.events[b].author_id == m.events[a].author_id));
        }
    }
}

} // verus!
