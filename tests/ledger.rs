use incydecy::ledger::{Ledger, LedgerError, DEFAULT_LIMIT};

fn apply(l: &mut Ledger, scope: &str, event: &str, label: &str, effect: i64) -> Result<i64, LedgerError> {
    l.apply(scope, "C1", "U1", event, &format!("{label}++"), label, effect, 100)
}

#[test]
fn end_to_end_scope_g1() {
    let mut l = Ledger::new();
    assert_eq!(apply(&mut l, "G1", "m1", "a", 1), Ok(1));
    assert_eq!(apply(&mut l, "G1", "m2", "a", 1), Ok(2));
    assert_eq!(l.top_counters("G1", DEFAULT_LIMIT), vec![("a".to_string(), 2)]);
}

#[test]
fn redelivery_is_not_double_counted() {
    let mut l = Ledger::new();
    assert_eq!(apply(&mut l, "G1", "m1", "a", 1), Ok(1));
    assert_eq!(apply(&mut l, "G1", "m1", "a", 1), Ok(1));
    assert_eq!(l.value("G1", "a"), Some(1));
    assert_eq!(l.event_count(), 1);
}

#[test]
fn increments_less_decrements() {
    let mut l = Ledger::new();
    let mut n = 0;
    for i in 0..7 {
        apply(&mut l, "G1", &format!("i{i}"), "x", 1).unwrap();
        apply(&mut l, "G1", &format!("o{i}"), "other", -1).unwrap();
        if i % 2 == 0 {
            apply(&mut l, "G1", &format!("d{i}"), "x", -1).unwrap();
        }
        n += 1;
    }
    assert_eq!(n, 7);
    assert_eq!(l.value("G1", "x"), Some(7 - 4));
    assert_eq!(l.value("G1", "other"), Some(-7));
}

#[test]
fn conflicting_event_changes_nothing() {
    let mut l = Ledger::new();
    assert_eq!(apply(&mut l, "G1", "m1", "a", 1), Ok(1));
    assert_eq!(apply(&mut l, "G1", "m1", "b", 1), Err(LedgerError::EventConflict));
    assert_eq!(apply(&mut l, "G1", "m1", "a", -1), Err(LedgerError::EventConflict));
    assert_eq!(l.value("G1", "a"), Some(1));
    assert_eq!(l.value("G1", "b"), None);
    assert_eq!(l.event_count(), 1);
}

#[test]
fn invalid_effect_is_refused() {
    let mut l = Ledger::new();
    assert_eq!(apply(&mut l, "G1", "m1", "a", 2), Err(LedgerError::InvalidEffect));
    assert_eq!(apply(&mut l, "G1", "m2", "a", 0), Err(LedgerError::InvalidEffect));
    assert_eq!(l.value("G1", "a"), None);
    assert_eq!(l.event_count(), 0);
}

#[test]
fn scopes_are_separate() {
    let mut l = Ledger::new();
    assert_eq!(apply(&mut l, "G1", "m1", "a", 1), Ok(1));
    assert_eq!(apply(&mut l, "G2", "m2", "a", 1), Ok(1));
    assert_eq!(l.value("G1", "a"), Some(1));
    assert_eq!(l.value("G2", "a"), Some(1));
}

#[test]
fn top_counters_is_bounded_and_scoped() {
    let mut l = Ledger::new();
    apply(&mut l, "G1", "m1", "low", -1).unwrap();
    apply(&mut l, "G1", "m2", "mid", 1).unwrap();
    apply(&mut l, "G1", "m3", "high", 1).unwrap();
    apply(&mut l, "G1", "m4", "high", 1).unwrap();
    apply(&mut l, "G2", "m5", "elsewhere", 1).unwrap();
    apply(&mut l, "G2", "m6", "elsewhere", 1).unwrap();
    apply(&mut l, "G2", "m7", "elsewhere", 1).unwrap();
    assert_eq!(
        l.top_counters("G1", 2),
        vec![("high".to_string(), 2), ("mid".to_string(), 1)]
    );
    assert_eq!(
        l.top_counters("G1", 10),
        vec![("high".to_string(), 2), ("mid".to_string(), 1), ("low".to_string(), -1)]
    );
    assert_eq!(l.top_counters("G1", 0), vec![]);
    assert_eq!(l.top_counters("G3", 10), vec![]);
}

#[test]
fn equal_values_keep_creation_order() {
    let mut l = Ledger::new();
    apply(&mut l, "G1", "m1", "b", 1).unwrap();
    apply(&mut l, "G1", "m2", "a", 1).unwrap();
    apply(&mut l, "G1", "m3", "c", 1).unwrap();
    assert_eq!(
        l.top_counters("G1", 10),
        vec![("b".to_string(), 1), ("a".to_string(), 1), ("c".to_string(), 1)]
    );
}

#[test]
fn top_authors_counts_events_per_author() {
    let mut l = Ledger::new();
    l.apply("G1", "C1", "u1", "m1", "a++", "a", 1, 1).unwrap();
    l.apply("G1", "C1", "u2", "m2", "a++", "a", 1, 2).unwrap();
    l.apply("G1", "C1", "u2", "m3", "b--", "b", -1, 3).unwrap();
    l.apply("G1", "C1", "u3", "m4", "a++", "a", 1, 4).unwrap();
    l.apply("G2", "C9", "u1", "m5", "a++", "a", 1, 5).unwrap();
    l.apply("G2", "C9", "u1", "m6", "a++", "a", 1, 6).unwrap();
    assert_eq!(
        l.top_authors("G1", 10),
        vec![("u2".to_string(), 2), ("u1".to_string(), 1), ("u3".to_string(), 1)]
    );
    assert_eq!(l.top_authors("G1", 1), vec![("u2".to_string(), 2)]);
    assert_eq!(l.top_authors("G2", 10), vec![("u1".to_string(), 2)]);
    assert_eq!(l.top_authors("G3", 10), vec![]);
}
