//! Tests of the time-stepped input session and its ordering discipline.

use incremental_join::collection::Collection;
use incremental_join::consolidate::consolidate;
use incremental_join::join::join;
use incremental_join::session::{Error, InputSession};
use incremental_join::update::{Pair, Update};

fn upd(parent: usize, child: usize, time: usize, diff: i64) -> Update<Pair> {
    Update { rec: (parent, child), time, diff }
}

#[test]
fn flush_tags_updates_with_staging_time() {
    let mut session = InputSession::new();
    let mut target: Collection<Pair> = Collection::new();
    session.insert((3, 4));
    session.advance_to(7, &mut target).unwrap();
    session.remove((3, 4));
    session.advance_to(7, &mut target).unwrap();
    // the first batch carries time 0, the second the already-advanced time 7;
    // advancing to the unchanged current time is a valid no-op flush
    assert_eq!(target.updates, vec![upd(3, 4, 0, 1), upd(3, 4, 7, -1)]);
    assert_eq!(session.time, 7);
    assert_eq!(session.pending.len(), 0);
}

#[test]
fn advance_to_earlier_time_is_rejected() {
    let mut session = InputSession::new();
    let mut target: Collection<Pair> = Collection::new();
    session.advance_to(5, &mut target).unwrap();
    session.insert((1, 2));
    let result = session.advance_to(3, &mut target);
    assert_eq!(result, Err(Error::OrderingViolation));
    // the failed advance leaves the session and the target untouched:
    // no partial batch is ever flushed
    assert_eq!(session.time, 5);
    assert_eq!(session.pending, vec![upd(1, 2, 5, 1)]);
    assert_eq!(target.updates.len(), 0);
    // the session is still usable at a valid time
    session.advance_to(5, &mut target).unwrap();
    assert_eq!(target.updates, vec![upd(1, 2, 5, 1)]);
}

#[test]
fn insert_then_remove_before_advance_yields_empty_output() {
    let mut session = InputSession::new();
    let mut base: Collection<Pair> = Collection::new();
    session.insert((0, 0));
    session.remove((0, 0));
    session.advance_to(1, &mut base).unwrap();
    assert_eq!(base.updates, vec![upd(0, 0, 0, 1), upd(0, 0, 0, -1)]);
    // the staged pair cancels: after the self-join and consolidation the
    // change stream for that time is empty
    let mapped = Collection {
        updates: base.updates.iter().map(|u| Update {
            rec: (u.rec.1, u.rec.0),
            time: u.time,
            diff: u.diff,
        }).collect(),
    };
    let out = consolidate(join(&mapped, &base).updates);
    assert_eq!(out.len(), 0);
}
