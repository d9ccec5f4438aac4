//! End-to-end tests of the deterministic scenario pipeline.

use incremental_join::run;
use incremental_join::update::{Triple, Update};

fn upd(m: usize, g: usize, c: usize, time: usize, diff: i64) -> Update<Triple> {
    Update { rec: (m, (g, c)), time, diff }
}

#[test]
fn empty_scenario() {
    let out = run(0).unwrap();
    assert_eq!(out.len(), 0);
}

#[test]
fn single_person_is_own_grandparent() {
    // person 0 is its own parent, so (0, (0, 0)) is derived at time 0
    let out = run(1).unwrap();
    assert_eq!(out, vec![upd(0, 0, 0, 0, 1)]);
}

#[test]
fn end_to_end_size_three() {
    let out = run(3).unwrap();
    assert_eq!(
        out,
        vec![
            upd(0, 0, 0, 0, 1),
            upd(0, 0, 1, 0, 1),
            upd(0, 0, 2, 2, 1),
            upd(1, 0, 2, 0, 1),
            upd(1, 0, 2, 2, -1),
        ]
    );
    // exactly three derived pairs at time zero, and no further changes
    // until the rewrite of person 2 at time 2
    let at_zero: Vec<&Update<Triple>> = out.iter().filter(|u| u.time == 0).collect();
    assert_eq!(at_zero.len(), 3);
    assert!(out.iter().all(|u| u.time != 1));
}

#[test]
fn retraction_then_reinsertion_cancels() {
    // person 1's parent is 0 under both rules, so the time-1 rewrite nets
    // to nothing: every derived +1/-1 pair cancels in consolidation
    let out = run(2).unwrap();
    assert_eq!(out, vec![upd(0, 0, 0, 0, 1), upd(0, 0, 1, 0, 1)]);
    assert!(out.iter().all(|u| u.time != 1));
}

#[test]
fn changed_edge_nets_to_plus_and_minus() {
    // person 2's parent changes from 1 to 0 at time 2: the derived pair
    // through the old edge is retracted and one through the new edge added
    let out = run(3).unwrap();
    let at_two: Vec<&Update<Triple>> = out.iter().filter(|u| u.time == 2).collect();
    assert_eq!(at_two.len(), 2);
    assert_eq!(*at_two[0], upd(0, 0, 2, 2, 1));
    assert_eq!(*at_two[1], upd(1, 0, 2, 2, -1));
}

#[test]
fn grandparents_of_ten_person_tree() {
    let out = run(10).unwrap();
    let expected = vec![
        upd(0, 0, 0, 0, 1),
        upd(0, 0, 1, 0, 1),
        upd(0, 0, 2, 2, 1),
        upd(1, 0, 2, 0, 1),
        upd(1, 0, 2, 2, -1),
        upd(1, 0, 3, 0, 1),
        upd(1, 0, 4, 4, 1),
        upd(1, 0, 5, 5, 1),
        upd(2, 0, 4, 2, 1),
        upd(2, 0, 4, 4, -1),
        upd(2, 0, 5, 2, 1),
        upd(2, 0, 5, 5, -1),
        upd(2, 0, 6, 6, 1),
        upd(2, 0, 7, 7, 1),
        upd(2, 0, 8, 8, 1),
        upd(2, 1, 4, 0, 1),
        upd(2, 1, 4, 2, -1),
        upd(2, 1, 5, 0, 1),
        upd(2, 1, 5, 2, -1),
        upd(3, 1, 6, 0, 1),
        upd(3, 1, 6, 6, -1),
        upd(3, 1, 7, 0, 1),
        upd(3, 1, 7, 7, -1),
        upd(3, 1, 9, 9, 1),
        upd(4, 1, 8, 4, 1),
        upd(4, 1, 8, 8, -1),
        upd(4, 1, 9, 4, 1),
        upd(4, 1, 9, 9, -1),
        upd(4, 2, 8, 0, 1),
        upd(4, 2, 8, 4, -1),
        upd(4, 2, 9, 0, 1),
        upd(4, 2, 9, 4, -1),
    ];
    assert_eq!(out, expected);
}
