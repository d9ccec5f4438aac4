//! Tests of the join and consolidate operators on hand-built change logs.

use incremental_join::collection::Collection;
use incremental_join::consolidate::consolidate;
use incremental_join::join::join;
use incremental_join::update::{Pair, Triple, Update};

fn base(parent: usize, child: usize, time: usize, diff: i64) -> Update<Pair> {
    Update { rec: (parent, child), time, diff }
}

fn derived(m: usize, g: usize, c: usize, time: usize, diff: i64) -> Update<Triple> {
    Update { rec: (m, (g, c)), time, diff }
}

#[test]
fn join_multiplies_diffs_and_takes_later_time() {
    let mut a: Collection<Pair> = Collection::new();
    a.append(vec![base(7, 1, 3, 2)]);
    let mut b: Collection<Pair> = Collection::new();
    b.append(vec![base(7, 9, 5, 3)]);
    b.append(vec![base(8, 9, 0, 1)]);
    assert_eq!(a.len(), 1);
    assert_eq!(b.len(), 2);
    let out = join(&a, &b);
    // one match on key 7: diff 2 * 3 = 6 at time max(3, 5) = 5
    assert_eq!(out.updates, vec![derived(7, 1, 9, 5, 6)]);
}

#[test]
fn join_emits_retractions_for_negative_diffs() {
    let a = Collection { updates: vec![base(4, 2, 1, -1)] };
    let b = Collection { updates: vec![base(4, 6, 0, 1)] };
    let out = join(&a, &b);
    assert_eq!(out.updates, vec![derived(4, 2, 6, 1, -1)]);
}

#[test]
fn join_of_disjoint_keys_is_empty() {
    let a = Collection { updates: vec![base(1, 2, 0, 1)] };
    let b = Collection { updates: vec![base(2, 3, 0, 1)] };
    assert_eq!(join(&a, &b).updates.len(), 0);
}

#[test]
fn join_is_bilinear_over_concatenated_batches() {
    // feeding two batches together equals feeding them one after the other
    let batch1 = vec![base(1, 2, 0, 1), base(2, 3, 0, 1)];
    let batch2 = vec![base(1, 2, 1, -1), base(1, 4, 1, 1)];
    let b = Collection {
        updates: vec![base(2, 5, 0, 1), base(1, 6, 0, 1), base(1, 7, 2, 1)],
    };

    let mut together_updates = batch1.clone();
    together_updates.extend(batch2.clone());
    let together = join(&Collection { updates: together_updates }, &b);

    let first = join(&Collection { updates: batch1 }, &b);
    let second = join(&Collection { updates: batch2 }, &b);
    let mut separate = first.updates.clone();
    separate.extend(second.updates.clone());

    assert_eq!(together.updates, separate);

    // and the consolidations denote the same change stream
    assert_eq!(
        consolidate(together.updates),
        consolidate(separate)
    );
}

#[test]
fn consolidate_sums_groups_and_drops_zeroes() {
    let input = vec![
        derived(2, 1, 1, 0, 1),
        derived(1, 1, 1, 0, 3),
        derived(2, 1, 1, 0, -1),
        derived(1, 1, 1, 0, 2),
        derived(1, 1, 1, 1, -4),
    ];
    let out = consolidate(input);
    // the (2, (1, 1)) group at time 0 nets to zero and is dropped; the rest
    // come out in emission order: by record, then by time
    assert_eq!(out, vec![derived(1, 1, 1, 0, 5), derived(1, 1, 1, 1, -4)]);
}

#[test]
fn consolidate_orders_by_record_then_time() {
    let input = vec![
        derived(2, 0, 0, 0, 1),
        derived(1, 0, 0, 5, 1),
        derived(1, 0, 0, 2, 1),
        derived(1, 0, 1, 0, 1),
    ];
    let out = consolidate(input);
    assert_eq!(
        out,
        vec![
            derived(1, 0, 0, 2, 1),
            derived(1, 0, 0, 5, 1),
            derived(1, 0, 1, 0, 1),
            derived(2, 0, 0, 0, 1),
        ]
    );
}

#[test]
fn consolidate_of_empty_is_empty() {
    assert_eq!(consolidate(Vec::new()).len(), 0);
}

#[test]
fn consolidate_is_idempotent() {
    let input = vec![
        derived(3, 2, 1, 1, 2),
        derived(0, 0, 0, 0, 1),
        derived(3, 2, 1, 1, -1),
        derived(0, 0, 0, 1, -1),
    ];
    let once = consolidate(input);
    let twice = consolidate(once.clone());
    assert_eq!(twice, once);
}
