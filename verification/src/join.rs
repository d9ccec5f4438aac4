//! The join operator: for every pair of input updates sharing a join key, a
//! combined output update whose diff is the product of the input diffs.

use vstd::prelude::*;
use crate::collection::Collection;
use crate::update::{Pair, Triple, Update, unit_diffs};

verus! {

/// The combined output of one matching pair of input updates. Records are
/// `(key, value)` pairs joined on equal keys; the output carries the record
/// `(key, (left value, right value))`, the later of the two input times, and
/// the product of the input diffs — a retraction matched with an insertion
/// yields a retraction of the derived pairing.
pub open spec fn joined(a: Update<Pair>, b: Update<Pair>) -> Update<Triple> {
    Update {
        rec: (a.rec.0, (a.rec.1, b.rec.1)),
        time: if a.time >= b.time {
            a.time
        } else {
            b.time
        },
        diff: (a.diff * b.diff) as i64,
    }
}

/// One update of the left side probed against a whole right-side change log:
/// one output update per right-side update with the same key.
pub open spec fn join_one(a: Update<Pair>, b: Seq<Update<Pair>>) -> Seq<Update<Triple>>
    decreases b.len(),
{
    if b.len() == 0 {
        Seq::empty()
    } else {
        join_one(a, b.drop_last()) + (if a.rec.0 == b.last().rec.0 {
            seq![joined(a, b.last())]
        } else {
            Seq::empty()
        })
    }
}

/// The full join of two change logs: every left update probed against every
/// right update, in left-major order.
pub open spec fn join_spec(a: Seq<Update<Pair>>, b: Seq<Update<Pair>>) -> Seq<Update<Triple>>
    decreases a.len(),
{
    if a.len() == 0 {
        Seq::empty()
    } else {
        join_spec(a.drop_last(), b) + join_one(a.last(), b)
    }
}

/// Join is bilinear in its left argument: joining the concatenation of two
/// batches equals the concatenation of joining each batch. This is what
/// permits incremental re-derivation from only the delta rather than the
/// whole relation.
pub proof fn lemma_join_bilinear(
    a1: Seq<Update<Pair>>,
    a2: Seq<Update<Pair>>,
    b: Seq<Update<Pair>>,
)
    ensures
        join_spec(a1 + a2, b) == join_spec(a1, b) + join_spec(a2, b),
    decreases a2.len(),
{
    if a2.len() == 0 {
        assert(a1 + a2 =~= a1);
        assert(join_spec(a1, b) + join_spec(a2, b) =~= join_spec(a1, b));
    } else {
        lemma_join_bilinear(a1, a2.drop_last(), b);
        assert((a1 + a2).drop_last() =~= a1 + a2.drop_last());
        assert((a1 + a2).last() == a2.last());
        assert(join_spec(a1, b) + join_spec(a2.drop_last(), b) + join_one(a2.last(), b) =~= join_spec(
            a1,
            b,
        ) + (join_spec(a2.drop_last(), b) + join_one(a2.last(), b)));
    }
}

/// Probing one left update against two right batches in turn: join
/// distributes over concatenation on the right as well.
pub proof fn lemma_join_one_concat(
    u: Update<Pair>,
    b1: Seq<Update<Pair>>,
    b2: Seq<Update<Pair>>,
)
    ensures
        join_one(u, b1 + b2) == join_one(u, b1) + join_one(u, b2),
    decreases b2.len(),
{
    if b2.len() == 0 {
        assert(b1 + b2 =~= b1);
        assert(join_one(u, b1) + join_one(u, b2) =~= join_one(u, b1));
    } else {
        lemma_join_one_concat(u, b1, b2.drop_last());
        assert((b1 + b2).drop_last() =~= b1 + b2.drop_last());
        assert((b1 + b2).last() == b2.last());
        let tail = if u.rec.0 == b2.last().rec.0 {
            seq![joined(u, b2.last())]
        } else {
            Seq::<Update<Triple>>::empty()
        };
        assert(join_one(u, b1) + join_one(u, b2.drop_last()) + tail =~= join_one(u, b1) + (
        join_one(u, b2.drop_last()) + tail));
    }
}

/// A single left update yields at most one output per right update.
pub proof fn lemma_join_one_len(a: Update<Pair>, b: Seq<Update<Pair>>)
    ensures
        join_one(a, b).len() <= b.len(),
    decreases b.len(),
{
    if b.len() > 0 {
        lemma_join_one_len(a, b.drop_last());
    }
}

/// The join of two change logs yields at most one output per pair of inputs.
pub proof fn lemma_join_spec_len(a: Seq<Update<Pair>>, b: Seq<Update<Pair>>)
    ensures
        0 <= join_spec(a, b).len() <= a.len() * b.len(),
    decreases a.len(),
{
    if a.len() > 0 {
        lemma_join_spec_len(a.drop_last(), b);
        lemma_join_one_len(a.last(), b);
        assert((a.len() - 1) * b.len() + b.len() == a.len() * b.len()) by (nonlinear_arith);
    }
}

/// Products of unit diffs are unit diffs: the join of two unit-diff change
/// logs is a unit-diff change log.
pub proof fn lemma_join_one_unit(a: Update<Pair>, b: Seq<Update<Pair>>)
    requires
        a.diff == 1 || a.diff == -1,
        unit_diffs(b),
    ensures
        unit_diffs(join_one(a, b)),
    decreases b.len(),
{
    if b.len() > 0 {
        assert(forall|i: int| 0 <= i < b.drop_last().len() ==> b.drop_last()[i] == b[i]);
        lemma_join_one_unit(a, b.drop_last());
        assert(b[b.len() - 1].diff == 1 || b[b.len() - 1].diff == -1);
        assert(unit_diffs(join_one(a, b))) by {
            let s = join_one(a, b);
            let s0 = join_one(a, b.drop_last());
            assert(forall|i: int| 0 <= i < s0.len() ==> s[i] == s0[i]);
        }
    }
}

/// See [`lemma_join_one_unit`].
pub proof fn lemma_join_spec_unit(a: Seq<Update<Pair>>, b: Seq<Update<Pair>>)
    requires
        unit_diffs(a),
        unit_diffs(b),
    ensures
        unit_diffs(join_spec(a, b)),
    decreases a.len(),
{
    if a.len() > 0 {
        assert(forall|i: int| 0 <= i < a.drop_last().len() ==> a.drop_last()[i] == a[i]);
        lemma_join_spec_unit(a.drop_last(), b);
        assert(a[a.len() - 1].diff == 1 || a[a.len() - 1].diff == -1);
        lemma_join_one_unit(a.last(), b);
        assert(unit_diffs(join_spec(a, b))) by {
            let s = join_spec(a, b);
            let s0 = join_spec(a.drop_last(), b);
            let s1 = join_one(a.last(), b);
            assert(forall|i: int| 0 <= i < s0.len() ==> s[i] == s0[i]);
            assert(forall|i: int| 0 <= i < s1.len() ==> s[s0.len() + i] == s1[i]);
            assert(forall|i: int|
                s0.len() <= i < s.len() ==> s[i] == s1[i - s0.len()]);
        }
    }
}

/// Probes every update of `a` against every update of `b` and emits one
/// combined update per matching pair: the materialization of [`join_spec`].
/// The precondition is forced by the machine alone: every product of diffs
/// must fit the diff type.
pub fn join(a: &Collection<Pair>, b: &Collection<Pair>) -> (out: Collection<Triple>)
    requires
        forall|i: int, j: int|
            0 <= i < a@.len() && 0 <= j < b@.len() ==> i64::MIN <= #[trigger] (a@[i].diff as int
                * b@[j].diff as int) <= i64::MAX,
    ensures
        out@ == join_spec(a@, b@),
{
    let mut out: Collection<Triple> = Collection::new();
    let n = a.len();
    let m = b.len();
    let mut i: usize = 0;
    while i < n
        invariant
            i <= n,
            n == a@.len(),
            m == b@.len(),
            out@ == join_spec(a@.take(i as int), b@),
            forall|x: int, y: int|
                0 <= x < a@.len() && 0 <= y < b@.len() ==> i64::MIN <= #[trigger] (a@[x].diff
                    as int * b@[y].diff as int) <= i64::MAX,
        decreases n - i,
    {
        let mut j: usize = 0;
        while j < m
            invariant
                i < n,
                j <= m,
                n == a@.len(),
                m == b@.len(),
                out@ == join_spec(a@.take(i as int), b@) + join_one(
                    a@[i as int],
                    b@.take(j as int),
                ),
                forall|x: int, y: int|
                    0 <= x < a@.len() && 0 <= y < b@.len() ==> i64::MIN <= #[trigger] (a@[x].diff
                        as int * b@[y].diff as int) <= i64::MAX,
            decreases m - j,
        {
            let ua = *a.get(i);
            let ub = *b.get(j);
            proof {
                assert(i64::MIN <= a@[i as int].diff as int * b@[j as int].diff as int
                    <= i64::MAX);
                assert(b@.take(j as int + 1).drop_last() =~= b@.take(j as int));
                assert(b@.take(j as int + 1).last() == b@[j as int]);
            }
            if ua.rec.0 == ub.rec.0 {
                let t = if ua.time >= ub.time {
                    ua.time
                } else {
                    ub.time
                };
                let d = ua.diff * ub.diff;
                out.updates.push(Update { rec: (ua.rec.0, (ua.rec.1, ub.rec.1)), time: t, diff: d });
                proof {
                    let pre = join_spec(a@.take(i as int), b@) + join_one(
                        a@[i as int],
                        b@.take(j as int),
                    );
                    assert(out@ =~= pre.push(joined(a@[i as int], b@[j as int])));
                    assert(out@ =~= join_spec(a@.take(i as int), b@) + join_one(
                        a@[i as int],
                        b@.take(j as int + 1),
                    ));
                }
            } else {
                proof {
                    assert(join_one(a@[i as int], b@.take(j as int + 1)) =~= join_one(
                        a@[i as int],
                        b@.take(j as int),
                    ));
                }
            }
            j += 1;
        }
        proof {
            assert(b@.take(m as int) =~= b@);
            assert(a@.take(i as int + 1).drop_last() =~= a@.take(i as int));
            assert(a@.take(i as int + 1).last() == a@[i as int]);
            assert(join_spec(a@.take(i as int), b@) + join_one(a@[i as int], b@) =~= join_spec(
                a@.take(i as int + 1),
                b@,
            ));
        }
        i += 1;
    }
    proof {
        assert(a@.take(n as int) =~= a@);
    }
    out
}

} // verus!
