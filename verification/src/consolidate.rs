//! The consolidate operator: group a change log by `(record, time)`, sum the
//! diffs within each group, and keep exactly one update per group whose
//! summed diff is non-zero.

use vstd::prelude::*;
use crate::update::{
    Update, Triple, net, net_equal, diff_at, matches_key, sum_abs,
    lemma_net_concat, lemma_net_insert, lemma_net_absent, lemma_net_bounded,
    lemma_net_singleton, lemma_sum_abs_concat, lemma_sum_abs_insert,
};

verus! {

/// Two updates speak of the same `(record, time)` group.
pub open spec fn same_key<R>(a: Update<R>, b: Update<R>) -> bool {
    a.rec == b.rec && a.time == b.time
}

/// The total emission order on derived updates: lexicographic by record, then
/// by time. Ties exactly on equal `(record, time)` groups.
pub open spec fn key_le(a: Update<Triple>, b: Update<Triple>) -> bool {
    if a.rec.0 != b.rec.0 {
        a.rec.0 < b.rec.0
    } else if a.rec.1.0 != b.rec.1.0 {
        a.rec.1.0 < b.rec.1.0
    } else if a.rec.1.1 != b.rec.1.1 {
        a.rec.1.1 < b.rec.1.1
    } else {
        a.time <= b.time
    }
}

/// Strictly before in the emission order: an earlier, different group.
pub open spec fn key_lt(a: Update<Triple>, b: Update<Triple>) -> bool {
    key_le(a, b) && !same_key(a, b)
}

/// The emission order is total.
pub proof fn lemma_key_le_total(a: Update<Triple>, b: Update<Triple>)
    ensures
        key_le(a, b) || key_le(b, a),
{
}

/// The emission order is transitive.
pub proof fn lemma_key_le_trans(a: Update<Triple>, b: Update<Triple>, c: Update<Triple>)
    requires
        key_le(a, b),
        key_le(b, c),
    ensures
        key_le(a, c),
{
}

/// An update ordered between two updates of one group belongs to that group.
pub proof fn lemma_key_between(a: Update<Triple>, b: Update<Triple>, c: Update<Triple>)
    requires
        key_le(a, b),
        key_le(b, c),
        same_key(a, c),
    ensures
        same_key(a, b),
        same_key(b, c),
{
}

/// Strictly-before composes with before.
pub proof fn lemma_key_lt_le_trans(a: Update<Triple>, b: Update<Triple>, c: Update<Triple>)
    requires
        key_lt(a, b),
        key_le(b, c),
    ensures
        key_lt(a, c),
{
    lemma_key_le_trans(a, b, c);
    if same_key(a, c) {
        lemma_key_between(a, b, c);
    }
}

/// The change log is in emission order (groups may repeat).
pub open spec fn sorted(s: Seq<Update<Triple>>) -> bool {
    forall|x: int, y: int| 0 <= x < y < s.len() ==> key_le(#[trigger] s[x], #[trigger] s[y])
}

/// The change log is in emission order with every group appearing at most
/// once.
pub open spec fn strictly_sorted(s: Seq<Update<Triple>>) -> bool {
    forall|x: int, y: int| 0 <= x < y < s.len() ==> key_lt(#[trigger] s[x], #[trigger] s[y])
}

/// A compacted change log: deterministic emission order, one update per
/// `(record, time)` group, and no net-zero entries.
pub open spec fn consolidated(s: Seq<Update<Triple>>) -> bool {
    strictly_sorted(s) && forall|i: int| 0 <= i < s.len() ==> (#[trigger] s[i]).diff != 0
}

/// `y` is the consolidation of `x`: `y` is compacted and denotes the same
/// function `(record, time) -> diff` as `x`.
pub open spec fn is_consolidation_of(y: Seq<Update<Triple>>, x: Seq<Update<Triple>>) -> bool {
    consolidated(y) && net_equal(y, x)
}

/// Decides the emission order between two derived updates.
fn upd_le(a: &Update<Triple>, b: &Update<Triple>) -> (r: bool)
    ensures
        r == key_le(*a, *b),
{
    if a.rec.0 != b.rec.0 {
        a.rec.0 < b.rec.0
    } else if a.rec.1.0 != b.rec.1.0 {
        a.rec.1.0 < b.rec.1.0
    } else if a.rec.1.1 != b.rec.1.1 {
        a.rec.1.1 < b.rec.1.1
    } else {
        a.time <= b.time
    }
}

/// Decides whether two derived updates belong to one `(record, time)` group.
fn upd_same_key(a: &Update<Triple>, b: &Update<Triple>) -> (r: bool)
    ensures
        r == same_key(*a, *b),
{
    a.rec.0 == b.rec.0 && a.rec.1.0 == b.rec.1.0 && a.rec.1.1 == b.rec.1.1 && a.time == b.time
}

/// Reorders a change log into emission order by insertion, preserving the
/// denoted `(record, time) -> diff` function and the total absolute weight.
fn sort_updates(v: &Vec<Update<Triple>>) -> (out: Vec<Update<Triple>>)
    ensures
        sorted(out@),
        out@.len() == v@.len(),
        net_equal(out@, v@),
        sum_abs(out@) == sum_abs(v@),
{
    let mut out: Vec<Update<Triple>> = Vec::new();
    let n = v.len();
    let mut i: usize = 0;
    while i < n
        invariant
            i <= n,
            n == v@.len(),
            sorted(out@),
            out@.len() == i,
            net_equal(out@, v@.take(i as int)),
            sum_abs(out@) == sum_abs(v@.take(i as int)),
        decreases n - i,
    {
        let u = v[i];
        let mut p: usize = 0;
        while p < out.len() && upd_le(&out[p], &u)
            invariant
                p <= out@.len(),
                forall|q: int| 0 <= q < p ==> key_le(#[trigger] out@[q], u),
            decreases out@.len() - p,
        {
            p += 1;
        }
        proof {
            let o = out@;
            if p < o.len() {
                lemma_key_le_total(o[p as int], u);
                assert forall|q: int| p <= q < o.len() implies key_le(u, #[trigger] o[q]) by {
                    lemma_key_le_trans(u, o[p as int], o[q]);
                }
            }
        }
        let ghost old_out = out@;
        out.insert(p, u);
        proof {
            old_out.insert_ensures(p as int, u);
            assert forall|x: int, y: int|
                0 <= x < y < out@.len() implies key_le(#[trigger] out@[x], #[trigger] out@[y]) by {
                let pi = p as int;
                if y < pi {
                    assert(out@[x] == old_out[x] && out@[y] == old_out[y]);
                } else if x < pi && y == pi {
                    assert(out@[x] == old_out[x] && out@[y] == u);
                } else if x < pi && y > pi {
                    assert(out@[x] == old_out[x] && out@[y] == old_out[y - 1]);
                    if x < y - 1 {
                        assert(key_le(old_out[x], old_out[y - 1]));
                    }
                } else if x == pi {
                    assert(out@[x] == u && out@[y] == old_out[y - 1]);
                } else {
                    assert(out@[x] == old_out[x - 1] && out@[y] == old_out[y - 1]);
                }
            }
            assert forall|rec: Triple, t: usize| #![trigger net(out@, rec, t)]
                net(out@, rec, t) == net(v@.take(i as int + 1), rec, t) by {
                lemma_net_insert(old_out, p as int, u, rec, t);
                assert(v@.take(i as int + 1).drop_last() =~= v@.take(i as int));
                assert(v@.take(i as int + 1).last() == v@[i as int]);
            }
            lemma_sum_abs_insert(old_out, p as int, u);
            assert(v@.take(i as int + 1).drop_last() =~= v@.take(i as int));
            assert(v@.take(i as int + 1).last() == v@[i as int]);
        }
        i += 1;
    }
    proof {
        assert(v@.take(n as int) =~= v@);
    }
    out
}

/// Compacts a change log: sums the diffs within each `(record, time)` group
/// and emits exactly one update per group whose summed diff is non-zero, in
/// emission order — groups summing to zero are dropped entirely. The
/// precondition is forced by the machine alone: every group's running sum
/// must fit the diff type.
pub fn consolidate(v: Vec<Update<Triple>>) -> (out: Vec<Update<Triple>>)
    requires
        sum_abs(v@) <= i64::MAX as int,
    ensures
        is_consolidation_of(out@, v@),
{
    let s = sort_updates(&v);
    let n = s.len();
    let mut out: Vec<Update<Triple>> = Vec::new();
    let mut i: usize = 0;
    while i < n
        invariant
            i <= n,
            n == s@.len(),
            sorted(s@),
            sum_abs(s@) <= i64::MAX as int,
            consolidated(out@),
            net_equal(out@, s@.take(i as int)),
            forall|k: int, l: int|
                0 <= k < out@.len() && i <= l < n ==> key_lt(#[trigger] out@[k], #[trigger] s@[l]),
        decreases n - i,
    {
        let u0 = s[i];
        let ghost key_rec = u0.rec;
        let ghost key_t = u0.time;
        let mut acc: i64 = u0.diff;
        let mut j: usize = i + 1;
        proof {
            assert(s@.subrange(i as int, i as int + 1) =~= seq![s@[i as int]]);
            lemma_net_singleton(s@[i as int], key_rec, key_t);
        }
        while j < n && upd_same_key(&s[j], &u0)
            invariant
                i < j <= n,
                n == s@.len(),
                sorted(s@),
                sum_abs(s@) <= i64::MAX as int,
                u0 == s@[i as int],
                key_rec == u0.rec,
                key_t == u0.time,
                forall|l: int| i <= l < j ==> same_key(#[trigger] s@[l], u0),
                acc as int == net(s@.subrange(i as int, j as int), key_rec, key_t),
            decreases n - j,
        {
            proof {
                let run = s@.subrange(i as int, j as int);
                let run1 = s@.subrange(i as int, j as int + 1);
                assert(run1.drop_last() =~= run);
                assert(run1.last() == s@[j as int]);
                lemma_net_bounded(run1, key_rec, key_t);
                assert(s@ =~= s@.subrange(0, i as int) + run1 + s@.subrange(
                    j as int + 1,
                    n as int,
                ));
                lemma_sum_abs_concat(
                    s@.subrange(0, i as int) + run1,
                    s@.subrange(j as int + 1, n as int),
                );
                lemma_sum_abs_concat(s@.subrange(0, i as int), run1);
                lemma_net_bounded(s@.subrange(0, i as int), key_rec, key_t);
                lemma_net_bounded(s@.subrange(j as int + 1, n as int), key_rec, key_t);
                assert(matches_key(s@[j as int], key_rec, key_t));
            }
            acc = acc + s[j].diff;
            j += 1;
        }
        proof {
            let run = s@.subrange(i as int, j as int);
            assert(s@.take(j as int) =~= s@.take(i as int) + run);
            assert forall|rec: Triple, t: usize| #![trigger net(s@.take(j as int), rec, t)]
                net(s@.take(j as int), rec, t) == net(s@.take(i as int), rec, t) + (if rec
                == key_rec && t == key_t {
                acc as int
            } else {
                0
            }) by {
                lemma_net_concat(s@.take(i as int), run, rec, t);
                if rec == key_rec && t == key_t {
                } else {
                    assert forall|l: int| 0 <= l < run.len() implies !matches_key(
                        #[trigger] run[l],
                        rec,
                        t,
                    ) by {
                        assert(same_key(s@[i as int + l], u0));
                    }
                    lemma_net_absent(run, rec, t);
                }
            }
        }
        if acc != 0 {
            let ghost old_out = out@;
            out.push(Update { rec: u0.rec, time: u0.time, diff: acc });
            proof {
                assert(out@.drop_last() =~= old_out);
                assert(out@.last() == Update::<Triple> { rec: key_rec, time: key_t, diff: acc });
                // the new entry comes after everything already emitted, and
                // before every group still to be scanned
                assert forall|k: int, l: int|
                    0 <= k < out@.len() && j <= l < n implies key_lt(
                    #[trigger] out@[k],
                    #[trigger] s@[l],
                ) by {
                    if j < n {
                        assert(!same_key(s@[j as int], u0));
                        assert(key_le(s@[i as int], s@[j as int]));
                        if k < old_out.len() {
                            assert(key_lt(old_out[k], s@[l]));
                            assert(out@[k] == old_out[k]);
                        } else {
                            assert(out@[k] == out@.last());
                            if (j as int) < l {
                                assert(key_le(s@[j as int], s@[l]));
                            }
                            lemma_key_lt_le_trans(s@[i as int], s@[j as int], s@[l]);
                        }
                    }
                }
                assert forall|x: int, y: int|
                    0 <= x < y < out@.len() implies key_lt(#[trigger] out@[x], #[trigger] out@[y])
                    by {
                    if y < out@.len() - 1 {
                        assert(out@[x] == old_out[x] && out@[y] == old_out[y]);
                    } else {
                        assert(out@[y] == out@.last());
                        assert(out@[x] == old_out[x]);
                        assert(key_lt(old_out[x], s@[i as int]));
                    }
                }
                assert forall|rec: Triple, t: usize| #![trigger net(out@, rec, t)]
                    net(out@, rec, t) == net(s@.take(j as int), rec, t) by {
                    assert(net(out@, rec, t) == net(old_out, rec, t) + diff_at(
                        out@.last(),
                        rec,
                        t,
                    ));
                }
            }
        } else {
            proof {
                if j < n {
                    assert forall|k: int, l: int|
                        0 <= k < out@.len() && j <= l < n implies key_lt(
                        #[trigger] out@[k],
                        #[trigger] s@[l],
                    ) by {
                        assert(key_lt(out@[k], s@[l]));
                    }
                }
            }
        }
        i = j;
    }
    proof {
        assert(s@.take(n as int) =~= s@);
        assert forall|rec: Triple, t: usize| #![trigger net(out@, rec, t)]
            net(out@, rec, t) == net(v@, rec, t) by {
            assert(net(out@, rec, t) == net(s@, rec, t));
            assert(net(s@, rec, t) == net(v@, rec, t));
        }
    }
    out
}

} // verus!
