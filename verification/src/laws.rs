//! The algebraic laws the operators obey. Each law is stated over the spec
//! functions the operators' contracts use, so callers can carry it from one
//! verified call to the next.

use vstd::prelude::*;
use crate::update::{
    Update, Pair, Triple, net, net_equal, diff_at, matches_key, lemma_net_concat,
    lemma_net_absent,
};
use crate::consolidate::{
    consolidated, is_consolidation_of, same_key, key_lt, lemma_key_le_total, lemma_key_between,
};
use crate::join::{join_spec, join_one, lemma_join_bilinear, lemma_join_one_concat};

verus! {

/// In a compacted log the net diff at the last entry's group is exactly that
/// entry's diff: no other entry shares its group.
proof fn lemma_consolidated_net_last(s: Seq<Update<Triple>>)
    requires
        consolidated(s),
        s.len() > 0,
    ensures
        net(s, s.last().rec, s.last().time) == s.last().diff as int,
{
    let u = s.last();
    assert forall|l: int|
        0 <= l < s.drop_last().len() implies !matches_key(
        #[trigger] s.drop_last()[l],
        u.rec,
        u.time,
    ) by {
        assert(s.drop_last()[l] == s[l]);
        assert(key_lt(s[l], s[s.len() - 1]));
    }
    lemma_net_absent(s.drop_last(), u.rec, u.time);
}

/// If a compacted log lacks the last group of another compacted log of the
/// same denotation, their net diffs at that group disagree — the group's
/// non-zero net diff shows up on one side only.
proof fn lemma_missing_last_group(a: Seq<Update<Triple>>, b: Seq<Update<Triple>>)
    requires
        consolidated(b),
        b.len() > 0,
        forall|l: int| 0 <= l < a.len() ==> !same_key(#[trigger] a[l], b.last()),
    ensures
        net(a, b.last().rec, b.last().time) == 0,
        net(b, b.last().rec, b.last().time) != 0,
{
    lemma_consolidated_net_last(b);
    assert forall|l: int|
        0 <= l < a.len() implies !matches_key(#[trigger] a[l], b.last().rec, b.last().time) by {
        assert(!same_key(a[l], b.last()));
    }
    lemma_net_absent(a, b.last().rec, b.last().time);
    assert(b.last().diff != 0);
}

/// Consolidation is unique: two compacted logs denoting the same
/// `(record, time) -> diff` function are equal. Together with the contract
/// of [`crate::consolidate::consolidate`] this pins its output down to the
/// single possible sequence.
pub proof fn lemma_consolidation_unique(a: Seq<Update<Triple>>, b: Seq<Update<Triple>>)
    requires
        consolidated(a),
        consolidated(b),
        net_equal(a, b),
    ensures
        a == b,
    decreases a.len() + b.len(),
{
    if a.len() == 0 && b.len() == 0 {
        assert(a =~= b);
    } else if a.len() == 0 {
        lemma_missing_last_group(a, b);
        assert(net(a, b.last().rec, b.last().time) == net(b, b.last().rec, b.last().time));
    } else if b.len() == 0 {
        lemma_missing_last_group(b, a);
        assert(net(a, a.last().rec, a.last().time) == net(b, a.last().rec, a.last().time));
    } else {
        let ua = a.last();
        let ub = b.last();
        if same_key(ua, ub) {
            lemma_consolidated_net_last(a);
            lemma_consolidated_net_last(b);
            assert(net(a, ub.rec, ub.time) == net(b, ub.rec, ub.time));
            assert(ua.diff == ub.diff);
            assert(ua == ub);
            let a0 = a.drop_last();
            let b0 = b.drop_last();
            assert forall|rec: Triple, t: usize|
                #![trigger net(a0, rec, t)]
                #![trigger net(b0, rec, t)]
                net(a0, rec, t) == net(b0, rec, t) by {
                assert(net(a, rec, t) == net(a0, rec, t) + diff_at(ua, rec, t));
                assert(net(b, rec, t) == net(b0, rec, t) + diff_at(ub, rec, t));
                assert(net(a, rec, t) == net(b, rec, t));
            }
            lemma_consolidation_unique(a0, b0);
            assert(a =~= b) by {
                assert(a.len() == b.len());
                assert forall|i: int| 0 <= i < a.len() implies a[i] == b[i] by {
                    if i < a.len() - 1 {
                        assert(a[i] == a0[i]);
                        assert(b[i] == b0[i]);
                    } else {
                        assert(a[i] == ua && b[i] == ub);
                    }
                }
            }
        } else {
            lemma_key_le_total(ua, ub);
            if key_lt(ua, ub) {
                assert forall|l: int| 0 <= l < a.len() implies !same_key(
                    #[trigger] a[l],
                    ub,
                ) by {
                    if same_key(a[l], ub) {
                        assert(key_lt(a[l], ua) || a[l] == ua);
                        lemma_key_between(a[l], ua, ub);
                    }
                }
                lemma_missing_last_group(a, b);
                assert(net(a, b.last().rec, b.last().time) == net(
                    b,
                    b.last().rec,
                    b.last().time,
                ));
            } else {
                assert(key_lt(ub, ua));
                assert forall|l: int| 0 <= l < b.len() implies !same_key(
                    #[trigger] b[l],
                    ua,
                ) by {
                    if same_key(b[l], ua) {
                        assert(key_lt(b[l], ub) || b[l] == ub);
                        lemma_key_between(b[l], ub, ua);
                    }
                }
                lemma_missing_last_group(b, a);
                assert(net(a, a.last().rec, a.last().time) == net(
                    b,
                    a.last().rec,
                    a.last().time,
                ));
            }
        }
    }
}

/// Consolidation is idempotent: any consolidation of a consolidation of `x`
/// is that consolidation itself, and in particular still a consolidation of
/// `x`.
pub proof fn lemma_consolidate_idempotent(
    x: Seq<Update<Triple>>,
    y: Seq<Update<Triple>>,
    z: Seq<Update<Triple>>,
)
    requires
        is_consolidation_of(y, x),
        is_consolidation_of(z, y),
    ensures
        z == y,
        is_consolidation_of(z, x),
{
    lemma_consolidation_unique(z, y);
    assert forall|rec: Triple, t: usize| #![trigger net(z, rec, t)]
        net(z, rec, t) == net(x, rec, t) by {
        assert(net(z, rec, t) == net(y, rec, t));
        assert(net(y, rec, t) == net(x, rec, t));
    }
}

/// A compacted log is a consolidation of itself: compaction is a fixed point.
pub proof fn lemma_consolidated_fixed_point(y: Seq<Update<Triple>>)
    requires
        consolidated(y),
    ensures
        is_consolidation_of(y, y),
{
}

/// Cancellation: staging an insertion and then a removal of the same record
/// at the same time leaves every net diff of the staged batch unchanged —
/// the pair contributes nothing.
pub proof fn lemma_cancellation<R>(p: Seq<Update<R>>, r: R, t: usize, rec: R, t2: usize)
    ensures
        net(
            p.push(Update { rec: r, time: t, diff: 1i64 }).push(
                Update { rec: r, time: t, diff: -1i64 },
            ),
            rec,
            t2,
        ) == net(p, rec, t2),
{
    let u1 = Update { rec: r, time: t, diff: 1i64 };
    let u2 = Update { rec: r, time: t, diff: -1i64 };
    let q1 = p.push(u1);
    let q2 = q1.push(u2);
    assert(q1.len() == p.len() + 1 && q2.len() == q1.len() + 1);
    assert(q2.drop_last() =~= q1);
    assert(q2.last() == u2);
    assert(q1.drop_last() =~= p);
    assert(q1.last() == u1);
    assert(net(q2, rec, t2) == net(q1, rec, t2) + diff_at(u2, rec, t2));
    assert(net(q1, rec, t2) == net(p, rec, t2) + diff_at(u1, rec, t2));
    assert(diff_at(u1, rec, t2) + diff_at(u2, rec, t2) == 0);
}

/// A change log whose net diffs all vanish consolidates to the empty log:
/// net-zero groups are dropped entirely, never emitted with diff zero.
pub proof fn lemma_cancelled_consolidates_to_empty(x: Seq<Update<Triple>>, y: Seq<
    Update<Triple>,
>)
    requires
        is_consolidation_of(y, x),
        net_equal(x, Seq::<Update<Triple>>::empty()),
    ensures
        y == Seq::<Update<Triple>>::empty(),
{
    let e = Seq::<Update<Triple>>::empty();
    assert forall|rec: Triple, t: usize| #![trigger net(y, rec, t)]
        net(y, rec, t) == net(e, rec, t) by {
        assert(net(y, rec, t) == net(x, rec, t));
        assert(net(x, rec, t) == net(e, rec, t));
    }
    lemma_consolidation_unique(y, e);
}

/// Join is bilinear in its right argument too, at the level of the denoted
/// change stream: probing a left log against two right batches together
/// denotes the pointwise sum of probing against each separately.
pub proof fn lemma_join_right_bilinear_net(
    a: Seq<Update<Pair>>,
    b1: Seq<Update<Pair>>,
    b2: Seq<Update<Pair>>,
    rec: Triple,
    t: usize,
)
    ensures
        net(join_spec(a, b1 + b2), rec, t) == net(join_spec(a, b1), rec, t) + net(
            join_spec(a, b2),
            rec,
            t,
        ),
    decreases a.len(),
{
    if a.len() > 0 {
        lemma_join_right_bilinear_net(a.drop_last(), b1, b2, rec, t);
        lemma_join_one_concat(a.last(), b1, b2);
        lemma_net_concat(join_spec(a.drop_last(), b1 + b2), join_one(a.last(), b1 + b2), rec, t);
        lemma_net_concat(join_one(a.last(), b1), join_one(a.last(), b2), rec, t);
        lemma_net_concat(join_spec(a.drop_last(), b1), join_one(a.last(), b1), rec, t);
        lemma_net_concat(join_spec(a.drop_last(), b2), join_one(a.last(), b2), rec, t);
    }
}

/// Bilinearity carried through consolidation: feeding two batches through
/// the join together and consolidating denotes, pointwise, the sum of what
/// consolidating each batch's join separately denotes.
pub proof fn lemma_join_consolidations_add(
    a1: Seq<Update<Pair>>,
    a2: Seq<Update<Pair>>,
    b: Seq<Update<Pair>>,
    c: Seq<Update<Triple>>,
    c1: Seq<Update<Triple>>,
    c2: Seq<Update<Triple>>,
)
    requires
        is_consolidation_of(c, join_spec(a1 + a2, b)),
        is_consolidation_of(c1, join_spec(a1, b)),
        is_consolidation_of(c2, join_spec(a2, b)),
    ensures
        forall|rec: Triple, t: usize| #[trigger]
            net(c, rec, t) == net(c1, rec, t) + net(c2, rec, t),
{
    lemma_join_bilinear(a1, a2, b);
    assert forall|rec: Triple, t: usize| #[trigger]
        net(c, rec, t) == net(c1, rec, t) + net(c2, rec, t) by {
        assert(net(c, rec, t) == net(join_spec(a1 + a2, b), rec, t));
        lemma_net_concat(join_spec(a1, b), join_spec(a2, b), rec, t);
        assert(net(c1, rec, t) == net(join_spec(a1, b), rec, t));
        assert(net(c2, rec, t) == net(join_spec(a2, b), rec, t));
    }
}

} // verus!
