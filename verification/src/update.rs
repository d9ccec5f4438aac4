//! The fundamental unit flowing through the engine, and the net-diff
//! semantics of a sequence of such units.

use vstd::prelude::*;

verus! {

/// A record tagged with a logical timestamp and a signed multiplicity.
///
/// A diff of `+n` means "n more occurrences of this record appeared at this
/// time"; `-n` means "n occurrences were retracted". A record's net effect at
/// a time is the sum of all diffs recorded for it at that time; net zero is
/// equivalent to absence.
#[derive(Clone, Copy, PartialEq, Eq, Debug)]
pub struct Update<R> {
    pub rec: R,
    pub time: usize,
    pub diff: i64,
}

/// A base-relation record: a `(parent, child)` pair of identifiers.
pub type Pair = (usize, usize);

/// A derived record `(middle, (grandparent, grandchild))`: `middle` is both
/// the child of `grandparent` and the parent of `grandchild`.
pub type Triple = (usize, (usize, usize));

/// Whether `u` is an occurrence of `rec` at time `t`.
pub open spec fn matches_key<R>(u: Update<R>, rec: R, t: usize) -> bool {
    u.rec == rec && u.time == t
}

/// What `u` contributes to the net diff of `(rec, t)`.
pub open spec fn diff_at<R>(u: Update<R>, rec: R, t: usize) -> int {
    if matches_key(u, rec, t) {
        u.diff as int
    } else {
        0
    }
}

/// The net diff of `(rec, t)` over a change log: the sum of the diffs of all
/// updates for that record at that time, regardless of order. This is the
/// meaning of a collection: logically a function `(record, time) -> diff`.
pub open spec fn net<R>(s: Seq<Update<R>>, rec: R, t: usize) -> int
    decreases s.len(),
{
    if s.len() == 0 {
        0
    } else {
        net(s.drop_last(), rec, t) + diff_at(s.last(), rec, t)
    }
}

/// Two change logs denote the same function `(record, time) -> diff`.
pub open spec fn net_equal<R>(a: Seq<Update<R>>, b: Seq<Update<R>>) -> bool {
    forall|rec: R, t: usize|
        #![trigger net(a, rec, t)]
        #![trigger net(b, rec, t)]
        net(a, rec, t) == net(b, rec, t)
}

/// The absolute value of a diff.
pub open spec fn abs_diff(d: int) -> int {
    if d < 0 {
        -d
    } else {
        d
    }
}

/// The sum of the absolute values of the diffs of a change log. Every
/// net diff of any `(record, time)` pair is bounded by it.
pub open spec fn sum_abs<R>(s: Seq<Update<R>>) -> int
    decreases s.len(),
{
    if s.len() == 0 {
        0
    } else {
        sum_abs(s.drop_last()) + abs_diff(s.last().diff as int)
    }
}

/// Every diff in the change log is `+1` or `-1`.
pub open spec fn unit_diffs<R>(s: Seq<Update<R>>) -> bool {
    forall|i: int| 0 <= i < s.len() ==> (#[trigger] s[i].diff == 1 || s[i].diff == -1)
}

/// The net diff of a one-update log is what that update contributes.
pub proof fn lemma_net_singleton<R>(u: Update<R>, rec: R, t: usize)
    ensures
        net(seq![u], rec, t) == diff_at(u, rec, t),
{
    let s = seq![u];
    assert(s.len() == 1);
    assert(s.last() == u);
    assert(s.drop_last() =~= Seq::<Update<R>>::empty());
    assert(net(s.drop_last(), rec, t) == 0);
}

/// Net diffs are additive over concatenation of change logs.
pub proof fn lemma_net_concat<R>(a: Seq<Update<R>>, b: Seq<Update<R>>, rec: R, t: usize)
    ensures
        net(a + b, rec, t) == net(a, rec, t) + net(b, rec, t),
    decreases b.len(),
{
    if b.len() == 0 {
        assert(a + b =~= a);
    } else {
        lemma_net_concat(a, b.drop_last(), rec, t);
        assert((a + b).drop_last() =~= a + b.drop_last());
        assert((a + b).last() == b.last());
    }
}

/// `sum_abs` is additive over concatenation of change logs.
pub proof fn lemma_sum_abs_concat<R>(a: Seq<Update<R>>, b: Seq<Update<R>>)
    ensures
        sum_abs(a + b) == sum_abs(a) + sum_abs(b),
    decreases b.len(),
{
    if b.len() == 0 {
        assert(a + b =~= a);
    } else {
        lemma_sum_abs_concat(a, b.drop_last());
        assert((a + b).drop_last() =~= a + b.drop_last());
        assert((a + b).last() == b.last());
    }
}

/// `sum_abs` of a one-update log is that update's absolute diff.
pub proof fn lemma_sum_abs_singleton<R>(u: Update<R>)
    ensures
        sum_abs(seq![u]) == abs_diff(u.diff as int),
{
    let s = seq![u];
    assert(s.len() == 1);
    assert(s.last() == u);
    assert(s.drop_last() =~= Seq::<Update<R>>::empty());
    assert(sum_abs(s.drop_last()) == 0);
}

/// Inserting an update anywhere into a change log adds exactly its
/// contribution to every net diff.
pub proof fn lemma_net_insert<R>(s: Seq<Update<R>>, j: int, u: Update<R>, rec: R, t: usize)
    requires
        0 <= j <= s.len(),
    ensures
        net(s.insert(j, u), rec, t) == net(s, rec, t) + diff_at(u, rec, t),
{
    let left = s.subrange(0, j);
    let right = s.subrange(j, s.len() as int);
    assert(s.insert(j, u) =~= (left + seq![u]) + right);
    lemma_net_concat(left + seq![u], right, rec, t);
    lemma_net_concat(left, seq![u], rec, t);
    lemma_net_singleton(u, rec, t);
    assert(s =~= left + right);
    lemma_net_concat(left, right, rec, t);
}

/// Inserting an update anywhere into a change log adds exactly its absolute
/// diff to `sum_abs`.
pub proof fn lemma_sum_abs_insert<R>(s: Seq<Update<R>>, j: int, u: Update<R>)
    requires
        0 <= j <= s.len(),
    ensures
        sum_abs(s.insert(j, u)) == sum_abs(s) + abs_diff(u.diff as int),
{
    let left = s.subrange(0, j);
    let right = s.subrange(j, s.len() as int);
    assert(s.insert(j, u) =~= (left + seq![u]) + right);
    lemma_sum_abs_concat(left + seq![u], right);
    lemma_sum_abs_concat(left, seq![u]);
    lemma_sum_abs_singleton(u);
    assert(s =~= left + right);
    lemma_sum_abs_concat(left, right);
}

/// A change log with no occurrence of `(rec, t)` has net diff zero there.
pub proof fn lemma_net_absent<R>(s: Seq<Update<R>>, rec: R, t: usize)
    requires
        forall|i: int| 0 <= i < s.len() ==> !#[trigger] matches_key(s[i], rec, t),
    ensures
        net(s, rec, t) == 0,
    decreases s.len(),
{
    if s.len() > 0 {
        assert(forall|i: int|
            0 <= i < s.drop_last().len() ==> s.drop_last()[i] == s[i]);
        lemma_net_absent(s.drop_last(), rec, t);
        assert(!matches_key(s[s.len() - 1], rec, t));
    }
}

/// `sum_abs` is non-negative, and bounds every net diff in both directions.
pub proof fn lemma_net_bounded<R>(s: Seq<Update<R>>, rec: R, t: usize)
    ensures
        0 <= sum_abs(s),
        -sum_abs(s) <= net(s, rec, t) <= sum_abs(s),
    decreases s.len(),
{
    if s.len() > 0 {
        lemma_net_bounded(s.drop_last(), rec, t);
    }
}

/// A change log of unit diffs has `sum_abs` equal to its length.
pub proof fn lemma_sum_abs_unit<R>(s: Seq<Update<R>>)
    requires
        unit_diffs(s),
    ensures
        sum_abs(s) == s.len(),
    decreases s.len(),
{
    if s.len() > 0 {
        assert(forall|i: int|
            0 <= i < s.drop_last().len() ==> s.drop_last()[i] == s[i]);
        lemma_sum_abs_unit(s.drop_last());
        assert(s[s.len() - 1].diff == 1 || s[s.len() - 1].diff == -1);
    }
}

} // verus!
