//! The end-to-end pipeline: a deterministic, caller-sized scenario drives an
//! input session through a sequence of inserts, removals and time advances;
//! the evolving base relation is self-joined and consolidated, and the final
//! minimal change stream of the derived "grandparent" relation is returned.

use vstd::prelude::*;
use crate::collection::Collection;
use crate::consolidate::{consolidate, is_consolidation_of};
use crate::join::{join, join_spec, lemma_join_spec_len, lemma_join_spec_unit};
use crate::session::{Error, InputSession};
use crate::update::{Pair, Triple, Update, sum_abs, unit_diffs, lemma_sum_abs_unit};

verus! {

/// The largest accepted relation size. A machine limit, not a logical one:
/// it keeps every possible summed multiplicity of the self-joined scenario
/// change log within the diff type.
pub const MAX_SIZE: usize = 1_000_000_000;

/// The base-relation insert for `person`: the binary-tree parent edge
/// `(person / 2, person)`, staged at time zero.
pub open spec fn init_update(person: usize) -> Update<Pair> {
    Update { rec: (person / 2, person), time: 0, diff: 1i64 }
}

/// The initial change log: parent edges for persons `0 .. n`, all at time
/// zero.
pub open spec fn initial_log(n: usize) -> Seq<Update<Pair>>
    decreases n,
{
    if n == 0 {
        Seq::empty()
    } else {
        initial_log((n - 1) as usize).push(init_update((n - 1) as usize))
    }
}

/// The edge rewrite for `person`, at time `person`: the binary-tree parent
/// is retracted and the ternary-tree parent `person / 3` inserted.
pub open spec fn rewrite_pair(person: usize) -> Seq<Update<Pair>> {
    seq![
        Update { rec: (person / 2, person), time: person, diff: -1i64 },
        Update { rec: (person / 3, person), time: person, diff: 1i64 },
    ]
}

/// The rewrites of persons `1 ..= m`, in time order.
pub open spec fn rewrite_log(m: usize) -> Seq<Update<Pair>>
    decreases m,
{
    if m == 0 {
        Seq::empty()
    } else {
        rewrite_log((m - 1) as usize) + rewrite_pair(m)
    }
}

/// The whole deterministic change log of the base relation for `size`
/// persons: a binary tree of parent edges at time zero, then one edge
/// rewrite per later time.
pub open spec fn scenario_log(size: usize) -> Seq<Update<Pair>> {
    if size == 0 {
        Seq::empty()
    } else {
        initial_log(size) + rewrite_log((size - 1) as usize)
    }
}

/// The record with key and value exchanged: a `(parent, child)` edge indexed
/// by parent becomes a `(child, parent)` edge indexed by child, so the
/// self-join matches each edge's child against that child's own children.
pub open spec fn swapped(u: Update<Pair>) -> Update<Pair> {
    Update { rec: (u.rec.1, u.rec.0), time: u.time, diff: u.diff }
}

/// A change log with every record swapped, element by element.
pub open spec fn swap_log(s: Seq<Update<Pair>>) -> Seq<Update<Pair>>
    decreases s.len(),
{
    if s.len() == 0 {
        Seq::empty()
    } else {
        swap_log(s.drop_last()).push(swapped(s.last()))
    }
}

/// `swap_log` acts pointwise and keeps the length.
pub proof fn lemma_swap_log_props(s: Seq<Update<Pair>>)
    ensures
        swap_log(s).len() == s.len(),
        forall|i: int| 0 <= i < s.len() ==> swap_log(s)[i] == swapped(#[trigger] s[i]),
    decreases s.len(),
{
    if s.len() > 0 {
        lemma_swap_log_props(s.drop_last());
        assert forall|i: int| 0 <= i < s.len() implies swap_log(s)[i] == swapped(
            #[trigger] s[i],
        ) by {
            if i < s.len() - 1 {
                assert(swap_log(s)[i] == swap_log(s.drop_last())[i]);
                assert(s.drop_last()[i] == s[i]);
            } else {
                assert(swap_log(s)[i] == swapped(s.last()));
            }
        }
    }
}

proof fn lemma_initial_log_props(n: usize)
    ensures
        initial_log(n).len() == n,
        unit_diffs(initial_log(n)),
    decreases n,
{
    if n > 0 {
        let m = (n - 1) as usize;
        lemma_initial_log_props(m);
        assert forall|i: int| 0 <= i < initial_log(n).len() implies (#[trigger] initial_log(
            n,
        )[i].diff == 1 || initial_log(n)[i].diff == -1) by {
            if i < m {
                assert(initial_log(n)[i] == initial_log(m)[i]);
                assert(initial_log(m)[i].diff == 1 || initial_log(m)[i].diff == -1);
            } else {
                assert(initial_log(n)[i] == init_update(m));
            }
        }
    }
}

proof fn lemma_rewrite_log_props(m: usize)
    ensures
        rewrite_log(m).len() == 2 * m,
        unit_diffs(rewrite_log(m)),
    decreases m,
{
    if m > 0 {
        let k = (m - 1) as usize;
        lemma_rewrite_log_props(k);
        assert(rewrite_pair(m).len() == 2);
        assert forall|i: int| 0 <= i < rewrite_log(m).len() implies (#[trigger] rewrite_log(
            m,
        )[i].diff == 1 || rewrite_log(m)[i].diff == -1) by {
            if i < 2 * k {
                assert(rewrite_log(m)[i] == rewrite_log(k)[i]);
                assert(rewrite_log(k)[i].diff == 1 || rewrite_log(k)[i].diff == -1);
            } else {
                assert(rewrite_log(m)[i] == rewrite_pair(m)[i - 2 * k]);
            }
        }
    }
}

/// The scenario's change log holds only unit diffs, and fewer than three
/// updates per person.
pub proof fn lemma_scenario_log_props(size: usize)
    ensures
        scenario_log(size).len() <= 3 * (size as int),
        unit_diffs(scenario_log(size)),
{
    if size > 0 {
        let m = (size - 1) as usize;
        lemma_initial_log_props(size);
        lemma_rewrite_log_props(m);
        assert forall|i: int| 0 <= i < scenario_log(size).len() implies (#[trigger] scenario_log(
            size,
        )[i].diff == 1 || scenario_log(size)[i].diff == -1) by {
            if i < size {
                assert(scenario_log(size)[i] == initial_log(size)[i]);
                assert(initial_log(size)[i].diff == 1 || initial_log(size)[i].diff == -1);
            } else {
                assert(scenario_log(size)[i] == rewrite_log(m)[i - size]);
                assert(rewrite_log(m)[i - size].diff == 1 || rewrite_log(m)[i - size].diff
                    == -1);
            }
        }
    }
}

/// Re-keys a change log for the self-join: swaps each record in place.
pub fn swap_collection(c: &Collection<Pair>) -> (out: Collection<Pair>)
    ensures
        out@ == swap_log(c@),
{
    let mut out: Collection<Pair> = Collection::new();
    let n = c.len();
    let mut i: usize = 0;
    while i < n
        invariant
            i <= n,
            n == c@.len(),
            out@ == swap_log(c@.take(i as int)),
        decreases n - i,
    {
        let u = *c.get(i);
        out.updates.push(Update { rec: (u.rec.1, u.rec.0), time: u.time, diff: u.diff });
        proof {
            assert(c@.take(i as int + 1).drop_last() =~= c@.take(i as int));
            assert(c@.take(i as int + 1).last() == c@[i as int]);
        }
        i += 1;
    }
    proof {
        assert(c@.take(n as int) =~= c@);
    }
    out
}

/// Builds the pipeline and drives it through the deterministic scenario for
/// `size` persons: the binary-tree parent relation is loaded at time zero,
/// then at each later time one person's parent edge is rewritten. The result
/// is the consolidated change stream of the derived "grandparent" relation —
/// one update per surviving `(record, time)` group, in emission order — as
/// the pipeline's observer would receive it. The scenario advances time
/// monotonically, so the session never rejects it and `run` never fails.
pub fn run(size: usize) -> (r: Result<Vec<Update<Triple>>, Error>)
    requires
        size <= MAX_SIZE,
    ensures
        match r {
            Ok(v) => is_consolidation_of(
                v@,
                join_spec(swap_log(scenario_log(size)), scenario_log(size)),
            ),
            Err(_) => false,
        },
{
    let mut session = InputSession::new();
    let mut base: Collection<Pair> = Collection::new();

    let mut person: usize = 0;
    while person < size
        invariant
            person <= size,
            session.time == 0,
            session.wf(),
            base@.len() == 0,
            session.pending@ == initial_log(person),
        decreases size - person,
    {
        session.insert((person / 2, person));
        person += 1;
    }

    let mut p: usize = 1;
    while p < size
        invariant
            1 <= p,
            p <= size || p == 1,
            session.wf(),
            session.time == p - 1,
            base@ + session.pending@ == initial_log(size) + rewrite_log((p - 1) as usize),
        decreases size - p,
    {
        let ghost pre_base = base@;
        let ghost pre_pending = session.pending@;
        match session.advance_to(p, &mut base) {
            Ok(()) => {},
            Err(e) => {
                return Err(e);
            },
        }
        session.remove((p / 2, p));
        session.insert((p / 3, p));
        proof {
            assert(session.pending@ =~= rewrite_pair(p));
            assert(rewrite_log(p) == rewrite_log((p - 1) as usize) + rewrite_pair(p));
            assert(base@ + session.pending@ =~= (pre_base + pre_pending) + rewrite_pair(p));
            assert((initial_log(size) + rewrite_log((p - 1) as usize)) + rewrite_pair(p)
                =~= initial_log(size) + rewrite_log(p));
        }
        p += 1;
    }

    let ghost pre_base = base@;
    let ghost pre_pending = session.pending@;
    match session.advance_to(size, &mut base) {
        Ok(()) => {},
        Err(e) => {
            return Err(e);
        },
    }
    proof {
        if size == 0 {
            assert(base@ =~= scenario_log(size));
        } else {
            assert(p == size);
            assert(base@ =~= initial_log(size) + rewrite_log((size - 1) as usize));
        }
        assert(base@ == scenario_log(size));
    }

    let mapped = swap_collection(&base);
    proof {
        lemma_scenario_log_props(size);
        lemma_swap_log_props(base@);
        assert(unit_diffs(mapped@)) by {
            assert forall|i: int| 0 <= i < mapped@.len() implies (#[trigger] mapped@[i].diff == 1
                || mapped@[i].diff == -1) by {
                assert(mapped@[i] == swapped(base@[i]));
                assert(base@[i].diff == 1 || base@[i].diff == -1);
            }
        }
        assert forall|i: int, j: int|
            0 <= i < mapped@.len() && 0 <= j < base@.len() implies i64::MIN
            <= #[trigger] (mapped@[i].diff as int * base@[j].diff as int) <= i64::MAX by {
            assert(mapped@[i].diff == 1 || mapped@[i].diff == -1);
            assert(base@[j].diff == 1 || base@[j].diff == -1);
        }
    }
    let derived = join(&mapped, &base);
    proof {
        lemma_join_spec_unit(mapped@, base@);
        lemma_sum_abs_unit(derived@);
        lemma_join_spec_len(mapped@, base@);
        let ls = mapped@.len() as int;
        let lb = base@.len() as int;
        assert(ls * lb <= i64::MAX) by (nonlinear_arith)
            requires
                0 <= ls,
                0 <= lb,
                ls <= 3 * (size as int),
                lb <= 3 * (size as int),
                size <= 1_000_000_000,
        {}
        assert(sum_abs(derived@) <= i64::MAX as int);
    }
    let out = consolidate(derived.updates);
    Ok(out)
}

} // verus!
