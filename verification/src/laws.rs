//! The library's laws, stated and proved over the same spec functions its
//! contracts use: seq dominance over interfering dependencies, monotone
//! stored states, uniqueness of assigned instances, idempotence of
//! execution, and determinism of the execution order across replicas.

use vstd::prelude::*;
use crate::types::{Instance, CommandState, ClientRequest, LogEntry, state_rank};
use crate::replica::{interferes, derived_seq_ok, seq_bump};
use crate::exec::{
    reach_step, reach_n, reach, good_one, ready_set, sched_lt, sched_min, sched_of_set,
    execution_schedule, run_schedule,
};

verus! {

/// Seq dominance: a derived sequence number strictly exceeds the seq of
/// every interfering instance the deriving replica had logged - exactly the
/// instances its deps absorb - as long as no stored seq sits at the very top
/// of `u64`, where the bump saturates.
pub proof fn lemma_seq_dominates_interfering(
    log: Map<Instance, LogEntry>,
    rv: crate::types::ReqV,
    cseq: u64,
    s: u64,
    i: Instance,
)
    requires
        derived_seq_ok(log, rv, cseq, s),
        log.contains_key(i),
        interferes(rv, log[i].req@),
        log[i].seq < u64::MAX,
    ensures
        s > log[i].seq,
{
    assert(s >= seq_bump(log[i].seq));
}

/// Monotone state: storing a state `st` under the update guard never leaves
/// the entry below `st`, and never lowers a state already stored.
pub proof fn lemma_state_monotone(
    l0: Map<Instance, LogEntry>,
    req: ClientRequest,
    cseq: u64,
    cdeps: Vec<Instance>,
    cins: Instance,
    st: CommandState,
)
    ensures
        ({
            let l1 = if l0.contains_key(cins) && state_rank(l0[cins].state) > state_rank(st) {
                l0
            } else {
                l0.insert(cins, (LogEntry { req: req, seq: cseq, deps: cdeps, state: st }))
            };
            &&& l1.contains_key(cins)
            &&& state_rank(l1[cins].state) >= state_rank(st)
            &&& l0.contains_key(cins) ==> state_rank(l1[cins].state) >= state_rank(l0[cins].state)
            &&& forall|j: Instance|
                #[trigger] l0.contains_key(j) && j != cins ==> l1.contains_key(j) && l1[j] == l0[j]
        }),
{
}

/// Once Committed, always Committed: the terminal state survives any stored
/// message under the update guard.
pub proof fn lemma_committed_terminal(
    l0: Map<Instance, LogEntry>,
    req: ClientRequest,
    cseq: u64,
    cdeps: Vec<Instance>,
    cins: Instance,
    st: CommandState,
)
    requires
        l0.contains_key(cins),
        l0[cins].state == CommandState::Committed,
    ensures
        ({
            let l1 = if l0.contains_key(cins) && state_rank(l0[cins].state) > state_rank(st) {
                l0
            } else {
                l0.insert(cins, (LogEntry { req: req, seq: cseq, deps: cdeps, state: st }))
            };
            l1[cins].state == CommandState::Committed
        }),
{
}

/// Instance uniqueness: an assignment is the assigner's own id paired with
/// its next counter value, so two assignments collide only when both the
/// replica and the counter value coincide.
pub proof fn lemma_instance_uniqueness(id1: u8, c1: u64, id2: u8, c2: u64)
    requires
        id1 != id2 || c1 != c2,
        c1 < u64::MAX,
        c2 < u64::MAX,
    ensures
        (Instance { replica: id1, slot: (c1 + 1) as u64 }) != (Instance {
            replica: id2,
            slot: (c2 + 1) as u64,
        }),
{
}

/// Running a schedule marks each of its instances executed.
proof fn lemma_run_covers(
    log: Map<Instance, LogEntry>,
    sched: Seq<Instance>,
    d: Map<Seq<char>, Seq<char>>,
    e: Set<Instance>,
)
    ensures
        forall|x: int|
            0 <= x < sched.len() ==> run_schedule(log, sched, d, e).1.contains(#[trigger] sched[x]),
        forall|i: Instance| e.contains(i) ==> #[trigger] run_schedule(log, sched, d, e).1.contains(i),
    decreases sched.len(),
{
    if sched.len() > 0 {
        lemma_run_covers(log, sched.drop_last(), d, e);
        assert(forall|x: int| 0 <= x < sched.len() - 1 ==> sched.drop_last()[x] == sched[x]);
        let m = run_schedule(log, sched.drop_last(), d, e);
        let r = run_schedule(log, sched, d, e);
        assert(r.1 == m.1 || r.1 == m.1.insert(sched.last()));
        assert forall|i: Instance| e.contains(i) implies #[trigger] r.1.contains(i) by {
            assert(m.1.contains(i));
        }
        assert forall|x: int| 0 <= x < sched.len() implies r.1.contains(#[trigger] sched[x]) by {
            if x < sched.len() - 1 {
                assert(m.1.contains(sched.drop_last()[x]));
            }
        }
    }
}

/// Execution idempotence: running the same schedule a second time, from the
/// state the first run left, changes nothing and earns no replies.
pub proof fn lemma_execution_idempotent(
    log: Map<Instance, LogEntry>,
    sched: Seq<Instance>,
    d: Map<Seq<char>, Seq<char>>,
    e: Set<Instance>,
)
    ensures
        ({
            let once = run_schedule(log, sched, d, e);
            let twice = run_schedule(log, sched, once.0, once.1);
            twice.0 == once.0 && twice.1 == once.1 && twice.2 == Seq::<(
                Seq<char>,
                crate::types::ReplyV,
            )>::empty()
        }),
    decreases sched.len(),
{
    let once = run_schedule(log, sched, d, e);
    if sched.len() > 0 {
        let pre = sched.drop_last();
        lemma_run_covers(log, pre, d, e);
        lemma_run_covers(log, sched, d, e);
        lemma_execution_idempotent_helper(log, sched, pre, d, e, once.0, once.1);
    }
}

/// Helper: running any schedule whose instances are all already executed is
/// a no-op.
proof fn lemma_run_noop(
    log: Map<Instance, LogEntry>,
    sched: Seq<Instance>,
    d: Map<Seq<char>, Seq<char>>,
    e: Set<Instance>,
)
    requires
        forall|x: int| 0 <= x < sched.len() ==> e.contains(#[trigger] sched[x]),
    ensures
        run_schedule(log, sched, d, e) == (d, e, Seq::<(Seq<char>, crate::types::ReplyV)>::empty()),
    decreases sched.len(),
{
    if sched.len() > 0 {
        assert(forall|x: int| 0 <= x < sched.len() - 1 ==> sched.drop_last()[x] == sched[x]);
        lemma_run_noop(log, sched.drop_last(), d, e);
        assert(e.contains(sched[sched.len() - 1]));
    }
}

/// Helper naming the pieces of the idempotence argument.
proof fn lemma_execution_idempotent_helper(
    log: Map<Instance, LogEntry>,
    sched: Seq<Instance>,
    pre: Seq<Instance>,
    d: Map<Seq<char>, Seq<char>>,
    e: Set<Instance>,
    d1: Map<Seq<char>, Seq<char>>,
    e1: Set<Instance>,
)
    requires
        d1 == run_schedule(log, sched, d, e).0,
        e1 == run_schedule(log, sched, d, e).1,
        forall|x: int| 0 <= x < sched.len() ==> e1.contains(#[trigger] sched[x]),
    ensures
        run_schedule(log, sched, d1, e1) == (d1, e1, Seq::<(
            Seq<char>,
            crate::types::ReplyV,
        )>::empty()),
{
    lemma_run_noop(log, sched, d1, e1);
}

/// Two logs agree up to views: same instances, and each entry carries the
/// same request view, seq, dependency set and state. This is how the same
/// committed information looks on two different replicas, whatever order
/// their lists keep it in.
pub open spec fn log_equiv(a: Map<Instance, LogEntry>, b: Map<Instance, LogEntry>) -> bool {
    &&& a.dom() == b.dom()
    &&& forall|i: Instance| #[trigger] a.contains_key(i) ==> a[i]@ == b[i]@
}

/// One reachability step is the same on view-equal logs.
proof fn lemma_reach_step_equiv(
    a: Map<Instance, LogEntry>,
    b: Map<Instance, LogEntry>,
    s: Set<Instance>,
)
    requires
        log_equiv(a, b),
    ensures
        reach_step(a, s) == reach_step(b, s),
{
    assert forall|k: Instance| reach_step(a, s).contains(k) implies reach_step(b, s).contains(
        k,
    ) by {
        if !s.contains(k) {
            let i = choose|i: Instance|
                #[trigger] s.contains(i) && a.contains_key(i) && a[i].deps@.contains(k);
            assert(a[i]@.deps == b[i]@.deps);
            assert(a[i].deps@.to_set().contains(k));
            assert(b[i].deps@.to_set().contains(k));
            assert(b[i].deps@.contains(k));
        }
    }
    assert forall|k: Instance| reach_step(b, s).contains(k) implies reach_step(a, s).contains(
        k,
    ) by {
        if !s.contains(k) {
            let i = choose|i: Instance|
                #[trigger] s.contains(i) && b.contains_key(i) && b[i].deps@.contains(k);
            assert(a[i]@.deps == b[i]@.deps);
            assert(b[i].deps@.to_set().contains(k));
            assert(a[i].deps@.to_set().contains(k));
            assert(a[i].deps@.contains(k));
        }
    }
    assert(reach_step(a, s) =~= reach_step(b, s));
}

/// Reachability is the same on view-equal logs.
proof fn lemma_reach_equiv(a: Map<Instance, LogEntry>, b: Map<Instance, LogEntry>, i: Instance)
    requires
        log_equiv(a, b),
    ensures
        reach(a, i) == reach(b, i),
{
    lemma_reach_n_equiv(a, b, i, a.dom().len());
}

proof fn lemma_reach_n_equiv(
    a: Map<Instance, LogEntry>,
    b: Map<Instance, LogEntry>,
    i: Instance,
    fuel: nat,
)
    requires
        log_equiv(a, b),
    ensures
        reach_n(a, i, fuel) == reach_n(b, i, fuel),
    decreases fuel,
{
    if fuel > 0 {
        lemma_reach_n_equiv(a, b, i, (fuel - 1) as nat);
        lemma_reach_step_equiv(a, b, reach_n(a, i, (fuel - 1) as nat));
    }
}

/// Readiness is the same on view-equal logs.
proof fn lemma_ready_equiv(a: Map<Instance, LogEntry>, b: Map<Instance, LogEntry>)
    requires
        log_equiv(a, b),
    ensures
        ready_set(a) == ready_set(b),
{
    assert forall|i: Instance| ready_set(a).contains(i) implies ready_set(b).contains(i) by {
        lemma_reach_equiv(a, b, i);
        assert forall|j: Instance| #[trigger] reach(b, i).contains(j) implies good_one(b, j) by {
            assert(good_one(a, j));
            assert(a[j]@ == b[j]@);
            assert forall|x: int| 0 <= x < b[j].deps@.len() implies b.contains_key(
                #[trigger] b[j].deps@[x],
            ) by {
                assert(b[j].deps@.to_set().contains(b[j].deps@[x]));
                assert(a[j].deps@.to_set().contains(b[j].deps@[x]));
                assert(a[j].deps@.contains(b[j].deps@[x]));
                let y = choose|y: int|
                    0 <= y < a[j].deps@.len() && a[j].deps@[y] == b[j].deps@[x];
                assert(a.contains_key(a[j].deps@[y]));
            }
        }
    }
    assert forall|i: Instance| ready_set(b).contains(i) implies ready_set(a).contains(i) by {
        lemma_reach_equiv(a, b, i);
        assert forall|j: Instance| #[trigger] reach(a, i).contains(j) implies good_one(a, j) by {
            assert(good_one(b, j));
            assert(a[j]@ == b[j]@);
            assert forall|x: int| 0 <= x < a[j].deps@.len() implies a.contains_key(
                #[trigger] a[j].deps@[x],
            ) by {
                assert(a[j].deps@.to_set().contains(a[j].deps@[x]));
                assert(b[j].deps@.to_set().contains(a[j].deps@[x]));
                assert(b[j].deps@.contains(a[j].deps@[x]));
                let y = choose|y: int|
                    0 <= y < b[j].deps@.len() && b[j].deps@[y] == a[j].deps@[x];
                assert(b.contains_key(b[j].deps@[y]));
            }
        }
    }
    assert(ready_set(a) =~= ready_set(b));
}

/// A finite nonempty set has a least element under the canonical order.
proof fn lemma_min_exists(log: Map<Instance, LogEntry>, s: Set<Instance>)
    requires
        s.finite(),
        s.len() > 0,
    ensures
        exists|m: Instance|
            #[trigger] s.contains(m) && forall|x: Instance|
                #[trigger] s.contains(x) ==> !sched_lt(log, x, m),
    decreases s.len(),
{
    let x = s.choose();
    assert(s.contains(x));
    let sp = s.remove(x);
    if sp.len() == 0 {
        assert(sp =~= Set::<Instance>::empty());
        assert forall|y: Instance| #[trigger] s.contains(y) implies !sched_lt(log, y, x) by {
            if y != x {
                assert(sp.contains(y));
            }
        }
        assert(s.contains(x) && forall|y: Instance|
            #[trigger] s.contains(y) ==> !sched_lt(log, y, x));
    } else {
        lemma_min_exists(log, sp);
        let m = choose|m: Instance|
            #[trigger] sp.contains(m) && forall|y: Instance|
                #[trigger] sp.contains(y) ==> !sched_lt(log, y, m);
        if !sched_lt(log, x, m) {
            assert forall|y: Instance| #[trigger] s.contains(y) implies !sched_lt(log, y, m) by {
                if y != x {
                    assert(sp.contains(y));
                }
            }
            assert(s.contains(m) && forall|y: Instance|
                #[trigger] s.contains(y) ==> !sched_lt(log, y, m));
        } else {
            assert forall|y: Instance| #[trigger] s.contains(y) implies !sched_lt(log, y, x) by {
                if y != x {
                    assert(sp.contains(y));
                    assert(!sched_lt(log, y, m));
                }
            }
            assert(s.contains(x) && forall|y: Instance|
                #[trigger] s.contains(y) ==> !sched_lt(log, y, x));
        }
    }
}

/// The canonical listing of a finite set is strictly sorted, without
/// duplicates, and lists exactly the set.
proof fn lemma_sched_of_set_props(log: Map<Instance, LogEntry>, s: Set<Instance>)
    requires
        s.finite(),
    ensures
        crate::exec::sched_sorted(log, sched_of_set(log, s)),
        sched_of_set(log, s).no_duplicates(),
        sched_of_set(log, s).to_set() == s,
    decreases s.len(),
{
    let sq = sched_of_set(log, s);
    if s.len() == 0 {
        assert(sq =~= Seq::<Instance>::empty());
        assert(sq.to_set() =~= s);
    } else {
        lemma_min_exists(log, s);
        let m = sched_min(log, s);
        assert(s.contains(m) && forall|x: Instance|
            #[trigger] s.contains(x) ==> !sched_lt(log, x, m));
        lemma_sched_of_set_props(log, s.remove(m));
        let rest = sched_of_set(log, s.remove(m));
        assert(sq == seq![m] + rest);
        assert(sq.len() == 1 + rest.len());
        assert(sq[0] == m);
        assert(forall|x: int| 1 <= x < sq.len() ==> sq[x] == rest[x - 1]);
        assert forall|x: int, y: int| 0 <= x < y < sq.len() implies sched_lt(
            log,
            #[trigger] sq[x],
            #[trigger] sq[y],
        ) by {
            if x == 0 {
                assert(rest.to_set().contains(rest[y - 1]));
                assert(s.remove(m).contains(sq[y]));
                assert(!sched_lt(log, sq[y], m) && sq[y] != m);
                assert(sched_lt(log, m, sq[y]) || sched_lt(log, sq[y], m));
            }
        }
        assert forall|k: Instance| #[trigger] sq.to_set().contains(k) implies s.contains(k) by {
            let x = choose|x: int| 0 <= x < sq.len() && sq[x] == k;
            if x > 0 {
                assert(rest.to_set().contains(rest[x - 1]));
            }
        }
        assert forall|k: Instance| #[trigger] s.contains(k) implies sq.to_set().contains(k) by {
            if k != m {
                assert(s.remove(m).contains(k));
                assert(rest.to_set().contains(k));
                let x = choose|x: int| 0 <= x < rest.len() && rest[x] == k;
                assert(sq[x + 1] == k);
            } else {
                assert(sq[0] == k);
            }
        }
        assert(sq.to_set() =~= s);
        assert forall|x: int, y: int| 0 <= x < y < sq.len() implies sq[x] != sq[y] by {
            assert(sched_lt(log, sq[x], sq[y]));
        }
    }
}

/// The canonical order is the same on view-equal logs.
proof fn lemma_sched_of_set_equiv(
    a: Map<Instance, LogEntry>,
    b: Map<Instance, LogEntry>,
    s: Set<Instance>,
)
    requires
        log_equiv(a, b),
        s.finite(),
        forall|i: Instance| s.contains(i) ==> a.contains_key(i),
    ensures
        sched_of_set(a, s) == sched_of_set(b, s),
{
    lemma_sched_of_set_props(a, s);
    let sa = sched_of_set(a, s);
    assert forall|x: int, y: int| 0 <= x < y < sa.len() implies sched_lt(
        b,
        #[trigger] sa[x],
        #[trigger] sa[y],
    ) by {
        assert(sa.to_set().contains(sa[x]) && sa.to_set().contains(sa[y]));
        assert(s.contains(sa[x]) && s.contains(sa[y]));
        lemma_reach_equiv(a, b, sa[x]);
        lemma_reach_equiv(a, b, sa[y]);
        assert(a[sa[x]]@ == b[sa[x]]@ && a[sa[y]]@ == b[sa[y]]@);
    }
    crate::exec::lemma_sorted_unique(b, sa);
}

/// Determinism of the execution order: two replicas whose logs agree up to
/// views walk the same schedule.
pub proof fn lemma_schedule_deterministic(a: Map<Instance, LogEntry>, b: Map<Instance, LogEntry>)
    requires
        log_equiv(a, b),
        a.dom().finite(),
    ensures
        execution_schedule(a) == execution_schedule(b),
{
    lemma_ready_equiv(a, b);
    lemma_ready_finite(a);
    lemma_sched_of_set_equiv(a, b, ready_set(a));
}

/// The ready set of a finite log is finite.
proof fn lemma_ready_finite(a: Map<Instance, LogEntry>)
    requires
        a.dom().finite(),
    ensures
        ready_set(a).finite(),
        forall|i: Instance| #[trigger] ready_set(a).contains(i) ==> a.contains_key(i),
{
    broadcast use vstd::set_lib::lemma_set_subset_finite;

    assert(ready_set(a).subset_of(a.dom()));
}

/// Determinism of execution: from the same dictionary and executed set, two
/// replicas whose logs agree up to views run the same schedule with the same
/// mutations and earn the same replies - so, in particular, all-committed
/// logs yield identical dictionaries everywhere.
pub proof fn lemma_execution_deterministic(
    a: Map<Instance, LogEntry>,
    b: Map<Instance, LogEntry>,
    d: Map<Seq<char>, Seq<char>>,
    e: Set<Instance>,
)
    requires
        log_equiv(a, b),
        a.dom().finite(),
    ensures
        run_schedule(a, execution_schedule(a), d, e) == run_schedule(
            b,
            execution_schedule(b),
            d,
            e,
        ),
{
    lemma_schedule_deterministic(a, b);
    lemma_ready_finite(a);
    lemma_sched_of_set_members(a, ready_set(a));
    lemma_run_equiv(a, b, execution_schedule(a), d, e);
}

/// Every element of the canonical listing of a set is in the set.
proof fn lemma_sched_of_set_members(log: Map<Instance, LogEntry>, s: Set<Instance>)
    requires
        s.finite(),
    ensures
        forall|x: int|
            0 <= x < sched_of_set(log, s).len() ==> s.contains(#[trigger] sched_of_set(log, s)[x]),
    decreases s.len(),
{
    if s.finite() && s.len() > 0 && s.contains(sched_min(log, s)) {
        let m = sched_min(log, s);
        lemma_sched_of_set_members(log, s.remove(m));
        assert(forall|x: int|
            1 <= x < sched_of_set(log, s).len() ==> sched_of_set(log, s)[x] == sched_of_set(
                log,
                s.remove(m),
            )[x - 1]);
    }
}

/// Running the same schedule of logged instances on view-equal logs applies
/// the same mutations.
proof fn lemma_run_equiv(
    a: Map<Instance, LogEntry>,
    b: Map<Instance, LogEntry>,
    sched: Seq<Instance>,
    d: Map<Seq<char>, Seq<char>>,
    e: Set<Instance>,
)
    requires
        log_equiv(a, b),
        forall|x: int| 0 <= x < sched.len() ==> a.contains_key(#[trigger] sched[x]),
    ensures
        run_schedule(a, sched, d, e) == run_schedule(b, sched, d, e),
    decreases sched.len(),
{
    if sched.len() > 0 {
        assert(forall|x: int| 0 <= x < sched.len() - 1 ==> sched.drop_last()[x] == sched[x]);
        lemma_run_equiv(a, b, sched.drop_last(), d, e);
        let i = sched.last();
        let m = run_schedule(a, sched.drop_last(), d, e);
        if !m.1.contains(i) {
            assert(a.contains_key(sched[sched.len() - 1]));
            assert(a[i]@ == b[i]@);
            assert(a[i].req@ == b[i].req@);
        }
    }
}

} // verus!
