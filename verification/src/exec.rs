//! The execution engine: committed instances are applied to the dictionary
//! in a canonical order - dependencies first, mutually dependent groups by
//! seq with the instance id as tie-breaker - so every replica with the same
//! committed log performs the same sequence of dictionary mutations.

use vstd::prelude::*;
use crate::types::{
    Instance, CommandState, ClientRequest, ClientReply, ReqV, ReplyV, LogEntry, ins_keys_unique,
    ins_map_of, ins_lt,
};
use crate::store::{
    ins_get, ins_vec_contains, ins_vec_add, copy_ins_vec, str_get, str_set, lemma_ins_map_index,
    lemma_ins_map_key_has_index, lemma_ins_map_dom_len,
};
use crate::replica::ReplicaState;

verus! {

/// One expansion step of reachability: the set together with every logged
/// dependency of a logged member.
pub open spec fn reach_step(log: Map<Instance, LogEntry>, s: Set<Instance>) -> Set<Instance> {
    s.union(
        Set::new(
            |k: Instance|
                log.contains_key(k) && exists|i: Instance|
                    #[trigger] s.contains(i) && log.contains_key(i) && log[i].deps@.contains(k),
        ),
    )
}

/// Reachability from `i`, expanded `fuel` times.
pub open spec fn reach_n(log: Map<Instance, LogEntry>, i: Instance, fuel: nat) -> Set<Instance>
    decreases fuel,
{
    if fuel == 0 {
        Set::empty().insert(i)
    } else {
        reach_step(log, reach_n(log, i, (fuel - 1) as nat))
    }
}

/// The instances transitively depended on by `i` (including `i` itself):
/// expanding once per logged instance reaches the closure, as every step
/// below the closure adds at least one logged instance.
pub open spec fn reach(log: Map<Instance, LogEntry>, i: Instance) -> Set<Instance> {
    reach_n(log, i, log.dom().len())
}

/// The instances this replica's log transitively reaches from `i`, as a
/// list without duplicates.
#[verifier::loop_isolation(false)]
pub fn reach_of(cmds: &Vec<(Instance, LogEntry)>, i: Instance) -> (r: Vec<Instance>)
    requires
        ins_keys_unique(cmds@),
    ensures
        r@.to_set() == reach(ins_map_of(cmds@), i),
        r@.no_duplicates(),
{
    let ghost log = ins_map_of(cmds@);
    let mut r: Vec<Instance> = Vec::new();
    r.push(i);
    proof {
        assert(r@ =~= Seq::empty().push(i));
        assert(r@.len() == 1 && r@[0] == i);
        assert(r@.contains(i));
        assert forall|k: Instance| #[trigger] r@.to_set().contains(k) implies k == i by {
            let q = choose|q: int| 0 <= q < r@.len() && r@[q] == k;
        }
        assert(r@.to_set() =~= reach_n(log, i, 0));
        assert(r@.no_duplicates());
        lemma_ins_map_dom_len(cmds@);
    }
    let n = cmds.len();
    for step in 0..n
        invariant
            r@.to_set() == reach_n(log, i, step as nat),
            r@.no_duplicates(),
    {
        let ghost spre = r@.to_set();
        let mut r2 = copy_ins_vec(&r);
        let rl = r.len();
        for p in 0..rl
            invariant
                rl == r@.len(),
                spre == r@.to_set(),
                r2@.no_duplicates(),
                forall|k: Instance| spre.contains(k) ==> #[trigger] r2@.to_set().contains(k),
                forall|k: Instance|
                    #[trigger] r2@.to_set().contains(k) ==> spre.contains(k) || (log.contains_key(
                        k,
                    ) && exists|q: int|
                        0 <= q < p && log.contains_key(#[trigger] r@[q]) && log[r@[q]].deps@.contains(
                            k,
                        )),
                forall|q: int, x: int|
                    #![auto]
                    0 <= q < p && log.contains_key(r@[q]) && 0 <= x < log[r@[q]].deps@.len()
                        && log.contains_key(log[r@[q]].deps@[x]) ==> r2@.to_set().contains(
                        log[r@[q]].deps@[x],
                    ),
        {
            let m = r[p];
            let ghost pint = p as int;
            match ins_get(cmds, m) {
                Some(e) => {
                    let ghost edeps = e.deps@;
                    let dl = e.deps.len();
                    for q in 0..dl
                        invariant
                            dl == edeps.len(),
                            edeps == log[r@[pint]].deps@,
                            log.contains_key(r@[pint]),
                            r2@.no_duplicates(),
                            forall|k: Instance|
                                spre.contains(k) ==> #[trigger] r2@.to_set().contains(k),
                            forall|k: Instance|
                                #[trigger] r2@.to_set().contains(k) ==> spre.contains(k) || (
                                log.contains_key(k) && exists|qq: int|
                                    0 <= qq <= pint && log.contains_key(#[trigger] r@[qq])
                                        && log[r@[qq]].deps@.contains(k)),
                            forall|qq: int, x: int|
                                #![auto]
                                0 <= qq < pint && log.contains_key(r@[qq]) && 0 <= x
                                    < log[r@[qq]].deps@.len() && log.contains_key(
                                    log[r@[qq]].deps@[x],
                                ) ==> r2@.to_set().contains(log[r@[qq]].deps@[x]),
                            forall|x: int|
                                #![auto]
                                0 <= x < q && log.contains_key(edeps[x]) ==> r2@.to_set().contains(
                                    edeps[x],
                                ),
                    {
                        let d = e.deps[q];
                        if ins_get(cmds, d).is_some() {
                            ins_vec_add(&mut r2, d);
                            proof {
                                assert(edeps.contains(edeps[q as int]));
                            }
                        }
                    }
                },
                None => {
                },
            }
        }
        proof {
            assert forall|k: Instance| reach_step(log, spre).contains(k) implies #[trigger] r2@.to_set().contains(
                k,
            ) by {
                if !spre.contains(k) {
                    let w = choose|w: Instance|
                        #[trigger] spre.contains(w) && log.contains_key(w) && log[w].deps@.contains(
                            k,
                        );
                    assert(r@.contains(w));
                    let q = choose|q: int| 0 <= q < r@.len() && r@[q] == w;
                    let x = choose|x: int| 0 <= x < log[w].deps@.len() && log[w].deps@[x] == k;
                    assert(r2@.to_set().contains(log[r@[q]].deps@[x]));
                }
            }
            assert forall|k: Instance| #[trigger] r2@.to_set().contains(k) implies reach_step(
                log,
                spre,
            ).contains(k) by {
                if !spre.contains(k) {
                    let q = choose|q: int|
                        0 <= q < rl && log.contains_key(#[trigger] r@[q]) && log[r@[q]].deps@.contains(
                            k,
                        );
                    assert(spre.contains(r@[q]));
                }
            }
            assert(r2@.to_set() =~= reach_step(log, spre));
        }
        r = r2;
    }
    r
}

/// A logged instance is good for execution when it is Committed and every
/// direct dependency of it stands in the log.
pub open spec fn good_one(log: Map<Instance, LogEntry>, j: Instance) -> bool {
    &&& log.contains_key(j)
    &&& log[j].state == CommandState::Committed
    &&& forall|x: int| 0 <= x < log[j].deps@.len() ==> log.contains_key(#[trigger] log[j].deps@[x])
}

/// An instance may execute only when everything it transitively reaches is
/// good: present, Committed, and with no dependency dangling outside the log.
pub open spec fn exec_ready(log: Map<Instance, LogEntry>, i: Instance) -> bool {
    forall|j: Instance| #[trigger] reach(log, i).contains(j) ==> good_one(log, j)
}

/// The logged instances that are safe to execute now.
pub open spec fn ready_set(log: Map<Instance, LogEntry>) -> Set<Instance> {
    Set::new(|i: Instance| log.contains_key(i) && exec_ready(log, i))
}

/// The canonical execution order: instances with smaller reachable sets come
/// first (a dependency's reachable set is strictly contained in its
/// dependent's), mutually dependent instances have equal reachable sets and
/// are ordered by seq, and the instance id breaks remaining ties.
pub open spec fn sched_lt(log: Map<Instance, LogEntry>, a: Instance, b: Instance) -> bool {
    let ra = reach(log, a).len();
    let rb = reach(log, b).len();
    ||| ra < rb
    ||| (ra == rb && log[a].seq < log[b].seq)
    ||| (ra == rb && log[a].seq == log[b].seq && ins_lt(a, b))
}

/// The least instance of a set under the canonical order.
pub open spec fn sched_min(log: Map<Instance, LogEntry>, s: Set<Instance>) -> Instance {
    choose|m: Instance|
        s.contains(m) && forall|x: Instance| #[trigger] s.contains(x) ==> !sched_lt(log, x, m)
}

/// The elements of a finite set, listed in the canonical order.
pub open spec fn sched_of_set(log: Map<Instance, LogEntry>, s: Set<Instance>) -> Seq<Instance>
    decreases s.len() when s.finite()
{
    if s.finite() && s.len() > 0 && s.contains(sched_min(log, s)) {
        seq![sched_min(log, s)] + sched_of_set(log, s.remove(sched_min(log, s)))
    } else {
        Seq::empty()
    }
}

/// The full execution schedule of a log: its ready instances in canonical
/// order. A function of the log alone: two replicas with the same log walk
/// the same schedule.
pub open spec fn execution_schedule(log: Map<Instance, LogEntry>) -> Seq<Instance> {
    sched_of_set(log, ready_set(log))
}

/// Strictly sorted in the canonical order.
pub open spec fn sched_sorted(log: Map<Instance, LogEntry>, s: Seq<Instance>) -> bool {
    forall|x: int, y: int| 0 <= x < y < s.len() ==> sched_lt(log, #[trigger] s[x], #[trigger] s[y])
}

/// A strictly sorted sequence is the one canonical listing of its set: the
/// canonical order admits no other arrangement.
#[verifier::rlimit(50)]
pub proof fn lemma_sorted_unique(log: Map<Instance, LogEntry>, s: Seq<Instance>)
    requires
        sched_sorted(log, s),
        s.no_duplicates(),
    ensures
        s == sched_of_set(log, s.to_set()),
    decreases s.len(),
{
    broadcast use vstd::seq_lib::group_seq_lib_default;

    let st = s.to_set();
    if s.len() == 0 {
        assert(st =~= Set::<Instance>::empty());
        assert(st.len() == 0);
        assert(s =~= sched_of_set(log, st));
    } else {
        s.unique_seq_to_set();
        assert(st.contains(s[0]));
        assert forall|x: Instance| #[trigger] st.contains(x) implies !sched_lt(log, x, s[0]) by {
            let q = choose|q: int| 0 <= q < s.len() && s[q] == x;
            if q > 0 {
                assert(sched_lt(log, s[0], s[q]));
            }
        }
        assert(exists|m: Instance|
            #[trigger] st.contains(m) && forall|x: Instance|
                #[trigger] st.contains(x) ==> !sched_lt(log, x, m));
        let m = sched_min(log, st);
        assert(st.contains(m) && forall|x: Instance|
            #[trigger] st.contains(x) ==> !sched_lt(log, x, m));
        assert(m == s[0]) by {
            if m != s[0] {
                assert(sched_lt(log, m, s[0]) || sched_lt(log, s[0], m));
            }
        }
        let rest = s.drop_first();
        assert(rest.no_duplicates());
        assert forall|x: int, y: int| 0 <= x < y < rest.len() implies sched_lt(
            log,
            #[trigger] rest[x],
            #[trigger] rest[y],
        ) by {
            assert(rest[x] == s[x + 1] && rest[y] == s[y + 1]);
        }
        assert forall|k: Instance| #[trigger] rest.to_set().contains(k) implies st.remove(
            s[0],
        ).contains(k) by {
            let q = choose|q: int| 0 <= q < rest.len() && rest[q] == k;
            assert(s[q + 1] == k);
            assert(k != s[0]);
        }
        assert forall|k: Instance| #[trigger] st.remove(s[0]).contains(k) implies rest.to_set().contains(
            k,
        ) by {
            let q = choose|q: int| 0 <= q < s.len() && s[q] == k;
            assert(q != 0);
            assert(rest[q - 1] == k);
        }
        assert(rest.to_set() =~= st.remove(s[0]));
        lemma_sorted_unique(log, rest);
        assert(st.len() > 0);
        assert(sched_of_set(log, st) == seq![m] + sched_of_set(log, st.remove(m)));
        assert(s =~= seq![s[0]] + rest);
    }
}

/// Whether a logged instance is ready: every instance its reach list holds is
/// good for execution.
#[verifier::loop_isolation(false)]
fn check_ready(cmds: &Vec<(Instance, LogEntry)>, rvec: &Vec<Instance>, i: Instance) -> (b: bool)
    requires
        ins_keys_unique(cmds@),
        rvec@.to_set() == reach(ins_map_of(cmds@), i),
    ensures
        b == exec_ready(ins_map_of(cmds@), i),
{
    let ghost log = ins_map_of(cmds@);
    let n = rvec.len();
    for p in 0..n
        invariant
            n == rvec@.len(),
            forall|q: int| 0 <= q < p ==> good_one(log, #[trigger] rvec@[q]),
    {
        let j = rvec[p];
        proof {
            assert(rvec@.contains(j));
            assert(reach(log, i).contains(j));
        }
        match ins_get(cmds, j) {
            None => {
                return false;
            },
            Some(e) => {
                if e.state.rank() != 2 {
                    return false;
                }
                let dl = e.deps.len();
                for q in 0..dl
                    invariant
                        dl == log[rvec@[p as int]].deps@.len(),
                        log.contains_key(rvec@[p as int]),
                        e == log[rvec@[p as int]],
                        forall|x: int|
                            0 <= x < q ==> log.contains_key(
                                #[trigger] log[rvec@[p as int]].deps@[x],
                            ),
                {
                    if ins_get(cmds, e.deps[q]).is_none() {
                        proof {
                            assert(!good_one(log, rvec@[p as int]));
                        }
                        return false;
                    }
                }
                proof {
                    assert(good_one(log, rvec@[p as int]));
                }
            },
        }
    }
    proof {
        assert forall|j: Instance| #[trigger] reach(log, i).contains(j) implies good_one(
            log,
            j,
        ) by {
            assert(rvec@.to_set().contains(j));
            let q = choose|q: int| 0 <= q < rvec@.len() && rvec@[q] == j;
        }
    }
    true
}

/// What applying one request does to the dictionary, and the reply it earns:
/// a read returns the key's value; a write stores its value and returns the
/// key's previous value.
pub open spec fn apply_one(dict: Map<Seq<char>, Seq<char>>, rv: ReqV) -> (
    Map<Seq<char>, Seq<char>>,
    ReplyV,
) {
    match rv {
        ReqV::Read { key, addr, id } => (
            dict,
            ReplyV {
                val: if dict.contains_key(key) {
                    Some(dict[key])
                } else {
                    None
                },
                id: id,
            },
        ),
        ReqV::Write { key, val, addr, id } => (
            dict.insert(key, val),
            ReplyV {
                val: if dict.contains_key(key) {
                    Some(dict[key])
                } else {
                    None
                },
                id: id,
            },
        ),
    }
}

/// Running a schedule left to right: each instance not yet executed is
/// applied to the dictionary, marked executed, and earns a reply addressed to
/// its request's client.
pub open spec fn run_schedule(
    log: Map<Instance, LogEntry>,
    sched: Seq<Instance>,
    dict: Map<Seq<char>, Seq<char>>,
    ex: Set<Instance>,
) -> (Map<Seq<char>, Seq<char>>, Set<Instance>, Seq<(Seq<char>, ReplyV)>)
    decreases sched.len(),
{
    if sched.len() == 0 {
        (dict, ex, Seq::empty())
    } else {
        let m = run_schedule(log, sched.drop_last(), dict, ex);
        let i = sched.last();
        if m.1.contains(i) {
            m
        } else {
            let rv = log[i].req@;
            let step = apply_one(m.0, rv);
            (step.0, m.1.insert(i), m.2.push((rv.addr(), step.1)))
        }
    }
}

/// The execution order key of one schedule entry: faithful copies of the
/// reach size and the seq, beside the instance itself.
pub open spec fn item_ok(log: Map<Instance, LogEntry>, it: (usize, u64, Instance)) -> bool {
    &&& ready_set(log).contains(it.2)
    &&& log.contains_key(it.2)
    &&& it.0 as nat == reach(log, it.2).len()
    &&& it.1 == log[it.2].seq
}

/// The instances of a list of schedule entries.
pub open spec fn proj_of(s: Seq<(usize, u64, Instance)>) -> Seq<Instance> {
    s.map_values(|p: (usize, u64, Instance)| p.2)
}

/// Strict order on stored schedule keys.
fn key_lt(a: &(usize, u64, Instance), b: &(usize, u64, Instance)) -> (r: bool)
    ensures
        r == (a.0 < b.0 || (a.0 == b.0 && (a.1 < b.1 || (a.1 == b.1 && ins_lt(a.2, b.2))))),
{
    a.0 < b.0 || (a.0 == b.0 && (a.1 < b.1 || (a.1 == b.1 && a.2.lt(&b.2))))
}

/// Insert a schedule entry at its place in the canonical order.
#[verifier::loop_isolation(false)]
#[verifier::rlimit(60)]
fn insert_sorted(
    Ghost(log): Ghost<Map<Instance, LogEntry>>,
    items: &mut Vec<(usize, u64, Instance)>,
    key: (usize, u64, Instance),
)
    requires
        forall|z: int| 0 <= z < old(items)@.len() ==> item_ok(log, #[trigger] old(items)@[z]),
        sched_sorted(log, proj_of(old(items)@)),
        proj_of(old(items)@).no_duplicates(),
        item_ok(log, key),
        forall|z: int| 0 <= z < old(items)@.len() ==> (#[trigger] old(items)@[z]).2 != key.2,
    ensures
        forall|z: int| 0 <= z < final(items)@.len() ==> item_ok(log, #[trigger] final(items)@[z]),
        sched_sorted(log, proj_of(final(items)@)),
        proj_of(final(items)@).no_duplicates(),
        proj_of(final(items)@).to_set() == proj_of(old(items)@).to_set().insert(key.2),
{
    let ghost i = key.2;
    proof {
        assert(forall|z: int|
            0 <= z < items@.len() ==> proj_of(items@)[z] == (#[trigger] items@[z]).2);
    }
    let mut pos: usize = 0;
    let il = items.len();
    for t in 0..il
        invariant
            il == items@.len(),
            pos <= t,
            forall|z: int| 0 <= z < pos ==> sched_lt(log, (#[trigger] items@[z]).2, i),
            forall|z: int| pos <= z < t ==> !sched_lt(log, (#[trigger] items@[z]).2, i),
    {
        let below = key_lt(&items[t], &key);
        proof {
            assert(item_ok(log, items@[t as int]));
            assert(below == sched_lt(log, items@[t as int].2, i));
        }
        if below {
            proof {
                assert forall|z: int| 0 <= z < t + 1 implies sched_lt(
                    log,
                    (#[trigger] items@[z]).2,
                    i,
                ) by {
                    if pos <= z < t {
                        assert(sched_lt(log, proj_of(items@)[z], proj_of(items@)[t as int]));
                    }
                }
            }
            pos = t + 1;
        }
    }
    let ghost ipre = items@;
    items.insert(pos, key);
    proof {
        assert(items@ == ipre.insert(pos as int, key));
        assert(forall|z: int| 0 <= z < pos ==> items@[z] == ipre[z]);
        assert(items@[pos as int] == key);
        assert(forall|z: int| pos < z < items@.len() ==> items@[z] == ipre[z - 1]);
        assert(forall|z: int|
            0 <= z < items@.len() ==> proj_of(items@)[z] == (#[trigger] items@[z]).2);
        assert forall|z1: int, z2: int| 0 <= z1 < z2 < items@.len() implies sched_lt(
            log,
            (#[trigger] items@[z1]).2,
            (#[trigger] items@[z2]).2,
        ) && items@[z1].2 != items@[z2].2 by {
            if z1 == pos {
                assert(!sched_lt(log, ipre[z2 - 1].2, i));
                assert(ipre[z2 - 1].2 != i);
                assert(sched_lt(log, i, ipre[z2 - 1].2) || sched_lt(log, ipre[z2 - 1].2, i));
            } else if z2 == pos {
                assert(sched_lt(log, ipre[z1].2, i));
            } else if z1 < pos && z2 > pos {
                assert(sched_lt(log, proj_of(ipre)[z1], proj_of(ipre)[z2 - 1]) || z1 == z2 - 1);
                if z1 == z2 - 1 {
                } else {
                    assert(proj_of(ipre)[z1] == ipre[z1].2);
                }
                assert(ipre[z1].2 != ipre[z2 - 1].2 || z1 == z2 - 1);
                assert(sched_lt(log, ipre[z1].2, i));
                assert(!sched_lt(log, ipre[z2 - 1].2, i) ==> sched_lt(log, ipre[z1].2, ipre[z2 - 1].2) || z1 == z2 - 1);
                if z1 < z2 - 1 {
                    assert(sched_lt(log, proj_of(ipre)[z1], proj_of(ipre)[z2 - 1]));
                }
            } else {
                assert(sched_lt(log, proj_of(ipre)[z1], proj_of(ipre)[z2]) || sched_lt(
                    log,
                    proj_of(ipre)[z1 - 1],
                    proj_of(ipre)[z2 - 1],
                ));
            }
        }
        assert(sched_sorted(log, proj_of(items@)));
        assert(proj_of(items@).no_duplicates());
        assert forall|k: Instance| #[trigger] proj_of(items@).to_set().contains(k) implies proj_of(
            ipre,
        ).to_set().insert(i).contains(k) by {
            let z = choose|z: int| 0 <= z < proj_of(items@).len() && proj_of(items@)[z] == k;
            if z < pos {
                assert(proj_of(ipre)[z] == k);
                assert(proj_of(ipre).contains(k));
            } else if z > pos {
                assert(proj_of(ipre)[z - 1] == k);
                assert(proj_of(ipre).contains(k));
            }
        }
        assert forall|k: Instance| proj_of(ipre).to_set().insert(i).contains(k)
            implies #[trigger] proj_of(items@).to_set().contains(k) by {
            if k == i {
                assert(proj_of(items@)[pos as int] == k);
                assert(proj_of(items@).contains(k));
            } else {
                let z = choose|z: int| 0 <= z < proj_of(ipre).len() && proj_of(ipre)[z] == k;
                if z < pos {
                    assert(proj_of(items@)[z] == k);
                } else {
                    assert(proj_of(items@)[z + 1] == k);
                }
                assert(proj_of(items@).contains(k));
            }
        }
        assert(proj_of(items@).to_set() =~= proj_of(ipre).to_set().insert(i));
    }
}

/// The logged keys among the first `j` entries of the log's list.
pub open spec fn keys_upto(cmds: Seq<(Instance, LogEntry)>, j: int) -> Set<Instance> {
    Set::new(|k: Instance| exists|q: int| 0 <= q < j && (#[trigger] cmds[q]).0 == k)
}

/// Build the canonical execution schedule of a log: its ready instances,
/// dependencies first, ordered by reach size, seq, and instance id.
#[verifier::loop_isolation(false)]
#[verifier::rlimit(60)]
pub fn build_schedule(cmds: &Vec<(Instance, LogEntry)>) -> (proj: Vec<Instance>)
    requires
        ins_keys_unique(cmds@),
    ensures
        proj@ == execution_schedule(ins_map_of(cmds@)),
        proj@.to_set() == ready_set(ins_map_of(cmds@)),
{
    let ghost log = ins_map_of(cmds@);
    let mut items: Vec<(usize, u64, Instance)> = Vec::new();
    let n = cmds.len();
    proof {
        assert(proj_of(items@).to_set() =~= ready_set(log).intersect(keys_upto(cmds@, 0)));
    }
    for j in 0..n
        invariant
            n == cmds@.len(),
            forall|z: int| 0 <= z < items@.len() ==> item_ok(log, #[trigger] items@[z]),
            sched_sorted(log, proj_of(items@)),
            proj_of(items@).no_duplicates(),
            proj_of(items@).to_set() == ready_set(log).intersect(keys_upto(cmds@, j as int)),
    {
        let ghost pset = proj_of(items@).to_set();
        let i = cmds[j].0;
        let seqv = cmds[j].1.seq;
        proof {
            lemma_ins_map_index(cmds@, j as int);
        }
        let rv = reach_of(cmds, i);
        let ready = check_ready(cmds, &rv, i);
        if ready {
            proof {
                rv@.unique_seq_to_set();
            }
            let key = (rv.len(), seqv, i);
            proof {
                assert(ready_set(log).contains(i));
                assert(item_ok(log, key));
                assert forall|z: int| 0 <= z < items@.len() implies (#[trigger] items@[z]).2
                    != i by {
                    assert(pset.contains(items@[z].2)) by {
                        assert(proj_of(items@)[z] == items@[z].2);
                        assert(proj_of(items@).contains(items@[z].2));
                    }
                    if items@[z].2 == i {
                        let q = choose|q: int| 0 <= q < j && (#[trigger] cmds@[q]).0 == i;
                        assert(cmds@[q].0 == cmds@[j as int].0);
                    }
                }
            }
            insert_sorted(Ghost(log), &mut items, key);
        }
        proof {
            assert forall|k: Instance|
                ready_set(log).intersect(keys_upto(cmds@, j + 1)).contains(k) implies
                #[trigger] proj_of(items@).to_set().contains(k) by {
                let q = choose|q: int| 0 <= q < j + 1 && (#[trigger] cmds@[q]).0 == k;
                if q < j {
                    assert(keys_upto(cmds@, j as int).contains(k));
                    assert(pset.contains(k));
                } else {
                    assert(k == i && ready);
                }
            }
            assert forall|k: Instance| #[trigger] proj_of(items@).to_set().contains(k) implies
                ready_set(log).intersect(keys_upto(cmds@, j + 1)).contains(k) by {
                if pset.contains(k) {
                    assert(keys_upto(cmds@, j as int).contains(k));
                    let q = choose|q: int| 0 <= q < j && (#[trigger] cmds@[q]).0 == k;
                    assert(0 <= q < j + 1 && cmds@[q].0 == k);
                } else {
                    assert(k == i);
                    assert(cmds@[j as int].0 == k);
                }
                assert(keys_upto(cmds@, j + 1).contains(k));
            }
            assert(proj_of(items@).to_set() =~= ready_set(log).intersect(
                keys_upto(cmds@, j + 1),
            ));
        }
    }
    // Project the instances and identify the result with the canonical order.
    let mut proj: Vec<Instance> = Vec::new();
    let im = items.len();
    for z in 0..im
        invariant
            im == items@.len(),
            proj@.len() == z,
            forall|w: int| 0 <= w < z ==> proj@[w] == (#[trigger] items@[w]).2,
    {
        proj.push(items[z].2);
    }
    proof {
        assert(proj@ =~= proj_of(items@));
        assert forall|k: Instance| #[trigger] ready_set(log).contains(k) implies ready_set(
            log,
        ).intersect(keys_upto(cmds@, n as int)).contains(k) by {
            lemma_ins_map_key_has_index(cmds@, k);
        }
        assert(proj@.to_set() =~= ready_set(log));
        lemma_sorted_unique(log, proj@);
        assert(proj@ == sched_of_set(log, proj@.to_set()));
    }
    proj
}

impl ReplicaState {
    /// Walk a schedule of logged instances: apply each one not yet executed
    /// to the dictionary, remember it as executed, and collect the reply it
    /// earns, addressed to its request's client.
    #[verifier::loop_isolation(false)]
    #[verifier::rlimit(60)]
    fn apply_schedule(&mut self, proj: &Vec<Instance>) -> (replies: Vec<(String, ClientReply)>)
        requires
            old(self).wf(),
            forall|z: int|
                0 <= z < proj@.len() ==> old(self).log().contains_key(#[trigger] proj@[z]),
        ensures
            final(self).wf(),
            final(self).instance_number == old(self).instance_number,
            final(self).cmds == old(self).cmds,
            final(self).preaccept_replies == old(self).preaccept_replies,
            final(self).naccept == old(self).naccept,
            ({
                let out = run_schedule(
                    old(self).log(),
                    proj@,
                    old(self).dict_v(),
                    old(self).executed_set(),
                );
                &&& final(self).dict_v() == out.0
                &&& final(self).executed_set() == out.1
                &&& replies@.len() == out.2.len()
                &&& forall|z: int|
                    0 <= z < out.2.len() ==> (#[trigger] replies@[z]).0@ == out.2[z].0
                        && replies@[z].1@ == out.2[z].1
            }),
    {
        let ghost log = self.log();
        let ghost sched = proj@;
        let ghost d0 = self.dict_v();
        let ghost e0 = self.executed_set();
        let mut replies: Vec<(String, ClientReply)> = Vec::new();
        let pl = proj.len();
        for z in 0..pl
            invariant
                pl == proj@.len(),
                sched == proj@,
                self.wf(),
                self.cmds == old(self).cmds,
                self.instance_number == old(self).instance_number,
                self.preaccept_replies == old(self).preaccept_replies,
                self.naccept == old(self).naccept,
                ({
                    let m = run_schedule(log, sched.take(z as int), d0, e0);
                    &&& self.dict_v() == m.0
                    &&& self.executed_set() == m.1
                    &&& replies@.len() == m.2.len()
                    &&& forall|w: int|
                        0 <= w < m.2.len() ==> (#[trigger] replies@[w]).0@ == m.2[w].0
                            && replies@[w].1@ == m.2[w].1
                }),
        {
            proof {
                assert(sched.take(z + 1).drop_last() =~= sched.take(z as int));
                assert(sched.take(z + 1).last() == sched[z as int]);
            }
            let ghost m = run_schedule(log, sched.take(z as int), d0, e0);
            let i = proj[z];
            if !ins_vec_contains(&self.executed, i) {
                let req = match ins_get(&self.cmds, i) {
                    Some(e) => crate::replica::clone_req(&e.req),
                    None => {
                        proof {
                            assert(false);
                        }
                        ClientRequest::Read(String::new(), String::new(), 0)
                    },
                };
                proof {
                    assert(req@ == log[sched[z as int]].req@);
                }
                match req {
                    ClientRequest::Read(key, addr, id) => {
                        let res = match str_get(&self.dict, &key) {
                            Some(v) => Some(v.clone()),
                            None => None,
                        };
                        ins_vec_add(&mut self.executed, i);
                        replies.push((addr, ClientReply::Reply(res, id)));
                    },
                    ClientRequest::Write(key, val, addr, id) => {
                        let res = match str_get(&self.dict, &key) {
                            Some(v) => Some(v.clone()),
                            None => None,
                        };
                        str_set(&mut self.dict, key, val);
                        ins_vec_add(&mut self.executed, i);
                        replies.push((addr, ClientReply::Reply(res, id)));
                    },
                }
                proof {
                    assert(self.buffers() == old(self).buffers());
                }
            }
        }
        proof {
            assert(sched.take(pl as int) =~= sched);
        }
        replies
    }

    /// Apply every ready committed instance, in the canonical order, to the
    /// dictionary: dependencies first, groups of mutually dependent instances
    /// by seq with the instance id as tie-breaker; instances already executed
    /// are skipped, executed instances are remembered, and each newly applied
    /// request earns a reply addressed to its client. The schedule and its
    /// effect are a function of the log alone.
    pub fn execute_command(&mut self) -> (replies: Vec<(String, ClientReply)>)
        requires
            old(self).wf(),
        ensures
            final(self).wf(),
            final(self).instance_number == old(self).instance_number,
            final(self).cmds == old(self).cmds,
            final(self).preaccept_replies == old(self).preaccept_replies,
            final(self).naccept == old(self).naccept,
            ({
                let out = run_schedule(
                    old(self).log(),
                    execution_schedule(old(self).log()),
                    old(self).dict_v(),
                    old(self).executed_set(),
                );
                &&& final(self).dict_v() == out.0
                &&& final(self).executed_set() == out.1
                &&& replies@.len() == out.2.len()
                &&& forall|z: int|
                    0 <= z < out.2.len() ==> (#[trigger] replies@[z]).0@ == out.2[z].0
                        && replies@[z].1@ == out.2[z].1
            }),
    {
        let proj = build_schedule(&self.cmds);
        proof {
            assert forall|z: int| 0 <= z < proj@.len() implies self.log().contains_key(
                #[trigger] proj@[z],
            ) by {
                assert(proj@.contains(proj@[z]));
                assert(proj@.to_set().contains(proj@[z]));
            }
        }
        self.apply_schedule(&proj)
    }
}

} // verus!
