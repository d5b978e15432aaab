//! The leader's quorum logic: gathering PreAcceptOK replies, folding them
//! into a union proposal, deciding between the fast and the slow path, and
//! counting AcceptOK votes up to commit.

use vstd::prelude::*;
use crate::types::{
    Instance, CommandState, ClientRequest, CommittedDeps, LogEntry, ins_keys_unique, ins_map_of,
};
use crate::store::{
    ins_get, ins_set, ins_take, ins_vec_contains, copy_ins_vec, lemma_ins_map_index,
    lemma_ins_map_key_has_index,
};
use crate::replica::{ReplicaState, buffer_wf, deps_keys};

verus! {

/// The greatest seq among the buffered replies; zero when there are none.
pub open spec fn replies_max_seq(rs: Seq<(u64, CommittedDeps)>) -> u64
    decreases rs.len(),
{
    if rs.len() == 0 {
        0
    } else {
        let m = replies_max_seq(rs.drop_last());
        if rs.last().0 > m {
            rs.last().0
        } else {
            m
        }
    }
}

/// Key-wise union of two deps maps; a key's hint is the OR of the hints the
/// maps carry for it.
pub open spec fn merge_deps(a: Map<Instance, bool>, b: Map<Instance, bool>) -> Map<Instance, bool> {
    Map::new(
        |k: Instance| a.contains_key(k) || b.contains_key(k),
        |k: Instance| (a.contains_key(k) && a[k]) || (b.contains_key(k) && b[k]),
    )
}

/// The union over all buffered replies of their deps maps, hints OR-ed.
pub open spec fn replies_union(rs: Seq<(u64, CommittedDeps)>) -> Map<Instance, bool>
    decreases rs.len(),
{
    if rs.len() == 0 {
        Map::empty()
    } else {
        merge_deps(replies_union(rs.drop_last()), rs.last().1@)
    }
}

/// Every buffered reply agrees with the leader's proposal: the same seq, and
/// no dependency the leader does not already have.
pub open spec fn replies_same(
    rs: Seq<(u64, CommittedDeps)>,
    lseq: u64,
    ldom: Set<Instance>,
) -> bool
    decreases rs.len(),
{
    if rs.len() == 0 {
        true
    } else {
        replies_same(rs.drop_last(), lseq, ldom) && rs.last().0 == lseq
            && rs.last().1@.dom().subset_of(ldom)
    }
}

/// Every dependency in the union is known committed somewhere: a reply says
/// so, or this replica's own log holds it past PreAccepted.
pub open spec fn union_all_committed(log: Map<Instance, LogEntry>, u: Map<Instance, bool>) -> bool {
    forall|k: Instance|
        #[trigger] u.contains_key(k) ==> u[k] || (log.contains_key(k) && log[k].state
            != CommandState::PreAccepted)
}

/// `l1` is `l0` with `(req, s, d, st)` stored under `i` and nothing else
/// touched.
pub open spec fn log_step(
    l0: Map<Instance, LogEntry>,
    l1: Map<Instance, LogEntry>,
    i: Instance,
    req: ClientRequest,
    s: u64,
    d: Set<Instance>,
    st: CommandState,
) -> bool {
    &&& l1.dom() == l0.dom().insert(i)
    &&& l1[i].req == req
    &&& l1[i].seq == s
    &&& l1[i].deps@.to_set() == d
    &&& l1[i].state == st
    &&& forall|j: Instance| #[trigger] l0.contains_key(j) && j != i ==> l1[j] == l0[j]
}

/// Fold a full reply buffer into the union proposal: the greatest seq, the
/// key-wise hint union of the deps maps, and whether every reply matched the
/// leader's own `(lseq, ldeps)`.
#[verifier::loop_isolation(false)]
fn fold_replies(buf: &Vec<(u64, CommittedDeps)>, lseq: u64, ldeps: &Vec<Instance>) -> (r: (
    u64,
    CommittedDeps,
    bool,
))
    requires
        buffer_wf(buf@),
    ensures
        r.0 == replies_max_seq(buf@),
        r.1.wf(),
        r.1@ == replies_union(buf@),
        r.2 == replies_same(buf@, lseq, ldeps@.to_set()),
{
    let ghost ldom = ldeps@.to_set();
    let mut useq: u64 = 0;
    let mut ud = CommittedDeps::empty();
    let mut same = true;
    let n = buf.len();
    proof {
        assert(buf@.take(0) =~= Seq::<(u64, CommittedDeps)>::empty());
        assert(ud@ =~= replies_union(buf@.take(0)));
    }
    for x in 0..n
        invariant
            n == buf@.len(),
            useq == replies_max_seq(buf@.take(x as int)),
            ud.wf(),
            ud@ == replies_union(buf@.take(x as int)),
            same == replies_same(buf@.take(x as int), lseq, ldom),
    {
        proof {
            assert(buf@.take(x + 1).drop_last() =~= buf@.take(x as int));
            assert(buf@.take(x + 1).last() == buf@[x as int]);
        }
        let rep_seq = buf[x].0;
        if rep_seq > useq {
            useq = rep_seq;
        }
        let mut okx = rep_seq == lseq;
        let ghost upre = replies_union(buf@.take(x as int));
        let ghost rc = buf@[x as int].1.committed@;
        proof {
            assert(buffer_wf(buf@));
            assert(buf@[x as int].1.wf());
            assert(rc.take(0) =~= Seq::<(Instance, bool)>::empty());
            assert(ins_map_of(rc.take(0)) =~= Map::<Instance, bool>::empty());
            assert(merge_deps(upre, ins_map_of(rc.take(0))) =~= upre);
        }
        let m = buf[x].1.committed.len();
        for y in 0..m
            invariant
                m == rc.len(),
                rc == buf@[x as int].1.committed@,
                ins_keys_unique(rc),
                ud.wf(),
                ud@ == merge_deps(upre, ins_map_of(rc.take(y as int))),
                okx == ((buf@[x as int].0 == lseq) && (forall|z: int|
                    0 <= z < y ==> ldom.contains((#[trigger] rc[z]).0))),
        {
            let k2 = buf[x].1.committed[y].0;
            let v2 = buf[x].1.committed[y].1;
            if !ins_vec_contains(ldeps, k2) {
                okx = false;
            }
            let prev = match ins_get(&ud.committed, k2) {
                Some(b) => *b,
                None => false,
            };
            ins_set(&mut ud.committed, k2, prev || v2);
            proof {
                assert(rc.take(y + 1).drop_last() =~= rc.take(y as int));
                assert(rc.take(y + 1).last() == rc[y as int]);
                if ins_map_of(rc.take(y as int)).contains_key(k2) {
                    lemma_ins_map_key_has_index(rc.take(y as int), k2);
                    let z = choose|z: int|
                        0 <= z < y && (#[trigger] rc.take(y as int)[z]).0 == k2;
                    assert(rc[z].0 == k2 && rc[y as int].0 == k2);
                    assert(false);
                }
                assert(ins_map_of(rc.take(y + 1)) == ins_map_of(rc.take(y as int)).insert(
                    rc[y as int].0,
                    rc[y as int].1,
                ));
                assert(ud@ =~= merge_deps(upre, ins_map_of(rc.take(y + 1))));
            }
        }
        proof {
            assert(rc.take(m as int) =~= rc);
            assert(ins_map_of(rc) == buf@[x as int].1@);
            if forall|z: int| 0 <= z < m ==> ldom.contains((#[trigger] rc[z]).0) {
                assert forall|k: Instance| buf@[x as int].1@.dom().contains(k) implies
                    ldom.contains(k) by {
                    lemma_ins_map_key_has_index(rc, k);
                    let z = choose|z: int| 0 <= z < rc.len() && (#[trigger] rc[z]).0 == k;
                    assert(ldom.contains(rc[z].0));
                }
            } else {
                let z = choose|z: int| 0 <= z < m && !ldom.contains((#[trigger] rc[z]).0);
                lemma_ins_map_index(rc, z);
                assert(buf@[x as int].1@.dom().contains(rc[z].0));
                assert(!buf@[x as int].1@.dom().subset_of(ldom));
            }
            assert(okx == ((buf@[x as int].0 == lseq) && buf@[x as int].1@.dom().subset_of(
                ldom,
            )));
            assert(ud@ =~= replies_union(buf@.take(x + 1)));
        }
        same = same && okx;
    }
    proof {
        assert(buf@.take(n as int) =~= buf@);
    }
    (useq, ud, same)
}

impl ReplicaState {
    /// The leader's PreAcceptOK handling for instance `cins`: discard a late
    /// reply (the instance has moved past PreAccepted) or one for an instance
    /// this replica does not lead - deliberately without buffering it, so a
    /// late reply leaves the whole state untouched; the buffer of a decided
    /// instance is never read again, so nothing observable is lost.
    /// Otherwise buffer the reply, and once the
    /// buffer holds at least half the cluster, decide the path. With three
    /// replicas the fast path is taken as-is; otherwise the replies are
    /// folded into a union and the fast path needs every reply to match the
    /// leader's proposal and every union dependency to be committed
    /// somewhere. Returns the decided `(seq, deps, fast)` once, `None` before
    /// and after.
    #[verifier::loop_isolation(false)]
    pub fn path(
        &mut self,
        n: u8,
        req: ClientRequest,
        cseq: u64,
        cdeps: CommittedDeps,
        cins: Instance,
    ) -> (r: Option<(u64, Vec<Instance>, bool)>)
        requires
            old(self).wf(),
            cdeps.wf(),
        ensures
            final(self).wf(),
            final(self).instance_number == old(self).instance_number,
            final(self).dict == old(self).dict,
            final(self).executed == old(self).executed,
            final(self).naccept == old(self).naccept,
            ({
                let l0 = old(self).log();
                let b0 = old(self).buffers();
                if !b0.contains_key(cins) || !l0.contains_key(cins) || l0[cins].state
                    != CommandState::PreAccepted {
                    r is None && *final(self) == *old(self)
                } else {
                    let rs = b0[cins]@.push((cseq, cdeps));
                    &&& final(self).buffers().dom() == b0.dom()
                    &&& final(self).buffers()[cins]@ == rs
                    &&& forall|i: Instance|
                        #[trigger] b0.contains_key(i) && i != cins ==> final(self).buffers()[i]
                            == b0[i]
                    &&& if rs.len() < (n / 2) as int {
                        r is None && final(self).log() == l0
                    } else if n == 3 {
                        match r {
                            Some(t) => t.0 == cseq && t.1@.to_set() == cdeps@.dom() && t.2
                                && log_step(
                                l0,
                                final(self).log(),
                                cins,
                                req,
                                cseq,
                                cdeps@.dom(),
                                CommandState::Committed,
                            ),
                            None => false,
                        }
                    } else {
                        let us = replies_max_seq(rs);
                        let u = replies_union(rs);
                        let fast = replies_same(rs, l0[cins].seq, l0[cins].deps@.to_set())
                            && union_all_committed(l0, u);
                        match r {
                            Some(t) => t.0 == us && t.1@.to_set() == u.dom() && t.2 == fast
                                && log_step(
                                l0,
                                final(self).log(),
                                cins,
                                req,
                                us,
                                u.dom(),
                                if fast {
                                    CommandState::Committed
                                } else {
                                    CommandState::Accepted
                                },
                            ),
                            None => false,
                        }
                    }
                }
            }),
    {
        let ghost l0 = self.log();
        let ghost b0 = self.buffers();

        // An instance this replica does not lead has no buffer: drop.
        if ins_get(&self.preaccept_replies, cins).is_none() {
            return None;
        }
        // A reply for an instance already past PreAccepted is late: drop.
        let (lseq, ldeps) = match ins_get(&self.cmds, cins) {
            Some(e) => {
                if e.state.rank() != 0 {
                    return None;
                }
                (e.seq, copy_ins_vec(&e.deps))
            },
            None => {
                return None;
            },
        };

        // Buffer the reply.
        let mut buf = match ins_take(&mut self.preaccept_replies, cins) {
            Some(b) => b,
            None => {
                return None;  // unreachable: presence was checked above
            },
        };
        let ckeys = deps_keys(&cdeps);
        let ckeys_out = deps_keys(&cdeps);
        proof {
            assert(buffer_wf(buf@));
            assert(buf@.push((cseq, cdeps)).drop_last() =~= buf@);
        }
        buf.push((cseq, cdeps));
        let ghost rs = buf@;
        proof {
            assert forall|x: int| 0 <= x < rs.len() implies (#[trigger] rs[x]).1.wf() by {
                if x < rs.len() - 1 {
                    assert(rs[x] == b0[cins]@[x]);
                }
            }
        }
        let blen = buf.len();
        let thr = (n / 2) as usize;

        // Fold the buffer into the union proposal while it is still in hand.
        let mut useq: u64 = 0;
        let mut ud = CommittedDeps::empty();
        let mut same = false;
        if blen >= thr && n != 3 {
            let folded = fold_replies(&buf, lseq, &ldeps);
            useq = folded.0;
            ud = folded.1;
            same = folded.2;
        }
        ins_set(&mut self.preaccept_replies, cins, buf);
        proof {
            assert forall|i: Instance| #[trigger] self.buffers().contains_key(i)
                implies buffer_wf(self.buffers()[i]@) by {
                if i != cins {
                    assert(self.buffers()[i] == b0[i]);
                }
            }
            assert(self.log() == l0);
        }
        if blen < thr {
            return None;
        }
        if n == 3 {
            // Three replicas: one matching reply suffices; commit as proposed.
            self.update_state(req, cseq, ckeys, cins, CommandState::Committed);
            return Some((cseq, ckeys_out, true));
        }
        // General case: check the fast-path condition over the union.
        let mut fastok = same;
        let un = ud.committed.len();
        let ghost u = ud@;
        for x in 0..un
            invariant
                un == ud.committed@.len(),
                ud.wf(),
                u == ud@,
                fastok == (same && (forall|z: int|
                    0 <= z < x ==> (#[trigger] ud.committed@[z]).1 || (self.log().contains_key(
                        ud.committed@[z].0,
                    ) && self.log()[ud.committed@[z].0].state != CommandState::PreAccepted))),
        {
            let k = ud.committed[x].0;
            let h = ud.committed[x].1;
            if !h {
                let good = match ins_get(&self.cmds, k) {
                    Some(e) => e.state.rank() != 0,
                    None => false,
                };
                if !good {
                    fastok = false;
                }
            }
        }
        proof {
            if forall|z: int|
                0 <= z < un ==> (#[trigger] ud.committed@[z]).1 || (l0.contains_key(
                    ud.committed@[z].0,
                ) && l0[ud.committed@[z].0].state != CommandState::PreAccepted) {
                assert forall|k: Instance| #[trigger] u.contains_key(k) implies u[k] || (
                    l0.contains_key(k) && l0[k].state != CommandState::PreAccepted) by {
                    lemma_ins_map_key_has_index(ud.committed@, k);
                    let z = choose|z: int|
                        0 <= z < ud.committed@.len() && (#[trigger] ud.committed@[z]).0 == k;
                    lemma_ins_map_index(ud.committed@, z);
                }
            } else {
                let z = choose|z: int|
                    0 <= z < un && !((#[trigger] ud.committed@[z]).1 || (l0.contains_key(
                        ud.committed@[z].0,
                    ) && l0[ud.committed@[z].0].state != CommandState::PreAccepted));
                lemma_ins_map_index(ud.committed@, z);
                assert(!union_all_committed(l0, u));
            }
            assert(fastok == (same && union_all_committed(l0, u)));
        }
        let ukeys = deps_keys(&ud);
        let ukeys_out = deps_keys(&ud);
        if fastok {
            self.update_state(req, useq, ukeys, cins, CommandState::Committed);
            Some((useq, ukeys_out, true))
        } else {
            self.update_state(req, useq, ukeys, cins, CommandState::Accepted);
            Some((useq, ukeys_out, false))
        }
    }

    /// The leader's AcceptOK handling for instance `cins`: drop the vote when
    /// the instance is unknown, already Committed, or not led here; otherwise
    /// count it, and commit the instance once the votes reach half the
    /// cluster. Returns whether this vote committed the instance.
    pub fn atomic_accept(
        &mut self,
        n: u8,
        req: ClientRequest,
        cseq: u64,
        cdeps: Vec<Instance>,
        cins: Instance,
    ) -> (r: bool)
        requires
            old(self).wf(),
        ensures
            final(self).wf(),
            final(self).instance_number == old(self).instance_number,
            final(self).dict == old(self).dict,
            final(self).executed == old(self).executed,
            final(self).preaccept_replies == old(self).preaccept_replies,
            ({
                let l0 = old(self).log();
                let c0 = old(self).counters();
                if !l0.contains_key(cins) || l0[cins].state == CommandState::Committed
                    || !c0.contains_key(cins) {
                    !r && *final(self) == *old(self)
                } else {
                    let c1 = if c0[cins] == 255 {
                        255u8
                    } else {
                        (c0[cins] + 1) as u8
                    };
                    &&& final(self).counters() == c0.insert(cins, c1)
                    &&& if c1 >= n / 2 {
                        r && log_step(
                            l0,
                            final(self).log(),
                            cins,
                            req,
                            cseq,
                            cdeps@.to_set(),
                            CommandState::Committed,
                        )
                    } else {
                        !r && final(self).log() == l0
                    }
                }
            }),
    {
        let ghost l0 = self.log();
        let rk = match ins_get(&self.cmds, cins) {
            Some(e) => e.state.rank(),
            None => {
                return false;
            },
        };
        if rk == 2 {
            return false;
        }
        let c = match ins_get(&self.naccept, cins) {
            Some(c) => *c,
            None => {
                return false;
            },
        };
        let c1 = if c == 255 {
            255
        } else {
            c + 1
        };
        ins_set(&mut self.naccept, cins, c1);
        proof {
            assert(self.buffers() == old(self).buffers());
            assert(self.log() == l0);
        }
        if c1 >= n / 2 {
            self.update_state(req, cseq, cdeps, cins, CommandState::Committed);
            true
        } else {
            false
        }
    }

    /// Store a state carried by a peer's Accept or Commit, under the monotone
    /// guard: a stored state never goes down.
    pub fn atomic_update_state(
        &mut self,
        req: ClientRequest,
        cseq: u64,
        cdeps: Vec<Instance>,
        cins: Instance,
        st: CommandState,
    )
        requires
            old(self).wf(),
        ensures
            final(self).wf(),
            final(self).log() == (if old(self).log().contains_key(cins) && crate::types::state_rank(
                old(self).log()[cins].state,
            ) > crate::types::state_rank(st) {
                old(self).log()
            } else {
                old(self).log().insert(
                    cins,
                    (LogEntry { req: req, seq: cseq, deps: cdeps, state: st }),
                )
            }),
            final(self).instance_number == old(self).instance_number,
            final(self).dict == old(self).dict,
            final(self).preaccept_replies == old(self).preaccept_replies,
            final(self).naccept == old(self).naccept,
            final(self).executed == old(self).executed,
    {
        self.update_state(req, cseq, cdeps, cins, st)
    }
}

} // verus!
