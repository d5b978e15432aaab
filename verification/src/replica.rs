//! The per-replica consensus state: the command log, the dictionary, the
//! pre-accept reply buffers and accept counters, with the interference
//! predicate and the seq/deps derivation that every PreAccept runs.

use vstd::prelude::*;
use crate::types::{
    Instance, CommandState, ClientRequest, ReqV, CommittedDeps, LogEntry, ins_keys_unique,
    ins_map_of, state_rank,
};
use crate::store::{
    ins_get, ins_set, str_keys_unique, str_map_of, lemma_ins_map_index, lemma_ins_map_key_has_index,
};

verus! {

/// Every reply in a pre-accept buffer carries a well-formed deps map.
pub open spec fn buffer_wf(b: Seq<(u64, CommittedDeps)>) -> bool {
    forall|x: int| 0 <= x < b.len() ==> (#[trigger] b[x]).1.wf()
}

/// Two requests interfere when they touch the same key and at least one of
/// them writes; reads never interfere with reads.
pub open spec fn interferes(a: ReqV, b: ReqV) -> bool {
    a.key() == b.key() && (a.is_write() || b.is_write())
}

/// The successor of a sequence number, saturating at the top of `u64`.
pub open spec fn seq_bump(s: u64) -> u64 {
    if s == u64::MAX {
        u64::MAX
    } else {
        (s + 1) as u64
    }
}

/// The state a whole replica keeps between events.
pub struct ReplicaState {
    /// This replica's instance counter; slots are assigned from 1 up.
    pub instance_number: u64,
    /// The command log: one entry per instance this replica knows of.
    pub cmds: Vec<(Instance, LogEntry)>,
    /// The replicated key-value dictionary.
    pub dict: Vec<(String, String)>,
    /// For instances this replica leads: the PreAcceptOK replies gathered so
    /// far, each a proposed seq and a deps map with committed-somewhere hints.
    pub preaccept_replies: Vec<(Instance, Vec<(u64, CommittedDeps)>)>,
    /// For instances this replica leads: how many AcceptOK arrived.
    pub naccept: Vec<(Instance, u8)>,
    /// Instances already applied to the dictionary.
    pub executed: Vec<Instance>,
}

impl ReplicaState {
    /// The command log as a map.
    pub open spec fn log(self) -> Map<Instance, LogEntry> {
        ins_map_of(self.cmds@)
    }

    /// The dictionary as a map of character sequences.
    pub open spec fn dict_v(self) -> Map<Seq<char>, Seq<char>> {
        str_map_of(self.dict@)
    }

    /// The pre-accept reply buffers as a map.
    pub open spec fn buffers(self) -> Map<Instance, Vec<(u64, CommittedDeps)>> {
        ins_map_of(self.preaccept_replies@)
    }

    /// The accept counters as a map.
    pub open spec fn counters(self) -> Map<Instance, u8> {
        ins_map_of(self.naccept@)
    }

    /// The executed instances as a set.
    pub open spec fn executed_set(self) -> Set<Instance> {
        self.executed@.to_set()
    }

    /// Well-formed: every association list has unique keys, and every
    /// buffered pre-accept reply carries a well-formed deps map.
    pub open spec fn wf(self) -> bool {
        &&& ins_keys_unique(self.cmds@)
        &&& str_keys_unique(self.dict@)
        &&& ins_keys_unique(self.preaccept_replies@)
        &&& ins_keys_unique(self.naccept@)
        &&& forall|i: Instance|
            #[trigger] self.buffers().contains_key(i) ==> buffer_wf(self.buffers()[i]@)
        &&& self.executed@.no_duplicates()
    }

    /// A fresh replica: empty log, empty dictionary, counter at zero.
    pub fn new() -> (r: ReplicaState)
        ensures
            r.wf(),
            r.instance_number == 0,
            r.log() == Map::<Instance, LogEntry>::empty(),
            r.dict_v() == Map::<Seq<char>, Seq<char>>::empty(),
            r.buffers() == Map::<Instance, Vec<(u64, CommittedDeps)>>::empty(),
            r.counters() == Map::<Instance, u8>::empty(),
            r.executed_set() == Set::<Instance>::empty(),
    {
        let r = ReplicaState {
            instance_number: 0,
            cmds: Vec::new(),
            dict: Vec::new(),
            preaccept_replies: Vec::new(),
            naccept: Vec::new(),
            executed: Vec::new(),
        };
        proof {
            assert(r.executed_set() =~= Set::<Instance>::empty());
        }
        r
    }

    /// Store `(req, cseq, cdeps, st)` under `cins`, unless the entry already
    /// holds a strictly higher state: `Committed` is terminal and a stored
    /// state never goes down.
    pub fn update_state(
        &mut self,
        req: ClientRequest,
        cseq: u64,
        cdeps: Vec<Instance>,
        cins: Instance,
        st: CommandState,
    )
        requires
            old(self).wf(),
        ensures
            final(self).wf(),
            final(self).log() == (if old(self).log().contains_key(cins) && state_rank(
                old(self).log()[cins].state,
            ) > state_rank(st) {
                old(self).log()
            } else {
                old(self).log().insert(
                    cins,
                    (LogEntry { req: req, seq: cseq, deps: cdeps, state: st }),
                )
            }),
            final(self).instance_number == old(self).instance_number,
            final(self).dict == old(self).dict,
            final(self).preaccept_replies == old(self).preaccept_replies,
            final(self).naccept == old(self).naccept,
            final(self).executed == old(self).executed,
    {
        let keep = match ins_get(&self.cmds, cins) {
            Some(e) => e.state.rank() > st.rank(),
            None => false,
        };
        if !keep {
            ins_set(&mut self.cmds, cins, LogEntry { req, seq: cseq, deps: cdeps, state: st });
        }
        proof {
            assert(self.buffers() == old(self).buffers());
        }
    }
}

/// An exec-level interference test.
pub fn interfere(a: &ClientRequest, b: &ClientRequest) -> (r: bool)
    ensures
        r == interferes(a@, b@),
{
    match (a, b) {
        (ClientRequest::Write(k1, _, _, _), ClientRequest::Read(k2, _, _)) => *k1 == *k2,
        (ClientRequest::Read(k1, _, _), ClientRequest::Write(k2, _, _, _)) => *k1 == *k2,
        (ClientRequest::Write(k1, _, _, _), ClientRequest::Write(k2, _, _, _)) => *k1 == *k2,
        _ => false,
    }
}

/// A deep copy of a request, equal in view to its source.
pub fn clone_req(r: &ClientRequest) -> (c: ClientRequest)
    ensures
        c@ == r@,
{
    match r {
        ClientRequest::Read(k, a, i) => ClientRequest::Read(k.clone(), a.clone(), *i),
        ClientRequest::Write(k, v, a, i) => ClientRequest::Write(
            k.clone(),
            v.clone(),
            a.clone(),
            *i,
        ),
    }
}

/// The set of logged instances whose request interferes with `rv`.
pub open spec fn intf_set(log: Map<Instance, LogEntry>, rv: ReqV) -> Set<Instance> {
    Set::new(|i: Instance| log.contains_key(i) && interferes(rv, log[i].req@))
}

/// `s` is exactly the least sequence number that is at least `cseq` and
/// strictly above the seq of every logged interfering instance (saturating at
/// the top of `u64`).
pub open spec fn derived_seq_ok(
    log: Map<Instance, LogEntry>,
    rv: ReqV,
    cseq: u64,
    s: u64,
) -> bool {
    &&& s >= cseq
    &&& forall|i: Instance|
        #[trigger] log.contains_key(i) && interferes(rv, log[i].req@) ==> s >= seq_bump(log[i].seq)
    &&& (s == cseq || exists|i: Instance|
        #[trigger] log.contains_key(i) && interferes(rv, log[i].req@) && s == seq_bump(log[i].seq))
}

/// `dout` is `din` after the two deps passes: every logged interfering
/// instance is bound to the hint "this replica holds it past PreAccepted",
/// and every other incoming entry keeps its hint, upgraded when this replica
/// holds the instance past PreAccepted.
pub open spec fn derived_deps_ok(
    log: Map<Instance, LogEntry>,
    rv: ReqV,
    din: Map<Instance, bool>,
    dout: Map<Instance, bool>,
) -> bool {
    &&& dout.dom() == din.dom().union(intf_set(log, rv))
    &&& forall|i: Instance|
        #[trigger] log.contains_key(i) && interferes(rv, log[i].req@) ==> dout[i] == (
        log[i].state != CommandState::PreAccepted)
    &&& forall|i: Instance|
        #[trigger] din.dom().contains(i) && !intf_set(log, rv).contains(i) ==> dout[i] == (din[i]
            || (log.contains_key(i) && log[i].state != CommandState::PreAccepted))
}

/// Whether some entry among the first `j` of `cmds` has key `k` and a request
/// that interferes with `rv`; the induction step of the derivation loop.
pub open spec fn intf_upto(
    cmds: Seq<(Instance, LogEntry)>,
    rv: ReqV,
    j: int,
    k: Instance,
) -> bool {
    exists|jj: int|
        0 <= jj < j && (#[trigger] cmds[jj]).0 == k && interferes(rv, cmds[jj].1.req@)
}

/// The keys of a deps map, as a list.
pub fn deps_keys(d: &CommittedDeps) -> (ks: Vec<Instance>)
    requires
        d.wf(),
    ensures
        ks@.to_set() == d@.dom(),
{
    let mut ks: Vec<Instance> = Vec::new();
    let n = d.committed.len();
    for j in 0..n
        invariant
            n == d.committed@.len(),
            d.wf(),
            ks@.len() == j,
            forall|x: int| 0 <= x < j ==> ks@[x] == (#[trigger] d.committed@[x]).0,
    {
        ks.push(d.committed[j].0);
    }
    proof {
        assert forall|k: Instance| ks@.to_set().contains(k) implies d@.dom().contains(k) by {
            let x = choose|x: int| 0 <= x < ks@.len() && ks@[x] == k;
            lemma_ins_map_index(d.committed@, x);
        }
        assert forall|k: Instance| d@.dom().contains(k) implies ks@.to_set().contains(k) by {
            lemma_ins_map_key_has_index(d.committed@, k);
            let x = choose|x: int|
                0 <= x < d.committed@.len() && (#[trigger] d.committed@[x]).0 == k;
            assert(ks@[x] == k);
        }
        assert(ks@.to_set() =~= d@.dom());
    }
    ks
}

impl ReplicaState {
    /// The seq/deps derivation run on every new command, leader or follower:
    /// upgrade the committed-somewhere hints this replica can confirm, fold
    /// every interfering logged instance into seq and deps, assign the
    /// instance (a fresh slot of this replica when it leads), and record the
    /// entry as PreAccepted. Returns the derived `(seq, deps, instance)`.
    #[verifier::loop_isolation(false)]
    pub fn atomic_request_preaccept(
        &mut self,
        replica_id: u8,
        req: ClientRequest,
        cseq: u64,
        cdeps: CommittedDeps,
        cins: Option<Instance>,
    ) -> (r: (u64, CommittedDeps, Instance))
        requires
            old(self).wf(),
            cdeps.wf(),
            cins is None ==> old(self).instance_number < u64::MAX,
        ensures
            final(self).wf(),
            r.1.wf(),
            derived_seq_ok(old(self).log(), req@, cseq, r.0),
            derived_deps_ok(old(self).log(), req@, cdeps@, r.1@),
            (match cins {
                Some(c) => {
                    &&& r.2 == c
                    &&& final(self).instance_number == old(self).instance_number
                    &&& final(self).buffers() == old(self).buffers()
                    &&& final(self).counters() == old(self).counters()
                },
                None => {
                    &&& r.2 == (Instance {
                        replica: replica_id,
                        slot: (old(self).instance_number + 1) as u64,
                    })
                    &&& final(self).instance_number == old(self).instance_number + 1
                    &&& final(self).buffers().dom() == old(self).buffers().dom().insert(r.2)
                    &&& final(self).buffers()[r.2]@ == Seq::<(u64, CommittedDeps)>::empty()
                    &&& forall|i: Instance|
                        #[trigger] old(self).buffers().contains_key(i) && i != r.2
                            ==> final(self).buffers()[i] == old(self).buffers()[i]
                    &&& final(self).counters().dom() == old(self).counters().dom().insert(r.2)
                    &&& final(self).counters()[r.2] == 0
                    &&& forall|i: Instance|
                        #[trigger] old(self).counters().contains_key(i) && i != r.2
                            ==> final(self).counters()[i] == old(self).counters()[i]
                },
            }),
            ({
                let l0 = old(self).log();
                let l1 = final(self).log();
                if l0.contains_key(r.2) && state_rank(l0[r.2].state) > 0 {
                    l1 == l0
                } else {
                    l1.dom() == l0.dom().insert(r.2) && l1[r.2].req == req && l1[r.2].seq == r.0
                        && l1[r.2].deps@.to_set() == r.1@.dom() && l1[r.2].state
                        == CommandState::PreAccepted && (forall|i: Instance|
                        #[trigger] l0.contains_key(i) && i != r.2 ==> l1[i] == l0[i])
                }
            }),
            final(self).dict == old(self).dict,
            final(self).executed == old(self).executed,
    {
        let ghost log0 = self.log();
        let ghost d0seq = cdeps.committed@;
        let ghost d0 = cdeps@;
        let ghost rv = req@;
        let mut seq = cseq;
        let mut deps = cdeps;

        // First pass: upgrade the hint of every incoming dep this replica
        // already holds past PreAccepted.
        let dn = deps.committed.len();
        for idx in 0..dn
            invariant
                self == old(self),
                old(self).wf(),
                log0 == self.log(),
                dn == deps.committed@.len(),
                dn == d0seq.len(),
                ins_keys_unique(d0seq),
                forall|j: int| 0 <= j < dn ==> (#[trigger] deps.committed@[j]).0 == d0seq[j].0,
                forall|j: int|
                    idx <= j < dn ==> (#[trigger] deps.committed@[j]).1 == d0seq[j].1,
                forall|j: int|
                    0 <= j < idx ==> (#[trigger] deps.committed@[j]).1 == (d0seq[j].1 || (
                    log0.contains_key(d0seq[j].0) && log0[d0seq[j].0].state
                        != CommandState::PreAccepted)),
        {
            let k = deps.committed[idx].0;
            let v = deps.committed[idx].1;
            if !v {
                let up = match ins_get(&self.cmds, k) {
                    Some(e) => e.state.rank() != 0,
                    None => false,
                };
                if up {
                    deps.committed.set(idx, (k, true));
                }
            }
        }
        proof {
            assert(ins_keys_unique(deps.committed@));
        }
        let ghost d1seq = deps.committed@;
        let ghost d1 = deps@;
        proof {
            assert forall|k: Instance| #[trigger] d1.contains_key(k) implies d0.contains_key(k) by {
                lemma_ins_map_key_has_index(d1seq, k);
                let j = choose|j: int| 0 <= j < d1seq.len() && (#[trigger] d1seq[j]).0 == k;
                lemma_ins_map_index(d0seq, j);
            }
            assert forall|k: Instance| #[trigger] d0.contains_key(k) implies d1.contains_key(k)
                && d1[k] == (d0[k] || (log0.contains_key(k) && log0[k].state
                != CommandState::PreAccepted)) by {
                lemma_ins_map_key_has_index(d0seq, k);
                let j = choose|j: int| 0 <= j < d0seq.len() && (#[trigger] d0seq[j]).0 == k;
                lemma_ins_map_index(d0seq, j);
                lemma_ins_map_index(d1seq, j);
            }
            assert(d1.dom() =~= d0.dom());
        }

        // Second pass: fold every interfering logged instance into seq and
        // into the deps map, with the hint "held past PreAccepted here".
        let m = self.cmds.len();
        for j in 0..m
            invariant
                self == old(self),
                old(self).wf(),
                log0 == self.log(),
                m == self.cmds@.len(),
                seq >= cseq,
                forall|jj: int|
                    0 <= jj < j && interferes(rv, (#[trigger] self.cmds@[jj]).1.req@) ==> seq
                        >= seq_bump(self.cmds@[jj].1.seq),
                seq == cseq || exists|jj: int|
                    0 <= jj < j && interferes(rv, (#[trigger] self.cmds@[jj]).1.req@) && seq
                        == seq_bump(self.cmds@[jj].1.seq),
                ins_keys_unique(deps.committed@),
                forall|k: Instance|
                    #[trigger] deps@.contains_key(k) ==> d0.contains_key(k) || intf_upto(
                        self.cmds@,
                        rv,
                        j as int,
                        k,
                    ),
                forall|k: Instance| #[trigger] d0.contains_key(k) ==> deps@.contains_key(k),
                forall|k: Instance|
                    intf_upto(self.cmds@, rv, j as int, k) ==> #[trigger] deps@.contains_key(k),
                forall|jj: int|
                    0 <= jj < j && interferes(rv, (#[trigger] self.cmds@[jj]).1.req@)
                        ==> deps@[self.cmds@[jj].0] == (self.cmds@[jj].1.state
                        != CommandState::PreAccepted),
                forall|k: Instance|
                    #[trigger] deps@.contains_key(k) && !intf_upto(self.cmds@, rv, j as int, k)
                        ==> d1.contains_key(k) && deps@[k] == d1[k],
        {
            let ghost dpre = deps@;
            let ghost seq_pre = seq;
            let ghost jint = j as int;
            let entry = &self.cmds[j];
            proof {
                assert(*entry == self.cmds@[jint]);
            }
            let inter = interfere(&req, &entry.1.req);
            proof {
                assert(inter == interferes(rv, self.cmds@[jint].1.req@));
            }
            if inter {
                let es = entry.1.seq;
                let i = entry.0;
                let st_past = entry.1.state.rank() != 0;
                let b = if es == u64::MAX {
                    u64::MAX
                } else {
                    es + 1
                };
                if b > seq {
                    seq = b;
                }
                ins_set(&mut deps.committed, i, st_past);
                proof {
                    assert(deps@ == dpre.insert(i, st_past));
                    assert(seq == seq_bump(es) || seq == seq_pre);
                }
            }
            proof {
                assert(seq >= seq_pre);
                if seq == seq_pre {
                    if seq_pre != cseq {
                        let jw = choose|jj: int|
                            0 <= jj < jint && interferes(
                                rv,
                                (#[trigger] self.cmds@[jj]).1.req@,
                            ) && seq_pre == seq_bump(self.cmds@[jj].1.seq);
                        assert(0 <= jw < jint + 1 && interferes(rv, self.cmds@[jw].1.req@) && seq
                            == seq_bump(self.cmds@[jw].1.seq));
                    }
                } else {
                    assert(inter && seq == seq_bump(self.cmds@[jint].1.seq));
                }
                assert forall|k: Instance|
                    intf_upto(self.cmds@, rv, jint + 1, k) implies #[trigger] deps@.contains_key(
                    k,
                ) by {
                    let jj = choose|jj: int|
                        0 <= jj < jint + 1 && (#[trigger] self.cmds@[jj]).0 == k && interferes(
                            rv,
                            self.cmds@[jj].1.req@,
                        );
                    if jj < jint {
                        assert(intf_upto(self.cmds@, rv, jint, k));
                        assert(dpre.contains_key(k));
                    }
                }
                assert forall|k: Instance|
                    #[trigger] deps@.contains_key(k) implies d0.contains_key(k) || intf_upto(
                        self.cmds@,
                        rv,
                        jint + 1,
                        k,
                    ) by {
                    if dpre.contains_key(k) {
                        if !d0.contains_key(k) {
                            assert(intf_upto(self.cmds@, rv, jint, k));
                            let jj = choose|jj: int|
                                0 <= jj < jint && (#[trigger] self.cmds@[jj]).0 == k && interferes(
                                    rv,
                                    self.cmds@[jj].1.req@,
                                );
                            assert(0 <= jj < jint + 1 && self.cmds@[jj].0 == k && interferes(
                                rv,
                                self.cmds@[jj].1.req@,
                            ));
                        }
                    } else {
                        assert(inter && k == self.cmds@[jint].0);
                        assert(0 <= jint < jint + 1 && self.cmds@[jint].0 == k && interferes(
                            self.cmds@[jint].1.req@,
                            rv,
                        ));
                    }
                }
                assert forall|jj: int|
                    0 <= jj < jint + 1 && interferes(
                        rv,
                        (#[trigger] self.cmds@[jj]).1.req@,
                    ) implies deps@[self.cmds@[jj].0] == (self.cmds@[jj].1.state
                    != CommandState::PreAccepted) by {
                    if jj < jint {
                        if inter && self.cmds@[jj].0 == self.cmds@[jint].0 {
                            lemma_ins_map_index(self.cmds@, jj);
                            lemma_ins_map_index(self.cmds@, jint);
                            assert(self.cmds@[jj].1 == self.cmds@[jint].1);
                        }
                    }
                }
                assert forall|k: Instance|
                    #[trigger] deps@.contains_key(k) && !intf_upto(self.cmds@, rv, jint + 1, k)
                        implies d1.contains_key(k) && deps@[k] == d1[k] by {
                    assert(!intf_upto(self.cmds@, rv, jint, k)) by {
                        if intf_upto(self.cmds@, rv, jint, k) {
                            let jj = choose|jj: int|
                                0 <= jj < jint && (#[trigger] self.cmds@[jj]).0 == k && interferes(
                                    rv,
                                    self.cmds@[jj].1.req@,
                                );
                            assert(0 <= jj < jint + 1 && self.cmds@[jj].0 == k && interferes(
                                rv,
                                self.cmds@[jj].1.req@,
                            ));
                        }
                    }
                    if inter {
                        assert(k != self.cmds@[jint].0) by {
                            if k == self.cmds@[jint].0 {
                                assert(0 <= jint < jint + 1 && self.cmds@[jint].0 == k
                                    && interferes(rv, self.cmds@[jint].1.req@));
                            }
                        }
                    }
                }
            }
        }

        // Convert the loop facts to the map-level statement of the contract.
        proof {
            assert forall|i: Instance|
                #[trigger] log0.contains_key(i) && interferes(rv, log0[i].req@) implies seq
                >= seq_bump(log0[i].seq) && deps@.contains_key(i) && deps@[i] == (log0[i].state
                != CommandState::PreAccepted) by {
                lemma_ins_map_key_has_index(self.cmds@, i);
                let jj = choose|jj: int|
                    0 <= jj < self.cmds@.len() && (#[trigger] self.cmds@[jj]).0 == i;
                lemma_ins_map_index(self.cmds@, jj);
                assert(intf_upto(self.cmds@, rv, self.cmds@.len() as int, i));
            }
            if seq != cseq {
                let jj = choose|jj: int|
                    0 <= jj < self.cmds@.len() && interferes(
                        rv,
                        (#[trigger] self.cmds@[jj]).1.req@,
                    ) && seq == seq_bump(self.cmds@[jj].1.seq);
                lemma_ins_map_index(self.cmds@, jj);
                assert(log0.contains_key(self.cmds@[jj].0) && interferes(
                    rv,
                    log0[self.cmds@[jj].0].req@,
                ) && seq == seq_bump(log0[self.cmds@[jj].0].seq));
            }
            assert forall|k: Instance| #[trigger] deps@.contains_key(k) implies d0.dom().union(
                intf_set(log0, rv),
            ).contains(k) by {
                if !d0.contains_key(k) {
                    let jj = choose|jj: int|
                        0 <= jj < self.cmds@.len() && (#[trigger] self.cmds@[jj]).0 == k
                            && interferes(rv, self.cmds@[jj].1.req@);
                    lemma_ins_map_index(self.cmds@, jj);
                }
            }
            assert forall|k: Instance|
                d0.dom().union(intf_set(log0, rv)).contains(k) implies #[trigger] deps@.contains_key(
                k,
            ) by {
                if !d0.contains_key(k) {
                    lemma_ins_map_key_has_index(self.cmds@, k);
                    let jj = choose|jj: int|
                        0 <= jj < self.cmds@.len() && (#[trigger] self.cmds@[jj]).0 == k;
                    lemma_ins_map_index(self.cmds@, jj);
                    assert(intf_upto(self.cmds@, rv, self.cmds@.len() as int, k));
                }
            }
            assert(deps@.dom() =~= d0.dom().union(intf_set(log0, rv)));
            assert forall|i: Instance|
                #[trigger] d0.dom().contains(i) && !intf_set(log0, rv).contains(i) implies deps@[i]
                == (d0[i] || (log0.contains_key(i) && log0[i].state
                != CommandState::PreAccepted)) by {
                if intf_upto(self.cmds@, rv, self.cmds@.len() as int, i) {
                    let jj = choose|jj: int|
                        0 <= jj < self.cmds@.len() && (#[trigger] self.cmds@[jj]).0 == i
                            && interferes(rv, self.cmds@[jj].1.req@);
                    lemma_ins_map_index(self.cmds@, jj);
                    assert(intf_set(log0, rv).contains(i));
                }
            }
            assert(derived_deps_ok(log0, rv, d0, deps@));
        }

        // Assign the instance and record the PreAccepted entry.
        let keys = deps_keys(&deps);
        match cins {
            Some(c) => {
                self.update_state(req, seq, keys, c, CommandState::PreAccepted);
                (seq, deps, c)
            },
            None => {
                self.instance_number = self.instance_number + 1;
                let ins = Instance { replica: replica_id, slot: self.instance_number };
                proof {
                    assert(self.buffers() == old(self).buffers());
                }
                self.update_state(req, seq, keys, ins, CommandState::PreAccepted);
                let fresh: Vec<(u64, CommittedDeps)> = Vec::new();
                ins_set(&mut self.preaccept_replies, ins, fresh);
                ins_set(&mut self.naccept, ins, 0u8);
                proof {
                    assert forall|i: Instance| #[trigger] self.buffers().contains_key(i)
                        implies buffer_wf(self.buffers()[i]@) by {
                        if i == ins {
                            assert(self.buffers()[i]@ == Seq::<(u64, CommittedDeps)>::empty());
                        } else {
                            assert(old(self).buffers().contains_key(i));
                            assert(self.buffers()[i] == old(self).buffers()[i]);
                        }
                    }
                }
                (seq, deps, ins)
            },
        }
    }
}

} // verus!
