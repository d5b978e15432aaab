//! The dispatcher core: one replica's reaction to every inbound event. Each
//! event maps to a state transition of the consensus engine and a list of
//! outbound actions - messages to peers, replies to clients, or a state dump
//! - that the surrounding process performs in order.

use vstd::prelude::*;
use crate::types::{
    Instance, CommandState, ClientRequest, ClientReply, CommittedDeps, LogEntry, Event, state_rank,
};
use crate::store::copy_ins_vec;
use crate::replica::{ReplicaState, clone_req, derived_seq_ok, derived_deps_ok};
use crate::quorum::{
    log_step, replies_max_seq, replies_union, replies_same, union_all_committed,
};
use crate::exec::{run_schedule, execution_schedule};
use crate::format::{max_slot_ok, dict_dump_ok, exec_dump_ok, format_log_chars};
use crate::text::{chars_to_string, push_str_chars, push_u64_digits, u64_chars};

verus! {

/// What the process around the replica must do after an event: send a record
/// to every peer, to one peer, dial a client with its reply, or write the
/// state dump to a file.
#[derive(Clone, Debug, PartialEq, Eq)]
pub enum Action {
    Broadcast(Event),
    Send(String, Event),
    Reply(String, ClientReply),
    WriteFile(String, String),
}

/// An inbound event is well-formed when any deps map it carries has one
/// entry per instance.
pub open spec fn event_wf(e: Event) -> bool {
    match e {
        Event::PreAccept(_, _, d, _, _) => d.wf(),
        Event::PreAcceptOK(_, _, d, _, _) => d.wf(),
        _ => true,
    }
}

/// One replica: its consensus state and its place in the cluster.
pub struct Replica {
    pub replica_state: ReplicaState,
    pub id: u8,
    pub addr: String,
    pub connections: Vec<String>,
    pub n: u8,
}

/// Append one client reply action per earned reply, in order.
fn push_reply_actions(acts: &mut Vec<Action>, replies: Vec<(String, ClientReply)>)
    ensures
        final(acts)@.len() == old(acts)@.len() + replies@.len(),
        forall|z: int| 0 <= z < old(acts)@.len() ==> final(acts)@[z] == old(acts)@[z],
        forall|z: int|
            0 <= z < replies@.len() ==> final(acts)@[old(acts)@.len() + z] == Action::Reply(
                replies@[z].0,
                replies@[z].1,
            ),
{
    let ghost all = replies@;
    let mut rem = replies;
    while rem.len() > 0
        invariant
            rem@ == all.skip(all.len() - rem@.len()),
            rem@.len() <= all.len(),
            acts@.len() == old(acts)@.len() + all.len() - rem@.len(),
            forall|z: int| 0 <= z < old(acts)@.len() ==> acts@[z] == old(acts)@[z],
            forall|z: int|
                0 <= z < all.len() - rem@.len() ==> acts@[old(acts)@.len() + z] == Action::Reply(
                    all[z].0,
                    all[z].1,
                ),
        decreases rem@.len(),
    {
        let ghost k = all.len() - rem@.len();
        let p = rem.remove(0);
        proof {
            assert(p == all[k]);
            assert(rem@ =~= all.skip(k + 1));
        }
        acts.push(Action::Reply(p.0, p.1));
    }
}

impl Replica {
    /// A fresh replica with the given id, own address, peer addresses and
    /// cluster size: empty log, empty dictionary, counter at zero.
    pub fn new(id: u8, addr: String, connections: Vec<String>, n: u8) -> (r: Replica)
        ensures
            r.id == id,
            r.addr == addr,
            r.connections == connections,
            r.n == n,
            r.replica_state.wf(),
            r.replica_state.instance_number == 0,
            r.replica_state.log() == Map::<Instance, LogEntry>::empty(),
            r.replica_state.dict_v() == Map::<Seq<char>, Seq<char>>::empty(),
            r.replica_state.buffers() == Map::<Instance, Vec<(u64, CommittedDeps)>>::empty(),
            r.replica_state.counters() == Map::<Instance, u8>::empty(),
            r.replica_state.executed_set() == Set::<Instance>::empty(),
    {
        Replica { replica_state: ReplicaState::new(), id, addr, connections, n }
    }

    /// React to one inbound event: run the consensus transition it asks for
    /// and return the outbound actions, in the order they are to be
    /// performed. The contract follows the event:
    /// a client request is derived and pre-accepted here as its leader and a
    /// PreAccept goes to every peer; a peer's PreAccept is derived here as a
    /// follower and a PreAcceptOK goes back; a PreAcceptOK feeds the quorum
    /// logic, which may commit fast (Commit goes out, execution runs) or
    /// fall back to Accept; an Accept is stored and answered with AcceptOK;
    /// an AcceptOK is counted and may commit; a Commit is stored and
    /// execution runs; SaveState returns the state dump as a file to write.
    #[verifier::rlimit(100)]
    pub fn dispatch(&mut self, event: Event) -> (actions: Vec<Action>)
        requires
            old(self).replica_state.wf(),
            event_wf(event),
            event is ReceivedRequest ==> old(self).replica_state.instance_number < u64::MAX,
        ensures
            final(self).replica_state.wf(),
            final(self).id == old(self).id,
            final(self).addr == old(self).addr,
            final(self).connections == old(self).connections,
            final(self).n == old(self).n,
            ({
                let pre = old(self).replica_state;
                let post = final(self).replica_state;
                let l0 = pre.log();
                let l1 = post.log();
                match event {
                    Event::Message(a, m) => {
                        &&& post == pre
                        &&& actions@.len() == 1
                        &&& (actions@[0] matches Action::Broadcast(Event::Forward(fa, fm))
                            && fa@ == old(self).addr@ && fm == m)
                    },
                    Event::Forward(a, m) => {
                        &&& post == pre
                        &&& actions@.len() == 1
                        &&& (actions@[0] matches Action::Broadcast(Event::Acknowledge(fa)) && fa@
                            == old(self).addr@)
                    },
                    Event::Ping(a, m) => post == pre && actions@.len() == 0,
                    Event::Pong(a, m) => post == pre && actions@.len() == 0,
                    Event::Acknowledge(a) => post == pre && actions@.len() == 0,
                    Event::SaveState => {
                        &&& post == pre
                        &&& actions@.len() == 1
                        &&& (actions@[0] matches Action::WriteFile(name, contents) && name@ == "id_"@
                            + u64_chars(old(self).id as u64) + ".txt"@ && (exists|
                            maxn: u64,
                            sd: Seq<(Seq<char>, Seq<char>)>,
                            se: Seq<Instance>,
                        |
                            max_slot_ok(pre.log(), maxn) && dict_dump_ok(pre.dict_v(), sd)
                                && exec_dump_ok(pre.executed_set(), se) && contents@
                                == format_log_chars(old(self).n, pre.log(), maxn, sd, se)))
                    },
                    Event::ReceivedRequest(req) => {
                        &&& post.instance_number == pre.instance_number + 1
                        &&& post.dict == pre.dict
                        &&& post.executed == pre.executed
                        &&& actions@.len() == 1
                        &&& (actions@[0] matches Action::Broadcast(Event::PreAccept(q, s, d, i, a))
                            && q@ == req@ && a@ == old(self).addr@ && i == (Instance {
                            replica: old(self).id,
                            slot: (pre.instance_number + 1) as u64,
                        }) && derived_seq_ok(l0, req@, 1, s) && d.wf() && derived_deps_ok(
                            l0,
                            req@,
                            Map::empty(),
                            d@,
                        ) && (if l0.contains_key(i) && state_rank(l0[i].state) > 0 {
                            l1 == l0
                        } else {
                            l1.dom() == l0.dom().insert(i) && l1[i].req@ == req@ && l1[i].seq == s
                                && l1[i].deps@.to_set() == d@.dom() && l1[i].state
                                == CommandState::PreAccepted
                        }))
                    },
                    Event::PreAccept(req, cseq, cdeps, cins, leader) => {
                        &&& post.instance_number == pre.instance_number
                        &&& post.dict == pre.dict
                        &&& post.executed == pre.executed
                        &&& actions@.len() == 1
                        &&& (actions@[0] matches Action::Send(to, Event::PreAcceptOK(q, s, d, i, a))
                            && to == leader && q@ == req@ && a@ == old(self).addr@ && i == cins
                            && derived_seq_ok(l0, req@, cseq, s) && d.wf() && derived_deps_ok(
                            l0,
                            req@,
                            cdeps@,
                            d@,
                        ) && (if l0.contains_key(cins) && state_rank(l0[cins].state) > 0 {
                            l1 == l0
                        } else {
                            l1.dom() == l0.dom().insert(cins) && l1[cins].req@ == req@
                                && l1[cins].seq == s && l1[cins].deps@.to_set() == d@.dom()
                                && l1[cins].state == CommandState::PreAccepted
                        }))
                    },
                    Event::PreAcceptOK(req, cseq, cdeps, cins, _) => {
                        if !pre.buffers().contains_key(cins) || !l0.contains_key(cins)
                            || l0[cins].state != CommandState::PreAccepted {
                            post == pre && actions@.len() == 0
                        } else {
                            let rs = pre.buffers()[cins]@.push((cseq, cdeps));
                            &&& post.buffers().dom() == pre.buffers().dom()
                            &&& post.buffers()[cins]@ == rs
                            &&& post.instance_number == pre.instance_number
                            &&& if rs.len() < (old(self).n / 2) as int {
                                actions@.len() == 0 && l1 == l0 && post.dict == pre.dict
                                    && post.executed == pre.executed
                            } else {
                                let fast3 = old(self).n == 3;
                                let us = replies_max_seq(rs);
                                let u = replies_union(rs);
                                let fast5 = replies_same(rs, l0[cins].seq, l0[cins].deps@.to_set())
                                    && union_all_committed(l0, u);
                                let fast = fast3 || fast5;
                                let s2: u64 = if fast3 {
                                    cseq
                                } else {
                                    us
                                };
                                let d2: Set<Instance> = if fast3 {
                                    cdeps@.dom()
                                } else {
                                    u.dom()
                                };
                                if fast {
                                    &&& log_step(
                                        l0,
                                        l1,
                                        cins,
                                        l1[cins].req,
                                        s2,
                                        d2,
                                        CommandState::Committed,
                                    )
                                    &&& l1[cins].req@ == req@
                                    &&& actions@.len() >= 1
                                    &&& (actions@[0] matches Action::Broadcast(Event::Commit(
                                        q,
                                        s3,
                                        d3,
                                        i,
                                        a,
                                    )) && q@ == req@ && s3 == s2 && d3@.to_set() == d2 && i == cins
                                        && a@ == old(self).addr@)
                                    &&& ({
                                        let out = run_schedule(
                                            l1,
                                            execution_schedule(l1),
                                            pre.dict_v(),
                                            pre.executed_set(),
                                        );
                                        &&& post.dict_v() == out.0
                                        &&& post.executed_set() == out.1
                                        &&& actions@.len() == 1 + out.2.len()
                                        &&& forall|z: int|
                                            0 <= z < out.2.len()
                                                ==> (#[trigger] actions@[1 + z] matches
                                            Action::Reply(ra, rr) && ra@ == out.2[z].0 && rr@
                                                == out.2[z].1)
                                    })
                                } else {
                                    &&& log_step(
                                        l0,
                                        l1,
                                        cins,
                                        l1[cins].req,
                                        s2,
                                        d2,
                                        CommandState::Accepted,
                                    )
                                    &&& l1[cins].req@ == req@
                                    &&& post.dict == pre.dict
                                    &&& post.executed == pre.executed
                                    &&& actions@.len() == 1
                                    &&& (actions@[0] matches Action::Broadcast(Event::Accept(
                                        q,
                                        s3,
                                        d3,
                                        i,
                                        a,
                                    )) && q@ == req@ && s3 == s2 && d3@.to_set() == d2 && i == cins
                                        && a@ == old(self).addr@)
                                }
                            }
                        }
                    },
                    Event::Accept(req, cseq, cdeps, cins, leader) => {
                        &&& l1 == (if l0.contains_key(cins) && state_rank(l0[cins].state)
                            > state_rank(CommandState::Accepted) {
                            l0
                        } else {
                            l0.insert(
                                cins,
                                (LogEntry {
                                    req: req,
                                    seq: cseq,
                                    deps: cdeps,
                                    state: CommandState::Accepted,
                                }),
                            )
                        })
                        &&& post.dict == pre.dict
                        &&& post.executed == pre.executed
                        &&& post.instance_number == pre.instance_number
                        &&& actions@.len() == 1
                        &&& (actions@[0] matches Action::Send(to, Event::AcceptOK(q, s3, d3, i, a))
                            && to == leader && q@ == req@ && s3 == cseq && d3@ == cdeps@ && i
                            == cins && a@ == old(self).addr@)
                    },
                    Event::AcceptOK(req, cseq, cdeps, cins, _) => {
                        let c0 = pre.counters();
                        if !l0.contains_key(cins) || l0[cins].state == CommandState::Committed
                            || !c0.contains_key(cins) {
                            post == pre && actions@.len() == 0
                        } else {
                            let c1 = if c0[cins] == 255 {
                                255u8
                            } else {
                                (c0[cins] + 1) as u8
                            };
                            &&& post.counters() == c0.insert(cins, c1)
                            &&& post.instance_number == pre.instance_number
                            &&& if c1 >= old(self).n / 2 {
                                &&& log_step(
                                    l0,
                                    l1,
                                    cins,
                                    l1[cins].req,
                                    cseq,
                                    cdeps@.to_set(),
                                    CommandState::Committed,
                                )
                                &&& l1[cins].req@ == req@
                                &&& actions@.len() >= 1
                                &&& (actions@[0] matches Action::Broadcast(Event::Commit(
                                    q,
                                    s3,
                                    d3,
                                    i,
                                    a,
                                )) && q@ == req@ && s3 == cseq && d3@ == cdeps@ && i == cins && a@
                                    == old(self).addr@)
                                &&& ({
                                    let out = run_schedule(
                                        l1,
                                        execution_schedule(l1),
                                        pre.dict_v(),
                                        pre.executed_set(),
                                    );
                                    &&& post.dict_v() == out.0
                                    &&& post.executed_set() == out.1
                                    &&& actions@.len() == 1 + out.2.len()
                                    &&& forall|z: int|
                                        0 <= z < out.2.len()
                                            ==> (#[trigger] actions@[1 + z] matches Action::Reply(
                                            ra,
                                            rr,
                                        ) && ra@ == out.2[z].0 && rr@ == out.2[z].1)
                                })
                            } else {
                                actions@.len() == 0 && l1 == l0 && post.dict == pre.dict
                                    && post.executed == pre.executed
                            }
                        }
                    },
                    Event::Commit(req, cseq, cdeps, cins, _) => {
                        &&& l1 == (if l0.contains_key(cins) && state_rank(l0[cins].state)
                            > state_rank(CommandState::Committed) {
                            l0
                        } else {
                            l0.insert(
                                cins,
                                (LogEntry {
                                    req: req,
                                    seq: cseq,
                                    deps: cdeps,
                                    state: CommandState::Committed,
                                }),
                            )
                        })
                        &&& post.instance_number == pre.instance_number
                        &&& ({
                            let out = run_schedule(
                                l1,
                                execution_schedule(l1),
                                pre.dict_v(),
                                pre.executed_set(),
                            );
                            &&& post.dict_v() == out.0
                            &&& post.executed_set() == out.1
                            &&& actions@.len() == out.2.len()
                            &&& forall|z: int|
                                0 <= z < out.2.len() ==> (#[trigger] actions@[z] matches
                                Action::Reply(ra, rr) && ra@ == out.2[z].0 && rr@ == out.2[z].1)
                        })
                    },
                }
            }),
    {
        let mut acts: Vec<Action> = Vec::new();
        match event {
            Event::Message(_a, m) => {
                acts.push(Action::Broadcast(Event::Forward(self.addr.clone(), m)));
            },
            Event::Forward(_a, _m) => {
                acts.push(Action::Broadcast(Event::Acknowledge(self.addr.clone())));
            },
            Event::Ping(_a, _m) => {
            },
            Event::Pong(_a, _m) => {
            },
            Event::Acknowledge(_a) => {
            },
            Event::SaveState => {
                let contents = self.replica_state.format_log(self.n);
                let mut name: Vec<char> = Vec::new();
                push_str_chars("id_", &mut name);
                push_u64_digits(self.id as u64, &mut name);
                push_str_chars(".txt", &mut name);
                let fname = chars_to_string(&name);
                acts.push(Action::WriteFile(fname, contents));
            },
            Event::ReceivedRequest(req) => {
                let req2 = clone_req(&req);
                let r = self.replica_state.atomic_request_preaccept(
                    self.id,
                    req,
                    1,
                    CommittedDeps::empty(),
                    None,
                );
                acts.push(
                    Action::Broadcast(Event::PreAccept(req2, r.0, r.1, r.2, self.addr.clone())),
                );
            },
            Event::PreAccept(req, cseq, cdeps, cins, leader) => {
                let req2 = clone_req(&req);
                let r = self.replica_state.atomic_request_preaccept(
                    self.id,
                    req,
                    cseq,
                    cdeps,
                    Some(cins),
                );
                acts.push(
                    Action::Send(leader, Event::PreAcceptOK(req2, r.0, r.1, cins, self.addr.clone())),
                );
            },
            Event::PreAcceptOK(req, cseq, cdeps, cins, _) => {
                let req2 = clone_req(&req);
                match self.replica_state.path(self.n, req, cseq, cdeps, cins) {
                    Some((s, d, fast)) => {
                        if fast {
                            acts.push(
                                Action::Broadcast(
                                    Event::Commit(req2, s, d, cins, self.addr.clone()),
                                ),
                            );
                            let replies = self.replica_state.execute_command();
                            let ghost reps = replies@;
                            push_reply_actions(&mut acts, replies);
                            proof {
                                let l1 = self.replica_state.log();
                                let out = run_schedule(
                                    l1,
                                    execution_schedule(l1),
                                    old(self).replica_state.dict_v(),
                                    old(self).replica_state.executed_set(),
                                );
                                assert(reps.len() == out.2.len());
                                assert forall|z: int| 0 <= z < out.2.len() implies (
                                #[trigger] acts@[1 + z] matches Action::Reply(ra, rr) && ra@
                                    == out.2[z].0 && rr@ == out.2[z].1) by {
                                    assert(acts@[1 + z] == Action::Reply(reps[z].0, reps[z].1));
                                    assert(reps[z].0@ == out.2[z].0 && reps[z].1@ == out.2[z].1);
                                }
                            }
                        } else {
                            acts.push(
                                Action::Broadcast(
                                    Event::Accept(req2, s, d, cins, self.addr.clone()),
                                ),
                            );
                        }
                    },
                    None => {
                    },
                }
            },
            Event::Accept(req, cseq, cdeps, cins, leader) => {
                let req2 = clone_req(&req);
                let d2 = copy_ins_vec(&cdeps);
                self.replica_state.atomic_update_state(
                    req,
                    cseq,
                    cdeps,
                    cins,
                    CommandState::Accepted,
                );
                acts.push(
                    Action::Send(leader, Event::AcceptOK(req2, cseq, d2, cins, self.addr.clone())),
                );
            },
            Event::AcceptOK(req, cseq, cdeps, cins, _) => {
                let req2 = clone_req(&req);
                let d2 = copy_ins_vec(&cdeps);
                let committed = self.replica_state.atomic_accept(self.n, req, cseq, cdeps, cins);
                if committed {
                    acts.push(
                        Action::Broadcast(Event::Commit(req2, cseq, d2, cins, self.addr.clone())),
                    );
                    let replies = self.replica_state.execute_command();
                    let ghost reps = replies@;
                    push_reply_actions(&mut acts, replies);
                    proof {
                        let l1 = self.replica_state.log();
                        let out = run_schedule(
                            l1,
                            execution_schedule(l1),
                            old(self).replica_state.dict_v(),
                            old(self).replica_state.executed_set(),
                        );
                        assert(reps.len() == out.2.len());
                        assert forall|z: int| 0 <= z < out.2.len() implies (
                        #[trigger] acts@[1 + z] matches Action::Reply(ra, rr) && ra@ == out.2[z].0
                            && rr@ == out.2[z].1) by {
                            assert(acts@[1 + z] == Action::Reply(reps[z].0, reps[z].1));
                            assert(reps[z].0@ == out.2[z].0 && reps[z].1@ == out.2[z].1);
                        }
                    }
                }
            },
            Event::Commit(req, cseq, cdeps, cins, _) => {
                self.replica_state.atomic_update_state(
                    req,
                    cseq,
                    cdeps,
                    cins,
                    CommandState::Committed,
                );
                let replies = self.replica_state.execute_command();
                let ghost reps = replies@;
                push_reply_actions(&mut acts, replies);
                proof {
                    let l1 = self.replica_state.log();
                    let out = run_schedule(
                        l1,
                        execution_schedule(l1),
                        old(self).replica_state.dict_v(),
                        old(self).replica_state.executed_set(),
                    );
                    assert(reps.len() == out.2.len());
                    assert forall|z: int| 0 <= z < out.2.len() implies (
                    #[trigger] acts@[z] matches Action::Reply(ra, rr) && ra@ == out.2[z].0 && rr@
                        == out.2[z].1) by {
                        assert(acts@[z] == Action::Reply(reps[z].0, reps[z].1));
                        assert(reps[z].0@ == out.2[z].0 && reps[z].1@ == out.2[z].1);
                    }
                }
            },
        }
        acts
    }
}

} // verus!
