//! End-to-end protocol scenarios, driven through the dispatcher: the fast
//! path with three replicas, the slow path with five, conflicting writes on
//! two leaders, late replies, and the state dump.

use epaxos::dispatch::{Action, Replica};
use epaxos::types::{ClientReply, ClientRequest, CommittedDeps, Event, Instance};

fn addr(s: &str) -> String {
    s.to_string()
}

fn r_addr(id: u8) -> String {
    format!("127.0.0.1:600{}", id)
}

fn client() -> String {
    addr("127.0.0.1:7000")
}

fn new_replica(id: u8, n: u8) -> Replica {
    let mut conns = Vec::new();
    for p in 1..=n {
        if p != id {
            conns.push(r_addr(p));
        }
    }
    Replica::new(id, r_addr(id), conns, n)
}

fn write_req(key: &str, val: &str, id: u64) -> ClientRequest {
    ClientRequest::Write(key.to_string(), val.to_string(), client(), id)
}

fn read_req(key: &str, id: u64) -> ClientRequest {
    ClientRequest::Read(key.to_string(), client(), id)
}

fn ins(replica: u8, slot: u64) -> Instance {
    Instance { replica, slot }
}

/// Deliver one Broadcast/Send action's event to another replica.
fn event_of(a: &Action) -> Event {
    match a {
        Action::Broadcast(e) => e.clone(),
        Action::Send(_, e) => e.clone(),
        _ => panic!("not a message action"),
    }
}

#[test]
fn single_write_fast_path_n3() {
    // Scenario: one write, three replicas, leader commits on the fast path.
    let mut r1 = new_replica(1, 3);
    let acts = r1.dispatch(Event::ReceivedRequest(write_req("x", "1", 0)));
    assert_eq!(acts.len(), 1);
    let pre = match &acts[0] {
        Action::Broadcast(e @ Event::PreAccept(req, seq, deps, i, from)) => {
            assert_eq!(*req, write_req("x", "1", 0));
            assert_eq!(*seq, 1);
            assert!(deps.committed.is_empty());
            assert_eq!(*i, ins(1, 1));
            assert_eq!(*from, r_addr(1));
            e.clone()
        }
        other => panic!("expected PreAccept broadcast, got {:?}", other),
    };

    // A follower derives the same seq and deps and answers PreAcceptOK.
    let mut r2 = new_replica(2, 3);
    let acts2 = r2.dispatch(pre);
    assert_eq!(acts2.len(), 1);
    let ok = match &acts2[0] {
        Action::Send(to, e @ Event::PreAcceptOK(_, seq, deps, i, _)) => {
            assert_eq!(*to, r_addr(1));
            assert_eq!(*seq, 1);
            assert!(deps.committed.is_empty());
            assert_eq!(*i, ins(1, 1));
            e.clone()
        }
        other => panic!("expected PreAcceptOK send, got {:?}", other),
    };

    // One reply reaches the majority with three replicas: fast-path commit,
    // execution, and the client reply with no prior value.
    let acts3 = r1.dispatch(ok);
    assert_eq!(acts3.len(), 2);
    match &acts3[0] {
        Action::Broadcast(Event::Commit(_, seq, deps, i, _)) => {
            assert_eq!(*seq, 1);
            assert!(deps.is_empty());
            assert_eq!(*i, ins(1, 1));
        }
        other => panic!("expected Commit broadcast, got {:?}", other),
    }
    assert_eq!(acts3[1], Action::Reply(client(), ClientReply::Reply(None, 0)));
}

#[test]
fn read_after_write_same_leader_n3() {
    // Scenario: a write then a read of the same key on the same leader; the
    // read depends on the write and returns the written value.
    let mut r1 = new_replica(1, 3);
    let mut r2 = new_replica(2, 3);

    let a1 = r1.dispatch(Event::ReceivedRequest(write_req("x", "1", 0)));
    let a2 = r2.dispatch(event_of(&a1[0]));
    let a3 = r1.dispatch(event_of(&a2[0]));
    assert_eq!(a3[1], Action::Reply(client(), ClientReply::Reply(None, 0)));

    let b1 = r1.dispatch(Event::ReceivedRequest(read_req("x", 1)));
    match &b1[0] {
        Action::Broadcast(Event::PreAccept(_, seq, deps, i, _)) => {
            assert_eq!(*seq, 2);
            assert_eq!(deps.committed.len(), 1);
            assert_eq!(deps.committed[0].0, ins(1, 1));
            assert_eq!(*i, ins(1, 2));
        }
        other => panic!("expected PreAccept broadcast, got {:?}", other),
    }
    let b2 = r2.dispatch(event_of(&b1[0]));
    let b3 = r1.dispatch(event_of(&b2[0]));
    assert_eq!(b3.len(), 2);
    assert_eq!(
        b3[1],
        Action::Reply(client(), ClientReply::Reply(Some("1".to_string()), 1))
    );
}

#[test]
fn conflicting_writes_two_leaders_n3() {
    // Scenario: two conflicting writes led by different replicas; both
    // commit; the survivor and the replies are fixed by the canonical order.
    let mut r1 = new_replica(1, 3);
    let mut r2 = new_replica(2, 3);

    // Both leaders pre-accept locally before replicating.
    let p1 = r1.dispatch(Event::ReceivedRequest(write_req("x", "a", 0)));
    let p2 = r2.dispatch(Event::ReceivedRequest(write_req("x", "b", 1)));

    // Each sees the other's PreAccept and adds the dependency.
    let ok21 = r2.dispatch(event_of(&p1[0])); // r2 answers for (1,1)
    let ok12 = r1.dispatch(event_of(&p2[0])); // r1 answers for (2,1)
    match &ok21[0] {
        Action::Send(_, Event::PreAcceptOK(_, seq, deps, i, _)) => {
            assert_eq!(*seq, 2);
            assert_eq!(deps.committed.len(), 1);
            assert_eq!(deps.committed[0].0, ins(2, 1));
            assert_eq!(*i, ins(1, 1));
        }
        other => panic!("expected PreAcceptOK, got {:?}", other),
    }

    // Each leader commits its own instance on the fast path. Execution is
    // still gated: the other instance is known but not committed.
    let c1 = r1.dispatch(event_of(&ok21[0]));
    let c2 = r2.dispatch(event_of(&ok12[0]));
    assert_eq!(c1.len(), 1, "execution must wait for the conflicting commit");
    assert_eq!(c2.len(), 1);

    // The Commit broadcasts cross; both replicas now execute both writes in
    // the same canonical order: (1,1) first (equal seq, lower instance).
    let e1 = r1.dispatch(event_of(&c2[0]));
    let e2 = r2.dispatch(event_of(&c1[0]));
    let expect = vec![
        Action::Reply(client(), ClientReply::Reply(None, 0)),
        Action::Reply(client(), ClientReply::Reply(Some("a".to_string()), 1)),
    ];
    assert_eq!(e1, expect);
    assert_eq!(e2, expect);
}

#[test]
fn three_disjoint_writes_three_leaders_n3() {
    // Scenario: three non-conflicting requests, each led by a different
    // replica: all commit on the fast path with empty deps.
    let reqs = [
        write_req("a", "1", 10),
        write_req("b", "2", 11),
        write_req("c", "3", 12),
    ];
    for leader in 1..=3u8 {
        let mut rl = new_replica(leader, 3);
        let mut rf = new_replica(leader % 3 + 1, 3);
        let p = rl.dispatch(Event::ReceivedRequest(reqs[(leader - 1) as usize].clone()));
        match &p[0] {
            Action::Broadcast(Event::PreAccept(_, seq, deps, i, _)) => {
                assert_eq!(*seq, 1);
                assert!(deps.committed.is_empty());
                assert_eq!(*i, ins(leader, 1));
            }
            other => panic!("expected PreAccept, got {:?}", other),
        }
        let okv = rf.dispatch(event_of(&p[0]));
        let c = rl.dispatch(event_of(&okv[0]));
        assert!(matches!(&c[0], Action::Broadcast(Event::Commit(_, 1, _, _, _))));
        assert_eq!(
            c[1],
            Action::Reply(client(), ClientReply::Reply(None, 10 + (leader as u64 - 1)))
        );
    }
}

#[test]
fn slow_path_n5() {
    // Scenario: five replicas; one of the two decisive replies adds an extra
    // dependency, so the leader takes the slow path and broadcasts Accept;
    // the instance commits after two AcceptOK.
    let mut r1 = new_replica(1, 5);
    let p = r1.dispatch(Event::ReceivedRequest(write_req("k", "v", 7)));
    assert!(matches!(&p[0], Action::Broadcast(Event::PreAccept(_, 1, _, _, _))));

    // First reply matches the proposal: below the threshold, no decision.
    let ok_same = Event::PreAcceptOK(
        write_req("k", "v", 7),
        1,
        CommittedDeps { committed: vec![] },
        ins(1, 1),
        r_addr(2),
    );
    assert!(r1.dispatch(ok_same).is_empty());

    // Second reply brings an extra dependency: the union differs from the
    // proposal, so the leader broadcasts Accept with the union.
    let ok_extra = Event::PreAcceptOK(
        write_req("k", "v", 7),
        1,
        CommittedDeps {
            committed: vec![(ins(3, 4), false)],
        },
        ins(1, 1),
        r_addr(3),
    );
    let slow = r1.dispatch(ok_extra);
    assert_eq!(slow.len(), 1);
    match &slow[0] {
        Action::Broadcast(Event::Accept(_, seq, deps, i, _)) => {
            assert_eq!(*seq, 1);
            assert_eq!(deps.as_slice(), &[ins(3, 4)]);
            assert_eq!(*i, ins(1, 1));
        }
        other => panic!("expected Accept broadcast, got {:?}", other),
    }

    // One AcceptOK is not a majority of five.
    let ok1 = Event::AcceptOK(write_req("k", "v", 7), 1, vec![ins(3, 4)], ins(1, 1), r_addr(2));
    assert!(r1.dispatch(ok1.clone()).is_empty());

    // The second AcceptOK commits; execution still waits for the unknown
    // dependency (3,4).
    let commit = r1.dispatch(Event::AcceptOK(
        write_req("k", "v", 7),
        1,
        vec![ins(3, 4)],
        ins(1, 1),
        r_addr(4),
    ));
    assert_eq!(commit.len(), 1);
    assert!(matches!(&commit[0], Action::Broadcast(Event::Commit(_, 1, _, _, _))));

    // Once the dependency commits, both execute and the write replies with
    // the absent prior value.
    let done = r1.dispatch(Event::Commit(
        write_req("other", "w", 99),
        1,
        vec![],
        ins(3, 4),
        r_addr(3),
    ));
    assert_eq!(
        done,
        vec![
            Action::Reply(client(), ClientReply::Reply(None, 99)),
            Action::Reply(client(), ClientReply::Reply(None, 7)),
        ]
    );
}

#[test]
fn late_preaccept_ok_discarded() {
    // Scenario: a PreAcceptOK for an already committed instance is dropped
    // with no state change.
    let mut r1 = new_replica(1, 3);
    let mut r2 = new_replica(2, 3);
    let p = r1.dispatch(Event::ReceivedRequest(write_req("x", "1", 0)));
    let ok = r2.dispatch(event_of(&p[0]));
    let _ = r1.dispatch(event_of(&ok[0]));

    let before = r1.dispatch(Event::SaveState);
    let late = r1.dispatch(event_of(&ok[0]));
    assert!(late.is_empty());
    let after = r1.dispatch(Event::SaveState);
    assert_eq!(before, after);
}

#[test]
fn late_accept_ok_discarded() {
    // An AcceptOK for an instance never led here, or already committed, is
    // dropped.
    let mut r1 = new_replica(1, 3);
    let late = r1.dispatch(Event::AcceptOK(write_req("x", "1", 0), 1, vec![], ins(2, 9), r_addr(2)));
    assert!(late.is_empty());
}

#[test]
fn save_state_snapshot() {
    // Scenario: after the write and the read, the dump names both commands,
    // the dictionary holds the written pair, and both instances executed.
    let mut r1 = new_replica(1, 3);
    let mut r2 = new_replica(2, 3);
    let a1 = r1.dispatch(Event::ReceivedRequest(write_req("x", "1", 0)));
    let a2 = r2.dispatch(event_of(&a1[0]));
    let _ = r1.dispatch(event_of(&a2[0]));
    let b1 = r1.dispatch(Event::ReceivedRequest(read_req("x", 1)));
    let b2 = r2.dispatch(event_of(&b1[0]));
    let _ = r1.dispatch(event_of(&b2[0]));

    let acts = r1.dispatch(Event::SaveState);
    assert_eq!(acts.len(), 1);
    match &acts[0] {
        Action::WriteFile(name, contents) => {
            assert_eq!(name, "id_1.txt");
            assert!(contents.contains("BEGIN CMD LOG"));
            assert!(contents.contains("Write[x___, Seq: 1   Status: Committed]"));
            assert!(contents.contains("Read-[x___, Seq: 2   Status: Committed]"));
            assert!(contents.contains("[(\"x\", \"1\")]"));
            assert!(contents.contains("Executed command instances:\n[(1, 1), (1, 2)]"));
        }
        other => panic!("expected WriteFile, got {:?}", other),
    }
}

#[test]
fn accept_answers_accept_ok() {
    // A follower stores a peer's Accept and answers the leader.
    let mut r2 = new_replica(2, 3);
    let acts = r2.dispatch(Event::Accept(
        write_req("k", "v", 5),
        3,
        vec![ins(1, 1)],
        ins(1, 2),
        r_addr(1),
    ));
    assert_eq!(acts.len(), 1);
    match &acts[0] {
        Action::Send(to, Event::AcceptOK(_, seq, deps, i, from)) => {
            assert_eq!(*to, r_addr(1));
            assert_eq!(*seq, 3);
            assert_eq!(deps.as_slice(), &[ins(1, 1)]);
            assert_eq!(*i, ins(1, 2));
            assert_eq!(*from, r_addr(2));
        }
        other => panic!("expected AcceptOK send, got {:?}", other),
    }
}

#[test]
fn commit_never_downgraded() {
    // Monotone state: an Accept arriving after Commit does not lower the
    // stored state; the execution outcome stays the same.
    let mut r2 = new_replica(2, 3);
    let _ = r2.dispatch(Event::Commit(write_req("x", "1", 0), 1, vec![], ins(1, 1), r_addr(1)));
    let before = r2.dispatch(Event::SaveState);
    let acts = r2.dispatch(Event::Accept(write_req("x", "9", 0), 9, vec![], ins(1, 1), r_addr(1)));
    assert_eq!(acts.len(), 1); // the AcceptOK is still sent
    let after = r2.dispatch(Event::SaveState);
    assert_eq!(before, after, "a Commit is terminal");
}

#[test]
fn execution_idempotent_on_repeated_commit() {
    // A repeated Commit does not re-execute or re-reply.
    let mut r2 = new_replica(2, 3);
    let first = r2.dispatch(Event::Commit(write_req("x", "1", 4), 1, vec![], ins(1, 1), r_addr(1)));
    assert_eq!(first, vec![Action::Reply(client(), ClientReply::Reply(None, 4))]);
    let second = r2.dispatch(Event::Commit(write_req("x", "1", 4), 1, vec![], ins(1, 1), r_addr(1)));
    assert!(second.is_empty());
}

#[test]
fn follower_seq_bumps_past_interference() {
    // The derived seq strictly exceeds every interfering logged seq.
    let mut r2 = new_replica(2, 3);
    let _ = r2.dispatch(Event::Commit(write_req("x", "1", 0), 7, vec![], ins(1, 1), r_addr(1)));
    let acts = r2.dispatch(Event::PreAccept(
        write_req("x", "2", 1),
        1,
        CommittedDeps { committed: vec![] },
        ins(3, 1),
        r_addr(3),
    ));
    match &acts[0] {
        Action::Send(_, Event::PreAcceptOK(_, seq, deps, _, _)) => {
            assert_eq!(*seq, 8, "seq must exceed the interfering seq 7");
            assert_eq!(deps.committed.len(), 1);
            assert_eq!(deps.committed[0].0, ins(1, 1));
            assert!(deps.committed[0].1, "the dependency is known committed");
        }
        other => panic!("expected PreAcceptOK, got {:?}", other),
    }
}

#[test]
fn reads_do_not_interfere() {
    // Two reads of the same key do not interfere: the second read derives
    // seq 1 with no dependencies.
    let mut r1 = new_replica(1, 3);
    let _ = r1.dispatch(Event::Commit(read_req("x", 0), 1, vec![], ins(2, 1), r_addr(2)));
    let acts = r1.dispatch(Event::ReceivedRequest(read_req("x", 1)));
    match &acts[0] {
        Action::Broadcast(Event::PreAccept(_, seq, deps, _, _)) => {
            assert_eq!(*seq, 1);
            assert!(deps.committed.is_empty());
        }
        other => panic!("expected PreAccept, got {:?}", other),
    }
}
