//! Round trips of the wire codec: every record variant serializes to one
//! line and parses back to an equal value, and non-canonical text is refused.

use epaxos::codec::{parse_event, parse_reply, serialize_event, serialize_reply};
use epaxos::types::{ClientReply, ClientRequest, CommittedDeps, Event, Instance};

fn ins(replica: u8, slot: u64) -> Instance {
    Instance { replica, slot }
}

fn req() -> ClientRequest {
    ClientRequest::Write(
        "key".to_string(),
        "value".to_string(),
        "127.0.0.1:7000".to_string(),
        42,
    )
}

fn rt(e: Event) {
    let line = serialize_event(&e);
    let back = parse_event(line.as_str());
    assert_eq!(back, Some(e), "round trip failed for {}", line);
}

#[test]
fn round_trip_every_variant() {
    rt(Event::Message("127.0.0.1:1".to_string(), "hello".to_string()));
    rt(Event::Ping("127.0.0.1:1".to_string(), "p".to_string()));
    rt(Event::Pong("127.0.0.1:1".to_string(), "q".to_string()));
    rt(Event::Forward("127.0.0.1:1".to_string(), "fwd".to_string()));
    rt(Event::Acknowledge("127.0.0.1:1".to_string()));
    rt(Event::SaveState);
    rt(Event::ReceivedRequest(req()));
    rt(Event::ReceivedRequest(ClientRequest::Read(
        "k".to_string(),
        "127.0.0.1:7000".to_string(),
        0,
    )));
    rt(Event::PreAccept(
        req(),
        1,
        CommittedDeps { committed: vec![] },
        ins(1, 1),
        "127.0.0.1:6001".to_string(),
    ));
    rt(Event::PreAcceptOK(
        req(),
        18446744073709551615,
        CommittedDeps {
            committed: vec![(ins(1, 1), true), (ins(3, 9), false)],
        },
        ins(2, 5),
        "127.0.0.1:6002".to_string(),
    ));
    rt(Event::Accept(req(), 7, vec![ins(1, 1), ins(2, 2)], ins(1, 3), "a".to_string()));
    rt(Event::AcceptOK(req(), 7, vec![], ins(1, 3), "a".to_string()));
    rt(Event::Commit(req(), 0, vec![ins(5, 5)], ins(1, 3), "a".to_string()));
}

#[test]
fn round_trip_escaped_strings() {
    rt(Event::Message(
        "with \"quotes\"".to_string(),
        "back\\slash and \"both\"".to_string(),
    ));
    rt(Event::Message("line\nbreak".to_string(), "n".to_string()));
}

#[test]
fn records_never_span_lines() {
    let e = Event::Message("a\nb".to_string(), "c\nd".to_string());
    let line = serialize_event(&e);
    assert!(!line.contains('\n'), "a record must stay on one line: {}", line);
}

#[test]
fn serialized_shape_is_exact() {
    // The serializer output is pinned character by character.
    let e = Event::PreAccept(
        ClientRequest::Read("x".to_string(), "c".to_string(), 0),
        1,
        CommittedDeps {
            committed: vec![(ins(1, 1), false)],
        },
        ins(1, 2),
        "s".to_string(),
    );
    assert_eq!(
        serialize_event(&e),
        "{\"PreAccept\":[{\"Read\":[\"x\",\"c\",0]},1,{\"committed\":[[[1,1],false]]},[1,2],\"s\"]}"
    );
    assert_eq!(
        serialize_event(&Event::SaveState),
        "\"SaveState\""
    );
}

#[test]
fn reply_round_trip() {
    for r in [
        ClientReply::Reply(None, 0),
        ClientReply::Reply(Some("v\"x".to_string()), 9),
    ] {
        let line = serialize_reply(&r);
        assert_eq!(parse_reply(line.as_str()), Some(r));
    }
}

#[test]
fn malformed_lines_are_refused() {
    assert_eq!(parse_event(""), None);
    assert_eq!(parse_event("{\"PreAccept\":"), None);
    assert_eq!(parse_event("{\"Nope\":[]}"), None);
    assert_eq!(parse_event("\"SaveState\" "), None); // trailing junk
    assert_eq!(parse_reply("{\"Reply\":[null,1"), None);
    // a huge number that does not fit in 64 bits is refused
    assert_eq!(
        parse_event("{\"Acknowledge\":\"a\"}x"),
        None
    );
}
