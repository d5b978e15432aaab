//! The data model of the replica: instances, requests, replies, command
//! states, log entries and the wire-level event envelope, together with the
//! mathematical views the contracts speak of.

use vstd::prelude::*;

verus! {

/// Identifier of a command slot: the id of the replica that leads it and that
/// replica's instance counter value (counters start at 1).
#[derive(Clone, Copy, Debug, PartialEq, Eq, Hash, Structural)]
pub struct Instance {
    pub replica: u8,
    pub slot: u64,
}

/// Strict lexicographic order on instances, used as the deterministic
/// tie-breaker of the execution schedule.
pub open spec fn ins_lt(a: Instance, b: Instance) -> bool {
    a.replica < b.replica || (a.replica == b.replica && a.slot < b.slot)
}

impl Instance {
    /// Exec-level strict lexicographic comparison.
    pub fn lt(&self, other: &Instance) -> (r: bool)
        ensures
            r == ins_lt(*self, *other),
    {
        self.replica < other.replica || (self.replica == other.replica && self.slot < other.slot)
    }
}

/// State of a command in the log; strictly monotone in this order.
#[derive(Clone, Copy, Debug, PartialEq, Eq, Structural)]
pub enum CommandState {
    PreAccepted,
    Accepted,
    Committed,
}

/// Rank of a command state in the monotone order.
pub open spec fn state_rank(s: CommandState) -> int {
    match s {
        CommandState::PreAccepted => 0,
        CommandState::Accepted => 1,
        CommandState::Committed => 2,
    }
}

impl CommandState {
    /// Exec-level rank, for monotonicity checks.
    pub fn rank(&self) -> (r: u8)
        ensures
            r as int == state_rank(*self),
    {
        match self {
            CommandState::PreAccepted => 0,
            CommandState::Accepted => 1,
            CommandState::Committed => 2,
        }
    }
}

/// A client command: read a key or write a value to a key. The string after
/// the key (and value) is the client's reply address; the final number is the
/// client's request id.
#[derive(Clone, Debug, PartialEq, Eq)]
pub enum ClientRequest {
    Read(String, String, u64),
    Write(String, String, String, u64),
}

/// Mathematical view of a client request.
pub enum ReqV {
    Read { key: Seq<char>, addr: Seq<char>, id: u64 },
    Write { key: Seq<char>, val: Seq<char>, addr: Seq<char>, id: u64 },
}

impl View for ClientRequest {
    type V = ReqV;

    open spec fn view(&self) -> ReqV {
        match self {
            ClientRequest::Read(k, a, i) => ReqV::Read { key: k@, addr: a@, id: *i },
            ClientRequest::Write(k, v, a, i) => ReqV::Write {
                key: k@,
                val: v@,
                addr: a@,
                id: *i,
            },
        }
    }
}

impl ReqV {
    /// The key a request touches.
    pub open spec fn key(self) -> Seq<char> {
        match self {
            ReqV::Read { key, .. } => key,
            ReqV::Write { key, .. } => key,
        }
    }

    /// Whether the request writes.
    pub open spec fn is_write(self) -> bool {
        self is Write
    }

    /// The client's reply address.
    pub open spec fn addr(self) -> Seq<char> {
        match self {
            ReqV::Read { addr, .. } => addr,
            ReqV::Write { addr, .. } => addr,
        }
    }

    /// The client's request id.
    pub open spec fn id(self) -> u64 {
        match self {
            ReqV::Read { id, .. } => id,
            ReqV::Write { id, .. } => id,
        }
    }
}

/// The reply sent back to a client: the value read (or the pre-image of a
/// write) if any, and the client's request id.
#[derive(Clone, Debug, PartialEq, Eq)]
pub enum ClientReply {
    Reply(Option<String>, u64),
}

/// Mathematical view of a client reply.
pub struct ReplyV {
    pub val: Option<Seq<char>>,
    pub id: u64,
}

impl View for ClientReply {
    type V = ReplyV;

    open spec fn view(&self) -> ReplyV {
        match self {
            ClientReply::Reply(v, i) => ReplyV {
                val: match v {
                    Some(s) => Some(s@),
                    None => None,
                },
                id: *i,
            },
        }
    }
}

/// Map from instance to a hint whether some replica is known to have moved it
/// past `PreAccepted`; carried by PreAccept and PreAcceptOK messages.
#[derive(Clone, Debug, PartialEq, Eq, Default)]
pub struct CommittedDeps {
    pub committed: Vec<(Instance, bool)>,
}

/// Map view of an association list keyed by instances; a later entry for the
/// same key wins.
pub open spec fn ins_map_of<V>(s: Seq<(Instance, V)>) -> Map<Instance, V>
    decreases s.len(),
{
    if s.len() == 0 {
        Map::empty()
    } else {
        ins_map_of(s.drop_last()).insert(s.last().0, s.last().1)
    }
}

/// Whether an association list keyed by instances has pairwise distinct keys.
pub open spec fn ins_keys_unique<V>(s: Seq<(Instance, V)>) -> bool {
    forall|i: int, j: int| 0 <= i < j < s.len() ==> #[trigger] s[i].0 != #[trigger] s[j].0
}

impl View for CommittedDeps {
    type V = Map<Instance, bool>;

    open spec fn view(&self) -> Map<Instance, bool> {
        ins_map_of(self.committed@)
    }
}

impl CommittedDeps {
    /// Well-formed: one entry per instance.
    pub open spec fn wf(&self) -> bool {
        ins_keys_unique(self.committed@)
    }

    /// An empty deps map.
    pub fn empty() -> (r: CommittedDeps)
        ensures
            r.wf(),
            r@ == Map::<Instance, bool>::empty(),
            r.committed@ == Seq::<(Instance, bool)>::empty(),
    {
        CommittedDeps { committed: Vec::new() }
    }
}

/// One entry of the command log.
#[derive(Clone, Debug, PartialEq, Eq)]
pub struct LogEntry {
    pub req: ClientRequest,
    pub seq: u64,
    pub deps: Vec<Instance>,
    pub state: CommandState,
}

/// Mathematical view of a log entry; the dependencies are a set.
pub struct LogEntryV {
    pub req: ReqV,
    pub seq: u64,
    pub deps: Set<Instance>,
    pub state: CommandState,
}

impl View for LogEntry {
    type V = LogEntryV;

    open spec fn view(&self) -> LogEntryV {
        LogEntryV { req: self.req@, seq: self.seq, deps: self.deps@.to_set(), state: self.state }
    }
}

/// The inbound event envelope: every record the wire can carry. The string
/// in each variant after the payload is the sender's address.
#[derive(Clone, Debug, PartialEq, Eq)]
pub enum Event {
    Message(String, String),
    Ping(String, String),
    Pong(String, String),
    Forward(String, String),
    Acknowledge(String),
    SaveState,
    ReceivedRequest(ClientRequest),
    PreAccept(ClientRequest, u64, CommittedDeps, Instance, String),
    PreAcceptOK(ClientRequest, u64, CommittedDeps, Instance, String),
    Accept(ClientRequest, u64, Vec<Instance>, Instance, String),
    AcceptOK(ClientRequest, u64, Vec<Instance>, Instance, String),
    Commit(ClientRequest, u64, Vec<Instance>, Instance, String),
}

/// A plain example record, kept for the wire demo client.
#[derive(Clone, Debug, PartialEq, Eq)]
pub struct CustomMessage {
    pub a_field: String,
    pub b_field: u128,
}

} // verus!
