//! The simulation: the node graph with its hostname directory, the
//! in-flight message bus, and the tick loop that drives the three node
//! state machines in a fixed phase order.

use vstd::prelude::*;
use crate::game_state::AppState;
use crate::level::LevelState;
use crate::message::{
    dispatch_send_event, drain_in_flight, Message, MessageComponent, MessageComponentV, MessageV,
    SendMessageEvent, SendMessageEventV,
};
use crate::node::client::{Client, ClientState, ClientV};
use crate::node::database::{Database, DatabaseV};
use crate::node::server::{
    error_response, exec_index, find_endpoint, params_of, split_seq, EndpointV, ExecutionErrorV,
    GeneratorResultValueV, Server, ServerExecution, ServerExecutionV, ServerState, ServerV,
    YieldValue, YieldValueV,
};
use crate::node::database::events_view;
use crate::node::{conns_wf, spec_valid_connection, Hostname, NodeConnections, NodeName, NodeType, spec_connected};

verus! {

broadcast use vstd::std_specs::vec::group_vec_axioms, vstd::seq::group_seq_axioms;

/// The model of a node's behavior.
pub enum NodeKindV {
    Client(ClientV),
    Server(ServerV),
    Database(DatabaseV),
}

/// A node's behavior: one of the three state machines.
#[derive(Debug)]
pub enum NodeKind {
    Client(Client),
    Server(Server),
    Database(Database),
}

impl View for NodeKind {
    type V = NodeKindV;

    open spec fn view(&self) -> NodeKindV {
        match self {
            NodeKind::Client(c) => NodeKindV::Client(c@),
            NodeKind::Server(s) => NodeKindV::Server(s@),
            NodeKind::Database(d) => NodeKindV::Database(d@),
        }
    }
}

/// The model of a node.
#[verifier::ext_equal]
pub struct SimNodeV {
    pub id: u64,
    pub node_type: NodeType,
    pub name: Seq<char>,
    pub hostname: Option<Seq<char>>,
    pub connections: Seq<(u64, u64)>,
    pub kind: NodeKindV,
}

/// One node of the simulated system.
#[derive(Debug)]
pub struct SimNode {
    pub id: u64,
    pub node_type: NodeType,
    pub name: NodeName,
    pub hostname: Option<Hostname>,
    pub connections: NodeConnections,
    pub kind: NodeKind,
}

impl View for SimNode {
    type V = SimNodeV;

    open spec fn view(&self) -> SimNodeV {
        SimNodeV {
            id: self.id,
            node_type: self.node_type,
            name: self.name.0@,
            hostname: match &self.hostname {
                Some(h) => Some(h.0@),
                None => None,
            },
            connections: self.connections@,
            kind: self.kind@,
        }
    }
}

impl SimNode {
    /// Hands one delivered message to this node's state machine.
    pub fn deliver(&mut self, message: MessageComponent)
        requires
            old(self)@.kind matches NodeKindV::Client(c) ==> crate::node::client::client_wf(c),
        ensures
            final(self)@.id == old(self)@.id,
            final(self)@.node_type == old(self)@.node_type,
            final(self)@.name == old(self)@.name,
            final(self)@.hostname == old(self)@.hostname,
            final(self)@.connections == old(self)@.connections,
            final(self)@.kind matches NodeKindV::Client(c)
                ==> crate::node::client::client_wf(c),
            old(self)@.kind is Client <==> final(self)@.kind is Client,
    {
        match &mut self.kind {
            NodeKind::Client(c) => {
                proof {
                    assert(crate::node::client::client_wf(c@));
                }
                c.handle_message(message);
            },
            NodeKind::Server(s) => {
                s.handle_message(message);
            },
            NodeKind::Database(d) => {
                d.handle_message(message);
            },
        }
    }

    /// One sending turn of this node's client machine, when it is one.
    pub fn step_client_send(&mut self, client_id: u64, recipient: Option<u64>) -> (r: Option<
        SendMessageEvent,
    >)
        requires
            old(self)@.kind matches NodeKindV::Client(c) ==> crate::node::client::client_wf(c),
        ensures
            final(self)@.id == old(self)@.id,
            final(self)@.node_type == old(self)@.node_type,
            final(self)@.name == old(self)@.name,
            final(self)@.hostname == old(self)@.hostname,
            final(self)@.connections == old(self)@.connections,
            final(self)@.kind matches NodeKindV::Client(c)
                ==> crate::node::client::client_wf(c),
    {
        match &mut self.kind {
            NodeKind::Client(c) => {
                proof {
                    assert(crate::node::client::client_wf(c@));
                }
                c.send_step(client_id, recipient)
            },
            _ => None,
        }
    }

    /// Takes the server machine out of the node, leaving a placeholder,
    /// so that the server can be driven while the topology stays
    /// readable.
    pub fn take_server(&mut self) -> (r: Option<Server>)
        ensures
            final(self)@.id == old(self)@.id,
            final(self)@.node_type == old(self)@.node_type,
            final(self)@.name == old(self)@.name,
            final(self)@.hostname == old(self)@.hostname,
            final(self)@.connections == old(self)@.connections,
            match old(self)@.kind {
                NodeKindV::Server(s) => r matches Some(srv) && srv@ == s,
                _ => r is None && final(self)@.kind == old(self)@.kind,
            },
            final(self)@.kind is Client ==> final(self)@.kind == old(self)@.kind,
    {
        match &self.kind {
            NodeKind::Server(_) => {},
            _ => {
                return None;
            },
        }
        let mut kind_tmp = NodeKind::Server(Server::default());
        core::mem::swap(&mut kind_tmp, &mut self.kind);
        match kind_tmp {
            NodeKind::Server(s) => Some(s),
            _ => {
                proof {
                    assert(false);
                }
                unreached()
            },
        }
    }

    /// Puts a driven server machine back into the node.
    pub fn put_server(&mut self, server: Server)
        ensures
            final(self)@ == (SimNodeV { kind: NodeKindV::Server(server@), ..old(self)@ }),
    {
        self.kind = NodeKind::Server(server);
    }

    /// One tick of this node's database machine, when it is one.
    pub fn step_database(&mut self, db_id: u64) -> (events: Vec<SendMessageEvent>)
        ensures
            final(self)@.id == old(self)@.id,
            final(self)@.node_type == old(self)@.node_type,
            final(self)@.name == old(self)@.name,
            final(self)@.hostname == old(self)@.hostname,
            final(self)@.connections == old(self)@.connections,
            final(self)@.kind is Client ==> final(self)@.kind == old(self)@.kind,
    {
        match &mut self.kind {
            NodeKind::Database(d) => d.process_queue(db_id),
            _ => Vec::new(),
        }
    }

    /// Starts this node's state machine.
    pub fn start_node(&mut self)
        requires
            old(self)@.kind matches NodeKindV::Client(c) ==> crate::node::client::client_wf(c),
        ensures
            final(self)@ == node_started(old(self)@),
    {
        match &mut self.kind {
            NodeKind::Client(c) => {
                proof {
                    assert(crate::node::client::client_wf(c@));
                }
                c.start_simulation();
            },
            NodeKind::Server(s) => {
                s.start_simulation();
            },
            NodeKind::Database(d) => {
                d.start_simulation();
            },
        }
        proof {
            assert(final(self)@ =~~= node_started(old(self)@));
        }
    }

    /// Resets this node's state machine.
    pub fn reset_node(&mut self)
        ensures
            final(self)@ == node_reset(old(self)@),
    {
        match &mut self.kind {
            NodeKind::Client(c) => {
                c.reset();
            },
            NodeKind::Server(s) => {
                s.reset();
            },
            NodeKind::Database(d) => {
                d.reset();
            },
        }
        proof {
            match old(self)@.kind {
                NodeKindV::Client(c0) => {
                    assert(final(self)@.kind->Client_0.request_configs =~~= Seq::new(
                        c0.request_configs.len(),
                        |i: int| crate::node::client::reset_config(c0.request_configs[i]),
                    ));
                },
                _ => {},
            }
            assert(final(self)@ =~~= node_reset(old(self)@));
        }
    }

    /// Runs this node's client verification, when it is a client.
    pub fn verify_client(&mut self) -> (passed: bool)
        requires
            old(self)@.kind matches NodeKindV::Client(c) ==> crate::node::client::client_wf(c),
        ensures
            final(self)@.id == old(self)@.id,
            final(self)@.node_type == old(self)@.node_type,
            final(self)@.name == old(self)@.name,
            final(self)@.hostname == old(self)@.hostname,
            final(self)@.connections == old(self)@.connections,
            final(self)@.kind matches NodeKindV::Client(c)
                ==> crate::node::client::client_wf(c),
            passed == (match old(self)@.kind {
                NodeKindV::Client(c) => client_passes(c),
                _ => true,
            }),
    {
        match &mut self.kind {
            NodeKind::Client(c) => {
                proof {
                    assert(crate::node::client::client_wf(c@));
                }
                let ghost before = c@;
                let p = c.verify();
                proof {
                    assert(crate::node::client::client_wf(c@)) by {
                        if c@.state matches ClientState::Waiting(t) {
                            let idx = c@.curr_request_idx as int;
                            assert(c@.request_configs[idx] == crate::node::client::verified_config(
                                before.request_configs[idx],
                            ) || c@.request_configs[idx] == before.request_configs[idx]);
                        }
                    }
                }
                p
            },
            _ => true,
        }
    }
}

/// Why two nodes could not be wired together.
#[derive(Debug, Clone, Copy, PartialEq, Eq, Structural)]
pub enum ConnectError {
    IncompatibleNodeTypes,
    SameNode,
    UnknownNode,
}

/// The model of a simulation.
#[verifier::ext_equal]
pub struct SimulationV {
    pub nodes: Seq<SimNodeV>,
    pub in_flight: Seq<MessageComponentV>,
    pub next_id: u64,
    pub app_state: AppState,
    pub level_passed: bool,
}

/// The whole simulated system.
#[derive(Debug)]
pub struct Simulation {
    nodes: Vec<SimNode>,
    in_flight: Vec<MessageComponent>,
    next_id: u64,
    pub app_state: AppState,
    pub level_state: LevelState,
}

impl View for Simulation {
    type V = SimulationV;

    closed spec fn view(&self) -> SimulationV {
        SimulationV {
            nodes: Seq::new(self.nodes@.len(), |i: int| self.nodes@[i]@),
            in_flight: Seq::new(self.in_flight@.len(), |i: int| self.in_flight@[i]@),
            next_id: self.next_id,
            app_state: self.app_state,
            level_passed: self.level_state.level_passed,
        }
    }
}

/// The position of the node with identifier `id`.
pub open spec fn node_index(nodes: Seq<SimNodeV>, id: u64) -> Option<int>
    decreases nodes.len(),
{
    if nodes.len() == 0 {
        None
    } else if nodes[0].id == id {
        Some(0int)
    } else {
        match node_index(nodes.subrange(1, nodes.len() as int), id) {
            Some(i) => Some(i + 1),
            None => None,
        }
    }
}

/// The position of the first node whose hostname is `name`.
pub open spec fn hostname_index(nodes: Seq<SimNodeV>, name: Seq<char>) -> Option<int>
    decreases nodes.len(),
{
    if nodes.len() == 0 {
        None
    } else if nodes[0].hostname == Some(name) {
        Some(0int)
    } else {
        match hostname_index(nodes.subrange(1, nodes.len() as int), name) {
            Some(i) => Some(i + 1),
            None => None,
        }
    }
}

/// What `node_index` says, member by member.
pub proof fn lemma_node_index(nodes: Seq<SimNodeV>, id: u64)
    ensures
        match node_index(nodes, id) {
            Some(i) => 0 <= i < nodes.len() && nodes[i].id == id && forall|j: int|
                0 <= j < i ==> nodes[j].id != id,
            None => forall|j: int| 0 <= j < nodes.len() ==> nodes[j].id != id,
        },
    decreases nodes.len(),
{
    if nodes.len() > 0 && nodes[0].id != id {
        let sub = nodes.subrange(1, nodes.len() as int);
        lemma_node_index(sub, id);
        assert forall|j: int| 1 <= j < nodes.len() implies sub[j - 1] == nodes[j] by {}
    }
}

/// `node_index` from its characterization.
pub proof fn lemma_node_index_value(nodes: Seq<SimNodeV>, id: u64, k: int)
    requires
        0 <= k < nodes.len(),
        nodes[k].id == id,
        forall|j: int| 0 <= j < k ==> nodes[j].id != id,
    ensures
        node_index(nodes, id) == Some(k),
    decreases nodes.len(),
{
    if k > 0 {
        let sub = nodes.subrange(1, nodes.len() as int);
        assert(sub[k - 1] == nodes[k]);
        assert forall|j: int| 0 <= j < k - 1 implies sub[j].id != id by {
            assert(sub[j] == nodes[j + 1]);
        }
        lemma_node_index_value(sub, id, k - 1);
    }
}

/// `node_index` is `None` when no node has the id.
pub proof fn lemma_node_index_none(nodes: Seq<SimNodeV>, id: u64)
    requires
        forall|j: int| 0 <= j < nodes.len() ==> nodes[j].id != id,
    ensures
        node_index(nodes, id) is None,
    decreases nodes.len(),
{
    if nodes.len() > 0 {
        let sub = nodes.subrange(1, nodes.len() as int);
        assert forall|j: int| 0 <= j < sub.len() implies sub[j].id != id by {
            assert(sub[j] == nodes[j + 1]);
        }
        lemma_node_index_none(sub, id);
    }
}

/// What `hostname_index` says, member by member.
pub proof fn lemma_hostname_index(nodes: Seq<SimNodeV>, name: Seq<char>)
    ensures
        match hostname_index(nodes, name) {
            Some(i) => 0 <= i < nodes.len() && nodes[i].hostname == Some(name) && forall|j: int|
                0 <= j < i ==> nodes[j].hostname != Some(name),
            None => forall|j: int| 0 <= j < nodes.len() ==> nodes[j].hostname != Some(name),
        },
    decreases nodes.len(),
{
    if nodes.len() > 0 && nodes[0].hostname != Some(name) {
        let sub = nodes.subrange(1, nodes.len() as int);
        lemma_hostname_index(sub, name);
        assert forall|j: int| 1 <= j < nodes.len() implies sub[j - 1] == nodes[j] by {}
    }
}

/// `hostname_index` from its characterization.
pub proof fn lemma_hostname_index_value(nodes: Seq<SimNodeV>, name: Seq<char>, k: int)
    requires
        0 <= k < nodes.len(),
        nodes[k].hostname == Some(name),
        forall|j: int| 0 <= j < k ==> nodes[j].hostname != Some(name),
    ensures
        hostname_index(nodes, name) == Some(k),
    decreases nodes.len(),
{
    if k > 0 {
        let sub = nodes.subrange(1, nodes.len() as int);
        assert(sub[k - 1] == nodes[k]);
        assert forall|j: int| 0 <= j < k - 1 implies sub[j].hostname != Some(name) by {
            assert(sub[j] == nodes[j + 1]);
        }
        lemma_hostname_index_value(sub, name, k - 1);
    }
}

/// `hostname_index` is `None` when no node carries the hostname.
pub proof fn lemma_hostname_index_none(nodes: Seq<SimNodeV>, name: Seq<char>)
    requires
        forall|j: int| 0 <= j < nodes.len() ==> nodes[j].hostname != Some(name),
    ensures
        hostname_index(nodes, name) is None,
    decreases nodes.len(),
{
    if nodes.len() > 0 {
        let sub = nodes.subrange(1, nodes.len() as int);
        assert forall|j: int| 0 <= j < sub.len() implies sub[j].hostname != Some(name) by {
            assert(sub[j] == nodes[j + 1]);
        }
        lemma_hostname_index_none(sub, name);
    }
}

/// Name resolution: the node with the wanted hostname, provided it is
/// directly connected to `from`.  There is no forwarding: every hop must
/// be an explicit connection.
pub open spec fn resolve_spec(nodes: Seq<SimNodeV>, from: u64, name: Seq<char>) -> Option<u64> {
    match hostname_index(nodes, name) {
        Some(h) => match node_index(nodes, from) {
            Some(f) => if spec_connected(nodes[f].connections, nodes[h].id) {
                Some(nodes[h].id)
            } else {
                None
            },
            None => None,
        },
        None => None,
    }
}

/// For all valid connections: resolving `hostname(b)` from `a` returns
/// `b` exactly when `a` and `b` are connected and `b` carries that
/// hostname, and the hostname is unreachable from `a` otherwise —
/// provided hostnames are unique, as validation guarantees.
pub proof fn lemma_resolve_connection(nodes: Seq<SimNodeV>, a: u64, b: int, name: Seq<char>)
    requires
        hostnames_unique(nodes),
        node_index(nodes, a) is Some,
        0 <= b < nodes.len(),
        nodes[b].hostname == Some(name),
    ensures
        ({
            let f = node_index(nodes, a)->Some_0;
            &&& (resolve_spec(nodes, a, name) == Some(nodes[b].id) <==> spec_connected(
                nodes[f].connections,
                nodes[b].id,
            ))
            &&& (!spec_connected(nodes[f].connections, nodes[b].id) ==> resolve_spec(
                nodes,
                a,
                name,
            ) is None)
        }),
{
    lemma_hostname_index(nodes, name);
    lemma_node_index(nodes, a);
    match hostname_index(nodes, name) {
        Some(h) => {
            if h != b {
                if h < b {
                    assert(nodes[h].hostname != nodes[h].hostname);
                } else {
                    assert(nodes[h].hostname != Some(name));
                }
            }
            assert(h == b);
        },
        None => {
            assert(nodes[b].hostname != Some(name));
        },
    }
}

/// Hostnames are unique across all nodes that carry one.
pub open spec fn hostnames_unique(nodes: Seq<SimNodeV>) -> bool {
    forall|i: int, j: int|
        0 <= i < j < nodes.len() ==> ((#[trigger] nodes[i].hostname) is Some ==> (
        #[trigger] nodes[j].hostname) != nodes[i].hostname)
}

/// What wiring nodes at positions `i` (id `a`) and `j` (id `b`) does:
/// each side's table gets the entry for the other node with the shared
/// line artifact, replacing any earlier entry for that node; all other
/// nodes stay as they are.
pub open spec fn connect_spec(
    nodes: Seq<SimNodeV>,
    i: int,
    j: int,
    a: u64,
    b: u64,
    line: u64,
) -> Seq<SimNodeV> {
    let n1 = nodes.update(
        i,
        SimNodeV {
            connections: crate::node::conns_delete(nodes[i].connections, b).push((b, line)),
            ..nodes[i]
        },
    );
    n1.update(
        j,
        SimNodeV {
            connections: crate::node::conns_delete(n1[j].connections, a).push((a, line)),
            ..n1[j]
        },
    )
}


/// A yield result as the handler sees a response: its status and data as
/// one JSON object.
pub open spec fn response_yield_jval(resp: crate::message::ResponseV) -> crate::json::JVal {
    crate::json::JVal::Obj(
        seq![("status"@, crate::json::JVal::Int(resp.status as int)), ("data"@, resp.data)],
    )
}

/// A server's outbound event: one recipient, built by the protocol.
pub open spec fn mk_server_event(
    sender: u64,
    recipient: u64,
    message: MessageV,
    trace_id: u64,
) -> SendMessageEventV {
    SendMessageEventV { sender, recipients: seq![recipient], message, trace_id }
}

/// The 500 a server answers when a sub-call's hostname is unreachable.
pub open spec fn upstream_refused() -> crate::message::ResponseV {
    crate::message::ResponseV {
        status: 500,
        data: crate::json::JVal::Str("Upstream request refused."@),
    }
}

/// How one queued message classifies, before any drive: an inbound
/// request is admitted and matched into a fresh execution, or refused; a
/// response or database answer resumes the execution waiting on its
/// trace id, removing it from the table and appending the payload to its
/// yield history; anything else is a bad request.  The second component
/// is the execution table after classification.
pub open spec fn classify_spec(
    eps: Seq<EndpointV>,
    cap: Option<u8>,
    table: Seq<(u64, ServerExecutionV)>,
    m: MessageComponentV,
) -> (Result<ServerExecutionV, ExecutionErrorV>, Seq<(u64, ServerExecutionV)>) {
    match m.message {
        MessageV::Request(req) => {
            let admitted = match cap {
                Some(c) => table.len() < c as int,
                None => true,
            };
            if !admitted {
                (Err(ExecutionErrorV::ServiceUnavailable), table)
            } else {
                match find_endpoint(eps, req.method, req.path) {
                    Some(k) => (
                        Ok(
                            ServerExecutionV {
                                request_handler: eps[k].handler,
                                request: crate::message::RequestV {
                                    params: params_of(
                                        split_seq(req.path, '/'),
                                        split_seq(eps[k].path, '/'),
                                    ),
                                    ..req
                                },
                                yield_values: Seq::empty(),
                                original_sender: m.sender,
                                original_trace_id: m.trace_id,
                            },
                        ),
                        table,
                    ),
                    None => (Err(ExecutionErrorV::NotFound), table),
                }
            }
        },
        MessageV::Response(resp) => match exec_index(table, m.trace_id) {
            Some(i) => (
                Ok(
                    ServerExecutionV {
                        yield_values: table[i].1.yield_values.push(response_yield_jval(resp)),
                        ..table[i].1
                    },
                ),
                table.subrange(0, i) + table.subrange(i + 1, table.len() as int),
            ),
            None => (Err(ExecutionErrorV::BadRequest), table),
        },
        MessageV::DatabaseAnswer(v) => match exec_index(table, m.trace_id) {
            Some(i) => (
                Ok(
                    ServerExecutionV {
                        yield_values: table[i].1.yield_values.push(v),
                        ..table[i].1
                    },
                ),
                table.subrange(0, i) + table.subrange(i + 1, table.len() as int),
            ),
            None => (Err(ExecutionErrorV::BadRequest), table),
        },
        MessageV::DatabaseCall(_) => (Err(ExecutionErrorV::BadRequest), table),
    }
}

/// How a drive's outcome routes: an error answers the immediate sender
/// under the message's own trace id; a finished response goes to the
/// original caller under the original trace id; a suspension's sub-call
/// goes to the resolved recipient under the minted trace id and the
/// execution is re-stored under it, or, unresolved, the original caller
/// gets the upstream-refused 500; any other step emits nothing.
pub open spec fn route_spec(
    nodes: Seq<SimNodeV>,
    server_id: u64,
    table: Seq<(u64, ServerExecutionV)>,
    m: MessageComponentV,
    ex: ServerExecutionV,
    outcome: Result<GeneratorResultValueV, ExecutionErrorV>,
    fresh: u64,
) -> (Seq<SendMessageEventV>, Seq<(u64, ServerExecutionV)>) {
    match outcome {
        Err(e) => (
            seq![
                mk_server_event(
                    server_id,
                    m.sender,
                    MessageV::Response(error_response(e)),
                    m.trace_id,
                ),
            ],
            table,
        ),
        Ok(step) => if step.done {
            match step.value {
                YieldValueV::Response(resp) => (
                    seq![
                        mk_server_event(
                            server_id,
                            ex.original_sender,
                            MessageV::Response(resp),
                            ex.original_trace_id,
                        ),
                    ],
                    table,
                ),
                _ => (Seq::empty(), table),
            }
        } else {
            match step.value {
                YieldValueV::Request(nr) => match resolve_spec(nodes, server_id, nr.url) {
                    Some(rec) => (
                        seq![mk_server_event(server_id, rec, MessageV::Request(nr), fresh)],
                        table.push((fresh, ex)),
                    ),
                    None => (
                        seq![
                            mk_server_event(
                                server_id,
                                ex.original_sender,
                                MessageV::Response(upstream_refused()),
                                ex.original_trace_id,
                            ),
                        ],
                        table,
                    ),
                },
                YieldValueV::DatabaseCall(dc) => match resolve_spec(nodes, server_id, dc.name) {
                    Some(rec) => (
                        seq![
                            mk_server_event(server_id, rec, MessageV::DatabaseCall(dc), fresh),
                        ],
                        table.push((fresh, ex)),
                    ),
                    None => (
                        seq![
                            mk_server_event(
                                server_id,
                                ex.original_sender,
                                MessageV::Response(upstream_refused()),
                                ex.original_trace_id,
                            ),
                        ],
                        table,
                    ),
                },
                _ => (Seq::empty(), table),
            }
        },
    }
}

/// One active server's whole tick, message by message in FIFO order:
/// each queued message classifies against the current table, a
/// classified execution is driven — `outcomes[0]` is what the engine
/// handed back, `freshes[0]` the trace id minted for a sub-call; both
/// are ignored where classification failed — and the outcome routes.
/// The result is every event emitted, in order, and the final table.
pub open spec fn server_run_spec(
    nodes: Seq<SimNodeV>,
    server_id: u64,
    eps: Seq<EndpointV>,
    cap: Option<u8>,
    table: Seq<(u64, ServerExecutionV)>,
    q: Seq<MessageComponentV>,
    outcomes: Seq<Result<GeneratorResultValueV, ExecutionErrorV>>,
    freshes: Seq<u64>,
) -> (Seq<SendMessageEventV>, Seq<(u64, ServerExecutionV)>)
    decreases q.len(),
{
    if q.len() == 0 {
        (Seq::empty(), table)
    } else {
        let classified = classify_spec(eps, cap, table, q[0]);
        let step = match classified.0 {
            Ok(ex) => route_spec(nodes, server_id, classified.1, q[0], ex, outcomes[0], freshes[0]),
            Err(e) => (
                seq![
                    mk_server_event(
                        server_id,
                        q[0].sender,
                        MessageV::Response(error_response(e)),
                        q[0].trace_id,
                    ),
                ],
                classified.1,
            ),
        };
        let rest = server_run_spec(
            nodes,
            server_id,
            eps,
            cap,
            step.1,
            q.subrange(1, q.len() as int),
            outcomes.subrange(1, outcomes.len() as int),
            freshes.subrange(1, freshes.len() as int),
        );
        (step.0 + rest.0, rest.1)
    }
}

/// The models of a list of queued messages.
pub open spec fn msgs_view(s: Seq<MessageComponent>) -> Seq<MessageComponentV> {
    Seq::new(s.len(), |i: int| s[i]@)
}

/// Whether every client node's machine has finished.
pub open spec fn all_clients_finished(nodes: Seq<SimNodeV>) -> bool {
    forall|i: int|
        0 <= i < nodes.len() ==> match (#[trigger] nodes[i]).kind {
            NodeKindV::Client(c) => c.state == ClientState::Finished,
            _ => true,
        }
}

/// The topology is untouched: same nodes, each keeping its identifier,
/// kind tag, name, hostname and connections.  Simulation ticks only move
/// the state machines; only the editing surface changes the graph.
pub open spec fn topo_preserved(before: Seq<SimNodeV>, after: Seq<SimNodeV>) -> bool {
    &&& after.len() == before.len()
    &&& forall|i: int|
        0 <= i < before.len() ==> {
            let a = #[trigger] after[i];
            let b = before[i];
            a.id == b.id && a.node_type == b.node_type && a.name == b.name && a.hostname
                == b.hostname && a.connections == b.connections
        }
}

/// Whether every configuration of a client meets all its expectations.
pub open spec fn client_passes(c: ClientV) -> bool {
    forall|j: int|
        0 <= j < c.request_configs.len() ==> crate::node::client::config_passes(
            #[trigger] c.request_configs[j],
        )
}

/// One node's validity for entering simulation: its hostname, if it has
/// one, is non-empty and not repeated by any later node, and its state
/// machine's configuration is valid.
pub open spec fn node_ok(nodes: Seq<SimNodeV>, a: int) -> bool {
    &&& (forall|b: int|
        a < b < nodes.len() ==> (nodes[a].hostname is Some ==> (#[trigger] nodes[b].hostname)
            != nodes[a].hostname))
    &&& (nodes[a].hostname matches Some(h) ==> h.len() > 0)
    &&& match nodes[a].kind {
        NodeKindV::Client(c) => crate::node::client::client_valid(c),
        NodeKindV::Server(s) => crate::node::server::server_valid(s),
        NodeKindV::Database(_) => true,
    }
}

impl Simulation {
    /// Every client node's state machine is well formed, and every
    /// connection table lists each neighbour once.
    pub open spec fn wf(self) -> bool {
        forall|i: int|
            0 <= i < self@.nodes.len() ==> (match (#[trigger] self@.nodes[i]).kind {
                NodeKindV::Client(c) => crate::node::client::client_wf(c),
                _ => true,
            } && conns_wf(self@.nodes[i].connections))
    }

    /// An empty system in edit mode.
    pub fn new() -> (r: Simulation)
        ensures
            r@.nodes == Seq::<SimNodeV>::empty(),
            r@.in_flight == Seq::<MessageComponentV>::empty(),
            r@.app_state == AppState::Edit,
            r@.level_passed == false,
            r.wf(),
    {
        let r = Simulation {
            nodes: Vec::new(),
            in_flight: Vec::new(),
            next_id: 0,
            app_state: AppState::Edit,
            level_state: LevelState { current_level: None, level_passed: false },
        };
        proof {
            assert(r@.nodes =~= Seq::<SimNodeV>::empty());
            assert(r@.in_flight =~= Seq::<MessageComponentV>::empty());
        }
        r
    }

    /// Adds a client node and returns its identifier.
    pub fn add_client(&mut self, name: String, client: Client) -> (id: u64)
        requires
            old(self)@.next_id < u64::MAX,
            old(self).wf(),
            client.wf(),
        ensures
            final(self).wf(),
            id == old(self)@.next_id,
            final(self)@.nodes.len() == old(self)@.nodes.len() + 1,
            final(self)@.nodes.subrange(0, old(self)@.nodes.len() as int) == old(self)@.nodes,
            final(self)@.nodes.last() == (SimNodeV {
                id,
                node_type: NodeType::Client,
                name: name@,
                hostname: None,
                connections: Seq::<(u64, u64)>::empty(),
                kind: NodeKindV::Client(client@),
            }),
            final(self)@.in_flight == old(self)@.in_flight,
            final(self)@.app_state == old(self)@.app_state,
    {
        let id = self.next_id;
        self.next_id = self.next_id + 1;
        let node = SimNode {
            id,
            node_type: NodeType::Client,
            name: NodeName(name),
            hostname: None,
            connections: NodeConnections::new(),
            kind: NodeKind::Client(client),
        };
        self.nodes.push(node);
        proof {
            assert(final(self)@.nodes.subrange(0, old(self)@.nodes.len() as int)
                =~= old(self)@.nodes);
            assert(final(self)@.in_flight =~= old(self)@.in_flight);
            assert(final(self)@.nodes.last() =~~= (SimNodeV {
                id,
                node_type: final(self)@.nodes.last().node_type,
                name: final(self)@.nodes.last().name,
                hostname: final(self)@.nodes.last().hostname,
                connections: Seq::<(u64, u64)>::empty(),
                kind: final(self)@.nodes.last().kind,
            }));
            assert forall|k: int|
                0 <= k < final(self)@.nodes.len() implies (match (
            #[trigger] final(self)@.nodes[k]).kind {
                NodeKindV::Client(c) => crate::node::client::client_wf(c),
                _ => true,
            } && conns_wf(final(self)@.nodes[k].connections)) by {
                if k < old(self)@.nodes.len() {
                    assert(final(self)@.nodes[k] == old(self)@.nodes[k]);
                }
            }
        }
        id
    }

    /// Adds a server node reachable under `hostname`.
    pub fn add_server(&mut self, name: String, hostname: String, server: Server) -> (id: u64)
        requires
            old(self)@.next_id < u64::MAX,
            old(self).wf(),
        ensures
            final(self).wf(),
            id == old(self)@.next_id,
            final(self)@.nodes.len() == old(self)@.nodes.len() + 1,
            final(self)@.nodes.subrange(0, old(self)@.nodes.len() as int) == old(self)@.nodes,
            final(self)@.nodes.last() == (SimNodeV {
                id,
                node_type: NodeType::Server,
                name: name@,
                hostname: Some(hostname@),
                connections: Seq::<(u64, u64)>::empty(),
                kind: NodeKindV::Server(server@),
            }),
            final(self)@.in_flight == old(self)@.in_flight,
            final(self)@.app_state == old(self)@.app_state,
    {
        let id = self.next_id;
        self.next_id = self.next_id + 1;
        let node = SimNode {
            id,
            node_type: NodeType::Server,
            name: NodeName(name),
            hostname: Some(Hostname(hostname)),
            connections: NodeConnections::new(),
            kind: NodeKind::Server(server),
        };
        self.nodes.push(node);
        proof {
            assert(final(self)@.nodes.subrange(0, old(self)@.nodes.len() as int)
                =~= old(self)@.nodes);
            assert(final(self)@.in_flight =~= old(self)@.in_flight);
            assert(final(self)@.nodes.last() =~~= (SimNodeV {
                id,
                node_type: final(self)@.nodes.last().node_type,
                name: final(self)@.nodes.last().name,
                hostname: final(self)@.nodes.last().hostname,
                connections: Seq::<(u64, u64)>::empty(),
                kind: final(self)@.nodes.last().kind,
            }));
            assert forall|k: int|
                0 <= k < final(self)@.nodes.len() implies (match (
            #[trigger] final(self)@.nodes[k]).kind {
                NodeKindV::Client(c) => crate::node::client::client_wf(c),
                _ => true,
            } && conns_wf(final(self)@.nodes[k].connections)) by {
                if k < old(self)@.nodes.len() {
                    assert(final(self)@.nodes[k] == old(self)@.nodes[k]);
                }
            }
        }
        id
    }

    /// Adds a database node reachable under `hostname`.
    pub fn add_database(&mut self, name: String, hostname: String, database: Database) -> (id: u64)
        requires
            old(self)@.next_id < u64::MAX,
            old(self).wf(),
        ensures
            final(self).wf(),
            id == old(self)@.next_id,
            final(self)@.nodes.len() == old(self)@.nodes.len() + 1,
            final(self)@.nodes.subrange(0, old(self)@.nodes.len() as int) == old(self)@.nodes,
            final(self)@.nodes.last() == (SimNodeV {
                id,
                node_type: NodeType::Database,
                name: name@,
                hostname: Some(hostname@),
                connections: Seq::<(u64, u64)>::empty(),
                kind: NodeKindV::Database(database@),
            }),
            final(self)@.in_flight == old(self)@.in_flight,
            final(self)@.app_state == old(self)@.app_state,
    {
        let id = self.next_id;
        self.next_id = self.next_id + 1;
        let node = SimNode {
            id,
            node_type: NodeType::Database,
            name: NodeName(name),
            hostname: Some(Hostname(hostname)),
            connections: NodeConnections::new(),
            kind: NodeKind::Database(database),
        };
        self.nodes.push(node);
        proof {
            assert(final(self)@.nodes.subrange(0, old(self)@.nodes.len() as int)
                =~= old(self)@.nodes);
            assert(final(self)@.in_flight =~= old(self)@.in_flight);
            assert(final(self)@.nodes.last() =~~= (SimNodeV {
                id,
                node_type: final(self)@.nodes.last().node_type,
                name: final(self)@.nodes.last().name,
                hostname: final(self)@.nodes.last().hostname,
                connections: Seq::<(u64, u64)>::empty(),
                kind: final(self)@.nodes.last().kind,
            }));
            assert forall|k: int|
                0 <= k < final(self)@.nodes.len() implies (match (
            #[trigger] final(self)@.nodes[k]).kind {
                NodeKindV::Client(c) => crate::node::client::client_wf(c),
                _ => true,
            } && conns_wf(final(self)@.nodes[k].connections)) by {
                if k < old(self)@.nodes.len() {
                    assert(final(self)@.nodes[k] == old(self)@.nodes[k]);
                }
            }
        }
        id
    }

    /// Resolves a hostname from a node: the addressed node's identifier,
    /// provided `from` is directly connected to it.
    #[verifier::loop_isolation(false)]
    pub fn get_connected_entity_by_hostname(&self, from: u64, to_name: &String) -> (r: Option<
        u64,
    >)
        ensures
            r == resolve_spec(self@.nodes, from, to_name@),
    {
        proof {
            lemma_hostname_index(self@.nodes, to_name@);
        }
        let n = self.nodes.len();
        let mut h: usize = 0;
        while h < n
            invariant
                n == self.nodes@.len(),
                h <= n,
                forall|j: int| 0 <= j < h ==> self@.nodes[j].hostname != Some(to_name@),
            decreases n - h,
        {
            let found = match &self.nodes[h].hostname {
                Some(hn) => crate::strutil::key_eq(&hn.0, to_name),
                None => false,
            };
            if found {
                proof {
                    lemma_hostname_index_value(self@.nodes, to_name@, h as int);
                }
                let target = self.nodes[h].id;
                proof {
                    lemma_node_index(self@.nodes, from);
                }
                let mut f: usize = 0;
                while f < n
                    invariant
                        n == self.nodes@.len(),
                        f <= n,
                        hostname_index(self@.nodes, to_name@) == Some(h as int),
                        h < n,
                        target == self@.nodes[h as int].id,
                        forall|j: int| 0 <= j < f ==> self@.nodes[j].id != from,
                    decreases n - f,
                {
                    if self.nodes[f].id == from {
                        proof {
                            lemma_node_index_value(self@.nodes, from, f as int);
                        }
                        if self.nodes[f].connections.is_connected_to(target) {
                            return Some(target);
                        } else {
                            return None;
                        }
                    }
                    f = f + 1;
                }
                proof {
                    lemma_node_index_none(self@.nodes, from);
                }
                return None;
            }
            h = h + 1;
        }
        proof {
            lemma_hostname_index_none(self@.nodes, to_name@);
        }
        None
    }

    /// Wires two nodes together, recording the connection on both, with
    /// `line` as the shared visual artifact.  Refused between
    /// incompatible node types; wiring an already connected pair again
    /// changes nothing but the line.
    #[verifier::loop_isolation(false)]
    pub fn connect(&mut self, a: u64, b: u64, line: u64) -> (r: Result<(), ConnectError>)
        requires
            old(self).wf(),
        ensures
            final(self).wf(),
            final(self)@.nodes.len() == old(self)@.nodes.len(),
            r == Err::<(), ConnectError>(ConnectError::SameNode) <==> a == b,
            r == Err::<(), ConnectError>(ConnectError::UnknownNode) <==> (a != b && (node_index(
                old(self)@.nodes,
                a,
            ) is None || node_index(old(self)@.nodes, b) is None)),
            r == Err::<(), ConnectError>(ConnectError::IncompatibleNodeTypes) <==> (a != b && (
            node_index(old(self)@.nodes, a) matches Some(i) && (node_index(
                old(self)@.nodes,
                b,
            ) matches Some(j) && !spec_valid_connection(
                old(self)@.nodes[i].node_type,
                old(self)@.nodes[j].node_type,
            )))),
            r matches Err(_) ==> final(self)@ == old(self)@,
            r matches Ok(_) ==> (a != b && (node_index(old(self)@.nodes, a) matches Some(i) && (
            node_index(old(self)@.nodes, b) matches Some(j) && spec_valid_connection(
                old(self)@.nodes[i].node_type,
                old(self)@.nodes[j].node_type,
            ) && final(self)@ == (SimulationV {
                nodes: connect_spec(old(self)@.nodes, i, j, a, b, line),
                ..old(self)@
            })))),
    {
        if a == b {
            return Err(ConnectError::SameNode);
        }
        proof {
            lemma_node_index(self@.nodes, a);
            lemma_node_index(self@.nodes, b);
        }
        let ia = match self.find_node(a) {
            Some(i) => i,
            None => {
                return Err(ConnectError::UnknownNode);
            },
        };
        let ib = match self.find_node(b) {
            Some(i) => i,
            None => {
                return Err(ConnectError::UnknownNode);
            },
        };
        if !self.nodes[ia].node_type.is_valid_connection(&self.nodes[ib].node_type) {
            return Err(ConnectError::IncompatibleNodeTypes);
        }
        proof {
            assert(self@.nodes[ia as int].id == a && self@.nodes[ib as int].id == b);
            assert(ia != ib);
        }
        let ghost mid0 = self@;
        proof {
            assert(conns_wf(self@.nodes[ia as int].connections));
        }
        self.nodes[ia].connections.add_connection(b, line);
        let ghost mid1 = self@;
        proof {
            assert forall|k: int|
                0 <= k < mid1.nodes.len() && k != ia implies mid1.nodes[k] == mid0.nodes[k] by {}
            assert(conns_wf(mid1.nodes[ia as int].connections));
            assert(conns_wf(self@.nodes[ib as int].connections));
        }
        self.nodes[ib].connections.add_connection(a, line);
        proof {
            assert forall|k: int|
                0 <= k < final(self)@.nodes.len() && k != ib implies final(self)@.nodes[k]
                == mid1.nodes[k] by {}
            assert(conns_wf(final(self)@.nodes[ib as int].connections));
            assert(spec_connected(final(self)@.nodes[ia as int].connections, b));
            assert(spec_connected(final(self)@.nodes[ib as int].connections, a));
            assert forall|k: int|
                0 <= k < final(self)@.nodes.len() implies (match (
            #[trigger] final(self)@.nodes[k]).kind {
                NodeKindV::Client(c) => crate::node::client::client_wf(c),
                _ => true,
            } && conns_wf(final(self)@.nodes[k].connections)) by {
                if k != ia && k != ib {
                    assert(final(self)@.nodes[k] == mid0.nodes[k]);
                }
                if k == ia {
                    assert(final(self)@.nodes[k].kind == mid0.nodes[k].kind);
                }
                if k == ib {
                    assert(final(self)@.nodes[k].kind == mid0.nodes[k].kind);
                }
            }
            assert(mid1.nodes[ia as int] =~~= (SimNodeV {
                connections: crate::node::conns_delete(mid0.nodes[ia as int].connections, b).push(
                    (b, line),
                ),
                ..mid0.nodes[ia as int]
            }));
            assert(mid1.nodes =~~= mid0.nodes.update(ia as int, mid1.nodes[ia as int]));
            assert(final(self)@.nodes[ib as int] =~~= (SimNodeV {
                connections: crate::node::conns_delete(mid1.nodes[ib as int].connections, a).push(
                    (a, line),
                ),
                ..mid1.nodes[ib as int]
            }));
            assert(final(self)@.nodes =~~= mid1.nodes.update(ib as int, final(self)@.nodes[
                ib as int
            ]));
            assert(final(self)@.nodes =~~= connect_spec(
                old(self)@.nodes,
                ia as int,
                ib as int,
                a,
                b,
                line,
            ));
            assert(final(self)@ =~~= (SimulationV {
                nodes: connect_spec(old(self)@.nodes, ia as int, ib as int, a, b, line),
                ..old(self)@
            }));
        }
        Ok(())
    }

    /// Removes the connection between two nodes: each side that exists
    /// drops its entry for the other, line artifact included; everything
    /// else stays as it is.  Unknown identifiers make the call a no-op on
    /// that side.
    pub fn disconnect(&mut self, a: u64, b: u64)
        requires
            old(self).wf(),
        ensures
            final(self).wf(),
            final(self)@.nodes.len() == old(self)@.nodes.len(),
            match node_index(old(self)@.nodes, a) {
                None => final(self)@ == old(self)@,
                Some(i) => {
                    let n1 = old(self)@.nodes.update(
                        i,
                        SimNodeV {
                            connections: crate::node::conns_delete(
                                old(self)@.nodes[i].connections,
                                b,
                            ),
                            ..old(self)@.nodes[i]
                        },
                    );
                    match node_index(old(self)@.nodes, b) {
                        None => final(self)@ == (SimulationV { nodes: n1, ..old(self)@ }),
                        Some(j) => final(self)@ == (SimulationV {
                            nodes: n1.update(
                                j,
                                SimNodeV {
                                    connections: crate::node::conns_delete(n1[j].connections, a),
                                    ..n1[j]
                                },
                            ),
                            ..old(self)@
                        }),
                    }
                },
            },
    {
        proof {
            lemma_node_index(self@.nodes, a);
        }
        let ia = match self.find_node(a) {
            Some(i) => i,
            None => {
                return ;
            },
        };
        let ghost mid0 = self@;
        proof {
            assert(conns_wf(self@.nodes[ia as int].connections));
        }
        self.nodes[ia].connections.remove_connection(b);
        let ghost mid1 = self@;
        let ghost n1 = mid0.nodes.update(
            ia as int,
            SimNodeV {
                connections: crate::node::conns_delete(mid0.nodes[ia as int].connections, b),
                ..mid0.nodes[ia as int]
            },
        );
        proof {
            assert forall|k: int|
                0 <= k < mid1.nodes.len() && k != ia implies mid1.nodes[k] == mid0.nodes[k] by {}
            assert(mid1.nodes[ia as int] =~~= n1[ia as int]);
            assert(mid1.nodes =~~= n1);
            assert(conns_wf(mid1.nodes[ia as int].connections));
            assert forall|k: int|
                0 <= k < mid1.nodes.len() implies (match (#[trigger] mid1.nodes[k]).kind {
                NodeKindV::Client(c) => crate::node::client::client_wf(c),
                _ => true,
            } && conns_wf(mid1.nodes[k].connections)) by {
                if k != ia {
                    assert(mid1.nodes[k] == mid0.nodes[k]);
                }
                if k == ia {
                    assert(mid1.nodes[k].kind == mid0.nodes[k].kind);
                }
            }
        }
        proof {
            lemma_node_index(self@.nodes, b);
            match node_index(self@.nodes, b) {
                Some(k) => {
                    assert(old(self)@.nodes[k].id == b);
                    assert forall|j: int| 0 <= j < k implies old(self)@.nodes[j].id != b by {
                        assert(self@.nodes[j].id == old(self)@.nodes[j].id);
                    }
                    lemma_node_index_value(old(self)@.nodes, b, k);
                },
                None => {
                    assert forall|j: int|
                        0 <= j < old(self)@.nodes.len() implies old(self)@.nodes[j].id != b by {
                        assert(self@.nodes[j].id == old(self)@.nodes[j].id);
                    }
                    lemma_node_index_none(old(self)@.nodes, b);
                },
            }
        }
        let ib = match self.find_node(b) {
            Some(i) => i,
            None => {
                proof {
                    assert(final(self)@ =~~= (SimulationV { nodes: n1, ..old(self)@ }));
                }
                return ;
            },
        };
        proof {
            assert(conns_wf(self@.nodes[ib as int].connections));
        }
        self.nodes[ib].connections.remove_connection(a);
        proof {
            assert forall|k: int|
                0 <= k < final(self)@.nodes.len() && k != ib implies final(self)@.nodes[k]
                == mid1.nodes[k] by {}
            assert(conns_wf(final(self)@.nodes[ib as int].connections));
            assert forall|k: int|
                0 <= k < final(self)@.nodes.len() implies (match (
            #[trigger] final(self)@.nodes[k]).kind {
                NodeKindV::Client(c) => crate::node::client::client_wf(c),
                _ => true,
            } && conns_wf(final(self)@.nodes[k].connections)) by {
                if k != ib {
                    assert(final(self)@.nodes[k] == mid1.nodes[k]);
                }
                if k == ib {
                    assert(final(self)@.nodes[k].kind == mid1.nodes[k].kind);
                }
            }
            assert(final(self)@.nodes[ib as int] =~~= (SimNodeV {
                connections: crate::node::conns_delete(n1[ib as int].connections, a),
                ..n1[ib as int]
            }));
            assert(final(self)@.nodes =~~= n1.update(ib as int, final(self)@.nodes[ib as int]));
            assert(final(self)@ =~~= (SimulationV {
                nodes: n1.update(
                    ib as int,
                    SimNodeV {
                        connections: crate::node::conns_delete(n1[ib as int].connections, a),
                        ..n1[ib as int]
                    },
                ),
                ..old(self)@
            }));
        }
    }

    /// The position of the node with identifier `id`.
    #[verifier::loop_isolation(false)]
    fn find_node(&self, id: u64) -> (r: Option<usize>)
        ensures
            match r {
                Some(i) => node_index(self@.nodes, id) == Some(i as int) && i
                    < self@.nodes.len() && self@.nodes[i as int].id == id,
                None => node_index(self@.nodes, id) is None,
            },
    {
        proof {
            lemma_node_index(self@.nodes, id);
        }
        let n = self.nodes.len();
        let mut i: usize = 0;
        while i < n
            invariant
                n == self.nodes@.len(),
                i <= n,
                forall|j: int| 0 <= j < i ==> self@.nodes[j].id != id,
            decreases n - i,
        {
            if self.nodes[i].id == id {
                proof {
                    lemma_node_index_value(self@.nodes, id, i as int);
                }
                return Some(i);
            }
            i = i + 1;
        }
        proof {
            lemma_node_index_none(self@.nodes, id);
        }
        None
    }

    /// The number of nodes.
    pub fn node_count(&self) -> (r: usize)
        ensures
            r == self@.nodes.len(),
    {
        self.nodes.len()
    }

    /// The number of messages in flight.
    pub fn in_flight_count(&self) -> (r: usize)
        ensures
            r == self@.in_flight.len(),
    {
        self.in_flight.len()
    }

    /// The client behind a node identifier, for inspection.
    pub fn get_client(&self, id: u64) -> (r: Option<&Client>)
        ensures
            match r {
                Some(c) => node_index(self@.nodes, id) matches Some(i) && self@.nodes[i].kind
                    == NodeKindV::Client(c@),
                None => true,
            },
    {
        proof {
            lemma_node_index(self@.nodes, id);
        }
        match self.find_node(id) {
            Some(i) => match &self.nodes[i].kind {
                NodeKind::Client(c) => {
                    proof {
                        assert(self@.nodes[i as int].kind == self.nodes@[i as int].kind@);
                    }
                    Some(c)
                },
                _ => None,
            },
            None => None,
        }
    }

    /// The database behind a node identifier, for inspection.
    pub fn get_database(&self, id: u64) -> (r: Option<&Database>)
        ensures
            match r {
                Some(d) => node_index(self@.nodes, id) matches Some(i) && self@.nodes[i].kind
                    == NodeKindV::Database(d@),
                None => true,
            },
    {
        proof {
            lemma_node_index(self@.nodes, id);
        }
        match self.find_node(id) {
            Some(i) => match &self.nodes[i].kind {
                NodeKind::Database(d) => Some(d),
                _ => None,
            },
            None => None,
        }
    }

    /// The server behind a node identifier, for inspection.
    pub fn get_server(&self, id: u64) -> (r: Option<&Server>)
        ensures
            match r {
                Some(s) => node_index(self@.nodes, id) matches Some(i) && self@.nodes[i].kind
                    == NodeKindV::Server(s@),
                None => true,
            },
    {
        proof {
            lemma_node_index(self@.nodes, id);
        }
        match self.find_node(id) {
            Some(i) => match &self.nodes[i].kind {
                NodeKind::Server(s) => Some(s),
                _ => None,
            },
            None => None,
        }
    }

    /// Pre-simulation validation: hostnames unique and well formed, every
    /// client and server valid.  On success the system moves to
    /// simulation mode, otherwise back to edit mode.
    #[verifier::loop_isolation(false)]
    pub fn validate(&mut self) -> (ok: bool)
        ensures
            final(self)@.nodes == old(self)@.nodes,
            final(self)@.in_flight == old(self)@.in_flight,
            ok == (forall|a: int|
                0 <= a < old(self)@.nodes.len() ==> node_ok(old(self)@.nodes, a)),
            ok ==> hostnames_unique(old(self)@.nodes),
            final(self)@.app_state == if ok {
                AppState::Simulate
            } else {
                AppState::Edit
            },
    {
        let n = self.nodes.len();
        let mut ok = true;
        let mut i: usize = 0;
        while i < n
            invariant
                n == self.nodes@.len(),
                i <= n,
                self@ == old(self)@,
                ok == (forall|a: int| 0 <= a < i ==> node_ok(self@.nodes, a)),
            decreases n - i,
        {
            let mut this_ok = true;
            match &self.nodes[i].hostname {
                Some(h) => {
                    if !h.is_valid() {
                        this_ok = false;
                    }
                    let mut dup = false;
                    let mut j: usize = i + 1;
                    while j < n
                        invariant
                            n == self.nodes@.len(),
                            i < j <= n,
                            i < n,
                            self@ == old(self)@,
                            self@.nodes[i as int].hostname matches Some(hh) && hh == h.0@,
                            dup == !(forall|b: int|
                                i < b < j ==> (#[trigger] self@.nodes[b].hostname) != Some(h.0@)),
                        decreases n - j,
                    {
                        match &self.nodes[j].hostname {
                            Some(other) => {
                                if crate::strutil::key_eq(&other.0, &h.0) {
                                    proof {
                                        assert(self@.nodes[j as int].hostname == Some(h.0@));
                                    }
                                    dup = true;
                                } else {
                                    proof {
                                        assert(self@.nodes[j as int].hostname != Some(h.0@));
                                    }
                                }
                            },
                            None => {
                                proof {
                                    assert(self@.nodes[j as int].hostname != Some(h.0@));
                                }
                            },
                        }
                        j = j + 1;
                    }
                    if dup {
                        this_ok = false;
                    }
                },
                None => {},
            }
            match &self.nodes[i].kind {
                NodeKind::Client(c) => {
                    if !c.is_valid() {
                        this_ok = false;
                    }
                },
                NodeKind::Server(s) => {
                    if !s.is_valid() {
                        this_ok = false;
                    }
                },
                NodeKind::Database(_) => {},
            }
            proof {
                assert(this_ok == node_ok(self@.nodes, i as int));
            }
            ok = ok && this_ok;
            i = i + 1;
        }
        if ok {
            self.app_state = AppState::Simulate;
        } else {
            self.app_state = AppState::Edit;
        }
        proof {
            if ok {
                assert forall|a: int, b: int|
                    0 <= a < b < final(self)@.nodes.len() implies ((
                #[trigger] final(self)@.nodes[a].hostname) is Some ==> (
                #[trigger] final(self)@.nodes[b].hostname) != final(self)@.nodes[a].hostname) by {
                    assert(node_ok(old(self)@.nodes, a));
                }
            }
        }
        ok
    }

    /// Enters simulation: every node's state machine starts.
    #[verifier::loop_isolation(false)]
    pub fn start(&mut self)
        requires
            old(self).wf(),
        ensures
            final(self).wf(),
            final(self)@.nodes.len() == old(self)@.nodes.len(),
            forall|i: int|
                0 <= i < old(self)@.nodes.len() ==> final(self)@.nodes[i]
                    == #[trigger] node_started(old(self)@.nodes[i]),
            final(self)@.in_flight == old(self)@.in_flight,
    {
        let n = self.nodes.len();
        let mut i: usize = 0;
        while i < n
            invariant
                n == self.nodes@.len(),
                i <= n,
                self.wf(),
                self@.in_flight == old(self)@.in_flight,
                self@.next_id == old(self)@.next_id,
                self@.app_state == old(self)@.app_state,
                self@.level_passed == old(self)@.level_passed,
                forall|k: int|
                    i <= k < n ==> self@.nodes[k] == #[trigger] old(self)@.nodes[k],
                forall|k: int|
                    0 <= k < i ==> self@.nodes[k] == #[trigger] node_started(old(self)@.nodes[k]),
            decreases n - i,
        {
            let ghost prev = self@.nodes;
            proof {
                assert(match self@.nodes[i as int].kind {
                    NodeKindV::Client(cc) => crate::node::client::client_wf(cc),
                    _ => true,
                });
            }
            self.nodes[i].start_node();
            proof {
                assert forall|k: int|
                    0 <= k < n && k != i implies self@.nodes[k] == prev[k] by {}
                assert(self@.nodes[i as int] == node_started(old(self)@.nodes[i as int]));
                assert forall|k: int|
                    0 <= k < n implies (match (#[trigger] self@.nodes[k]).kind {
                    NodeKindV::Client(cc) => crate::node::client::client_wf(cc),
                    _ => true,
                } && conns_wf(self@.nodes[k].connections)) by {
                    if k != i {
                        assert(self@.nodes[k] == prev[k]);
                    } else {
                        assert(self@.nodes[k] == node_started(prev[k]));
                        assert(conns_wf(prev[k].connections));
                        match prev[k].kind {
                            NodeKindV::Client(cc) => {
                                assert(crate::node::client::client_wf(cc));
                            },
                            _ => {},
                        }
                    }
                }
            }
            i = i + 1;
        }
    }

    /// Leaves simulation: every node resets and all in-flight traffic is
    /// discarded.  Database documents survive, responses do not.
    #[verifier::loop_isolation(false)]
    pub fn reset(&mut self)
        requires
            old(self).wf(),
        ensures
            final(self).wf(),
            final(self)@.nodes.len() == old(self)@.nodes.len(),
            forall|i: int|
                0 <= i < old(self)@.nodes.len() ==> final(self)@.nodes[i]
                    == #[trigger] node_reset(old(self)@.nodes[i]),
            final(self)@.in_flight == Seq::<MessageComponentV>::empty(),
            final(self)@.app_state == AppState::Edit,
    {
        self.in_flight = Vec::new();
        self.app_state = AppState::Edit;
        let n = self.nodes.len();
        let mut i: usize = 0;
        proof {
            assert(self@.in_flight =~= Seq::<MessageComponentV>::empty());
        }
        while i < n
            invariant
                n == self.nodes@.len(),
                i <= n,
                self@.in_flight == Seq::<MessageComponentV>::empty(),
                self@.app_state == AppState::Edit,
                forall|k: int|
                    i <= k < n ==> self@.nodes[k] == #[trigger] old(self)@.nodes[k],
                forall|k: int|
                    0 <= k < i ==> self@.nodes[k] == #[trigger] node_reset(old(self)@.nodes[k]),
            decreases n - i,
        {
            let ghost prev = self@.nodes;
            self.nodes[i].reset_node();
            proof {
                assert forall|k: int|
                    0 <= k < n && k != i implies self@.nodes[k] == prev[k] by {}
                assert(self@.nodes[i as int] == node_reset(old(self)@.nodes[i as int]));
            }
            i = i + 1;
        }
        proof {
            assert forall|k: int|
                0 <= k < n implies (match (#[trigger] self@.nodes[k]).kind {
                NodeKindV::Client(c) => crate::node::client::client_wf(c),
                _ => true,
            } && conns_wf(self@.nodes[k].connections)) by {
                assert(self@.nodes[k] == node_reset(old(self)@.nodes[k]));
                assert(conns_wf(old(self)@.nodes[k].connections));
            }
        }
    }

    /// Phase (a) of a tick: every in-flight message arrives and is handed
    /// to its recipient, in send order.  Messages to unknown recipients
    /// are dropped.
    #[verifier::loop_isolation(false)]
    fn deliver_phase(&mut self)
        requires
            old(self).wf(),
        ensures
            final(self).wf(),
            final(self)@.nodes.len() == old(self)@.nodes.len(),
            topo_preserved(old(self)@.nodes, final(self)@.nodes),
            final(self)@.in_flight == Seq::<MessageComponentV>::empty(),
    {
        let mut delivered = drain_in_flight(&mut self.in_flight);
        proof {
            assert(self@.in_flight =~= Seq::<MessageComponentV>::empty());
        }
        let n = self.nodes.len();
        while delivered.len() > 0
            invariant
                n == self.nodes@.len(),
                self.wf(),
                self@.in_flight == Seq::<MessageComponentV>::empty(),
                topo_preserved(old(self)@.nodes, self@.nodes),
            decreases delivered@.len(),
        {
            let message = delivered.remove(0);
            match self.find_node(message.recipient) {
                Some(i) => {
                    let ghost prev = self@.nodes;
                    proof {
                        assert(match self@.nodes[i as int].kind {
                            NodeKindV::Client(cc) => crate::node::client::client_wf(cc),
                            _ => true,
                        });
                    }
                    self.nodes[i].deliver(message);
                    proof {
                        assert forall|k: int|
                            0 <= k < n && k != i implies self@.nodes[k] == prev[k] by {}
                        assert(topo_preserved(old(self)@.nodes, self@.nodes)) by {
                            assert forall|k: int|
                                0 <= k < n implies ({
                                let a = #[trigger] self@.nodes[k];
                                let b = old(self)@.nodes[k];
                                a.id == b.id && a.node_type == b.node_type && a.name == b.name
                                    && a.hostname == b.hostname && a.connections == b.connections
                            }) by {
                                assert(prev[k].id == old(self)@.nodes[k].id && prev[k].node_type
                                    == old(self)@.nodes[k].node_type && prev[k].name == old(
                                    self,
                                )@.nodes[k].name && prev[k].hostname == old(self)@.nodes[k].hostname
                                    && prev[k].connections == old(self)@.nodes[k].connections);
                                if k != i {
                                    assert(self@.nodes[k] == prev[k]);
                                }
                            }
                        }
                        assert forall|k: int|
                            0 <= k < n implies (match (#[trigger] self@.nodes[k]).kind {
                            NodeKindV::Client(cc) => crate::node::client::client_wf(cc),
                            _ => true,
                        } && conns_wf(self@.nodes[k].connections)) by {
                            if k != i {
                                assert(self@.nodes[k] == prev[k]);
                            } else {
                                assert(self@.nodes[k].connections == prev[k].connections);
                                assert(conns_wf(prev[k].connections));
                            }
                        }
                    }
                },
                None => {},
            }
        }
    }

    /// Phase (b): every client that has a request due either sends it to
    /// the resolved recipient or records the failed resolution.
    #[verifier::loop_isolation(false)]
    fn client_phase(&mut self)
        requires
            old(self).wf(),
        ensures
            final(self).wf(),
            final(self)@.nodes.len() == old(self)@.nodes.len(),
            topo_preserved(old(self)@.nodes, final(self)@.nodes),
    {
        let n = self.nodes.len();
        let mut i: usize = 0;
        while i < n
            invariant
                n == self.nodes@.len(),
                i <= n,
                self.wf(),
                topo_preserved(old(self)@.nodes, self@.nodes),
            decreases n - i,
        {
            let url = match &self.nodes[i].kind {
                NodeKind::Client(c) => c.current_url(),
                _ => None,
            };
            match url {
                Some(url) => {
                    let client_id = self.nodes[i].id;
                    let recipient = self.get_connected_entity_by_hostname(client_id, &url);
                    let ghost prev = self@.nodes;
                    proof {
                        assert(match self@.nodes[i as int].kind {
                            NodeKindV::Client(cc) => crate::node::client::client_wf(cc),
                            _ => true,
                        });
                    }
                    let event = self.nodes[i].step_client_send(client_id, recipient);
                    proof {
                        assert forall|k: int|
                            0 <= k < n && k != i implies self@.nodes[k] == prev[k] by {}
                        assert(topo_preserved(old(self)@.nodes, self@.nodes)) by {
                            assert forall|k: int|
                                0 <= k < n implies ({
                                let a = #[trigger] self@.nodes[k];
                                let b = old(self)@.nodes[k];
                                a.id == b.id && a.node_type == b.node_type && a.name == b.name
                                    && a.hostname == b.hostname && a.connections == b.connections
                            }) by {
                                assert(prev[k].id == old(self)@.nodes[k].id && prev[k].node_type
                                    == old(self)@.nodes[k].node_type && prev[k].name == old(
                                    self,
                                )@.nodes[k].name && prev[k].hostname == old(self)@.nodes[k].hostname
                                    && prev[k].connections == old(self)@.nodes[k].connections);
                                if k != i {
                                    assert(self@.nodes[k] == prev[k]);
                                }
                            }
                        }
                        assert forall|k: int|
                            0 <= k < n implies (match (#[trigger] self@.nodes[k]).kind {
                            NodeKindV::Client(cc) => crate::node::client::client_wf(cc),
                            _ => true,
                        } && conns_wf(self@.nodes[k].connections)) by {
                            if k != i {
                                assert(self@.nodes[k] == prev[k]);
                            } else {
                                assert(self@.nodes[k].connections == prev[k].connections);
                                assert(conns_wf(prev[k].connections));
                            }
                        }
                    }
                    match event {
                        Some(ev) => {
                            dispatch_send_event(&ev, &mut self.in_flight);
                        },
                        None => {},
                    }
                },
                None => {},
            }
            i = i + 1;
        }
    }

    /// Phase (c): every active server drains its queue; each message
    /// either seeds or resumes an execution, which is then driven to its
    /// next suspension point, or is answered with an error.
    #[verifier::loop_isolation(false)]
    fn server_phase(&mut self)
        requires
            old(self).wf(),
        ensures
            final(self).wf(),
            final(self)@.nodes.len() == old(self)@.nodes.len(),
            topo_preserved(old(self)@.nodes, final(self)@.nodes),
    {
        let n = self.nodes.len();
        let mut i: usize = 0;
        while i < n
            invariant
                n == self.nodes@.len(),
                i <= n,
                self.wf(),
                topo_preserved(old(self)@.nodes, self@.nodes),
            decreases n - i,
        {
            let is_server = match &self.nodes[i].kind {
                NodeKind::Server(_) => true,
                _ => false,
            };
            if is_server {
                let server_id = self.nodes[i].id;
                let ghost prev = self@.nodes;
                let taken = self.nodes[i].take_server();
                proof {
                    assert forall|k: int|
                        0 <= k < n && k != i implies self@.nodes[k] == prev[k] by {}
                    assert(topo_preserved(old(self)@.nodes, self@.nodes)) by {
                        assert forall|k: int|
                        0 <= k < n implies ({
                        let a = #[trigger] self@.nodes[k];
                        let b = old(self)@.nodes[k];
                        a.id == b.id && a.node_type == b.node_type && a.name == b.name
                            && a.hostname == b.hostname && a.connections == b.connections
                        }) by {
                        assert(prev[k].id == old(self)@.nodes[k].id && prev[k].node_type
                            == old(self)@.nodes[k].node_type && prev[k].name == old(
                            self,
                        )@.nodes[k].name && prev[k].hostname == old(self)@.nodes[k].hostname
                            && prev[k].connections == old(self)@.nodes[k].connections);
                        if k != i {
                            assert(self@.nodes[k] == prev[k]);
                        }
                        }
                    }
                    assert forall|k: int|
                        0 <= k < n implies (match (#[trigger] self@.nodes[k]).kind {
                        NodeKindV::Client(cc) => crate::node::client::client_wf(cc),
                        _ => true,
                    } && conns_wf(self@.nodes[k].connections)) by {
                        if k != i {
                            assert(self@.nodes[k] == prev[k]);
                        } else {
                            assert(self@.nodes[k].connections == prev[k].connections);
                            assert(conns_wf(prev[k].connections));
                            assert(prev[k].kind is Server);
                        }
                    }
                }
                let mut server = match taken {
                    Some(s) => s,
                    None => {
                        proof {
                            assert(false);
                        }
                        unreached()
                    },
                };
                let driven = self.drive_server(&mut server, server_id);
                let events = driven.0;
                let ghost prev2 = self@.nodes;
                proof {
                    assert(self@.nodes.len() == n);
                    assert(self.nodes@.len() == self@.nodes.len());
                }
                self.nodes[i].put_server(server);
                proof {
                    assert forall|k: int|
                        0 <= k < n && k != i implies self@.nodes[k] == prev2[k] by {}
                    assert(topo_preserved(old(self)@.nodes, self@.nodes)) by {
                        assert forall|k: int|
                        0 <= k < n implies ({
                        let a = #[trigger] self@.nodes[k];
                        let b = old(self)@.nodes[k];
                        a.id == b.id && a.node_type == b.node_type && a.name == b.name
                            && a.hostname == b.hostname && a.connections == b.connections
                        }) by {
                        assert(prev2[k].id == old(self)@.nodes[k].id && prev2[k].node_type
                            == old(self)@.nodes[k].node_type && prev2[k].name == old(
                            self,
                        )@.nodes[k].name && prev2[k].hostname == old(self)@.nodes[k].hostname
                            && prev2[k].connections == old(self)@.nodes[k].connections);
                        if k != i {
                            assert(self@.nodes[k] == prev2[k]);
                        }
                        }
                    }
                    assert forall|k: int|
                        0 <= k < n implies (match (#[trigger] self@.nodes[k]).kind {
                        NodeKindV::Client(cc) => crate::node::client::client_wf(cc),
                        _ => true,
                    } && conns_wf(self@.nodes[k].connections)) by {
                        if k != i {
                            assert(self@.nodes[k] == prev2[k]);
                        } else {
                            assert(self@.nodes[k].connections == prev2[k].connections);
                            assert(conns_wf(prev2[k].connections));
                        }
                    }
                }
                let mut k: usize = 0;
                while k < events.len()
                    invariant
                        n == self.nodes@.len(),
                        self.wf(),
                        k <= events@.len(),
                        topo_preserved(old(self)@.nodes, self@.nodes),
                    decreases events@.len() - k,
                {
                    dispatch_send_event(&events[k], &mut self.in_flight);
                    k = k + 1;
                }
            }
            i = i + 1;
        }
    }

    /// Handles one active server's whole queue: classification, drive,
    /// and the routing of every drive's outcome, exactly per
    /// `server_run_spec`.  The ghost components of the result are what
    /// the engine handed back for each message and the trace ids minted
    /// for sub-calls: the run is a function of the server's state, the
    /// topology and exactly these.  An inactive server is left untouched
    /// and emits nothing.
    #[verifier::loop_isolation(false)]
    fn drive_server(&mut self, server: &mut Server, server_id: u64) -> (res: (
        Vec<SendMessageEvent>,
        Ghost<Seq<Result<GeneratorResultValueV, ExecutionErrorV>>>,
        Ghost<Seq<u64>>,
    ))
        requires
            old(self).wf(),
        ensures
            final(self)@ == old(self)@,
            final(self).wf(),
            forall|k: int|
                0 <= k < res.0@.len() ==> (#[trigger] res.0@[k])@.sender == server_id
                    && res.0@[k]@.recipients.len() == 1,
            old(server)@.state != ServerState::Active ==> final(server)@ == old(server)@
                && res.0@ == Seq::<SendMessageEvent>::empty(),
            old(server)@.state == ServerState::Active ==> ({
                let run = server_run_spec(
                    old(self)@.nodes,
                    server_id,
                    old(server)@.endpoint_handlers,
                    old(server)@.max_concurrent_connections,
                    old(server)@.active_executions,
                    old(server)@.message_queue,
                    res.1@,
                    res.2@,
                );
                &&& res.1@.len() == old(server)@.message_queue.len()
                &&& res.2@.len() == old(server)@.message_queue.len()
                &&& events_view(res.0@) == run.0
                &&& final(server)@ == (ServerV {
                    message_queue: Seq::<MessageComponentV>::empty(),
                    active_executions: run.1,
                    ..old(server)@
                })
            }),
    {
        match server.state() {
            ServerState::Active => {},
            _ => {
                let events: Vec<SendMessageEvent> = Vec::new();
                proof {
                    assert(events@ =~= Seq::<SendMessageEvent>::empty());
                }
                return (
                    events,
                    Ghost(Seq::<Result<GeneratorResultValueV, ExecutionErrorV>>::empty()),
                    Ghost(Seq::<u64>::empty()),
                );
            },
        }
        let ghost nodes0 = self@.nodes;
        let ghost eps0 = server@.endpoint_handlers;
        let ghost cap0 = server@.max_concurrent_connections;
        let ghost table0 = server@.active_executions;
        let ghost q0 = server@.message_queue;
        let mut q = server.take_queue();
        let mut events: Vec<SendMessageEvent> = Vec::new();
        let ghost mut outs: Seq<Result<GeneratorResultValueV, ExecutionErrorV>> = Seq::empty();
        let ghost mut frs: Seq<u64> = Seq::empty();
        proof {
            assert(msgs_view(q@) =~= q0);
            assert(events_view(events@) =~= Seq::<SendMessageEventV>::empty());
            assert forall|
                orest: Seq<Result<GeneratorResultValueV, ExecutionErrorV>>,
                frest: Seq<u64>,
            |
                #![trigger outs.add(orest), frs.add(frest)]
                orest.len() == q@.len() && frest.len() == q@.len() implies ({
                let run_full = server_run_spec(
                    nodes0,
                    server_id,
                    eps0,
                    cap0,
                    table0,
                    q0,
                    outs + orest,
                    frs + frest,
                );
                let run_rest = server_run_spec(
                    nodes0,
                    server_id,
                    eps0,
                    cap0,
                    server@.active_executions,
                    msgs_view(q@),
                    orest,
                    frest,
                );
                run_full.0 == events_view(events@) + run_rest.0 && run_full.1 == run_rest.1
            }) by {
                assert(outs + orest =~= orest);
                assert(frs + frest =~= frest);
                let run_rest = server_run_spec(
                    nodes0,
                    server_id,
                    eps0,
                    cap0,
                    server@.active_executions,
                    msgs_view(q@),
                    orest,
                    frest,
                );
                assert(events_view(events@) + run_rest.0 =~= run_rest.0);
            }
        }
        while q.len() > 0
            invariant
                self@ == old(self)@,
                server@.endpoint_handlers == eps0,
                server@.state == ServerState::Active,
                server@.can_be_edited == old(server)@.can_be_edited,
                server@.max_concurrent_connections == cap0,
                server@.message_queue == Seq::<MessageComponentV>::empty(),
                outs.len() == frs.len(),
                outs.len() + q@.len() == q0.len(),
                forall|k: int|
                    0 <= k < events@.len() ==> (#[trigger] events@[k])@.sender == server_id
                        && events@[k]@.recipients.len() == 1,
                forall|
                    orest: Seq<Result<GeneratorResultValueV, ExecutionErrorV>>,
                    frest: Seq<u64>,
                |
                    #![trigger outs.add(orest), frs.add(frest)]
                    orest.len() == q@.len() && frest.len() == q@.len() ==> ({
                        let run_full = server_run_spec(
                            nodes0,
                            server_id,
                            eps0,
                            cap0,
                            table0,
                            q0,
                            outs + orest,
                            frs + frest,
                        );
                        let run_rest = server_run_spec(
                            nodes0,
                            server_id,
                            eps0,
                            cap0,
                            server@.active_executions,
                            msgs_view(q@),
                            orest,
                            frest,
                        );
                        run_full.0 == events_view(events@) + run_rest.0 && run_full.1
                            == run_rest.1
                    }),
            decreases q@.len(),
        {
            let ghost qv_pre = msgs_view(q@);
            let ghost table_pre = server@.active_executions;
            let ghost events_pre = events@;
            let ghost outs_pre = outs;
            let ghost frs_pre = frs;
            let message = q.remove(0);
            proof {
                assert(message@ == qv_pre[0]);
                assert(msgs_view(q@) =~= qv_pre.subrange(1, qv_pre.len() as int));
            }
            let message_sender = message.sender;
            let message_trace = message.trace_id;
            let ghost mv = message@;
            let ghost cls = classify_spec(eps0, cap0, table_pre, mv);
            let handled: Result<ServerExecution, crate::node::server::ExecutionError> = match message.message {
                Message::Request(request) => {
                    if server.can_handle_new_request() {
                        match server.create_execution_for_request(
                            request,
                            message_sender,
                            message_trace,
                        ) {
                            Some(e) => {
                                proof {
                                    assert(cls.0 matches Ok(x) && x =~~= e@);
                                    assert(cls.1 == server@.active_executions);
                                }
                                Ok(e)
                            },
                            None => {
                                proof {
                                    assert(cls.0 == Err::<ServerExecutionV, ExecutionErrorV>(
                                        ExecutionErrorV::NotFound,
                                    ));
                                }
                                Err(crate::node::server::ExecutionError::NotFound)
                            },
                        }
                    } else {
                        proof {
                            assert(cls.0 == Err::<ServerExecutionV, ExecutionErrorV>(
                                ExecutionErrorV::ServiceUnavailable,
                            ));
                        }
                        Err(crate::node::server::ExecutionError::ServiceUnavailable)
                    }
                },
                Message::Response(response) => {
                    let ghost respv = response@;
                    match server.remove_execution(message_trace) {
                        Some(mut e) => {
                            let mut members: Vec<(String, crate::json::JsonValue)> = Vec::new();
                            members.push(
                                (
                                    String::from_str("status"),
                                    crate::json::JsonValue::Int(response.status as i64),
                                ),
                            );
                            members.push((String::from_str("data"), response.data));
                            proof {
                                crate::json::lemma_jval_obj(members@);
                                assert(crate::json::jval_obj(members@) =~= seq![
                                    ("status"@, crate::json::JVal::Int(respv.status as int)),
                                    ("data"@, respv.data),
                                ]);
                            }
                            e.push_yield_value(crate::json::JsonValue::Obj(members));
                            proof {
                                assert(cls.0 matches Ok(x) && x =~~= e@);
                                assert(cls.1 == server@.active_executions);
                            }
                            Ok(e)
                        },
                        None => {
                            proof {
                                assert(cls.0 == Err::<ServerExecutionV, ExecutionErrorV>(
                                    ExecutionErrorV::BadRequest,
                                ));
                            }
                            Err(crate::node::server::ExecutionError::BadRequest)
                        },
                    }
                },
                Message::DatabaseAnswer(answer) => {
                    match server.remove_execution(message_trace) {
                        Some(mut e) => {
                            e.push_yield_value(answer);
                            proof {
                                assert(cls.0 matches Ok(x) && x =~~= e@);
                                assert(cls.1 == server@.active_executions);
                            }
                            Ok(e)
                        },
                        None => {
                            proof {
                                assert(cls.0 == Err::<ServerExecutionV, ExecutionErrorV>(
                                    ExecutionErrorV::BadRequest,
                                ));
                            }
                            Err(crate::node::server::ExecutionError::BadRequest)
                        },
                    }
                },
                Message::DatabaseCall(_) => {
                    proof {
                        assert(cls.0 == Err::<ServerExecutionV, ExecutionErrorV>(
                            ExecutionErrorV::BadRequest,
                        ));
                    }
                    Err(crate::node::server::ExecutionError::BadRequest)
                },
            };
            let ghost mut o_step: Result<GeneratorResultValueV, ExecutionErrorV> = Err(
                ExecutionErrorV::BadRequest,
            );
            let ghost mut f_step: u64 = 0;
            let ghost mut step_ev: Seq<SendMessageEventV> = Seq::empty();
            match handled {
                Ok(execution) => {
                    let ghost exv = execution@;
                    let dr = execution.execute();
                    proof {
                        o_step = if dr is Ok {
                            Ok(dr->Ok_0@)
                        } else {
                            Err(dr->Err_0@)
                        };
                    }
                    match dr {
                        Ok(step) => {
                            if step.done {
                                match step.value {
                                    YieldValue::Response(resp) => {
                                        let ghost rv = resp@;
                                        let mut recipients: Vec<u64> = Vec::new();
                                        recipients.push(execution.original_sender());
                                        let ev = SendMessageEvent {
                                            sender: server_id,
                                            recipients,
                                            message: Message::Response(resp),
                                            trace_id: execution.original_trace_id(),
                                        };
                                        proof {
                                            assert(ev@ =~~= mk_server_event(
                                                server_id,
                                                exv.original_sender,
                                                MessageV::Response(rv),
                                                exv.original_trace_id,
                                            ));
                                            step_ev = seq![ev@];
                                        }
                                        events.push(ev);
                                    },
                                    _ => {},
                                }
                            } else {
                                match step.value {
                                    YieldValue::Request(new_request) => {
                                        let ghost nrv = new_request@;
                                        let recipient = self.get_connected_entity_by_hostname(
                                            server_id,
                                            &new_request.url,
                                        );
                                        match recipient {
                                            Some(rec) => {
                                                let new_trace =
                                                    crate::message::fresh_trace_id();
                                                proof {
                                                    f_step = new_trace;
                                                }
                                                let mut recipients: Vec<u64> = Vec::new();
                                                recipients.push(rec);
                                                let ev = SendMessageEvent {
                                                    sender: server_id,
                                                    recipients,
                                                    message: Message::Request(new_request),
                                                    trace_id: new_trace,
                                                };
                                                proof {
                                                    assert(ev@ =~~= mk_server_event(
                                                        server_id,
                                                        rec,
                                                        MessageV::Request(nrv),
                                                        new_trace,
                                                    ));
                                                    step_ev = seq![ev@];
                                                }
                                                events.push(ev);
                                                server.insert_execution(new_trace, execution);
                                            },
                                            None => {
                                                let ev = upstream_refused_event(
                                                    server_id,
                                                    execution.original_sender(),
                                                    execution.original_trace_id(),
                                                );
                                                proof {
                                                    assert(ev@ =~~= mk_server_event(
                                                        server_id,
                                                        exv.original_sender,
                                                        MessageV::Response(upstream_refused()),
                                                        exv.original_trace_id,
                                                    ));
                                                    step_ev = seq![ev@];
                                                }
                                                events.push(ev);
                                            },
                                        }
                                    },
                                    YieldValue::DatabaseCall(database_call) => {
                                        let ghost dcv = database_call@;
                                        let recipient = self.get_connected_entity_by_hostname(
                                            server_id,
                                            &database_call.name,
                                        );
                                        match recipient {
                                            Some(rec) => {
                                                let new_trace =
                                                    crate::message::fresh_trace_id();
                                                proof {
                                                    f_step = new_trace;
                                                }
                                                let mut recipients: Vec<u64> = Vec::new();
                                                recipients.push(rec);
                                                let ev = SendMessageEvent {
                                                    sender: server_id,
                                                    recipients,
                                                    message: Message::DatabaseCall(
                                                        database_call,
                                                    ),
                                                    trace_id: new_trace,
                                                };
                                                proof {
                                                    assert(ev@ =~~= mk_server_event(
                                                        server_id,
                                                        rec,
                                                        MessageV::DatabaseCall(dcv),
                                                        new_trace,
                                                    ));
                                                    step_ev = seq![ev@];
                                                }
                                                events.push(ev);
                                                server.insert_execution(new_trace, execution);
                                            },
                                            None => {
                                                let ev = upstream_refused_event(
                                                    server_id,
                                                    execution.original_sender(),
                                                    execution.original_trace_id(),
                                                );
                                                proof {
                                                    assert(ev@ =~~= mk_server_event(
                                                        server_id,
                                                        exv.original_sender,
                                                        MessageV::Response(upstream_refused()),
                                                        exv.original_trace_id,
                                                    ));
                                                    step_ev = seq![ev@];
                                                }
                                                events.push(ev);
                                            },
                                        }
                                    },
                                    _ => {},
                                }
                            }
                        },
                        Err(execution_error) => {
                            let ghost erv = execution_error@;
                            let mut recipients: Vec<u64> = Vec::new();
                            recipients.push(message_sender);
                            let ev = SendMessageEvent {
                                sender: server_id,
                                recipients,
                                message: Message::Response(execution_error.to_response()),
                                trace_id: message_trace,
                            };
                            proof {
                                assert(ev@ =~~= mk_server_event(
                                    server_id,
                                    mv.sender,
                                    MessageV::Response(error_response(erv)),
                                    mv.trace_id,
                                ));
                                step_ev = seq![ev@];
                            }
                            events.push(ev);
                        },
                    }
                    proof {
                        assert(route_spec(
                            nodes0,
                            server_id,
                            cls.1,
                            mv,
                            exv,
                            o_step,
                            f_step,
                        ) =~~= (step_ev, server@.active_executions));
                    }
                },
                Err(execution_error) => {
                    let ghost erv = execution_error@;
                    let mut recipients: Vec<u64> = Vec::new();
                    recipients.push(message_sender);
                    let ev = SendMessageEvent {
                        sender: server_id,
                        recipients,
                        message: Message::Response(execution_error.to_response()),
                        trace_id: message_trace,
                    };
                    proof {
                        assert(ev@ =~~= mk_server_event(
                            server_id,
                            mv.sender,
                            MessageV::Response(error_response(erv)),
                            mv.trace_id,
                        ));
                        step_ev = seq![ev@];
                        assert(cls.0 == Err::<ServerExecutionV, ExecutionErrorV>(erv));
                        assert(cls.1 == server@.active_executions);
                    }
                    events.push(ev);
                },
            }
            proof {
                outs = outs.push(o_step);
                frs = frs.push(f_step);
                assert(events_view(events@) =~= events_view(events_pre) + step_ev);
                assert forall|
                    orest: Seq<Result<GeneratorResultValueV, ExecutionErrorV>>,
                    frest: Seq<u64>,
                |
                    #![trigger outs.add(orest), frs.add(frest)]
                    orest.len() == q@.len() && frest.len() == q@.len() implies ({
                    let run_full = server_run_spec(
                        nodes0,
                        server_id,
                        eps0,
                        cap0,
                        table0,
                        q0,
                        outs + orest,
                        frs + frest,
                    );
                    let run_rest = server_run_spec(
                        nodes0,
                        server_id,
                        eps0,
                        cap0,
                        server@.active_executions,
                        msgs_view(q@),
                        orest,
                        frest,
                    );
                    run_full.0 == events_view(events@) + run_rest.0 && run_full.1 == run_rest.1
                }) by {
                    let oext = seq![o_step] + orest;
                    let fext = seq![f_step] + frest;
                    assert(oext.len() == qv_pre.len() && fext.len() == qv_pre.len());
                    let run_pre = server_run_spec(
                        nodes0,
                        server_id,
                        eps0,
                        cap0,
                        table_pre,
                        qv_pre,
                        oext,
                        fext,
                    );
                    let run_full = server_run_spec(
                        nodes0,
                        server_id,
                        eps0,
                        cap0,
                        table0,
                        q0,
                        outs_pre + oext,
                        frs_pre + fext,
                    );
                    assert(run_full.0 == events_view(events_pre) + run_pre.0 && run_full.1
                        == run_pre.1);
                    assert(oext.subrange(1, oext.len() as int) =~= orest);
                    assert(fext.subrange(1, fext.len() as int) =~= frest);
                    assert(qv_pre.subrange(1, qv_pre.len() as int) =~= msgs_view(q@));
                    assert(oext[0] == o_step && fext[0] == f_step && qv_pre[0] == mv);
                    let run_rest = server_run_spec(
                        nodes0,
                        server_id,
                        eps0,
                        cap0,
                        server@.active_executions,
                        msgs_view(q@),
                        orest,
                        frest,
                    );
                    assert(run_pre.0 =~= step_ev + run_rest.0);
                    assert(run_pre.1 == run_rest.1);
                    assert(outs_pre + oext =~= outs + orest);
                    assert(frs_pre + fext =~= frs + frest);
                    assert(events_view(events_pre) + run_pre.0 =~= events_view(events@)
                        + run_rest.0);
                }
            }
        }
        proof {
            assert(outs.len() == q0.len());
            let orest = Seq::<Result<GeneratorResultValueV, ExecutionErrorV>>::empty();
            let frest = Seq::<u64>::empty();
            assert(orest.len() == q@.len() && frest.len() == q@.len());
            let run_full = server_run_spec(
                nodes0,
                server_id,
                eps0,
                cap0,
                table0,
                q0,
                outs + orest,
                frs + frest,
            );
            let run_rest = server_run_spec(
                nodes0,
                server_id,
                eps0,
                cap0,
                server@.active_executions,
                msgs_view(q@),
                orest,
                frest,
            );
            assert(msgs_view(q@) =~= Seq::<MessageComponentV>::empty());
            assert(run_rest.0 =~= Seq::<SendMessageEventV>::empty());
            assert(run_rest.1 == server@.active_executions);
            assert(outs + orest =~= outs);
            assert(frs + frest =~= frs);
            assert(events_view(events@) + run_rest.0 =~= events_view(events@));
            assert(events_view(events@) == server_run_spec(
                nodes0,
                server_id,
                eps0,
                cap0,
                table0,
                q0,
                outs,
                frs,
            ).0);
            assert(final(server)@ =~~= (ServerV {
                message_queue: Seq::<MessageComponentV>::empty(),
                active_executions: server_run_spec(
                    nodes0,
                    server_id,
                    eps0,
                    cap0,
                    table0,
                    q0,
                    outs,
                    frs,
                ).1,
                ..old(server)@
            }));
        }
        (events, Ghost(outs), Ghost(frs))
    }

    /// Phase (d): every active database drains its queue and answers
    /// each call.
    #[verifier::loop_isolation(false)]
    fn database_phase(&mut self)
        requires
            old(self).wf(),
        ensures
            final(self).wf(),
            final(self)@.nodes.len() == old(self)@.nodes.len(),
            topo_preserved(old(self)@.nodes, final(self)@.nodes),
    {
        let n = self.nodes.len();
        let mut i: usize = 0;
        while i < n
            invariant
                n == self.nodes@.len(),
                i <= n,
                self.wf(),
                topo_preserved(old(self)@.nodes, self@.nodes),
            decreases n - i,
        {
            let db_id = self.nodes[i].id;
            let ghost prev = self@.nodes;
            let events = self.nodes[i].step_database(db_id);
            proof {
                assert forall|k: int|
                    0 <= k < n && k != i implies self@.nodes[k] == prev[k] by {}
                assert(topo_preserved(old(self)@.nodes, self@.nodes)) by {
                    assert forall|k: int|
                    0 <= k < n implies ({
                    let a = #[trigger] self@.nodes[k];
                    let b = old(self)@.nodes[k];
                    a.id == b.id && a.node_type == b.node_type && a.name == b.name
                    && a.hostname == b.hostname && a.connections == b.connections
                    }) by {
                    assert(prev[k].id == old(self)@.nodes[k].id && prev[k].node_type
                    == old(self)@.nodes[k].node_type && prev[k].name == old(
                    self,
                    )@.nodes[k].name && prev[k].hostname == old(self)@.nodes[k].hostname
                    && prev[k].connections == old(self)@.nodes[k].connections);
                    if k != i {
                    assert(self@.nodes[k] == prev[k]);
                    }
                    }
                }
                assert forall|k: int|
                    0 <= k < n implies (match (#[trigger] self@.nodes[k]).kind {
                    NodeKindV::Client(cc) => crate::node::client::client_wf(cc),
                    _ => true,
                } && conns_wf(self@.nodes[k].connections)) by {
                    if k != i {
                        assert(self@.nodes[k] == prev[k]);
                    } else {
                        assert(self@.nodes[k].connections == prev[k].connections);
                        assert(conns_wf(prev[k].connections));
                        if self@.nodes[k].kind is Client {
                            assert(self@.nodes[k].kind == prev[k].kind);
                        }
                    }
                }
            }
            let mut k: usize = 0;
            while k < events.len()
                invariant
                    n == self.nodes@.len(),
                    self.wf(),
                    k <= events@.len(),
                    topo_preserved(old(self)@.nodes, self@.nodes),
                decreases events@.len() - k,
            {
                dispatch_send_event(&events[k], &mut self.in_flight);
                k = k + 1;
            }
            i = i + 1;
        }
    }

    /// One simulation tick, in the fixed phase order: deliver arrived
    /// messages, run the clients, the servers, then the databases.
    pub fn tick(&mut self)
        requires
            old(self).wf(),
        ensures
            final(self).wf(),
            final(self)@.nodes.len() == old(self)@.nodes.len(),
            topo_preserved(old(self)@.nodes, final(self)@.nodes),
    {
        self.deliver_phase();
        self.client_phase();
        self.server_phase();
        self.database_phase();
    }

    /// Phase (e): once every client has finished and nothing is in
    /// flight, every client's expectations are checked; the verdict is
    /// their conjunction.  Before that, nothing happens.
    #[verifier::loop_isolation(false)]
    pub fn verify_solution(&mut self) -> (r: Option<bool>)
        requires
            old(self).wf(),
        ensures
            final(self).wf(),
            final(self)@.nodes.len() == old(self)@.nodes.len(),
            (r is Some) == (all_clients_finished(old(self)@.nodes) && old(self)@.in_flight.len()
                == 0),
            r is None ==> final(self)@ == old(self)@,
            r matches Some(passed) ==> final(self)@.app_state == AppState::SimulateFinish
                && final(self)@.level_passed == passed && passed == (forall|i: int|
                0 <= i < old(self)@.nodes.len() ==> match (#[trigger] old(self)@.nodes[i]).kind {
                    NodeKindV::Client(c) => client_passes(c),
                    _ => true,
                }),
    {
        let n = self.nodes.len();
        let mut i: usize = 0;
        while i < n
            invariant
                n == self.nodes@.len(),
                i <= n,
                self@ == old(self)@,
                forall|k: int|
                    0 <= k < i ==> match (#[trigger] self@.nodes[k]).kind {
                        NodeKindV::Client(c) => c.state == ClientState::Finished,
                        _ => true,
                    },
            decreases n - i,
        {
            match &self.nodes[i].kind {
                NodeKind::Client(c) => {
                    let finished = match c.state() {
                        ClientState::Finished => true,
                        _ => false,
                    };
                    proof {
                        assert(self@.nodes[i as int].kind == self.nodes@[i as int].kind@);
                    }
                    if !finished {
                        proof {
                            assert(!all_clients_finished(old(self)@.nodes));
                        }
                        return None;
                    }
                },
                _ => {},
            }
            i = i + 1;
        }
        if self.in_flight.len() > 0 {
            return None;
        }
        let mut passed = true;
        let mut i: usize = 0;
        while i < n
            invariant
                n == self.nodes@.len(),
                i <= n,
                self.wf(),
                self@.nodes.len() == old(self)@.nodes.len(),
                self@.app_state == old(self)@.app_state,
                self@.level_passed == old(self)@.level_passed,
                forall|k: int| i <= k < n ==> self@.nodes[k] == #[trigger] old(self)@.nodes[k],
                passed == (forall|k: int|
                    0 <= k < i ==> match (#[trigger] old(self)@.nodes[k]).kind {
                        NodeKindV::Client(c) => client_passes(c),
                        _ => true,
                    }),
            decreases n - i,
        {
            let ghost prev = self@.nodes;
            proof {
                assert(self@.nodes[i as int] == old(self)@.nodes[i as int]);
                assert(match self@.nodes[i as int].kind {
                    NodeKindV::Client(cc) => crate::node::client::client_wf(cc),
                    _ => true,
                });
            }
            let client_passed = self.nodes[i].verify_client();
            if !client_passed {
                passed = false;
            }
            proof {
                assert forall|k: int|
                    0 <= k < n && k != i implies self@.nodes[k] == prev[k] by {}
                assert forall|k: int|
                            0 <= k < n implies (match (#[trigger] self@.nodes[k]).kind {
                            NodeKindV::Client(cc) => crate::node::client::client_wf(cc),
                            _ => true,
                        } && conns_wf(self@.nodes[k].connections)) by {
                            if k != i {
                                assert(self@.nodes[k] == prev[k]);
                            } else {
                                assert(self@.nodes[k].connections == prev[k].connections);
                                assert(conns_wf(prev[k].connections));
                            }
                        }
            }
            i = i + 1;
        }
        self.level_state.level_passed = passed;
        self.app_state = AppState::SimulateFinish;
        Some(passed)
    }

    /// Runs ticks until verification concludes or the tick budget runs
    /// out.
    pub fn run(&mut self, max_ticks: usize) -> (r: Option<bool>)
        requires
            old(self).wf(),
        ensures
            final(self).wf(),
    {
        let mut t: usize = 0;
        while t < max_ticks
            invariant
                self.wf(),
            decreases max_ticks - t,
        {
            match self.verify_solution() {
                Some(passed) => {
                    return Some(passed);
                },
                None => {},
            }
            self.tick();
            t = t + 1;
        }
        None
    }
}

/// What starting the simulation does to one node.
pub open spec fn node_started(n: SimNodeV) -> SimNodeV {
    SimNodeV {
        kind: match n.kind {
            NodeKindV::Client(c) => NodeKindV::Client(
                ClientV { state: ClientState::SendNextRequest, ..c },
            ),
            NodeKindV::Server(s) => NodeKindV::Server(
                ServerV { state: crate::node::server::ServerState::Active, ..s },
            ),
            NodeKindV::Database(d) => NodeKindV::Database(
                DatabaseV { state: crate::node::database::DatabaseState::Active, ..d },
            ),
        },
        ..n
    }
}

/// What leaving the simulation does to one node.
pub open spec fn node_reset(n: SimNodeV) -> SimNodeV {
    SimNodeV {
        kind: match n.kind {
            NodeKindV::Client(c) => NodeKindV::Client(
                ClientV {
                    state: ClientState::SimulationNotStarted,
                    curr_request_idx: 0,
                    request_configs: Seq::new(
                        c.request_configs.len(),
                        |i: int| crate::node::client::reset_config(c.request_configs[i]),
                    ),
                    ..c
                },
            ),
            NodeKindV::Server(s) => NodeKindV::Server(
                ServerV {
                    state: crate::node::server::ServerState::SimulationNotStarted,
                    message_queue: Seq::empty(),
                    active_executions: Seq::empty(),
                    ..s
                },
            ),
            NodeKindV::Database(d) => NodeKindV::Database(
                DatabaseV {
                    state: crate::node::database::DatabaseState::SimulationNotStarted,
                    message_queue: Seq::empty(),
                    ..d
                },
            ),
        },
        ..n
    }
}

/// The 500 response a server sends when a sub-call's hostname cannot be
/// reached: it goes to the original caller under the original trace id.
fn upstream_refused_event(server_id: u64, original_sender: u64, original_trace_id: u64) -> (r:
    SendMessageEvent)
    ensures
        r@.sender == server_id,
        r@.recipients == seq![original_sender],
        r@.trace_id == original_trace_id,
        r@.message matches crate::message::MessageV::Response(resp) && resp.status == 500 && resp.data
            == crate::json::JVal::Str("Upstream request refused."@),
{
    let mut recipients: Vec<u64> = Vec::new();
    recipients.push(original_sender);
    let r = SendMessageEvent {
        sender: server_id,
        recipients,
        message: Message::Response(
            crate::message::Response::internal_server_error(
                crate::json::JsonValue::Str(String::from_str("Upstream request refused.")),
            ),
        ),
        trace_id: original_trace_id,
    };
    proof {
        assert(r@.recipients =~= seq![original_sender]);
    }
    r
}

} // verus!