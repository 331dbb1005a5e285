//! Messages and the in-flight bus.  A message carries a sender, a
//! recipient, a payload and a trace identifier; everything a node sends
//! spends one tick in flight and is delivered at the start of the next
//! tick, in the order it was sent.

use vstd::prelude::*;
use vstd::string::StringExecFns;
use crate::json::{jval, JVal, JsonValue};
use crate::node::client::HttpMethod;

verus! {

/// The model of a request: plain sequences and values.
#[verifier::ext_equal]
pub struct RequestV {
    pub url: Seq<char>,
    pub path: Seq<char>,
    pub method: HttpMethod,
    pub body: Seq<char>,
    pub params: Seq<(Seq<char>, Seq<char>)>,
}

/// An HTTP-like request.  The body is raw JSON text ("null" when the
/// method carries no body).
#[derive(Debug)]
pub struct Request {
    pub url: String,
    pub path: String,
    pub method: HttpMethod,
    pub body: String,
    pub params: Vec<(String, String)>,
}

impl View for Request {
    type V = RequestV;

    open spec fn view(&self) -> RequestV {
        RequestV {
            url: self.url@,
            path: self.path@,
            method: self.method,
            body: self.body@,
            params: Seq::new(
                self.params@.len(),
                |i: int| (self.params@[i].0@, self.params@[i].1@),
            ),
        }
    }
}

/// The model of a response.
#[verifier::ext_equal]
pub struct ResponseV {
    pub status: u16,
    pub data: JVal,
}

/// An HTTP-like response: a status code and a JSON payload.
#[derive(Debug)]
pub struct Response {
    pub status: u16,
    pub data: JsonValue,
}

impl View for Response {
    type V = ResponseV;

    open spec fn view(&self) -> ResponseV {
        ResponseV { status: self.status, data: self.data@ }
    }
}

impl Response {
    /// The response sent when no endpoint matches: status 404.
    pub fn not_found() -> (r: Response)
        ensures
            r.status == 404,
            r.data@ == JVal::Str("Not found."@),
    {
        Response { status: 404, data: JsonValue::Str(String::from_str("Not found.")) }
    }

    /// The response sent when a handler fails: status 500 with the
    /// given payload.
    pub fn internal_server_error(data: JsonValue) -> (r: Response)
        ensures
            r.status == 500,
            r.data@ == data@,
    {
        Response { status: 500, data }
    }

    /// The response sent for a payload the node cannot handle: status 400.
    pub fn bad_request() -> (r: Response)
        ensures
            r.status == 400,
            r.data@ == JVal::Str("Bad request."@),
    {
        Response { status: 400, data: JsonValue::Str(String::from_str("Bad request.")) }
    }

    /// The response sent when admission control rejects a request:
    /// status 503.
    pub fn service_unavailable() -> (r: Response)
        ensures
            r.status == 503,
            r.data@ == JVal::Str("Service Unavailable."@),
    {
        Response { status: 503, data: JsonValue::Str(String::from_str("Service Unavailable.")) }
    }

    /// A copy that models the same response.
    pub fn duplicate(&self) -> (r: Response)
        ensures
            r@ == self@,
    {
        Response { status: self.status, data: crate::json::deep_copy(&self.data) }
    }
}

/// The model of a database call.
#[verifier::ext_equal]
pub struct DatabaseCallV {
    pub name: Seq<char>,
    pub call_type: DatabaseCallTypeV,
}

#[verifier::ext_equal]
pub enum DatabaseCallTypeV {
    Save(JVal),
    FindOne(i64),
    FindAll,
    Contains(i64),
    Delete(i64),
}

/// One of the five operations a database accepts.  Document identifiers
/// are 64-bit integers.
#[derive(Debug)]
pub enum DatabaseCallType {
    Save(JsonValue),
    FindOne(i64),
    FindAll,
    Contains(i64),
    Delete(i64),
}

impl View for DatabaseCallType {
    type V = DatabaseCallTypeV;

    open spec fn view(&self) -> DatabaseCallTypeV {
        match self {
            DatabaseCallType::Save(v) => DatabaseCallTypeV::Save(jval(*v)),
            DatabaseCallType::FindOne(id) => DatabaseCallTypeV::FindOne(*id),
            DatabaseCallType::FindAll => DatabaseCallTypeV::FindAll,
            DatabaseCallType::Contains(id) => DatabaseCallTypeV::Contains(*id),
            DatabaseCallType::Delete(id) => DatabaseCallTypeV::Delete(*id),
        }
    }
}

/// A call addressed to a database by its hostname.
#[derive(Debug)]
pub struct DatabaseCall {
    pub name: String,
    pub call_type: DatabaseCallType,
}

impl View for DatabaseCall {
    type V = DatabaseCallV;

    open spec fn view(&self) -> DatabaseCallV {
        DatabaseCallV { name: self.name@, call_type: self.call_type@ }
    }
}

/// The model of a message payload.
#[verifier::ext_equal]
pub enum MessageV {
    Request(RequestV),
    Response(ResponseV),
    DatabaseCall(DatabaseCallV),
    DatabaseAnswer(JVal),
}

/// A message payload.
#[derive(Debug)]
pub enum Message {
    Request(Request),
    Response(Response),
    DatabaseCall(DatabaseCall),
    DatabaseAnswer(JsonValue),
}

impl View for Message {
    type V = MessageV;

    open spec fn view(&self) -> MessageV {
        match self {
            Message::Request(r) => MessageV::Request(r@),
            Message::Response(r) => MessageV::Response(r@),
            Message::DatabaseCall(c) => MessageV::DatabaseCall(c@),
            Message::DatabaseAnswer(v) => MessageV::DatabaseAnswer(jval(*v)),
        }
    }
}

/// The model of a unit of traffic.
#[verifier::ext_equal]
pub struct MessageComponentV {
    pub sender: u64,
    pub recipient: u64,
    pub message: MessageV,
    pub trace_id: u64,
}

/// One unit of traffic between two nodes.
#[derive(Debug)]
pub struct MessageComponent {
    pub sender: u64,
    pub recipient: u64,
    pub message: Message,
    pub trace_id: u64,
}

impl View for MessageComponent {
    type V = MessageComponentV;

    open spec fn view(&self) -> MessageComponentV {
        MessageComponentV {
            sender: self.sender,
            recipient: self.recipient,
            message: self.message@,
            trace_id: self.trace_id,
        }
    }
}

/// The model of a sent message.
#[verifier::ext_equal]
pub struct SendMessageEventV {
    pub sender: u64,
    pub recipients: Seq<u64>,
    pub message: MessageV,
    pub trace_id: u64,
}

/// A sent message, before the bus has fanned it out: one copy goes to
/// every recipient.
#[derive(Debug)]
pub struct SendMessageEvent {
    pub sender: u64,
    pub recipients: Vec<u64>,
    pub message: Message,
    pub trace_id: u64,
}

impl View for SendMessageEvent {
    type V = SendMessageEventV;

    open spec fn view(&self) -> SendMessageEventV {
        SendMessageEventV {
            sender: self.sender,
            recipients: self.recipients@,
            message: self.message@,
            trace_id: self.trace_id,
        }
    }
}

impl Request {
    /// A copy that models the same request.
    pub fn duplicate(&self) -> (r: Request)
        ensures
            r@ == self@,
    {
        let mut params: Vec<(String, String)> = Vec::new();
        let mut i: usize = 0;
        while i < self.params.len()
            invariant
                i <= self.params@.len(),
                params@.len() == i,
                forall|k: int|
                    0 <= k < i ==> (params@[k].0@, params@[k].1@) == (
                        self.params@[k].0@,
                        self.params@[k].1@,
                    ),
            decreases self.params@.len() - i,
        {
            params.push((self.params[i].0.clone(), self.params[i].1.clone()));
            i = i + 1;
        }
        let r = Request {
            url: self.url.clone(),
            path: self.path.clone(),
            method: self.method,
            body: self.body.clone(),
            params,
        };
        proof {
            assert(r@.params =~= self@.params);
        }
        r
    }
}

impl DatabaseCall {
    /// A copy that models the same call.
    pub fn duplicate(&self) -> (r: DatabaseCall)
        ensures
            r@ == self@,
    {
        let call_type = match &self.call_type {
            DatabaseCallType::Save(v) => DatabaseCallType::Save(crate::json::deep_copy(v)),
            DatabaseCallType::FindOne(id) => DatabaseCallType::FindOne(*id),
            DatabaseCallType::FindAll => DatabaseCallType::FindAll,
            DatabaseCallType::Contains(id) => DatabaseCallType::Contains(*id),
            DatabaseCallType::Delete(id) => DatabaseCallType::Delete(*id),
        };
        DatabaseCall { name: self.name.clone(), call_type }
    }
}

impl Message {
    /// A copy that models the same payload.
    pub fn duplicate(&self) -> (r: Message)
        ensures
            r@ == self@,
    {
        match self {
            Message::Request(r) => Message::Request(r.duplicate()),
            Message::Response(r) => Message::Response(r.duplicate()),
            Message::DatabaseCall(c) => Message::DatabaseCall(c.duplicate()),
            Message::DatabaseAnswer(v) => Message::DatabaseAnswer(crate::json::deep_copy(v)),
        }
    }
}

impl MessageComponent {
    /// A copy that models the same traffic unit.
    pub fn duplicate(&self) -> (r: MessageComponent)
        ensures
            r@ == self@,
    {
        MessageComponent {
            sender: self.sender,
            recipient: self.recipient,
            message: self.message.duplicate(),
            trace_id: self.trace_id,
        }
    }
}

/// Relies on uuid::Uuid::new_v4: a freshly generated random identifier,
/// taken as its high 64 bits.  Nothing is promised of the value: in
/// particular no contract can say a minted id differs from an id already
/// in use, so a collision — vanishingly unlikely, but never excluded —
/// would correlate unrelated traffic, exactly as any identifier reuse
/// would.
#[verifier::external_body]
pub(crate) fn fresh_trace_id() -> u64 {
    uuid::Uuid::new_v4().as_u64_pair().0
}

/// Fans a sent message out: one in-flight copy per recipient, appended in
/// recipient order.  Each copy is delivered at the start of the next tick.
pub fn dispatch_send_event(event: &SendMessageEvent, in_flight: &mut Vec<MessageComponent>)
    ensures
        final(in_flight)@.len() == old(in_flight)@.len() + event.recipients@.len(),
        forall|k: int|
            0 <= k < old(in_flight)@.len() ==> final(in_flight)@[k] == old(in_flight)@[k],
        forall|k: int|
            0 <= k < event.recipients@.len() ==> #[trigger] final(in_flight)@[old(
                in_flight,
            )@.len() + k]@ == (MessageComponentV {
                sender: event.sender,
                recipient: event.recipients@[k],
                message: event.message@,
                trace_id: event.trace_id,
            }),
{
    let mut i: usize = 0;
    while i < event.recipients.len()
        invariant
            i <= event.recipients@.len(),
            in_flight@.len() == old(in_flight)@.len() + i,
            forall|k: int|
                0 <= k < old(in_flight)@.len() ==> in_flight@[k] == old(in_flight)@[k],
            forall|k: int|
                0 <= k < i ==> #[trigger] in_flight@[old(in_flight)@.len() + k]@ == (
                MessageComponentV {
                    sender: event.sender,
                    recipient: event.recipients@[k],
                    message: event.message@,
                    trace_id: event.trace_id,
                }),
        decreases event.recipients@.len() - i,
    {
        let copy = MessageComponent {
            sender: event.sender,
            recipient: event.recipients[i],
            message: event.message.duplicate(),
            trace_id: event.trace_id,
        };
        in_flight.push(copy);
        i = i + 1;
    }
}

/// Removes and returns every in-flight message, in send order: the bus
/// delivers everything that was sent during the previous tick.
pub fn drain_in_flight(in_flight: &mut Vec<MessageComponent>) -> (delivered: Vec<MessageComponent>)
    ensures
        final(in_flight)@.len() == 0,
        delivered@ == old(in_flight)@,
{
    let mut delivered: Vec<MessageComponent> = Vec::new();
    core::mem::swap(&mut delivered, in_flight);
    delivered
}

} // verus!
