//! Envelope and body data model: the closed set of message kinds, the error
//! taxonomy with its fixed wire codes, and the per-variant response shapes.

use vstd::prelude::*;

verus! {

/// Closed set of protocol-level failure reasons. The numeric wire value of
/// each member is fixed by the protocol and given by [`code_of`].
#[derive(Debug, Clone, Copy, PartialEq, Eq, Structural)]
pub enum MaelstromError {
    Timeout,
    NodeNotFound,
    NotSupported,
    TemporarilyUnavailable,
    MalformedRequest,
    Crash,
    Abort,
    KeyDoesNotExist,
    KeyAlreadyExists,
    PreconditionFailed,
    TxnConflict,
}

/// The fixed numeric wire value of each error code.
pub open spec fn code_of(e: MaelstromError) -> u32 {
    match e {
        MaelstromError::Timeout => 0,
        MaelstromError::NodeNotFound => 1,
        MaelstromError::NotSupported => 10,
        MaelstromError::TemporarilyUnavailable => 11,
        MaelstromError::MalformedRequest => 12,
        MaelstromError::Crash => 13,
        MaelstromError::Abort => 14,
        MaelstromError::KeyDoesNotExist => 20,
        MaelstromError::KeyAlreadyExists => 21,
        MaelstromError::PreconditionFailed => 22,
        MaelstromError::TxnConflict => 30,
    }
}

/// The error code, if any, that a numeric wire value stands for. The set is
/// closed: an unlisted number stands for nothing.
pub open spec fn spec_from_code(c: u32) -> Option<MaelstromError> {
    if c == 0 {
        Some(MaelstromError::Timeout)
    } else if c == 1 {
        Some(MaelstromError::NodeNotFound)
    } else if c == 10 {
        Some(MaelstromError::NotSupported)
    } else if c == 11 {
        Some(MaelstromError::TemporarilyUnavailable)
    } else if c == 12 {
        Some(MaelstromError::MalformedRequest)
    } else if c == 13 {
        Some(MaelstromError::Crash)
    } else if c == 14 {
        Some(MaelstromError::Abort)
    } else if c == 20 {
        Some(MaelstromError::KeyDoesNotExist)
    } else if c == 21 {
        Some(MaelstromError::KeyAlreadyExists)
    } else if c == 22 {
        Some(MaelstromError::PreconditionFailed)
    } else if c == 30 {
        Some(MaelstromError::TxnConflict)
    } else {
        None
    }
}

impl MaelstromError {
    /// The numeric wire value of this error code.
    pub fn to_code(&self) -> (r: u32)
        ensures
            r == code_of(*self),
    {
        match self {
            MaelstromError::Timeout => 0,
            MaelstromError::NodeNotFound => 1,
            MaelstromError::NotSupported => 10,
            MaelstromError::TemporarilyUnavailable => 11,
            MaelstromError::MalformedRequest => 12,
            MaelstromError::Crash => 13,
            MaelstromError::Abort => 14,
            MaelstromError::KeyDoesNotExist => 20,
            MaelstromError::KeyAlreadyExists => 21,
            MaelstromError::PreconditionFailed => 22,
            MaelstromError::TxnConflict => 30,
        }
    }

    /// Decodes a numeric wire value; `None` for a number outside the closed set.
    pub fn from_code(c: u32) -> (r: Option<MaelstromError>)
        ensures
            r == spec_from_code(c),
    {
        if c == 0 {
            Some(MaelstromError::Timeout)
        } else if c == 1 {
            Some(MaelstromError::NodeNotFound)
        } else if c == 10 {
            Some(MaelstromError::NotSupported)
        } else if c == 11 {
            Some(MaelstromError::TemporarilyUnavailable)
        } else if c == 12 {
            Some(MaelstromError::MalformedRequest)
        } else if c == 13 {
            Some(MaelstromError::Crash)
        } else if c == 14 {
            Some(MaelstromError::Abort)
        } else if c == 20 {
            Some(MaelstromError::KeyDoesNotExist)
        } else if c == 21 {
            Some(MaelstromError::KeyAlreadyExists)
        } else if c == 22 {
            Some(MaelstromError::PreconditionFailed)
        } else if c == 30 {
            Some(MaelstromError::TxnConflict)
        } else {
            None
        }
    }
}

/// The mapping between error codes and wire values is a bijection: encoding
/// then decoding a code gives the code back, and decoding then encoding a
/// number gives the number back.
pub proof fn lemma_error_code_bijection(e: MaelstromError, c: u32)
    ensures
        spec_from_code(code_of(e)) == Some(e),
        spec_from_code(c) matches Some(d) ==> code_of(d) == c,
{
}

/// Fields of an `init` request.
#[derive(Debug, Clone)]
pub struct InitMessage {
    pub msg_id: u32,
    pub node_id: String,
    pub node_ids: Vec<String>,
}

/// Mathematical model of an `init` request.
pub struct InitV {
    pub msg_id: u32,
    pub node_id: Seq<char>,
    pub node_ids: Seq<Seq<char>>,
}

impl View for InitMessage {
    type V = InitV;

    open spec fn view(&self) -> InitV {
        InitV { msg_id: self.msg_id, node_id: self.node_id@, node_ids: self.node_ids.deep_view() }
    }
}

/// Fields of a `topology` request: the neighbour list handed to this node.
#[derive(Debug, Clone)]
pub struct TopologyMessage {
    pub msg_id: u32,
    pub topology: Vec<String>,
}

/// Mathematical model of a `topology` request.
pub struct TopologyV {
    pub msg_id: u32,
    pub topology: Seq<Seq<char>>,
}

impl View for TopologyMessage {
    type V = TopologyV;

    open spec fn view(&self) -> TopologyV {
        TopologyV { msg_id: self.msg_id, topology: self.topology.deep_view() }
    }
}

/// Fields of an `error` body.
#[derive(Debug, Clone)]
pub struct ErrorMessage {
    pub in_reply_to: u32,
    pub code: MaelstromError,
    pub text: String,
}

/// Mathematical model of an `error` body.
pub struct ErrorV {
    pub in_reply_to: u32,
    pub code: MaelstromError,
    pub text: Seq<char>,
}

impl View for ErrorMessage {
    type V = ErrorV;

    open spec fn view(&self) -> ErrorV {
        ErrorV { in_reply_to: self.in_reply_to, code: self.code, text: self.text@ }
    }
}

/// The closed, tagged union of message kinds. A body whose tag matches no
/// known kind is `Unknown`.
#[derive(Debug, Clone)]
pub enum MessageBody {
    Init(InitMessage),
    Topology(TopologyMessage),
    Error(ErrorMessage),
    Unknown,
}

/// Mathematical model of a body.
pub enum BodyV {
    Init(InitV),
    Topology(TopologyV),
    Error(ErrorV),
    Unknown,
}

impl View for MessageBody {
    type V = BodyV;

    open spec fn view(&self) -> BodyV {
        match self {
            MessageBody::Init(m) => BodyV::Init(m@),
            MessageBody::Topology(m) => BodyV::Topology(m@),
            MessageBody::Error(m) => BodyV::Error(m@),
            MessageBody::Unknown => BodyV::Unknown,
        }
    }
}

/// A wire envelope: source node, destination node, and the typed body.
#[derive(Debug, Clone)]
pub struct Message {
    pub src: String,
    pub dest: String,
    pub body: MessageBody,
}

/// Mathematical model of an envelope.
pub struct MessageV {
    pub src: Seq<char>,
    pub dest: Seq<char>,
    pub body: BodyV,
}

impl View for Message {
    type V = MessageV;

    open spec fn view(&self) -> MessageV {
        MessageV { src: self.src@, dest: self.dest@, body: self.body@ }
    }
}

/// Reply shape for an `init` request.
#[derive(Debug, Clone, Copy, PartialEq, Eq, Structural)]
pub struct InitOkResponse {
    pub in_reply_to: u32,
    pub msg_id: u32,
}

/// Reply shape for a `topology` request.
#[derive(Debug, Clone, Copy, PartialEq, Eq, Structural)]
pub struct TopologyOkResponse {
    pub msg_id: u32,
    pub in_reply_to: u32,
}

/// The closed union of reply shapes, one per request-bearing kind.
#[derive(Debug, Clone, Copy, PartialEq, Eq, Structural)]
pub enum ResponseBody {
    InitOk(InitOkResponse),
    TopologyOk(TopologyOkResponse),
}

/// A reply envelope: source and destination are the request's, swapped.
#[derive(Debug, Clone)]
pub struct ResponseMessage {
    pub src: String,
    pub dest: String,
    pub body: ResponseBody,
}

/// Mathematical model of a reply envelope. Reply bodies carry only plain
/// numbers, so the body models itself.
pub struct ResponseMessageV {
    pub src: Seq<char>,
    pub dest: Seq<char>,
    pub body: ResponseBody,
}

impl View for ResponseMessage {
    type V = ResponseMessageV;

    open spec fn view(&self) -> ResponseMessageV {
        ResponseMessageV { src: self.src@, dest: self.dest@, body: self.body }
    }
}

/// The correlation identifier a request carries, if it is a request.
pub open spec fn request_id(b: BodyV) -> Option<u32> {
    match b {
        BodyV::Init(m) => Some(m.msg_id),
        BodyV::Topology(m) => Some(m.msg_id),
        BodyV::Error(_) => None,
        BodyV::Unknown => None,
    }
}

/// The correlation identifier a reply echoes back.
pub open spec fn reply_in_reply_to(r: ResponseBody) -> u32 {
    match r {
        ResponseBody::InitOk(x) => x.in_reply_to,
        ResponseBody::TopologyOk(x) => x.in_reply_to,
    }
}

/// The reply, if any, that a body calls for. Total over the closed variant
/// set: request kinds get their reply shape with the request's `msg_id`
/// echoed in `in_reply_to`; `error` bodies are terminal and `Unknown` bodies
/// are absorbed, so neither gets a reply.
pub open spec fn spec_derive_response(b: BodyV, reply_id: u32) -> Option<ResponseBody> {
    match b {
        BodyV::Init(m) => Some(
            ResponseBody::InitOk(InitOkResponse { in_reply_to: m.msg_id, msg_id: reply_id }),
        ),
        BodyV::Topology(m) => Some(
            ResponseBody::TopologyOk(TopologyOkResponse { msg_id: reply_id, in_reply_to: m.msg_id }),
        ),
        BodyV::Error(_) => None,
        BodyV::Unknown => None,
    }
}

/// Maps a body to its reply shape, or to nothing for bodies that take no
/// reply. `reply_id` becomes the reply's own `msg_id`.
pub fn derive_response(body: &MessageBody, reply_id: u32) -> (r: Option<ResponseBody>)
    ensures
        r == spec_derive_response(body@, reply_id),
{
    match body {
        MessageBody::Init(m) => Some(
            ResponseBody::InitOk(InitOkResponse { in_reply_to: m.msg_id, msg_id: reply_id }),
        ),
        MessageBody::Topology(m) => Some(
            ResponseBody::TopologyOk(TopologyOkResponse { msg_id: reply_id, in_reply_to: m.msg_id }),
        ),
        MessageBody::Error(_) => None,
        MessageBody::Unknown => None,
    }
}

impl InitMessage {
    /// The reply an `init` body calls for; `None` on every other body.
    pub fn from_message_body(body: &MessageBody, reply_id: u32) -> (r: Option<InitOkResponse>)
        ensures
            match body@ {
                BodyV::Init(m) => r == Some(
                    InitOkResponse { in_reply_to: m.msg_id, msg_id: reply_id },
                ),
                _ => r is None,
            },
    {
        if let MessageBody::Init(m) = body {
            Some(InitOkResponse { in_reply_to: m.msg_id, msg_id: reply_id })
        } else {
            None
        }
    }
}

impl TopologyMessage {
    /// The reply a `topology` body calls for; `None` on every other body.
    pub fn from_message_body(body: &MessageBody, reply_id: u32) -> (r: Option<TopologyOkResponse>)
        ensures
            match body@ {
                BodyV::Topology(m) => r == Some(
                    TopologyOkResponse { msg_id: reply_id, in_reply_to: m.msg_id },
                ),
                _ => r is None,
            },
    {
        if let MessageBody::Topology(m) = body {
            Some(TopologyOkResponse { msg_id: reply_id, in_reply_to: m.msg_id })
        } else {
            None
        }
    }
}

/// Response derivation is total over the closed variant set: exactly the two
/// request kinds get a reply, and `error` and `Unknown` bodies get none.
pub proof fn lemma_derive_response_total(b: BodyV, reply_id: u32)
    ensures
        spec_derive_response(b, reply_id) is Some <==> (b is Init || b is Topology),
        b is Error ==> spec_derive_response(b, reply_id) is None,
        b is Unknown ==> spec_derive_response(b, reply_id) is None,
{
}

/// Correlation: whenever a reply is derived for a request carrying
/// `message_id = m`, the reply carries `in_reply_to = m`.
pub proof fn lemma_response_correlation(b: BodyV, reply_id: u32)
    ensures
        spec_derive_response(b, reply_id) matches Some(r) ==> request_id(b) == Some(
            reply_in_reply_to(r),
        ),
{
}

} // verus!
