//! The dispatcher: a node consumes one inbound envelope at a time and
//! produces at most one reply envelope, with source and destination swapped
//! and a fresh reply identifier drawn from a monotonic counter.

use vstd::prelude::*;

use crate::message::{
    Message, MessageBody, ResponseMessage, spec_derive_response, derive_response,
};

verus! {

/// What dispatching one envelope produced.
#[derive(Debug)]
pub enum DispatchOutcome {
    /// A reply envelope to emit.
    Reply(ResponseMessage),
    /// An `error` body: terminal, dropped silently.
    Ignored,
    /// A body of unrecognized kind: dropped, but worth a diagnostic record.
    Unhandled,
}

/// A single protocol node: its identity and the counter that numbers the
/// replies it emits.
#[derive(Debug)]
pub struct Node {
    node_id: String,
    next_msg_id: u32,
}

/// Mathematical model of a node.
pub struct NodeV {
    pub node_id: Seq<char>,
    pub next_msg_id: u32,
}

impl View for Node {
    type V = NodeV;

    closed spec fn view(&self) -> NodeV {
        NodeV { node_id: self.node_id@, next_msg_id: self.next_msg_id }
    }
}

impl Node {
    /// A fresh node with the given identity; its reply counter starts at the
    /// baseline zero.
    pub fn new(node_id: String) -> (r: Node)
        ensures
            r@.node_id == node_id@,
            r@.next_msg_id == 0,
    {
        Node { node_id, next_msg_id: 0 }
    }

    /// The node's identity.
    pub fn node_id(&self) -> (r: &String)
        ensures
            r@ == self@.node_id,
    {
        &self.node_id
    }

    /// Whether the node can still hand out a fresh reply identifier.
    pub fn has_fresh_ids(&self) -> (r: bool)
        ensures
            r == (self@.next_msg_id < u32::MAX),
    {
        self.next_msg_id < u32::MAX
    }

    /// Dispatches one inbound envelope. Request kinds produce a reply whose
    /// source and destination are the request's, swapped, whose body is the
    /// derived response, and whose identifier is the next counter value;
    /// `error` and unrecognized bodies produce no reply and leave the node
    /// unchanged.
    pub fn handle_message(&mut self, msg: Message) -> (r: DispatchOutcome)
        requires
            old(self)@.next_msg_id < u32::MAX,
        ensures
            final(self)@.node_id == old(self)@.node_id,
            match r {
                DispatchOutcome::Reply(env) => {
                    &&& Some(env@.body) == spec_derive_response(
                        msg@.body,
                        old(self)@.next_msg_id,
                    )
                    &&& env@.src == msg@.dest
                    &&& env@.dest == msg@.src
                    &&& final(self)@.next_msg_id == old(self)@.next_msg_id + 1
                },
                DispatchOutcome::Ignored => {
                    &&& msg@.body is Error
                    &&& final(self)@.next_msg_id == old(self)@.next_msg_id
                },
                DispatchOutcome::Unhandled => {
                    &&& msg@.body is Unknown
                    &&& final(self)@.next_msg_id == old(self)@.next_msg_id
                },
            },
            r is Reply <==> (msg@.body is Init || msg@.body is Topology),
    {
        let reply_id = self.next_msg_id;
        if let Some(body) = derive_response(&msg.body, reply_id) {
            self.next_msg_id = reply_id + 1;
            DispatchOutcome::Reply(ResponseMessage { src: msg.dest, dest: msg.src, body })
        } else {
            match msg.body {
                MessageBody::Error(_) => DispatchOutcome::Ignored,
                _ => DispatchOutcome::Unhandled,
            }
        }
    }
}

} // verus!
