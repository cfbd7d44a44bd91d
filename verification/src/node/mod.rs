//! What a peer is made of: the routing table, the Kademlia protocol, the
//! broadcast engine and the messages exchanged with the user interface.

use vstd::prelude::*;
use std::time::SystemTime;
use crate::common::id::Id;
use crate::common::timer::system_now;

pub mod bot;
pub mod broadcast;
pub mod broadcast_laws;
pub mod cache;
pub mod kademlia;
pub mod ktable;
pub mod ktable_laws;
pub mod nethandle;
pub mod netthread;

verus! {

/// The service tag of Kademlia requests.
pub const KAD_SERVICE: u32 = 1;

/// The service tag of broadcast requests.
pub const BROADCAST_SERVICE: u32 = 2;

/// What the network worker tells the user interface.
#[derive(Debug, Clone)]
pub enum FromNetMsg {
    /// The worker failed; a description may be given.
    Error(Option<String>),
    /// A chat message to show: one of our own, or one that arrived.
    NewMsg(Message),
    /// The last message of the user could not be sent.
    NotSent,
}

impl FromNetMsg {
    pub fn from_message(msg: Message) -> (r: FromNetMsg)
        ensures
            r == FromNetMsg::NewMsg(msg),
    {
        FromNetMsg::NewMsg(msg)
    }
}

/// What the user interface asks of the network worker.
#[derive(Debug, Clone)]
pub enum ToNetMsg {
    /// Request termination of the network thread.
    Terminate,
    /// Send this text to the room.
    NewMsg(String),
}

/// A chat message.
#[derive(Debug, Clone)]
pub struct Message {
    msg: String,
    sender_id: Id,
    sender_name: String,
    timestamp: SystemTime,
    is_myself: bool,
}

/// What a chat message holds.
pub struct MessageView {
    /// The text.
    pub msg: Seq<char>,
    /// The identifier of the user who wrote it.
    pub sender_id: Id,
    /// The name of the user who wrote it.
    pub sender_name: Seq<char>,
    /// When it was written.
    pub timestamp: SystemTime,
    /// Whether it was written at this peer.
    pub is_myself: bool,
}

impl View for Message {
    type V = MessageView;

    closed spec fn view(&self) -> MessageView {
        MessageView {
            msg: self.msg@,
            sender_id: self.sender_id,
            sender_name: self.sender_name@,
            timestamp: self.timestamp,
            is_myself: self.is_myself,
        }
    }
}

impl Message {
    /// A message written now.
    pub fn new(msg: String, sender_id: Id, sender_name: String, is_myself: bool) -> (m: Message)
        ensures
            m@.msg == msg@,
            m@.sender_id == sender_id,
            m@.sender_name == sender_name@,
            m@.is_myself == is_myself,
    {
        Message::with_timestamp(msg, sender_id, sender_name, system_now(), is_myself)
    }

    /// A message written at `timestamp`.
    pub fn with_timestamp(
        msg: String,
        sender_id: Id,
        sender_name: String,
        timestamp: SystemTime,
        is_myself: bool,
    ) -> (m: Message)
        ensures
            m@ == (MessageView {
                msg: msg@,
                sender_id,
                sender_name: sender_name@,
                timestamp,
                is_myself,
            }),
    {
        Message { msg, sender_id, sender_name, timestamp, is_myself }
    }

    pub fn get_message(&self) -> (s: &String)
        ensures
            s@ == self@.msg,
    {
        &self.msg
    }

    pub fn get_sender_id(&self) -> (id: Id)
        ensures
            id == self@.sender_id,
    {
        self.sender_id
    }

    pub fn get_sender_name(&self) -> (s: &String)
        ensures
            s@ == self@.sender_name,
    {
        &self.sender_name
    }

    pub fn get_timestamp(&self) -> (t: SystemTime)
        ensures
            t == self@.timestamp,
    {
        self.timestamp
    }

    pub fn is_myself(&self) -> (r: bool)
        ensures
            r == self@.is_myself,
    {
        self.is_myself
    }

    /// A copy of this message.
    pub fn duplicate(&self) -> (m: Message)
        ensures
            m@ == self@,
    {
        Message {
            msg: self.msg.clone(),
            sender_id: self.sender_id,
            sender_name: self.sender_name.clone(),
            timestamp: self.timestamp,
            is_myself: self.is_myself,
        }
    }

    /// A copy of this message as it is shown at a peer that received it: not
    /// written there.
    pub fn as_received(&self) -> (m: Message)
        ensures
            m@ == (MessageView { is_myself: false, ..self@ }),
    {
        Message {
            msg: self.msg.clone(),
            sender_id: self.sender_id,
            sender_name: self.sender_name.clone(),
            timestamp: self.timestamp,
            is_myself: false,
        }
    }
}

} // verus!
