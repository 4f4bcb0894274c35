use vstd::prelude::*;

pub mod buffer;
pub mod connection;
pub mod map;
pub mod queue;
pub mod wire;

verus! {

/// A group of messages that can go over the wire: typically the requests, or
/// the events, of one interface.
pub trait MessageGroup: Sized {
    /// Whether this message is a destructor: once it is sent or received, its
    /// object cannot be used any more.
    fn is_destructor(&self) -> bool;
}

/// The description of an interface: its two groups of messages and its name.
pub trait Interface {
    /// The messages from client to server.
    type Requests: MessageGroup;

    /// The messages from server to client.
    type Events: MessageGroup;

    /// The interface's name.
    fn name() -> &'static str;
}

/// What acts when an object receives a message: `receive(message, metadata)`,
/// where the metadata identifies the object that received it.
pub trait Implementation<Meta, Msg> {
    /// The messages received so far, each with its metadata, in order.
    spec fn received(&self) -> Seq<(Msg, Meta)>;

    /// Receives one message.
    fn receive(&mut self, msg: Msg, meta: Meta)
        ensures
            final(self).received() == old(self).received().push((msg, meta)),
    ;
}

/// A handler that keeps every message it receives, with the id of its target.
pub struct MessageLog<Msg> {
    pub entries: Vec<(Msg, u32)>,
}

impl<Msg> MessageLog<Msg> {
    /// An empty log.
    pub fn new() -> (r: MessageLog<Msg>)
        ensures
            r.entries@ == Seq::<(Msg, u32)>::empty(),
    {
        MessageLog { entries: Vec::new() }
    }
}

impl<Msg> Implementation<u32, Msg> for MessageLog<Msg> {
    open spec fn received(&self) -> Seq<(Msg, u32)> {
        self.entries@
    }

    fn receive(&mut self, msg: Msg, meta: u32) {
        self.entries.push((msg, meta));
    }
}

/// A handle standing for an object whose interface is not known.
pub struct AnonymousObject;

/// A group with no message at all.
///
/// Its one field is private and the library never builds a value of it, so no
/// message of this group exists.
pub struct NoMessage {
    never: (),
}

impl MessageGroup for NoMessage {
    fn is_destructor(&self) -> (r: bool)
        ensures
            !r,
    {
        false
    }
}

impl Interface for AnonymousObject {
    type Requests = NoMessage;
    type Events = NoMessage;

    fn name() -> (r: &'static str)
        ensures
            r@ == Seq::<char>::empty(),
    {
        proof {
            reveal_strlit("");
        }
        ""
    }
}

/// An interface as the registry of a connection knows it: its name and version.
pub struct InterfaceDesc {
    pub name: Vec<u8>,
    pub version: u32,
}

/// Whether two descriptors stand for the same interface; interfaces are told
/// apart by name.
pub fn same_interface(a: &InterfaceDesc, b: &InterfaceDesc) -> (r: bool)
    ensures
        r == (a.name@ == b.name@),
{
    if a.name.len() != b.name.len() {
        return false;
    }
    let mut i: usize = 0;
    while i < a.name.len()
        invariant
            i <= a.name@.len(),
            a.name@.len() == b.name@.len(),
            forall|j: int| 0 <= j < i ==> a.name@[j] == b.name@[j],
        decreases a.name.len() - i,
    {
        if a.name[i] != b.name[i] {
            return false;
        }
        i = i + 1;
    }
    assert(a.name@ =~= b.name@);
    true
}

} // verus!
