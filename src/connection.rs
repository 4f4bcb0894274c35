use vstd::prelude::*;
use crate::buffer::{InView, OutView, ReadBuffer, WriteBuffer};
use crate::map::{live, Object, ObjectMap, Role};
use crate::queue::{EventQueue, QueuedMessage, QueuedView};
use crate::wire::{
    args_fds, encode, follows_signature, message_bytes, message_size, parse_frame, ArgumentType,
    Argument, DecodeError, EncodeError, FrameParse, Message, MessageView, MAX_MESSAGE_SIZE,
};

verus! {

/// Why an operation on a connection failed.
#[derive(Clone, Copy, PartialEq, Eq, Structural, Debug)]
pub enum ConnError {
    /// More bytes are needed before the next message can be read: not an error.
    Incomplete,
    /// The peer sent bytes that are no message: fatal.
    MalformedMessage,
    /// The operation named a dead or unknown object.
    InvalidObject,
    /// The arguments do not follow the signature.
    SignatureMismatch,
    /// The message does not fit a frame.
    TooLarge,
    /// The peer hung up, or the connection failed: fatal.
    ConnectionClosed,
    /// The peer reported a protocol error on some object.
    Protocol,
}

/// The error that a fatal or recorded state makes every operation return.
pub open spec fn poisoned(closed: bool, last_error: Option<ConnError>) -> Option<ConnError> {
    if closed {
        Some(ConnError::ConnectionClosed)
    } else {
        last_error
    }
}

/// The opcode of the root object's event that reports a protocol error.
pub const ERROR_EVENT: u16 = 0;

/// The opcode of the root object's event that frees an id.
pub const DELETE_ID_EVENT: u16 = 1;

/// What one event of the root object does to the map and the recorded error:
/// a protocol error is recorded; a freed id leaves the map if its object is dead.
pub open spec fn root_event(
    m: Map<u32, Object>,
    err: Option<ConnError>,
    e: MessageView,
) -> (Map<u32, Object>, Option<ConnError>) {
    if e.opcode == ERROR_EVENT {
        (m, Some(ConnError::Protocol))
    } else if e.opcode == DELETE_ID_EVENT && e.args.len() >= 1 && e.args[0] is Uint {
        let id = e.args[0]->Uint_0;
        (
            if m.contains_key(id) && !m[id].alive {
                m.remove(id)
            } else {
                m
            },
            err,
        )
    } else {
        (m, err)
    }
}

/// The root object's events, handled one after another.
pub open spec fn root_events(
    m: Map<u32, Object>,
    err: Option<ConnError>,
    q: Seq<QueuedView>,
) -> (Map<u32, Object>, Option<ConnError>)
    decreases q.len(),
{
    if q.len() == 0 {
        (m, err)
    } else {
        let (m2, err2) = root_event(m, err, q[0].msg);
        root_events(m2, err2, q.drop_first())
    }
}

/// The number of the root object's queue.
pub const ROOT_QUEUE: u32 = 0;

/// One connection: its object map, and the two sides of its socket.
///
/// The socket itself belongs to the caller, who moves bytes between it and the
/// buffers; the connection decides what goes out and what comes in.
pub struct Connection {
    map: ObjectMap,
    input: ReadBuffer,
    output: WriteBuffer,
    last_error: Option<ConnError>,
    closed: bool,
    next_queue: u64,
}

impl Connection {
    pub closed spec fn objects(&self) -> Map<u32, Object> {
        self.map@
    }

    pub closed spec fn incoming(&self) -> InView {
        self.input@
    }

    pub closed spec fn outgoing(&self) -> OutView {
        self.output@
    }

    pub closed spec fn is_closed(&self) -> bool {
        self.closed
    }

    pub closed spec fn recorded_error(&self) -> Option<ConnError> {
        self.last_error
    }

    pub closed spec fn role(&self) -> Role {
        self.map.role()
    }

    /// The queue numbers issued so far.
    pub closed spec fn issued_queues(&self) -> Set<u32> {
        Set::new(|q: u32| (q as u64) < self.next_queue)
    }

    /// The connection is well formed.
    pub closed spec fn wf(&self) -> bool {
        self.map.wf()
    }

    /// A new connection, with the queue of its root object: the root object,
    /// id 1, is bound to that queue, which has the number 0.
    pub fn new(role: Role, root_interface: u32) -> (r: (Connection, EventQueue))
        ensures
            r.0.wf(),
            r.0.role() == role,
            r.0.objects() == Map::<u32, Object>::empty().insert(
                1,
                Object { interface: root_interface, version: 1, queue: ROOT_QUEUE, alive: true },
            ),
            r.0.incoming().bytes.len() == 0 && r.0.incoming().fds.len() == 0,
            r.0.outgoing().bytes.len() == 0 && r.0.outgoing().fds.len() == 0,
            !r.0.is_closed(),
            r.0.recorded_error() is None,
            r.0.issued_queues() == Set::<u32>::empty().insert(ROOT_QUEUE),
            r.1.qid() == ROOT_QUEUE,
            r.1.pending() == Seq::<QueuedView>::empty(),
            r.1.log() == Seq::<QueuedView>::empty(),
    {
        let c = Connection::with_root(role, root_interface);
        let conn = Connection { next_queue: 1, ..c };
        assert(conn.issued_queues() =~= Set::<u32>::empty().insert(ROOT_QUEUE));
        (conn, EventQueue::new(ROOT_QUEUE))
    }

    fn with_root(role: Role, root_interface: u32) -> (r: Connection)
        ensures
            r.wf(),
            r.role() == role,
            r.objects() == Map::<u32, Object>::empty().insert(
                1,
                Object { interface: root_interface, version: 1, queue: ROOT_QUEUE, alive: true },
            ),
            r.incoming().bytes.len() == 0 && r.incoming().fds.len() == 0,
            r.outgoing().bytes.len() == 0 && r.outgoing().fds.len() == 0,
            !r.is_closed(),
            r.recorded_error() is None,
    {
        let mut map = ObjectMap::new(role);
        let root = Object { interface: root_interface, version: 1, queue: ROOT_QUEUE, alive: true };
        match role {
            Role::Client => {
                let ghost empty = map@;
                let r = map.allocate_local_id(root);
                proof {
                    assert(!empty.contains_key(1u32));
                    if r is Ok {
                        assert(r == Ok::<u32, crate::map::MapError>(1));
                    }
                }
            },
            Role::Server => {
                let _ = map.allocate_peer_id(1, root);
            },
        }
        Connection {
            map,
            input: ReadBuffer::new(),
            output: WriteBuffer::new(),
            last_error: None,
            closed: false,
            next_queue: 0,
        }
    }

    /// A new, empty event queue, with a number that no queue of this connection
    /// had before; `None` once every number has been issued.
    pub fn create_event_queue(&mut self) -> (r: Option<EventQueue>)
        ensures
            r matches Some(q) ==> !old(self).issued_queues().contains(q.qid())
                && final(self).issued_queues() == old(self).issued_queues().insert(q.qid())
                && q.pending() == Seq::<QueuedView>::empty() && q.log() == Seq::<QueuedView>::empty(),
            r is None ==> final(self).issued_queues() == old(self).issued_queues()
                && forall|q: u32| #[trigger] old(self).issued_queues().contains(q),
            final(self).wf() == old(self).wf(),
            final(self).role() == old(self).role(),
            final(self).objects() == old(self).objects(),
            final(self).incoming() == old(self).incoming(),
            final(self).outgoing() == old(self).outgoing(),
            final(self).is_closed() == old(self).is_closed(),
            final(self).recorded_error() == old(self).recorded_error(),
    {
        if self.next_queue > 0xFFFF_FFFFu64 {
            return None;
        }
        let id = self.next_queue as u32;
        self.next_queue = self.next_queue + 1;
        assert(self.issued_queues() =~= old(self).issued_queues().insert(id));
        Some(EventQueue::new(id))
    }
    /// The error that every operation returns while the connection is closed
    /// or holds a recorded error.
    fn check(&self) -> (r: Result<(), ConnError>)
        ensures
            r == (match poisoned(self.is_closed(), self.recorded_error()) {
                Some(e) => Err(e),
                None => Ok(()),
            }),
    {
        if self.closed {
            Err(ConnError::ConnectionClosed)
        } else {
            match self.last_error {
                Some(e) => Err(e),
                None => Ok(()),
            }
        }
    }

    /// Encodes a message from the live object `msg.sender_id` and queues it to be
    /// sent. A destructor marks the object dead once it is queued.
    pub fn send_message(&mut self, msg: &Message, sig: &[ArgumentType], destructor: bool) -> (r: Result<(), ConnError>)
        requires
            old(self).wf(),
        ensures
            final(self).wf(),
            final(self).role() == old(self).role(),
            final(self).issued_queues() == old(self).issued_queues(),
            final(self).incoming() == old(self).incoming(),
            final(self).is_closed() == old(self).is_closed(),
            final(self).recorded_error() == old(self).recorded_error(),
            poisoned(old(self).is_closed(), old(self).recorded_error()) matches Some(e) ==> r == Err::<(), ConnError>(e),
            poisoned(old(self).is_closed(), old(self).recorded_error()) is None ==> {
                if live(old(self).objects(), msg.sender_id) is None {
                    r == Err::<(), ConnError>(ConnError::InvalidObject)
                } else if !follows_signature(msg@.args, sig@) {
                    r == Err::<(), ConnError>(ConnError::SignatureMismatch)
                } else if message_size(msg@) > MAX_MESSAGE_SIZE {
                    r == Err::<(), ConnError>(ConnError::TooLarge)
                } else {
                    r is Ok
                }
            },
            r is Ok ==> final(self).outgoing().bytes == old(self).outgoing().bytes + message_bytes(msg@)
                && final(self).outgoing().fds == old(self).outgoing().fds + args_fds(msg@.args)
                && final(self).objects() == (if destructor {
                    old(self).objects().insert(
                        msg.sender_id,
                        Object { alive: false, ..old(self).objects()[msg.sender_id] },
                    )
                } else {
                    old(self).objects()
                }),
            r is Err ==> final(self).outgoing() == old(self).outgoing() && final(self).objects() == old(
                self,
            ).objects(),
    {
        self.check()?;
        if self.map.lookup(msg.sender_id).is_none() {
            return Err(ConnError::InvalidObject);
        }
        match encode(msg, sig) {
            Ok((bytes, fds)) => {
                self.output.queue_write(bytes.as_slice(), fds.as_slice());
                if destructor {
                    self.map.mark_dead(msg.sender_id);
                }
                Ok(())
            },
            Err(EncodeError::SignatureMismatch) => Err(ConnError::SignatureMismatch),
            Err(EncodeError::TooLarge) => Err(ConnError::TooLarge),
        }
    }

    /// Takes in what one read from the socket brought. An empty read means
    /// that the peer hung up: the connection closes.
    pub fn receive(&mut self, bytes: &[u8], fds: &[i32]) -> (r: Result<(), ConnError>)
        requires
            old(self).wf(),
        ensures
            final(self).wf(),
            final(self).role() == old(self).role(),
            final(self).issued_queues() == old(self).issued_queues(),
            final(self).objects() == old(self).objects(),
            final(self).outgoing() == old(self).outgoing(),
            final(self).recorded_error() == old(self).recorded_error(),
            old(self).is_closed() ==> r == Err::<(), ConnError>(ConnError::ConnectionClosed) && final(self).is_closed()
                && final(self).incoming() == old(self).incoming(),
            !old(self).is_closed() && bytes@.len() == 0 ==> r == Err::<(), ConnError>(ConnError::ConnectionClosed)
                && final(self).is_closed() && final(self).incoming() == old(self).incoming(),
            !old(self).is_closed() && bytes@.len() > 0 ==> r is Ok && !final(self).is_closed()
                && final(self).incoming().bytes == old(self).incoming().bytes + bytes@
                && final(self).incoming().fds == old(self).incoming().fds + fds@,
    {
        if self.closed {
            return Err(ConnError::ConnectionClosed);
        }
        if bytes.len() == 0 {
            self.closed = true;
            return Err(ConnError::ConnectionClosed);
        }
        self.input.receive(bytes, fds);
        Ok(())
    }

    /// The target id and opcode of the next message, once its header has come,
    /// so that the caller can find its signature.
    pub fn peek_header(&self) -> (r: Option<(u32, u16)>)
        ensures
            r == (if self.incoming().bytes.len() >= 8 {
                Some(
                    (
                        crate::wire::word_at(self.incoming().bytes, 0),
                        (crate::wire::word_at(self.incoming().bytes, 4) % 65536) as u16,
                    ),
                )
            } else {
                None
            }),
    {
        self.input.peek_header()
    }

    /// Reads the next message with the signature of its opcode and puts it on
    /// `queue`, flagged as a destructor or not. A malformed message closes the
    /// connection.
    pub fn read_message(&mut self, sig: &[ArgumentType], destructor: bool, queue: &mut EventQueue) -> (r: Result<(), ConnError>)
        requires
            old(self).wf(),
        ensures
            final(self).wf(),
            final(self).role() == old(self).role(),
            final(self).issued_queues() == old(self).issued_queues(),
            final(self).objects() == old(self).objects(),
            final(self).outgoing() == old(self).outgoing(),
            final(self).recorded_error() == old(self).recorded_error(),
            final(queue).qid() == old(queue).qid(),
            final(queue).log() == old(queue).log(),
            poisoned(old(self).is_closed(), old(self).recorded_error()) matches Some(e) ==> r == Err::<(), ConnError>(e)
                && final(self).incoming() == old(self).incoming() && final(self).is_closed() == old(self).is_closed()
                && final(queue).pending() == old(queue).pending(),
            poisoned(old(self).is_closed(), old(self).recorded_error()) is None ==> match parse_frame(
                old(self).incoming().bytes,
                old(self).incoming().fds,
                sig@,
            ) {
                FrameParse::Message(m, n, k) => r is Ok && !final(self).is_closed()
                    && final(self).incoming().bytes == old(self).incoming().bytes.skip(n as int)
                    && final(self).incoming().fds == old(self).incoming().fds.skip(k as int)
                    && final(queue).pending() == old(queue).pending().push(
                        crate::queue::QueuedView { target: m.sender_id, destructor, msg: m },
                    ),
                FrameParse::Incomplete => r == Err::<(), ConnError>(ConnError::Incomplete)
                    && !final(self).is_closed() && final(self).incoming() == old(self).incoming()
                    && final(queue).pending() == old(queue).pending(),
                FrameParse::Malformed => r == Err::<(), ConnError>(ConnError::MalformedMessage)
                    && final(self).is_closed() && final(self).incoming() == old(self).incoming()
                    && final(queue).pending() == old(queue).pending(),
            },
    {
        self.check()?;
        match self.input.pop_message(sig) {
            Ok(msg) => {
                let target = msg.sender_id;
                queue.enqueue(QueuedMessage { target, destructor, msg });
                Ok(())
            },
            Err(DecodeError::Incomplete) => Err(ConnError::Incomplete),
            Err(DecodeError::MalformedMessage) => {
                self.closed = true;
                Err(ConnError::MalformedMessage)
            },
        }
    }

    /// Records a protocol error that the peer reported; every later operation
    /// returns it.
    pub fn protocol_error(&mut self)
        ensures
            final(self).recorded_error() == Some(ConnError::Protocol),
            final(self).objects() == old(self).objects(),
            final(self).role() == old(self).role(),
            final(self).issued_queues() == old(self).issued_queues(),
            final(self).wf() == old(self).wf(),
            final(self).incoming() == old(self).incoming(),
            final(self).outgoing() == old(self).outgoing(),
            final(self).is_closed() == old(self).is_closed(),
    {
        self.last_error = Some(ConnError::Protocol);
    }

    /// The peer freed `id`: the dead object under it leaves the map. Returns
    /// whether there was one.
    pub fn delete_id(&mut self, id: u32) -> (r: bool)
        requires
            old(self).wf(),
        ensures
            final(self).wf(),
            final(self).role() == old(self).role(),
            final(self).issued_queues() == old(self).issued_queues(),
            r == (old(self).objects().contains_key(id) && !old(self).objects()[id].alive),
            final(self).objects() == (if r {
                old(self).objects().remove(id)
            } else {
                old(self).objects()
            }),
            final(self).incoming() == old(self).incoming(),
            final(self).outgoing() == old(self).outgoing(),
            final(self).is_closed() == old(self).is_closed(),
            final(self).recorded_error() == old(self).recorded_error(),
    {
        self.map.remove(id)
    }

    /// The bytes waiting to be sent.
    pub fn pending_bytes(&self) -> (r: &[u8])
        ensures
            r@ == self.outgoing().bytes,
    {
        self.output.pending_bytes()
    }

    /// The descriptors waiting to go with the next send.
    pub fn pending_fds(&self) -> (r: &[i32])
        ensures
            r@ == self.outgoing().fds,
    {
        self.output.pending_fds()
    }

    /// Records that a send took the first `n` bytes, and the pending descriptors
    /// where `sent_fds` holds. Fails, sending nothing, once the connection is closed.
    pub fn sent(&mut self, n: usize, sent_fds: bool) -> (r: Result<(), ConnError>)
        requires
            old(self).wf(),
            n <= old(self).outgoing().bytes.len(),
        ensures
            final(self).wf(),
            final(self).role() == old(self).role(),
            final(self).issued_queues() == old(self).issued_queues(),
            final(self).objects() == old(self).objects(),
            final(self).incoming() == old(self).incoming(),
            final(self).is_closed() == old(self).is_closed(),
            final(self).recorded_error() == old(self).recorded_error(),
            old(self).is_closed() ==> r == Err::<(), ConnError>(ConnError::ConnectionClosed)
                && final(self).outgoing() == old(self).outgoing(),
            !old(self).is_closed() ==> r is Ok && final(self).outgoing().bytes == old(self).outgoing().bytes.skip(n as int)
                && final(self).outgoing().fds == (if sent_fds {
                    Seq::<i32>::empty()
                } else {
                    old(self).outgoing().fds
                }),
    {
        if self.closed {
            return Err(ConnError::ConnectionClosed);
        }
        self.output.consume_sent(n, sent_fds);
        Ok(())
    }

    /// The transport failed: the connection closes, and every later operation fails.
    pub fn close(&mut self)
        ensures
            final(self).is_closed(),
            final(self).objects() == old(self).objects(),
            final(self).role() == old(self).role(),
            final(self).issued_queues() == old(self).issued_queues(),
            final(self).wf() == old(self).wf(),
            final(self).incoming() == old(self).incoming(),
            final(self).outgoing() == old(self).outgoing(),
            final(self).recorded_error() == old(self).recorded_error(),
    {
        self.closed = true;
    }

    /// Dispatches the messages waiting on `queue` against this connection's map.
    pub fn dispatch<H: crate::Implementation<u32, Message>>(&mut self, queue: &mut EventQueue, handler: &mut H) -> (r: usize)
        requires
            old(self).wf(),
        ensures
            final(self).wf(),
            final(self).role() == old(self).role(),
            final(self).issued_queues() == old(self).issued_queues(),
            final(queue).qid() == old(queue).qid(),
            final(queue).pending() == Seq::<crate::queue::QueuedView>::empty(),
            final(queue).log() == old(queue).log() + crate::queue::run_delivered(old(self).objects(), old(queue).pending(), old(queue).qid()),
            r == crate::queue::run_delivered(old(self).objects(), old(queue).pending(), old(queue).qid()).len(),
            crate::queue::received_views(final(handler).received()) == crate::queue::received_views(
                old(handler).received(),
            ) + crate::queue::deliveries(
                crate::queue::run_delivered(old(self).objects(), old(queue).pending(), old(queue).qid()),
            ),
            final(self).objects() == crate::queue::remove_dead(
                crate::queue::run_map(old(self).objects(), old(queue).pending(), old(queue).qid()),
                crate::queue::run_killed(old(self).objects(), old(queue).pending(), old(queue).qid()),
            ),
            final(self).incoming() == old(self).incoming(),
            final(self).outgoing() == old(self).outgoing(),
            final(self).is_closed() == old(self).is_closed(),
            final(self).recorded_error() == old(self).recorded_error(),
    {
        queue.dispatch_pending(&mut self.map, handler)
    }

    /// Registers `obj` under a fresh id of this endpoint's own range.
    pub fn allocate_local_id(&mut self, obj: Object) -> (r: Result<u32, crate::map::MapError>)
        requires
            old(self).wf(),
        ensures
            final(self).wf(),
            final(self).role() == old(self).role(),
            final(self).issued_queues() == old(self).issued_queues(),
            r matches Ok(id) ==> crate::map::allocates(old(self).objects(), old(self).role(), id)
                && final(self).objects() == old(self).objects().insert(id, obj),
            r is Err ==> r == Err::<u32, crate::map::MapError>(crate::map::MapError::IdsExhausted)
                && final(self).objects() == old(self).objects() && forall|j: u32|
                #![trigger old(self).objects().contains_key(j)]
                crate::map::in_local_range(old(self).role(), j) ==> old(self).objects().contains_key(j),
            final(self).incoming() == old(self).incoming(),
            final(self).outgoing() == old(self).outgoing(),
            final(self).is_closed() == old(self).is_closed(),
            final(self).recorded_error() == old(self).recorded_error(),
    {
        self.map.allocate_local_id(obj)
    }

    /// Registers `obj` under an id that the peer introduced.
    pub fn allocate_peer_id(&mut self, id: u32, obj: Object) -> (r: Result<(), crate::map::MapError>)
        requires
            old(self).wf(),
        ensures
            final(self).wf(),
            final(self).role() == old(self).role(),
            !crate::map::in_peer_range(old(self).role(), id) ==> r == Err::<(), crate::map::MapError>(
                crate::map::MapError::OutOfRange,
            ) && final(self).objects() == old(self).objects(),
            crate::map::in_peer_range(old(self).role(), id) && live(old(self).objects(), id) is Some
                ==> r == Err::<(), crate::map::MapError>(crate::map::MapError::IdInUse)
                && final(self).objects() == old(self).objects(),
            crate::map::in_peer_range(old(self).role(), id) && live(old(self).objects(), id) is None
                ==> r is Ok && final(self).objects() == old(self).objects().insert(id, obj),
            final(self).incoming() == old(self).incoming(),
            final(self).outgoing() == old(self).outgoing(),
            final(self).is_closed() == old(self).is_closed(),
            final(self).recorded_error() == old(self).recorded_error(),
            final(self).issued_queues() == old(self).issued_queues(),
    {
        self.map.allocate_peer_id(id, obj)
    }

    /// Rebinds the live object under `id` to queue `queue`, for the batches to
    /// come; returns whether there was such an object.
    pub fn set_queue(&mut self, id: u32, queue: u32) -> (r: bool)
        requires
            old(self).wf(),
        ensures
            final(self).wf(),
            final(self).role() == old(self).role(),
            r == live(old(self).objects(), id) is Some,
            final(self).objects() == (if r {
                old(self).objects().insert(id, Object { queue, ..old(self).objects()[id] })
            } else {
                old(self).objects()
            }),
            final(self).incoming() == old(self).incoming(),
            final(self).outgoing() == old(self).outgoing(),
            final(self).is_closed() == old(self).is_closed(),
            final(self).recorded_error() == old(self).recorded_error(),
            final(self).issued_queues() == old(self).issued_queues(),
    {
        self.map.set_queue(id, queue)
    }

    /// The live object under `id`.
    pub fn lookup(&self, id: u32) -> (r: Option<Object>)
        requires
            self.wf(),
        ensures
            r == live(self.objects(), id),
    {
        self.map.lookup(id)
    }

    /// Handles the events waiting on the root object's queue, in order, before
    /// any other queue is dispatched: they change the map itself.
    pub fn handle_root_events(&mut self, root: &mut EventQueue) -> (r: usize)
        requires
            old(self).wf(),
        ensures
            final(self).wf(),
            final(self).role() == old(self).role(),
            final(self).issued_queues() == old(self).issued_queues(),
            r == old(root).pending().len(),
            (final(self).objects(), final(self).recorded_error()) == root_events(
                old(self).objects(),
                old(self).recorded_error(),
                old(root).pending(),
            ),
            final(root).qid() == old(root).qid(),
            final(root).pending() == Seq::<QueuedView>::empty(),
            final(root).log() == old(root).log(),
            final(self).incoming() == old(self).incoming(),
            final(self).outgoing() == old(self).outgoing(),
            final(self).is_closed() == old(self).is_closed(),
    {
        let ghost q0 = root.pending();
        let mut batch = root.take_pending();
        let n = batch.len();
        let ghost mut i: int = 0;
        assert(q0.skip(0) =~= q0);
        while batch.len() > 0
            invariant
                self.wf(),
                self.role() == old(self).role(),
                self.input == old(self).input,
                self.output == old(self).output,
                self.closed == old(self).closed,
                self.next_queue == old(self).next_queue,
                n == q0.len(),
                0 <= i <= q0.len(),
                batch@.map_values(|e: QueuedMessage| e@) == q0.skip(i),
                root_events(old(self).objects(), old(self).recorded_error(), q0) == root_events(
                    self.objects(),
                    self.recorded_error(),
                    q0.skip(i),
                ),
            decreases batch.len(),
        {
            let ghost rest = q0.skip(i);
            let e = batch.remove(0);
            proof {
                assert(rest[0] == e@);
                assert(rest.drop_first() =~= q0.skip(i + 1));
                assert(batch@.map_values(|e: QueuedMessage| e@) =~= q0.skip(i + 1));
            }
            if e.msg.opcode == ERROR_EVENT {
                self.last_error = Some(ConnError::Protocol);
            } else if e.msg.opcode == DELETE_ID_EVENT && e.msg.args.len() >= 1 {
                match &e.msg.args[0] {
                    Argument::Uint(id) => {
                        self.map.remove(*id);
                    },
                    _ => {
                        assert(!(e@.msg.args[0] is Uint));
                    },
                }
            }
            proof {
                i = i + 1;
            }
        }
        assert(q0.skip(i) =~= Seq::<QueuedView>::empty());
        n
    }

    /// Handles the root object's events first, then dispatches `queue` against
    /// the map as they left it.
    pub fn dispatch_queue<H: crate::Implementation<u32, Message>>(
        &mut self,
        root: &mut EventQueue,
        queue: &mut EventQueue,
        handler: &mut H,
    ) -> (r: usize)
        requires
            old(self).wf(),
        ensures
            final(self).wf(),
            final(self).role() == old(self).role(),
            final(self).issued_queues() == old(self).issued_queues(),
            ({
                let (m1, err1) = root_events(
                    old(self).objects(),
                    old(self).recorded_error(),
                    old(root).pending(),
                );
                &&& final(self).recorded_error() == err1
                &&& r == crate::queue::run_delivered(m1, old(queue).pending(), old(queue).qid()).len()
                &&& crate::queue::received_views(final(handler).received())
                    == crate::queue::received_views(old(handler).received()) + crate::queue::deliveries(
                    crate::queue::run_delivered(m1, old(queue).pending(), old(queue).qid()),
                )
                &&& final(queue).log() == old(queue).log() + crate::queue::run_delivered(
                    m1,
                    old(queue).pending(),
                    old(queue).qid(),
                )
                &&& final(self).objects() == crate::queue::remove_dead(
                    crate::queue::run_map(m1, old(queue).pending(), old(queue).qid()),
                    crate::queue::run_killed(m1, old(queue).pending(), old(queue).qid()),
                )
            }),
            final(root).pending() == Seq::<QueuedView>::empty(),
            final(queue).pending() == Seq::<QueuedView>::empty(),
            final(root).qid() == old(root).qid(),
            final(queue).qid() == old(queue).qid(),
            final(self).incoming() == old(self).incoming(),
            final(self).outgoing() == old(self).outgoing(),
            final(self).is_closed() == old(self).is_closed(),
    {
        self.handle_root_events(root);
        self.dispatch(queue, handler)
    }
}


} // verus!
