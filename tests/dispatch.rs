use wayland_backend::connection::{ConnError, Connection, DELETE_ID_EVENT, ERROR_EVENT};
use wayland_backend::map::{MapError, Object, ObjectMap, Role};
use wayland_backend::queue::{EventQueue, QueuedMessage};
use wayland_backend::wire::{encode, Argument, ArgumentType, Message};
use wayland_backend::{AnonymousObject, Implementation, Interface, MessageGroup, MessageLog, NoMessage};

fn seen(log: &MessageLog<Message>) -> Vec<(u32, u32)> {
    log.entries
        .iter()
        .map(|(msg, meta)| {
            let n = match msg.args.first() {
                Some(Argument::Uint(n)) => *n,
                _ => 0,
            };
            (*meta, n)
        })
        .collect()
}

fn event(target: u32, n: u32, destructor: bool) -> QueuedMessage {
    QueuedMessage { target, destructor, msg: Message { sender_id: target, opcode: 0, args: vec![Argument::Uint(n)] } }
}

fn bound(queue: u32) -> Object {
    Object { interface: 1, version: 1, queue, alive: true }
}

#[test]
fn messages_keep_their_order_per_object() {
    let mut map = ObjectMap::new(Role::Client);
    let a = map.allocate_local_id(bound(0)).unwrap();
    let b = map.allocate_local_id(bound(0)).unwrap();
    let mut q = EventQueue::new(0);
    q.enqueue(event(a, 1, false));
    q.enqueue(event(b, 2, false));
    q.enqueue(event(a, 3, false));
    let mut h = MessageLog::new();
    assert_eq!(q.dispatch_pending(&mut map, &mut h), 3);
    q.enqueue(event(a, 4, false));
    assert_eq!(q.dispatch_pending(&mut map, &mut h), 1);
    assert_eq!(seen(&h), vec![(a, 1), (b, 2), (a, 3), (a, 4)]);
    assert_eq!(q.len(), 0);
}

#[test]
fn destructor_is_final() {
    let mut map = ObjectMap::new(Role::Client);
    let a = map.allocate_local_id(bound(0)).unwrap();
    let mut q = EventQueue::new(0);
    q.enqueue(event(a, 1, true));
    q.enqueue(event(a, 2, false));
    let mut h = MessageLog::new();
    assert_eq!(q.dispatch_pending(&mut map, &mut h), 1);
    assert_eq!(seen(&h), vec![(a, 1)]);
    assert_eq!(map.lookup(a), None);
    assert_eq!(map.find(a), None);
}

#[test]
fn messages_for_other_queues_are_dropped() {
    let mut map = ObjectMap::new(Role::Client);
    let a = map.allocate_local_id(bound(1)).unwrap();
    let mut q = EventQueue::new(0);
    q.enqueue(event(a, 1, false));
    q.enqueue(event(42, 2, false));
    let mut h = MessageLog::new();
    assert_eq!(q.dispatch_pending(&mut map, &mut h), 0);
    assert!(seen(&h).is_empty());
}

#[test]
fn send_after_destructor_is_invalid_object() {
    let (mut conn, _) = Connection::new(Role::Client, 0);
    let id = conn.allocate_local_id(bound(0)).unwrap();
    assert_eq!(id, 2);
    let sig = [ArgumentType::Uint];
    let msg = Message { sender_id: id, opcode: 0, args: vec![Argument::Uint(1)] };
    assert_eq!(conn.send_message(&msg, &sig, false), Ok(()));
    let expected = encode(&msg, &sig).unwrap().0;
    assert_eq!(conn.pending_bytes(), &expected[..]);

    let mut q = EventQueue::new(0);
    let mut peer_side = Vec::new();
    peer_side.extend(encode(&Message { sender_id: id, opcode: 1, args: vec![Argument::Uint(5)] }, &sig).unwrap().0);
    assert_eq!(conn.receive(&peer_side, &[]), Ok(()));
    assert_eq!(conn.peek_header(), Some((id, 1)));
    assert_eq!(conn.read_message(&sig, true, &mut q), Ok(()));
    assert_eq!(conn.read_message(&sig, false, &mut q), Err(ConnError::Incomplete));
    let mut h = MessageLog::new();
    assert_eq!(conn.dispatch(&mut q, &mut h), 1);
    assert_eq!(seen(&h), vec![(id, 5)]);
    assert_eq!(conn.lookup(id), None);
    assert_eq!(conn.send_message(&msg, &sig, false), Err(ConnError::InvalidObject));
}

#[test]
fn destructor_request_waits_for_delete_id() {
    let (mut conn, _) = Connection::new(Role::Client, 0);
    let id = conn.allocate_local_id(bound(0)).unwrap();
    let msg = Message { sender_id: id, opcode: 0, args: vec![] };
    assert_eq!(conn.send_message(&msg, &[], true), Ok(()));
    assert_eq!(conn.send_message(&msg, &[], false), Err(ConnError::InvalidObject));
    assert_eq!(conn.allocate_local_id(bound(0)), Ok(3));
    assert!(conn.delete_id(id));
    assert!(!conn.delete_id(id));
    assert_eq!(conn.allocate_local_id(bound(0)), Ok(id));
}

#[test]
fn connection_errors() {
    let (mut conn, _) = Connection::new(Role::Client, 0);
    let sig = [ArgumentType::Uint];
    let root = Message { sender_id: 1, opcode: 0, args: vec![Argument::Uint(1)] };
    assert_eq!(conn.send_message(&root, &[], false), Err(ConnError::SignatureMismatch));
    let big = Message { sender_id: 1, opcode: 0, args: vec![Argument::Array(vec![0; 70000])] };
    assert_eq!(conn.send_message(&big, &[ArgumentType::Array], false), Err(ConnError::TooLarge));
    let unknown = Message { sender_id: 77, opcode: 0, args: vec![Argument::Uint(1)] };
    assert_eq!(conn.send_message(&unknown, &sig, false), Err(ConnError::InvalidObject));
    assert_eq!(conn.send_message(&root, &sig, false), Ok(()));
    assert_eq!(conn.sent(4, true), Ok(()));
    assert_eq!(conn.pending_bytes().len(), 8);

    conn.protocol_error();
    assert_eq!(conn.send_message(&root, &sig, false), Err(ConnError::Protocol));
}

#[test]
fn malformed_input_closes_the_connection() {
    let (mut conn, _) = Connection::new(Role::Client, 0);
    let mut q = EventQueue::new(0);
    assert_eq!(conn.receive(&[1, 0, 0, 0, 0, 0, 6, 0], &[]), Ok(()));
    assert_eq!(conn.read_message(&[], false, &mut q), Err(ConnError::MalformedMessage));
    assert_eq!(conn.read_message(&[], false, &mut q), Err(ConnError::ConnectionClosed));
    assert_eq!(conn.receive(&[1], &[]), Err(ConnError::ConnectionClosed));
}

#[test]
fn peer_hangup_closes_the_connection() {
    let (mut conn, _) = Connection::new(Role::Server, 1);
    assert_eq!(conn.lookup(1), Some(bound(0)));
    assert_eq!(conn.receive(&[], &[]), Err(ConnError::ConnectionClosed));
    let msg = Message { sender_id: 1, opcode: 0, args: vec![] };
    assert_eq!(conn.send_message(&msg, &[], false), Err(ConnError::ConnectionClosed));
    assert_eq!(conn.sent(0, false), Err(ConnError::ConnectionClosed));
}

#[test]
fn anonymous_object_has_no_name() {
    assert_eq!(<AnonymousObject as Interface>::name(), "");
    fn takes_group<G: MessageGroup>(_: Option<G>) {}
    takes_group::<NoMessage>(None);
}

#[test]
fn root_events_free_ids_and_record_errors() {
    let (mut conn, _) = Connection::new(Role::Client, 0);
    let id = conn.allocate_local_id(bound(0)).unwrap();
    let other = conn.allocate_local_id(bound(0)).unwrap();
    assert_eq!(conn.send_message(&Message { sender_id: id, opcode: 0, args: vec![] }, &[], true), Ok(()));

    let mut root = EventQueue::new(0);
    let delete = |freed: u32| QueuedMessage {
        target: 1,
        destructor: false,
        msg: Message { sender_id: 1, opcode: DELETE_ID_EVENT, args: vec![Argument::Uint(freed)] },
    };
    root.enqueue(delete(id));
    root.enqueue(delete(other));
    assert_eq!(conn.handle_root_events(&mut root), 2);
    assert_eq!(root.len(), 0);
    // The dead object is gone; the live one stays.
    assert_eq!(conn.allocate_local_id(bound(0)), Ok(id));
    assert_eq!(conn.lookup(other), Some(bound(0)));

    root.enqueue(QueuedMessage {
        target: 1,
        destructor: false,
        msg: Message {
            sender_id: 1,
            opcode: ERROR_EVENT,
            args: vec![Argument::Object(other), Argument::Uint(3), Argument::Str(b"bad".to_vec())],
        },
    });
    assert_eq!(conn.handle_root_events(&mut root), 1);
    let msg = Message { sender_id: other, opcode: 0, args: vec![] };
    assert_eq!(conn.send_message(&msg, &[], false), Err(ConnError::Protocol));
}

#[test]
fn root_queue_goes_first() {
    let (mut conn, _) = Connection::new(Role::Client, 0);
    let a = conn.allocate_local_id(bound(5)).unwrap();
    let mut root = EventQueue::new(0);
    let mut q = EventQueue::new(5);
    root.enqueue(QueuedMessage {
        target: 1,
        destructor: false,
        msg: Message { sender_id: 1, opcode: ERROR_EVENT, args: vec![] },
    });
    q.enqueue(event(a, 9, false));
    let mut h = MessageLog::new();
    assert_eq!(conn.dispatch_queue(&mut root, &mut q, &mut h), 1);
    assert_eq!(seen(&h), vec![(a, 9)]);
    assert_eq!(root.len(), 0);
    let msg = Message { sender_id: a, opcode: 0, args: vec![] };
    assert_eq!(conn.send_message(&msg, &[], false), Err(ConnError::Protocol));
}

#[test]
fn handler_log_receives_in_order() {
    let mut h: MessageLog<u32> = MessageLog::new();
    h.receive(4, 1);
    h.receive(5, 2);
    assert_eq!(h.entries, vec![(4, 1), (5, 2)]);
}

#[test]
fn ids_after_the_root_object() {
    let (mut conn, root) = Connection::new(Role::Client, 1);
    assert_eq!(root.id(), 0);
    assert_eq!(conn.lookup(1), Some(bound(0)));
    assert_eq!(conn.allocate_local_id(bound(0)), Ok(2));
    assert_eq!(conn.allocate_local_id(bound(0)), Ok(3));
}

#[test]
fn created_queues_get_fresh_numbers() {
    let (mut conn, root) = Connection::new(Role::Client, 0);
    let a = conn.create_event_queue().unwrap();
    let b = conn.create_event_queue().unwrap();
    assert_ne!(a.id(), root.id());
    assert_ne!(b.id(), root.id());
    assert_ne!(a.id(), b.id());
    assert_eq!(a.len(), 0);
}

#[test]
fn peer_objects_and_rebinding_through_the_connection() {
    let (mut conn, _) = Connection::new(Role::Client, 0);
    assert_eq!(conn.allocate_peer_id(0xff00_0001, bound(0)), Ok(()));
    assert_eq!(conn.allocate_peer_id(0xff00_0001, bound(0)), Err(MapError::IdInUse));
    assert_eq!(conn.allocate_peer_id(5, bound(0)), Err(MapError::OutOfRange));
    let q = conn.create_event_queue().unwrap();
    assert!(conn.set_queue(0xff00_0001, q.id()));
    assert_eq!(conn.lookup(0xff00_0001).unwrap().queue, q.id());
    assert!(!conn.set_queue(0xff00_0002, q.id()));
}
