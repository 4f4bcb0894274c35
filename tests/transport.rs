use wayland_backend::buffer::{ReadBuffer, WriteBuffer};
use wayland_backend::wire::{encode, Argument, ArgumentType, DecodeError, Message};

fn sample() -> (Message, Vec<ArgumentType>) {
    let msg = Message {
        sender_id: 3,
        opcode: 4,
        args: vec![Argument::Str(b"hello".to_vec()), Argument::Array(vec![1, 2, 3]), Argument::Fd(8)],
    };
    (msg, vec![ArgumentType::Str, ArgumentType::Array, ArgumentType::Fd])
}

#[test]
fn message_split_in_chunks_reassembles() {
    let (msg, sig) = sample();
    let (bytes, fds) = encode(&msg, &sig).unwrap();
    for cut1 in 1..bytes.len() {
        for cut2 in cut1..bytes.len() {
            let mut buf = ReadBuffer::new();
            buf.receive(&bytes[..cut1], &fds);
            assert_eq!(buf.pop_message(&sig).unwrap_err(), DecodeError::Incomplete);
            buf.receive(&bytes[cut1..cut2], &[]);
            if cut2 < bytes.len() {
                assert_eq!(buf.pop_message(&sig).unwrap_err(), DecodeError::Incomplete);
            }
            buf.receive(&bytes[cut2..], &[]);
            assert_eq!(buf.pop_message(&sig).unwrap(), msg);
            assert_eq!(buf.len(), 0);
        }
    }
}

#[test]
fn two_messages_in_one_read() {
    let sig = [ArgumentType::Uint];
    let a = Message { sender_id: 1, opcode: 0, args: vec![Argument::Uint(1)] };
    let b = Message { sender_id: 2, opcode: 1, args: vec![Argument::Uint(2)] };
    let mut all = encode(&a, &sig).unwrap().0;
    all.extend(encode(&b, &sig).unwrap().0);
    let mut buf = ReadBuffer::new();
    buf.receive(&all[..14], &[]);
    assert_eq!(buf.peek_header(), Some((1, 0)));
    assert_eq!(buf.pop_message(&sig).unwrap(), a);
    assert_eq!(buf.len(), 2);
    assert_eq!(buf.peek_header(), None);
    buf.receive(&all[14..], &[]);
    assert_eq!(buf.peek_header(), Some((2, 1)));
    assert_eq!(buf.pop_message(&sig).unwrap(), b);
    assert_eq!(buf.pop_message(&sig).unwrap_err(), DecodeError::Incomplete);
}

#[test]
fn malformed_leaves_buffer_untouched() {
    let mut buf = ReadBuffer::new();
    buf.receive(&[1, 0, 0, 0, 0, 0, 6, 0], &[]);
    assert_eq!(buf.pop_message(&[]).unwrap_err(), DecodeError::MalformedMessage);
    assert_eq!(buf.len(), 8);
}

#[test]
fn partial_send_keeps_the_rest() {
    let mut out = WriteBuffer::new();
    out.queue_write(&[1, 2, 3, 4], &[7]);
    out.queue_write(&[5, 6, 7, 8], &[9]);
    assert_eq!(out.pending_bytes(), &[1, 2, 3, 4, 5, 6, 7, 8]);
    assert_eq!(out.pending_fds(), &[7, 9]);
    out.consume_sent(3, true);
    assert_eq!(out.pending_bytes(), &[4, 5, 6, 7, 8]);
    assert!(out.pending_fds().is_empty());
    out.consume_sent(5, false);
    assert!(out.pending_bytes().is_empty());
}
