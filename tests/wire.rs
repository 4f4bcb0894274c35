use wayland_backend::wire::{decode, encode, Argument, ArgumentType, DecodeError, EncodeError, Message};

fn hello_message() -> Message {
    Message { sender_id: 5, opcode: 2, args: vec![Argument::Str(b"hello".to_vec()), Argument::Uint(42)] }
}

#[test]
fn string_and_uint_frame() {
    let sig = [ArgumentType::Str, ArgumentType::Uint];
    let (bytes, fds) = encode(&hello_message(), &sig).unwrap();
    // header, string length word, "hello" with its NUL padded to eight, the word 42
    assert_eq!(bytes.len(), 8 + 4 + 8 + 4);
    assert!(fds.is_empty());
    assert_eq!(
        bytes,
        vec![5, 0, 0, 0, 2, 0, 24, 0, 6, 0, 0, 0, b'h', b'e', b'l', b'l', b'o', 0, 0, 0, 42, 0, 0, 0]
    );
    let (msg, used, used_fds) = decode(&bytes, &[], &sig).unwrap();
    assert_eq!(used, 24);
    assert_eq!(used_fds, 0);
    assert_eq!(msg.args, vec![Argument::Str(b"hello".to_vec()), Argument::Uint(42)]);
    assert_eq!(msg, hello_message());
}

#[test]
fn every_argument_type_round_trips() {
    let sig = [
        ArgumentType::Int,
        ArgumentType::Uint,
        ArgumentType::Fixed,
        ArgumentType::Str,
        ArgumentType::Array,
        ArgumentType::Object,
        ArgumentType::NewId,
        ArgumentType::UntypedNewId,
        ArgumentType::Fd,
        ArgumentType::Fd,
    ];
    let msg = Message {
        sender_id: 0xff00_0003,
        opcode: 7,
        args: vec![
            Argument::Int(-5),
            Argument::Uint(0xdead_beef),
            Argument::Fixed(-256),
            Argument::Str(b"wl_surface".to_vec()),
            Argument::Array(vec![1, 2, 3, 4, 5]),
            Argument::Object(0),
            Argument::NewId(9),
            Argument::UntypedNewId(b"wl_seat".to_vec(), 7, 0xff00_0010),
            Argument::Fd(11),
            Argument::Fd(12),
        ],
    };
    let (bytes, fds) = encode(&msg, &sig).unwrap();
    assert_eq!(fds, vec![11, 12]);
    assert_eq!(bytes.len() % 4, 0);
    let (back, used, used_fds) = decode(&bytes, &fds, &sig).unwrap();
    assert_eq!(back, msg);
    assert_eq!(used, bytes.len());
    assert_eq!(used_fds, 2);
}

#[test]
fn negative_int_is_twos_complement() {
    let sig = [ArgumentType::Int];
    let msg = Message { sender_id: 1, opcode: 0, args: vec![Argument::Int(-1)] };
    let (bytes, _) = encode(&msg, &sig).unwrap();
    assert_eq!(&bytes[8..], &[0xff, 0xff, 0xff, 0xff]);
}

#[test]
fn empty_string_and_array_padding() {
    let sig = [ArgumentType::Str, ArgumentType::Array];
    let msg = Message { sender_id: 1, opcode: 1, args: vec![Argument::Str(vec![]), Argument::Array(vec![])] };
    let (bytes, _) = encode(&msg, &sig).unwrap();
    // string: length 1, NUL, three bytes of padding; array: length 0.
    assert_eq!(&bytes[8..], &[1, 0, 0, 0, 0, 0, 0, 0, 0, 0, 0, 0]);
    let (back, _, _) = decode(&bytes, &[], &sig).unwrap();
    assert_eq!(back, msg);
}

#[test]
fn signature_mismatch_is_refused() {
    let sig = [ArgumentType::Uint, ArgumentType::Uint];
    assert_eq!(encode(&hello_message(), &sig), Err(EncodeError::SignatureMismatch));
    assert_eq!(encode(&hello_message(), &[ArgumentType::Str]), Err(EncodeError::SignatureMismatch));
}

#[test]
fn oversized_message_is_refused() {
    let sig = [ArgumentType::Array];
    let msg = Message { sender_id: 1, opcode: 0, args: vec![Argument::Array(vec![0; 65530])] };
    assert_eq!(encode(&msg, &sig), Err(EncodeError::TooLarge));
    let fits = Message { sender_id: 1, opcode: 0, args: vec![Argument::Array(vec![0; 65520])] };
    assert_eq!(encode(&fits, &sig).unwrap().0.len(), 65532);
}

#[test]
fn short_input_is_incomplete() {
    let sig = [ArgumentType::Str, ArgumentType::Uint];
    let (bytes, _) = encode(&hello_message(), &sig).unwrap();
    for n in 0..bytes.len() {
        assert_eq!(decode(&bytes[..n], &[], &sig).unwrap_err(), DecodeError::Incomplete);
    }
}

#[test]
fn missing_descriptor_is_incomplete() {
    let sig = [ArgumentType::Fd];
    let msg = Message { sender_id: 1, opcode: 0, args: vec![Argument::Fd(3)] };
    let (bytes, fds) = encode(&msg, &sig).unwrap();
    assert_eq!(bytes.len(), 8);
    assert_eq!(decode(&bytes, &[], &sig).unwrap_err(), DecodeError::Incomplete);
    assert_eq!(decode(&bytes, &fds, &sig).unwrap().0, msg);
}

#[test]
fn missing_terminator_is_malformed() {
    let sig = [ArgumentType::Str, ArgumentType::Uint];
    let (mut bytes, _) = encode(&hello_message(), &sig).unwrap();
    bytes[17] = b'!';
    assert_eq!(decode(&bytes, &[], &sig).unwrap_err(), DecodeError::MalformedMessage);
}

#[test]
fn nonzero_padding_is_malformed() {
    let sig = [ArgumentType::Str, ArgumentType::Uint];
    let (mut bytes, _) = encode(&hello_message(), &sig).unwrap();
    bytes[19] = 1;
    assert_eq!(decode(&bytes, &[], &sig).unwrap_err(), DecodeError::MalformedMessage);
}

#[test]
fn overlong_length_is_malformed() {
    let sig = [ArgumentType::Array];
    // Header says 12 bytes; the array claims 100.
    let bytes = vec![1, 0, 0, 0, 0, 0, 12, 0, 100, 0, 0, 0];
    assert_eq!(decode(&bytes, &[], &sig).unwrap_err(), DecodeError::MalformedMessage);
}

#[test]
fn bad_header_size_is_malformed() {
    let bytes = vec![1, 0, 0, 0, 0, 0, 6, 0];
    assert_eq!(decode(&bytes, &[], &[]).unwrap_err(), DecodeError::MalformedMessage);
    let bytes = vec![1, 0, 0, 0, 0, 0, 10, 0, 0, 0, 0, 0];
    assert_eq!(decode(&bytes, &[], &[]).unwrap_err(), DecodeError::MalformedMessage);
}

#[test]
fn trailing_bytes_are_left_alone() {
    let sig = [ArgumentType::Uint];
    let msg = Message { sender_id: 3, opcode: 1, args: vec![Argument::Uint(7)] };
    let (mut bytes, _) = encode(&msg, &sig).unwrap();
    bytes.extend_from_slice(&[9, 9, 9]);
    let (back, used, _) = decode(&bytes, &[], &sig).unwrap();
    assert_eq!(back, msg);
    assert_eq!(used, 12);
}

#[test]
fn extra_bytes_inside_frame_are_malformed() {
    let sig = [ArgumentType::Uint];
    let bytes = vec![1, 0, 0, 0, 0, 0, 16, 0, 7, 0, 0, 0, 0, 0, 0, 0];
    assert_eq!(decode(&bytes, &[], &sig).unwrap_err(), DecodeError::MalformedMessage);
}

#[test]
fn untyped_new_id_inlines_interface_and_version() {
    let sig = [ArgumentType::UntypedNewId];
    let msg = Message { sender_id: 2, opcode: 0, args: vec![Argument::UntypedNewId(b"ab".to_vec(), 3, 4)] };
    let (bytes, _) = encode(&msg, &sig).unwrap();
    assert_eq!(&bytes[8..], &[3, 0, 0, 0, b'a', b'b', 0, 0, 3, 0, 0, 0, 4, 0, 0, 0]);
    assert_eq!(decode(&bytes, &[], &sig).unwrap().0, msg);
    // Cut off the id: the frame says 20 bytes but the arguments end early.
    let mut short = bytes.clone();
    short.truncate(20);
    short[6] = 20;
    assert_eq!(decode(&short, &[], &sig).unwrap_err(), DecodeError::MalformedMessage);
}
