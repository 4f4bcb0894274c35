use vstd::prelude::*;
use vstd::arithmetic::div_mod::{lemma_div_denominator, lemma_fundamental_div_mod};

verus! {

/// The largest size, in bytes, that the header's size field can carry.
pub const MAX_MESSAGE_SIZE: usize = 65535;

/// The size of a message header: the target id and the packed opcode/size word.
pub const HEADER_SIZE: usize = 8;

/// The declared type of one argument of a message.
#[derive(Clone, Copy, PartialEq, Eq, Structural, Debug)]
pub enum ArgumentType {
    Int,
    Uint,
    Fixed,
    Str,
    Array,
    Object,
    NewId,
    UntypedNewId,
    Fd,
}

/// One argument of a message, as the application sees it.
///
/// A `Str` holds the string's bytes without the terminating NUL. An
/// `UntypedNewId` creates an object whose interface the signature leaves open:
/// it carries the interface's name, its version and the new id.
/// An `Fd` travels out of band and never appears in the byte stream.
#[derive(Clone, Debug, PartialEq, Eq)]
pub enum Argument {
    Int(i32),
    Uint(u32),
    Fixed(i32),
    Str(Vec<u8>),
    Array(Vec<u8>),
    Object(u32),
    NewId(u32),
    UntypedNewId(Vec<u8>, u32, u32),
    Fd(i32),
}

/// The mathematical value of an argument.
pub enum ArgValue {
    Int(i32),
    Uint(u32),
    Fixed(i32),
    Str(Seq<u8>),
    Array(Seq<u8>),
    Object(u32),
    NewId(u32),
    UntypedNewId(Seq<u8>, u32, u32),
    Fd(i32),
}

impl View for Argument {
    type V = ArgValue;

    open spec fn view(&self) -> ArgValue {
        match self {
            Argument::Int(v) => ArgValue::Int(*v),
            Argument::Uint(v) => ArgValue::Uint(*v),
            Argument::Fixed(v) => ArgValue::Fixed(*v),
            Argument::Str(s) => ArgValue::Str(s@),
            Argument::Array(s) => ArgValue::Array(s@),
            Argument::Object(v) => ArgValue::Object(*v),
            Argument::NewId(v) => ArgValue::NewId(*v),
            Argument::UntypedNewId(s, v, id) => ArgValue::UntypedNewId(s@, *v, *id),
            Argument::Fd(v) => ArgValue::Fd(*v),
        }
    }
}

/// A message: its target (or sender) object, its opcode and its arguments.
#[derive(Clone, Debug, PartialEq, Eq)]
pub struct Message {
    pub sender_id: u32,
    pub opcode: u16,
    pub args: Vec<Argument>,
}

/// The mathematical value of a message.
pub struct MessageView {
    pub sender_id: u32,
    pub opcode: u16,
    pub args: Seq<ArgValue>,
}

impl View for Message {
    type V = MessageView;

    open spec fn view(&self) -> MessageView {
        MessageView {
            sender_id: self.sender_id,
            opcode: self.opcode,
            args: self.args@.map_values(|a: Argument| a@),
        }
    }
}

/// Why a message could not be encoded.
#[derive(Clone, Copy, PartialEq, Eq, Structural, Debug)]
pub enum EncodeError {
    /// The arguments do not follow the signature.
    SignatureMismatch,
    /// The encoded message would not fit the header's size field.
    TooLarge,
}

/// Why a message could not be decoded yet, or at all.
#[derive(Clone, Copy, PartialEq, Eq, Structural, Debug)]
pub enum DecodeError {
    /// More bytes, or more file descriptors, are needed: not an error.
    Incomplete,
    /// The bytes cannot be a message of this signature: fatal.
    MalformedMessage,
}

// ---------------------------------------------------------------------------
// Serialization, as mathematics
// ---------------------------------------------------------------------------

/// The four little-endian bytes of a word.
pub open spec fn word(x: u32) -> Seq<u8> {
    seq![
        (x % 256) as u8,
        ((x / 256) % 256) as u8,
        ((x / 65536) % 256) as u8,
        (x / 16777216) as u8,
    ]
}

/// The word that four little-endian bytes starting at `i` hold.
pub open spec fn word_at(s: Seq<u8>, i: int) -> u32 {
    (s[i] + 256 * s[i + 1] + 65536 * s[i + 2] + 16777216 * s[i + 3]) as u32
}

/// The number of zero bytes that pad `n` bytes to a multiple of four.
pub open spec fn pad_len(n: nat) -> nat {
    ((4 - (n % 4)) % 4) as nat
}

pub open spec fn zeros(n: nat) -> Seq<u8> {
    Seq::new(n, |i: int| 0u8)
}

/// The bytes of a string on the wire: its length with the NUL, its bytes, the NUL
/// and the padding.
pub open spec fn str_bytes(s: Seq<u8>) -> Seq<u8> {
    word((s.len() + 1) as u32) + s + seq![0u8] + zeros(pad_len(s.len() + 1))
}

/// The bytes of one argument on the wire.
pub open spec fn arg_bytes(a: ArgValue) -> Seq<u8> {
    match a {
        ArgValue::Int(v) => word(v as u32),
        ArgValue::Uint(v) => word(v),
        ArgValue::Fixed(v) => word(v as u32),
        ArgValue::Str(s) => str_bytes(s),
        ArgValue::Array(s) => word(s.len() as u32) + s + zeros(pad_len(s.len())),
        ArgValue::Object(v) => word(v),
        ArgValue::NewId(v) => word(v),
        ArgValue::UntypedNewId(s, v, id) => str_bytes(s) + word(v) + word(id),
        ArgValue::Fd(_) => seq![],
    }
}

/// The file descriptors that one argument carries.
pub open spec fn arg_fds(a: ArgValue) -> Seq<i32> {
    match a {
        ArgValue::Fd(fd) => seq![fd],
        _ => seq![],
    }
}

/// The bytes of a sequence of arguments, back to back.
pub open spec fn args_bytes(args: Seq<ArgValue>) -> Seq<u8>
    decreases args.len(),
{
    if args.len() == 0 {
        seq![]
    } else {
        args_bytes(args.drop_last()) + arg_bytes(args.last())
    }
}

/// The file descriptors that a sequence of arguments carries, in order.
pub open spec fn args_fds(args: Seq<ArgValue>) -> Seq<i32>
    decreases args.len(),
{
    if args.len() == 0 {
        seq![]
    } else {
        args_fds(args.drop_last()) + arg_fds(args.last())
    }
}

/// The total size of an encoded message, header included.
pub open spec fn message_size(m: MessageView) -> nat {
    8 + args_bytes(m.args).len()
}

/// The bytes of a whole message: header, then arguments.
pub open spec fn message_bytes(m: MessageView) -> Seq<u8> {
    word(m.sender_id) + word((message_size(m) * 65536 + m.opcode) as u32) + args_bytes(m.args)
}

/// Whether an argument value is of the given type.
pub open spec fn arg_has_type(a: ArgValue, t: ArgumentType) -> bool {
    match (a, t) {
        (ArgValue::Int(_), ArgumentType::Int) => true,
        (ArgValue::Uint(_), ArgumentType::Uint) => true,
        (ArgValue::Fixed(_), ArgumentType::Fixed) => true,
        (ArgValue::Str(_), ArgumentType::Str) => true,
        (ArgValue::Array(_), ArgumentType::Array) => true,
        (ArgValue::Object(_), ArgumentType::Object) => true,
        (ArgValue::NewId(_), ArgumentType::NewId) => true,
        (ArgValue::UntypedNewId(_, _, _), ArgumentType::UntypedNewId) => true,
        (ArgValue::Fd(_), ArgumentType::Fd) => true,
        _ => false,
    }
}

/// Whether the arguments follow the signature, one for one.
pub open spec fn follows_signature(args: Seq<ArgValue>, sig: Seq<ArgumentType>) -> bool {
    &&& args.len() == sig.len()
    &&& forall|i: int| 0 <= i < args.len() ==> arg_has_type(#[trigger] args[i], sig[i])
}

/// Whether a message can be encoded with the given signature.
pub open spec fn encodable(m: MessageView, sig: Seq<ArgumentType>) -> bool {
    follows_signature(m.args, sig) && message_size(m) <= MAX_MESSAGE_SIZE
}

// ---------------------------------------------------------------------------
// Parsing, as mathematics
// ---------------------------------------------------------------------------

/// The outcome of reading one argument, or a run of them.
pub enum ArgsParse {
    /// The values read, the bytes consumed and the descriptors consumed.
    Parsed(Seq<ArgValue>, nat, nat),
    /// A file descriptor that the signature asks for has not arrived.
    NeedFd,
    /// The bytes cannot hold an argument of this type.
    Bad,
}

/// Whether the `n` bytes of `data` from `i` are all zero.
pub open spec fn all_zero(data: Seq<u8>, i: int, n: nat) -> bool {
    forall|j: int| i <= j < i + n ==> data[j] == 0
}

/// Reads a string at the front of `data`: its bytes and the bytes it took.
pub open spec fn parse_str(data: Seq<u8>) -> Option<(Seq<u8>, nat)> {
    if data.len() < 4 {
        None
    } else {
        let n = word_at(data, 0) as int;
        let total = 4 + n + pad_len(n as nat);
        if n == 0 || data.len() < total || data[4 + n - 1] != 0 || !all_zero(
            data,
            4 + n,
            pad_len(n as nat),
        ) {
            None
        } else {
            Some((data.subrange(4, 4 + n - 1), total as nat))
        }
    }
}

/// Reads an untyped new id at the front of `data`: the interface's name, its
/// version and the id.
pub open spec fn parse_untyped(data: Seq<u8>) -> ArgsParse {
    match parse_str(data) {
        Some((v, t)) => if data.len() < t + 8 {
            ArgsParse::Bad
        } else {
            ArgsParse::Parsed(
                seq![ArgValue::UntypedNewId(v, word_at(data, t as int), word_at(data, t as int + 4))],
                t + 8,
                0,
            )
        },
        None => ArgsParse::Bad,
    }
}

/// Reads a byte array at the front of `data`.
pub open spec fn parse_array(data: Seq<u8>) -> ArgsParse {
    if data.len() < 4 {
        ArgsParse::Bad
    } else {
        let n = word_at(data, 0) as int;
        let total = 4 + n + pad_len(n as nat);
        if data.len() < total || !all_zero(data, 4 + n, pad_len(n as nat)) {
            ArgsParse::Bad
        } else {
            ArgsParse::Parsed(seq![ArgValue::Array(data.subrange(4, 4 + n))], total as nat, 0)
        }
    }
}

/// Reads a one-word argument of type `t` at the front of `data`.
pub open spec fn parse_word_arg(t: ArgumentType, data: Seq<u8>) -> ArgsParse {
    if data.len() < 4 {
        ArgsParse::Bad
    } else {
        let w = word_at(data, 0);
        let v = match t {
            ArgumentType::Int => ArgValue::Int(w as i32),
            ArgumentType::Fixed => ArgValue::Fixed(w as i32),
            ArgumentType::Object => ArgValue::Object(w),
            ArgumentType::NewId => ArgValue::NewId(w),
            _ => ArgValue::Uint(w),
        };
        ArgsParse::Parsed(seq![v], 4, 0)
    }
}

/// Reads one argument of type `t` at the front of `data`.
pub open spec fn parse_arg(t: ArgumentType, data: Seq<u8>, fds: Seq<i32>) -> ArgsParse {
    match t {
        ArgumentType::Fd => if fds.len() == 0 {
            ArgsParse::NeedFd
        } else {
            ArgsParse::Parsed(seq![ArgValue::Fd(fds[0])], 0, 1)
        },
        ArgumentType::Str => match parse_str(data) {
            Some((v, n)) => ArgsParse::Parsed(seq![ArgValue::Str(v)], n, 0),
            None => ArgsParse::Bad,
        },
        ArgumentType::UntypedNewId => parse_untyped(data),
        ArgumentType::Array => parse_array(data),
        _ => parse_word_arg(t, data),
    }
}

/// Puts a first step in front of what follows it.
pub open spec fn then_parse(first: ArgsParse, rest: ArgsParse) -> ArgsParse {
    match first {
        ArgsParse::Parsed(a, n, k) => match rest {
            ArgsParse::Parsed(r, n2, k2) => ArgsParse::Parsed(a + r, n + n2, k + k2),
            other => other,
        },
        other => other,
    }
}

/// Reads the arguments of `sig` in order; the bytes of `data` must all be used.
pub open spec fn parse_args(sig: Seq<ArgumentType>, data: Seq<u8>, fds: Seq<i32>) -> ArgsParse
    decreases sig.len(),
{
    if sig.len() == 0 {
        if data.len() == 0 {
            ArgsParse::Parsed(seq![], 0, 0)
        } else {
            ArgsParse::Bad
        }
    } else {
        match parse_arg(sig[0], data, fds) {
            ArgsParse::Parsed(a, n, k) => then_parse(
                ArgsParse::Parsed(a, n, k),
                parse_args(sig.drop_first(), data.skip(n as int), fds.skip(k as int)),
            ),
            other => other,
        }
    }
}

/// The outcome of reading a message at the front of a byte stream.
pub enum FrameParse {
    /// The message, the bytes it took and the descriptors it took.
    Message(MessageView, nat, nat),
    Incomplete,
    Malformed,
}

/// The size field of the header at the front of `data`.
pub open spec fn header_size(data: Seq<u8>) -> nat {
    (word_at(data, 4) / 65536) as nat
}

/// Reads the message at the front of `data`, given the signature of its opcode.
///
/// `sig_of` gives the signature for the header's target id and opcode, or `None`
/// where no such message is known.
pub open spec fn parse_frame(data: Seq<u8>, fds: Seq<i32>, sig: Seq<ArgumentType>) -> FrameParse {
    if data.len() < 8 {
        FrameParse::Incomplete
    } else {
        let size = header_size(data);
        if size < 8 || size % 4 != 0 {
            FrameParse::Malformed
        } else if data.len() < size {
            FrameParse::Incomplete
        } else {
            match parse_args(sig, data.subrange(8, size as int), fds) {
                ArgsParse::Parsed(args, _, k) => FrameParse::Message(
                    MessageView {
                        sender_id: word_at(data, 0),
                        opcode: (word_at(data, 4) % 65536) as u16,
                        args,
                    },
                    size,
                    k,
                ),
                ArgsParse::NeedFd => FrameParse::Incomplete,
                ArgsParse::Bad => FrameParse::Malformed,
            }
        }
    }
}

// ---------------------------------------------------------------------------
// Encoding
// ---------------------------------------------------------------------------

fn push_word(out: &mut Vec<u8>, x: u32)
    ensures
        final(out)@ == old(out)@ + word(x),
{
    out.push((x % 256) as u8);
    out.push(((x / 256) % 256) as u8);
    out.push(((x / 65536) % 256) as u8);
    out.push((x / 16777216) as u8);
    assert(final(out)@ =~= old(out)@ + word(x));
}

fn push_bytes(out: &mut Vec<u8>, s: &[u8])
    ensures
        final(out)@ == old(out)@ + s@,
{
    let ghost start = out@;
    let mut i: usize = 0;
    while i < s.len()
        invariant
            i <= s.len(),
            out@ == start + s@.subrange(0, i as int),
        decreases s.len() - i,
    {
        out.push(s[i]);
        i = i + 1;
        assert(out@ =~= start + s@.subrange(0, i as int));
    }
    assert(s@.subrange(0, i as int) =~= s@);
}

fn push_zeros(out: &mut Vec<u8>, n: usize)
    ensures
        final(out)@ == old(out)@ + zeros(n as nat),
{
    let ghost start = out@;
    let mut i: usize = 0;
    while i < n
        invariant
            i <= n,
            out@ == start + zeros(i as nat),
        decreases n - i,
    {
        out.push(0);
        i = i + 1;
        assert(out@ =~= start + zeros(i as nat));
    }
}

fn padding(n: usize) -> (r: usize)
    ensures
        r == pad_len(n as nat),
{
    (4 - n % 4) % 4
}

/// The number of bytes that an argument takes on the wire, or `None` past the size limit.
fn arg_wire_len(a: &Argument) -> (r: Option<usize>)
    ensures
        r matches Some(n) ==> n == arg_bytes(a@).len(),
        r is None ==> arg_bytes(a@).len() > MAX_MESSAGE_SIZE,
{
    match a {
        Argument::Str(s) => {
            if s.len() >= MAX_MESSAGE_SIZE {
                None
            } else {
                Some(4 + s.len() + 1 + padding(s.len() + 1))
            }
        },
        Argument::Array(s) => {
            if s.len() > MAX_MESSAGE_SIZE {
                None
            } else {
                Some(4 + s.len() + padding(s.len()))
            }
        },
        Argument::UntypedNewId(s, _, _) => {
            if s.len() >= MAX_MESSAGE_SIZE {
                None
            } else {
                Some(4 + s.len() + 1 + padding(s.len() + 1) + 8)
            }
        },
        Argument::Fd(_) => Some(0),
        _ => Some(4),
    }
}

fn push_str(out: &mut Vec<u8>, s: &Vec<u8>)
    requires
        s@.len() + 1 <= MAX_MESSAGE_SIZE,
    ensures
        final(out)@ == old(out)@ + str_bytes(s@),
{
    push_word(out, (s.len() + 1) as u32);
    push_bytes(out, s.as_slice());
    out.push(0);
    push_zeros(out, padding(s.len() + 1));
    assert(final(out)@ =~= old(out)@ + str_bytes(s@));
}

fn push_arg(out: &mut Vec<u8>, fds: &mut Vec<i32>, a: &Argument)
    requires
        arg_bytes(a@).len() <= MAX_MESSAGE_SIZE,
    ensures
        final(out)@ == old(out)@ + arg_bytes(a@),
        final(fds)@ == old(fds)@ + arg_fds(a@),
{
    match a {
        Argument::Int(v) => push_word(out, *v as u32),
        Argument::Uint(v) => push_word(out, *v),
        Argument::Fixed(v) => push_word(out, *v as u32),
        Argument::Object(v) => push_word(out, *v),
        Argument::NewId(v) => push_word(out, *v),
        Argument::Str(s) => push_str(out, s),
        Argument::UntypedNewId(s, v, id) => {
            push_str(out, s);
            push_word(out, *v);
            push_word(out, *id);
        },
        Argument::Array(s) => {
            push_word(out, s.len() as u32);
            push_bytes(out, s.as_slice());
            push_zeros(out, padding(s.len()));
        },
        Argument::Fd(fd) => fds.push(*fd),
    }
    assert(final(out)@ =~= old(out)@ + arg_bytes(a@));
    assert(final(fds)@ =~= old(fds)@ + arg_fds(a@));
}

/// Whether an argument is of the given type.
pub fn has_type(a: &Argument, t: ArgumentType) -> (r: bool)
    ensures
        r == arg_has_type(a@, t),
{
    match (a, t) {
        (Argument::Int(_), ArgumentType::Int) => true,
        (Argument::Uint(_), ArgumentType::Uint) => true,
        (Argument::Fixed(_), ArgumentType::Fixed) => true,
        (Argument::Str(_), ArgumentType::Str) => true,
        (Argument::Array(_), ArgumentType::Array) => true,
        (Argument::Object(_), ArgumentType::Object) => true,
        (Argument::NewId(_), ArgumentType::NewId) => true,
        (Argument::UntypedNewId(_, _, _), ArgumentType::UntypedNewId) => true,
        (Argument::Fd(_), ArgumentType::Fd) => true,
        _ => false,
    }
}

/// The bytes of a prefix of the arguments never outgrow those of all of them.
proof fn lemma_prefix_len(args: Seq<ArgValue>, i: int)
    requires
        0 <= i <= args.len(),
    ensures
        args_bytes(args.take(i)).len() <= args_bytes(args).len(),
    decreases args.len(),
{
    if i < args.len() {
        lemma_prefix_len(args.drop_last(), i);
        assert(args.drop_last().take(i) =~= args.take(i));
    } else {
        assert(args.take(i) =~= args);
    }
}

/// Encodes a message with the signature of its opcode.
///
/// Returns the bytes of the frame and, apart, the file descriptors to send
/// with them, in the order of the arguments.
#[verifier::rlimit(30)]
pub fn encode(msg: &Message, sig: &[ArgumentType]) -> (r: Result<(Vec<u8>, Vec<i32>), EncodeError>)
    ensures
        r matches Ok((bytes, fds)) ==> bytes@ == message_bytes(msg@) && fds@ == args_fds(msg@.args),
        r is Ok <==> encodable(msg@, sig@),
        r == Err::<(Vec<u8>, Vec<i32>), EncodeError>(EncodeError::SignatureMismatch) <==> !follows_signature(msg@.args, sig@),
        r == Err::<(Vec<u8>, Vec<i32>), EncodeError>(EncodeError::TooLarge) <==> (follows_signature(msg@.args, sig@)
            && message_size(msg@) > MAX_MESSAGE_SIZE),
{
    let ghost args = msg@.args;
    if msg.args.len() != sig.len() {
        return Err(EncodeError::SignatureMismatch);
    }
    let mut i: usize = 0;
    while i < sig.len()
        invariant
            i <= sig.len(),
            msg.args.len() == sig.len(),
            args == msg@.args,
            forall|j: int| 0 <= j < i ==> arg_has_type(#[trigger] args[j], sig@[j]),
        decreases sig.len() - i,
    {
        if !has_type(&msg.args[i], sig[i]) {
            assert(args[i as int] == msg.args@[i as int]@);
            return Err(EncodeError::SignatureMismatch);
        }
        i = i + 1;
    }
    assert(follows_signature(args, sig@));
    let mut body: Vec<u8> = Vec::new();
    let mut fds: Vec<i32> = Vec::new();
    let mut i: usize = 0;
    while i < msg.args.len()
        invariant
            i <= msg.args.len(),
            args == msg@.args,
            args.len() == msg.args.len(),
            follows_signature(args, sig@),
            body@ == args_bytes(args.take(i as int)),
            fds@ == args_fds(args.take(i as int)),
            body.len() <= MAX_MESSAGE_SIZE - HEADER_SIZE,
        decreases msg.args.len() - i,
    {
        let a = &msg.args[i];
        proof {
            lemma_prefix_len(args, i + 1);
            assert(args.take(i + 1).drop_last() =~= args.take(i as int));
            assert(args.take(i + 1).last() == a@);
        }
        match arg_wire_len(a) {
            None => {
                proof {
                    lemma_prefix_len(args, i + 1);
                }
                return Err(EncodeError::TooLarge);
            },
            Some(n) => {
                if n > MAX_MESSAGE_SIZE - HEADER_SIZE - body.len() {
                    return Err(EncodeError::TooLarge);
                }
            },
        }
        push_arg(&mut body, &mut fds, a);
        i = i + 1;
    }
    assert(args.take(i as int) =~= args);
    let size = body.len() + HEADER_SIZE;
    let mut out: Vec<u8> = Vec::new();
    push_word(&mut out, msg.sender_id);
    push_word(&mut out, (size as u32) * 65536 + msg.opcode as u32);
    out.append(&mut body);
    assert(out@ =~= message_bytes(msg@));
    Ok((out, fds))
}

// ---------------------------------------------------------------------------
// Decoding
// ---------------------------------------------------------------------------

fn read_word(data: &[u8], i: usize) -> (r: u32)
    requires
        i + 4 <= data@.len(),
    ensures
        r == word_at(data@, i as int),
{
    data[i] as u32 + 256 * (data[i + 1] as u32) + 65536 * (data[i + 2] as u32) + 16777216 * (
    data[i + 3] as u32)
}

pub(crate) fn copy_range(data: &[u8], start: usize, end: usize) -> (r: Vec<u8>)
    requires
        start <= end <= data@.len(),
    ensures
        r@ == data@.subrange(start as int, end as int),
{
    let mut r: Vec<u8> = Vec::new();
    let mut i: usize = start;
    while i < end
        invariant
            start <= i <= end,
            end <= data@.len(),
            r@ == data@.subrange(start as int, i as int),
        decreases end - i,
    {
        r.push(data[i]);
        i = i + 1;
        assert(r@ =~= data@.subrange(start as int, i as int));
    }
    r
}

fn zero_run(data: &[u8], start: usize, stop: usize) -> (r: bool)
    requires
        start <= stop <= data@.len(),
    ensures
        r == all_zero(data@, start as int, (stop - start) as nat),
{
    let mut i: usize = start;
    while i < stop
        invariant
            start <= i <= stop,
            stop <= data@.len(),
            forall|j: int| start <= j < i ==> data@[j] == 0,
        decreases stop - i,
    {
        if data[i] != 0 {
            return false;
        }
        i = i + 1;
    }
    true
}

proof fn lemma_zero_window(data: Seq<u8>, start: int, end: int, i: int, n: nat)
    requires
        0 <= start <= end <= data.len(),
        0 <= i,
        start + i + n <= end,
    ensures
        all_zero(data.subrange(start, end), i, n) == all_zero(data, start + i, n),
{
    let d = data.subrange(start, end);
    if all_zero(d, i, n) {
        assert forall|j: int| start + i <= j < start + i + n implies data[j] == 0 by {
            assert(d[j - start] == data[j]);
        }
    }
    if all_zero(data, start + i, n) {
        assert forall|j: int| i <= j < i + n implies d[j] == 0 by {
            assert(d[j] == data[start + j]);
        }
    }
}

/// Reads a string from the bytes `start..end` of `data`.
fn read_str(data: &[u8], start: usize, end: usize) -> (r: Option<(Vec<u8>, usize)>)
    requires
        start <= end <= data@.len(),
        end - start >= 4,
    ensures
        r matches Some((v, n)) ==> parse_str(data@.subrange(start as int, end as int)) == Some((v@, n as nat))
            && start + n <= end,
        r is None ==> parse_str(data@.subrange(start as int, end as int)) is None,
{
    let ghost d = data@.subrange(start as int, end as int);
    let w = read_word(data, start);
    assert(word_at(d, 0) == w);
    let n = w as usize;
    let room = end - start - 4;
    if n == 0 || n > room {
        return None;
    }
    let pad = padding(n);
    if pad > room - n {
        return None;
    }
    let body = start + 4;
    if data[body + n - 1] != 0 {
        return None;
    }
    let z = zero_run(data, body + n, body + n + pad);
    proof {
        lemma_zero_window(data@, start as int, end as int, 4 + n, pad as nat);
    }
    if !z {
        return None;
    }
    let v = copy_range(data, body, body + n - 1);
    assert(v@ =~= d.subrange(4, 4 + n - 1));
    Some((v, 4 + n + pad))
}

/// One step of reading: an argument with the bytes and descriptors it took.
enum Step {
    Done(Argument, usize, usize),
    NeedFd,
    Bad,
}

spec fn step_matches(st: Step, p: ArgsParse) -> bool {
    match (st, p) {
        (Step::Done(a, n, k), ArgsParse::Parsed(v, n2, k2)) => v == seq![a@] && n == n2 && k == k2,
        (Step::NeedFd, ArgsParse::NeedFd) => true,
        (Step::Bad, ArgsParse::Bad) => true,
        _ => false,
    }
}

/// Reads one argument of type `t` from the bytes `start..end` of `data`,
/// with the descriptors of `fds` from `k` on.
#[verifier::rlimit(30)]
fn read_arg(t: ArgumentType, data: &[u8], start: usize, end: usize, fds: &[i32], k: usize) -> (r:
    Step)
    requires
        start <= end <= data@.len(),
        k <= fds@.len(),
    ensures
        step_matches(r, parse_arg(t, data@.subrange(start as int, end as int), fds@.skip(k as int))),
        r matches Step::Done(_, n, u) ==> start + n <= end && k + u <= fds@.len(),
{
    let ghost d = data@.subrange(start as int, end as int);
    let ghost f = fds@.skip(k as int);
    if t == ArgumentType::Fd {
        if k < fds.len() {
            return Step::Done(Argument::Fd(fds[k]), 0, 1);
        } else {
            return Step::NeedFd;
        }
    }
    if end - start < 4 {
        return Step::Bad;
    }
    let w = read_word(data, start);
    assert(word_at(d, 0) == w);
    match t {
        ArgumentType::Int => Step::Done(Argument::Int(#[verifier::truncate] (w as i32)), 4, 0),
        ArgumentType::Uint => Step::Done(Argument::Uint(w), 4, 0),
        ArgumentType::Fixed => Step::Done(Argument::Fixed(#[verifier::truncate] (w as i32)), 4, 0),
        ArgumentType::Object => Step::Done(Argument::Object(w), 4, 0),
        ArgumentType::NewId => Step::Done(Argument::NewId(w), 4, 0),
        ArgumentType::Str => match read_str(data, start, end) {
            Some((v, n)) => Step::Done(Argument::Str(v), n, 0),
            None => Step::Bad,
        },
        ArgumentType::UntypedNewId => match read_str(data, start, end) {
            Some((v, n)) => {
                if end - start - n < 8 {
                    Step::Bad
                } else {
                    let version = read_word(data, start + n);
                    let id = read_word(data, start + n + 4);
                    assert(word_at(d, n as int) == version);
                    assert(word_at(d, n as int + 4) == id);
                    Step::Done(Argument::UntypedNewId(v, version, id), n + 8, 0)
                }
            },
            None => Step::Bad,
        },
        ArgumentType::Array => {
            let n = w as usize;
            let room = end - start - 4;
            if n > room {
                return Step::Bad;
            }
            let pad = padding(n);
            if pad > room - n {
                return Step::Bad;
            }
            let body = start + 4;
            let z = zero_run(data, body + n, body + n + pad);
            proof {
                lemma_zero_window(data@, start as int, end as int, 4 + n, pad as nat);
            }
            if !z {
                return Step::Bad;
            }
            let v = copy_range(data, body, body + n);
            assert(v@ =~= d.subrange(4, 4 + n));
            Step::Done(Argument::Array(v), 4 + n + pad, 0)
        },
        ArgumentType::Fd => Step::Bad,
    }
}

/// Reading a non-empty signature: its first argument, then the rest.
proof fn lemma_parse_unfold(sig: Seq<ArgumentType>, d: Seq<u8>, f: Seq<i32>)
    requires
        sig.len() > 0,
    ensures
        parse_args(sig, d, f) == match parse_arg(sig[0], d, f) {
            ArgsParse::Parsed(a, n, k) => then_parse(
                ArgsParse::Parsed(a, n, k),
                parse_args(sig.drop_first(), d.skip(n as int), f.skip(k as int)),
            ),
            other => other,
        },
{
}

/// After one argument has been read, what remains to be read shifts by what it took.
proof fn lemma_step_done(
    sig: Seq<ArgumentType>,
    i: int,
    data: Seq<u8>,
    pos: int,
    size: int,
    fds: Seq<i32>,
    k: int,
    vals: Seq<ArgValue>,
    a: ArgValue,
    n: nat,
    used: nat,
)
    requires
        0 <= i < sig.len(),
        8 <= pos <= size <= data.len(),
        pos + n <= size,
        0 <= k,
        k + used <= fds.len(),
        parse_arg(sig[i], data.subrange(pos, size), fds.skip(k)) == ArgsParse::Parsed(seq![a], n, used),
    ensures
        then_parse(
            ArgsParse::Parsed(vals, (pos - 8) as nat, k as nat),
            parse_args(sig.skip(i), data.subrange(pos, size), fds.skip(k)),
        ) == then_parse(
            ArgsParse::Parsed(vals + seq![a], (pos + n - 8) as nat, (k + used) as nat),
            parse_args(sig.skip(i + 1), data.subrange(pos + n, size), fds.skip(k + used)),
        ),
{
    let rest_sig = sig.skip(i);
    let rest_data = data.subrange(pos, size);
    let rest_fds = fds.skip(k);
    assert(rest_sig[0] == sig[i]);
    lemma_parse_unfold(rest_sig, rest_data, rest_fds);
    assert(rest_sig.drop_first() =~= sig.skip(i + 1));
    assert(rest_data.skip(n as int) =~= data.subrange(pos + n, size));
    assert(rest_fds.skip(used as int) =~= fds.skip(k + used));
    lemma_then_assoc(
        vals,
        (pos - 8) as nat,
        k as nat,
        seq![a],
        n,
        used,
        parse_args(sig.skip(i + 1), data.subrange(pos + n, size), fds.skip(k + used)),
    );
}

/// Putting read steps one after another is associative.
proof fn lemma_then_assoc(a: Seq<ArgValue>, x: nat, y: nat, b: Seq<ArgValue>, n: nat, k: nat, r: ArgsParse)
    ensures
        then_parse(ArgsParse::Parsed(a, x, y), then_parse(ArgsParse::Parsed(b, n, k), r))
            == then_parse(ArgsParse::Parsed(a + b, x + n, y + k), r),
{
    match r {
        ArgsParse::Parsed(c, n2, k2) => {
            assert(a + (b + c) =~= (a + b) + c);
        },
        _ => {},
    }
}

/// The spec outcome of reading a frame, held against what `decode` returned.
pub open spec fn decode_matches(r: Result<(Message, usize, usize), DecodeError>, p: FrameParse) -> bool {
    match p {
        FrameParse::Message(m, n, k) => r matches Ok((msg, rn, rk)) && msg@ == m && rn == n && rk == k,
        FrameParse::Incomplete => r == Err::<(Message, usize, usize), DecodeError>(DecodeError::Incomplete),
        FrameParse::Malformed => r == Err::<(Message, usize, usize), DecodeError>(DecodeError::MalformedMessage),
    }
}

/// Decodes the message at the front of `data`, given the signature of its opcode
/// and the file descriptors received so far.
///
/// On success, returns the message, the number of bytes it took and the number
/// of descriptors it took from the front of `fds`.
#[verifier::rlimit(60)]
pub fn decode(data: &[u8], fds: &[i32], sig: &[ArgumentType]) -> (r: Result<(Message, usize, usize), DecodeError>)
    ensures
        decode_matches(r, parse_frame(data@, fds@, sig@)),
        r matches Ok((_, n, k)) ==> n <= data@.len() && k <= fds@.len(),
{
    if data.len() < HEADER_SIZE {
        return Err(DecodeError::Incomplete);
    }
    let hw = read_word(data, 4);
    let size = (hw / 65536) as usize;
    if size < HEADER_SIZE || size % 4 != 0 {
        return Err(DecodeError::MalformedMessage);
    }
    if data.len() < size {
        return Err(DecodeError::Incomplete);
    }
    assert(header_size(data@) == size);
    let ghost whole = data@.subrange(8, size as int);
    let ghost vals: Seq<ArgValue> = seq![];
    let mut args: Vec<Argument> = Vec::new();
    let mut pos: usize = HEADER_SIZE;
    let mut k: usize = 0;
    let mut i: usize = 0;
    let nfds = fds.len();
    assert(sig@.skip(0) =~= sig@);
    assert(data@.subrange(pos as int, size as int) =~= whole);
    assert(fds@.skip(0) =~= fds@);
    assert(then_parse(ArgsParse::Parsed(seq![], 0, 0), parse_args(sig@, whole, fds@)) == parse_args(sig@, whole, fds@)) by {
        match parse_args(sig@, whole, fds@) {
            ArgsParse::Parsed(c, _, _) => { assert(seq![] + c =~= c); },
            _ => {},
        }
    }
    while i < sig.len()
        invariant
            i <= sig.len(),
            8 <= pos <= size <= data@.len(),
            k <= fds@.len(),
            nfds == fds@.len(),
            header_size(data@) == size,
            size % 4 == 0,
            whole == data@.subrange(8, size as int),
            args@.map_values(|a: Argument| a@) == vals,
            parse_args(sig@, whole, fds@) == then_parse(
                ArgsParse::Parsed(vals, (pos - 8) as nat, k as nat),
                parse_args(sig@.skip(i as int), data@.subrange(pos as int, size as int), fds@.skip(k as int)),
            ),
        decreases sig.len() - i,
    {
        let ghost rest_sig = sig@.skip(i as int);
        let ghost rest_data = data@.subrange(pos as int, size as int);
        let ghost rest_fds = fds@.skip(k as int);
        assert(rest_sig[0] == sig@[i as int]);
        let st = read_arg(sig[i], data, pos, size, fds, k);
        proof {
            lemma_parse_unfold(rest_sig, rest_data, rest_fds);
        }
        match st {
            Step::Done(a, n, used) => {
                proof {
                    lemma_step_done(sig@, i as int, data@, pos as int, size as int, fds@, k as int, vals, a@, n as nat, used as nat);
                    vals = vals + seq![a@];
                }
                args.push(a);
                assert(args@.map_values(|a: Argument| a@) =~= vals);
                pos = pos + n;
                k = k + used;
                i = i + 1;
            },
            Step::NeedFd => {
                assert(parse_args(rest_sig, rest_data, rest_fds) == ArgsParse::NeedFd);
                assert(parse_args(sig@, whole, fds@) == ArgsParse::NeedFd);
                return Err(DecodeError::Incomplete);
            },
            Step::Bad => {
                assert(parse_args(rest_sig, rest_data, rest_fds) == ArgsParse::Bad);
                assert(parse_args(sig@, whole, fds@) == ArgsParse::Bad);
                return Err(DecodeError::MalformedMessage);
            },
        }
    }
    assert(sig@.skip(i as int) =~= seq![]);
    if pos != size {
        return Err(DecodeError::MalformedMessage);
    }
    assert(vals + seq![] =~= vals);
    let msg = Message { sender_id: read_word(data, 0), opcode: (hw % 65536) as u16, args };
    Ok((msg, size, k))
}

// ---------------------------------------------------------------------------
// Lemmas
// ---------------------------------------------------------------------------

/// The four bytes of a word read back as that word.
pub proof fn lemma_word_at(x: u32, s: Seq<u8>, i: int)
    requires
        0 <= i,
        i + 4 <= s.len(),
        s.subrange(i, i + 4) == word(x),
    ensures
        word_at(s, i) == x,
{
    let xi = x as int;
    assert(s[i] == word(x)[0] && s[i + 1] == word(x)[1] && s[i + 2] == word(x)[2] && s[i + 3]
        == word(x)[3]) by {
        assert(s.subrange(i, i + 4)[0] == s[i]);
        assert(s.subrange(i, i + 4)[1] == s[i + 1]);
        assert(s.subrange(i, i + 4)[2] == s[i + 2]);
        assert(s.subrange(i, i + 4)[3] == s[i + 3]);
    }
    lemma_fundamental_div_mod(xi, 256);
    lemma_fundamental_div_mod(xi / 256, 256);
    lemma_fundamental_div_mod(xi / 65536, 256);
    lemma_div_denominator(xi, 256, 256);
    lemma_div_denominator(xi, 65536, 256);
    assert(xi / 256 / 256 == xi / 65536);
    assert(xi / 65536 / 256 == xi / 16777216);
    assert(xi == xi % 256 + 256 * ((xi / 256) % 256) + 65536 * ((xi / 65536) % 256) + 16777216 * (
    xi / 16777216)) by (nonlinear_arith)
        requires
            xi == 256 * (xi / 256) + xi % 256,
            xi / 256 == 256 * (xi / 256 / 256) + (xi / 256) % 256,
            xi / 65536 == 256 * (xi / 65536 / 256) + (xi / 65536) % 256,
            xi / 256 / 256 == xi / 65536,
            xi / 65536 / 256 == xi / 16777216,
    ;
}

/// The bytes of a run of arguments, read from the front.
pub proof fn lemma_args_front(args: Seq<ArgValue>)
    requires
        args.len() > 0,
    ensures
        args_bytes(args) == arg_bytes(args[0]) + args_bytes(args.drop_first()),
        args_fds(args) == arg_fds(args[0]) + args_fds(args.drop_first()),
    decreases args.len(),
{
    if args.len() == 1 {
        assert(args.drop_last() =~= seq![]);
        assert(args.drop_first() =~= seq![]);
        assert(args_bytes(args) =~= arg_bytes(args[0]) + args_bytes(args.drop_first()));
        assert(args_fds(args) =~= arg_fds(args[0]) + args_fds(args.drop_first()));
    } else {
        let init = args.drop_last();
        lemma_args_front(init);
        assert(init.drop_first() =~= args.drop_first().drop_last());
        assert(args.drop_first().last() == args.last());
        assert(args_bytes(args) =~= arg_bytes(args[0]) + args_bytes(args.drop_first()));
        assert(args_fds(args) =~= arg_fds(args[0]) + args_fds(args.drop_first()));
    }
}

/// Padding brings a length to a multiple of four.
pub proof fn lemma_pad_aligns(n: nat)
    ensures
        (n + pad_len(n)) % 4 == 0,
        pad_len(n) < 4,
{
}

/// Every encoded argument is a whole number of words.
pub proof fn lemma_arg_aligned(a: ArgValue)
    ensures
        arg_bytes(a).len() % 4 == 0,
{
    match a {
        ArgValue::Str(s) => {
            let n = s.len() + 1;
            lemma_pad_aligns(n);
            assert(arg_bytes(a).len() == 4 + n + pad_len(n));
        },
        ArgValue::Array(s) => {
            lemma_pad_aligns(s.len());
            assert(arg_bytes(a).len() == 4 + s.len() + pad_len(s.len()));
        },
        ArgValue::UntypedNewId(s, _, _) => {
            let n = s.len() + 1;
            lemma_pad_aligns(n);
            assert(arg_bytes(a).len() == 4 + n + pad_len(n) + 8);
        },
        _ => {},
    }
}

/// Every encoded run of arguments is a whole number of words.
#[verifier::rlimit(30)]
pub proof fn lemma_args_aligned(args: Seq<ArgValue>)
    ensures
        args_bytes(args).len() % 4 == 0,
    decreases args.len(),
{
    if args.len() > 0 {
        lemma_args_aligned(args.drop_last());
        let a = args.last();
        lemma_arg_aligned(a);
        let p = args_bytes(args.drop_last()).len();
        let q = arg_bytes(a).len();
        assert(args_bytes(args).len() == p + q);
        assert((p + q) % 4 == 0) by (nonlinear_arith)
            requires
                p % 4 == 0,
                q % 4 == 0,
        ;
    }
}

/// Zero padding reads as zero padding.
proof fn lemma_zero_pad(data: Seq<u8>, i: int, n: nat)
    requires
        0 <= i,
        i + n <= data.len(),
        data.subrange(i, i + n) == zeros(n),
    ensures
        all_zero(data, i, n),
{
    assert forall|j: int| i <= j < i + n implies data[j] == 0 by {
        assert(data.subrange(i, i + n)[j - i] == data[j]);
    }
}

/// An encoded string reads back as itself.
pub proof fn lemma_str_round_trip(s: Seq<u8>, rest: Seq<u8>)
    requires
        s.len() + 1 <= MAX_MESSAGE_SIZE,
    ensures
        parse_str(str_bytes(s) + rest) == Some((s, str_bytes(s).len())),
{
    let data = str_bytes(s) + rest;
    let n: int = s.len() + 1int;
    assert(data.subrange(0, 4) =~= word(n as u32));
    lemma_word_at(n as u32, data, 0);
    assert(data[4 + n - 1] == 0);
    assert(data.subrange(4 + n, 4 + n + pad_len(n as nat)) =~= zeros(pad_len(n as nat)));
    lemma_zero_pad(data, 4 + n, pad_len(n as nat));
    assert(data.subrange(4, 4 + n - 1) =~= s);
}

/// A word that follows `p` reads back as itself.
proof fn lemma_word_after(p: Seq<u8>, x: u32, rest: Seq<u8>)
    ensures
        word_at(p + (word(x) + rest), p.len() as int) == x,
{
    let d = p + (word(x) + rest);
    assert(d.subrange(p.len() as int, p.len() as int + 4) =~= word(x));
    lemma_word_at(x, d, p.len() as int);
}

/// An encoded untyped new id reads back as itself.
#[verifier::rlimit(30)]
proof fn lemma_untyped_round_trip(s: Seq<u8>, v: u32, id: u32, rest: Seq<u8>)
    requires
        s.len() + 1 <= MAX_MESSAGE_SIZE,
    ensures
        parse_untyped(str_bytes(s) + (word(v) + (word(id) + rest))) == ArgsParse::Parsed(
            seq![ArgValue::UntypedNewId(s, v, id)],
            str_bytes(s).len() + 8,
            0,
        ),
{
    let sb = str_bytes(s);
    let data = sb + (word(v) + (word(id) + rest));
    lemma_str_round_trip(s, word(v) + (word(id) + rest));
    lemma_word_after(sb, v, word(id) + rest);
    assert(data =~= (sb + word(v)) + (word(id) + rest));
    lemma_word_after(sb + word(v), id, rest);
}

/// One encoded argument reads back as itself.
#[verifier::rlimit(30)]
pub proof fn lemma_arg_round_trip(a: ArgValue, t: ArgumentType, rest: Seq<u8>, fds: Seq<i32>)
    requires
        arg_has_type(a, t),
        arg_bytes(a).len() <= MAX_MESSAGE_SIZE,
    ensures
        parse_arg(t, arg_bytes(a) + rest, arg_fds(a) + fds) == ArgsParse::Parsed(
            seq![a],
            arg_bytes(a).len(),
            arg_fds(a).len(),
        ),
{
    let data = arg_bytes(a) + rest;
    match a {
        ArgValue::Fd(fd) => {
            assert((arg_fds(a) + fds)[0] == fd);
        },
        ArgValue::Str(s) => {
            lemma_str_round_trip(s, rest);
        },
        ArgValue::UntypedNewId(s, v, id) => {
            assert(data =~= str_bytes(s) + (word(v) + (word(id) + rest)));
            lemma_untyped_round_trip(s, v, id, rest);
        },
        ArgValue::Array(s) => {
            let n: int = s.len() as int;
            assert(data.subrange(0, 4) =~= word(n as u32));
            lemma_word_at(n as u32, data, 0);
            assert(data.subrange(4 + n, 4 + n + pad_len(n as nat)) =~= zeros(pad_len(n as nat)));
            lemma_zero_pad(data, 4 + n, pad_len(n as nat));
            assert(data.subrange(4, 4 + n) =~= s);
        },
        ArgValue::Int(v) => {
            assert((v as u32) as i32 == v) by (bit_vector);
            assert(data.subrange(0, 4) =~= word(v as u32));
            lemma_word_at(v as u32, data, 0);
        },
        ArgValue::Uint(v) => {
            assert(data.subrange(0, 4) =~= word(v));
            lemma_word_at(v, data, 0);
        },
        ArgValue::Fixed(v) => {
            assert((v as u32) as i32 == v) by (bit_vector);
            assert(data.subrange(0, 4) =~= word(v as u32));
            lemma_word_at(v as u32, data, 0);
        },
        ArgValue::Object(v) => {
            assert(data.subrange(0, 4) =~= word(v));
            lemma_word_at(v, data, 0);
        },
        ArgValue::NewId(v) => {
            assert(data.subrange(0, 4) =~= word(v));
            lemma_word_at(v, data, 0);
        },
    }
}

/// Encoded arguments read back as themselves, whatever descriptors follow.
#[verifier::rlimit(30)]
pub proof fn lemma_args_round_trip(args: Seq<ArgValue>, sig: Seq<ArgumentType>, fds: Seq<i32>)
    requires
        follows_signature(args, sig),
        args_bytes(args).len() <= MAX_MESSAGE_SIZE,
    ensures
        parse_args(sig, args_bytes(args), args_fds(args) + fds) == ArgsParse::Parsed(
            args,
            args_bytes(args).len(),
            args_fds(args).len(),
        ),
    decreases args.len(),
{
    if args.len() == 0 {
        assert(args_fds(args) + fds =~= fds);
        assert(args =~= seq![]);
    } else {
        lemma_args_front(args);
        let a = args[0];
        let tail = args.drop_first();
        assert(follows_signature(tail, sig.drop_first())) by {
            assert forall|i: int| 0 <= i < tail.len() implies arg_has_type(
                #[trigger] tail[i],
                sig.drop_first()[i],
            ) by {
                assert(tail[i] == args[i + 1]);
            }
        }
        assert(arg_has_type(args[0], sig[0]));
        lemma_args_round_trip(tail, sig.drop_first(), fds);
        let data = args_bytes(args);
        let all_fds = args_fds(args) + fds;
        assert(data == arg_bytes(a) + args_bytes(tail));
        assert(all_fds =~= arg_fds(a) + (args_fds(tail) + fds));
        lemma_arg_round_trip(a, sig[0], args_bytes(tail), args_fds(tail) + fds);
        assert(data.skip(arg_bytes(a).len() as int) =~= args_bytes(tail));
        assert(all_fds.skip(arg_fds(a).len() as int) =~= args_fds(tail) + fds);
        assert(seq![a] + tail =~= args);
    }
}

/// An encoded message reads back as itself, whatever bytes and descriptors follow it.
#[verifier::rlimit(40)]
pub proof fn lemma_message_round_trip(
    m: MessageView,
    sig: Seq<ArgumentType>,
    rest: Seq<u8>,
    fds: Seq<i32>,
)
    requires
        encodable(m, sig),
    ensures
        parse_frame(message_bytes(m) + rest, args_fds(m.args) + fds, sig) == FrameParse::Message(
            m,
            message_size(m),
            args_fds(m.args).len(),
        ),
{
    let data = message_bytes(m) + rest;
    let size = message_size(m);
    let hw = (size * 65536 + m.opcode) as u32;
    assert(data.subrange(0, 4) =~= word(m.sender_id));
    lemma_word_at(m.sender_id, data, 0);
    assert(data.subrange(4, 8) =~= word(hw));
    lemma_word_at(hw, data, 4);
    assert(size * 65536 + m.opcode < 0x1_0000_0000) by (nonlinear_arith)
        requires
            size <= 65535,
            m.opcode < 65536,
    ;
    assert(hw / 65536 == size) by (nonlinear_arith)
        requires
            hw == size * 65536 + m.opcode,
            0 <= m.opcode < 65536,
    ;
    assert(hw % 65536 == m.opcode) by (nonlinear_arith)
        requires
            hw == size * 65536 + m.opcode,
            0 <= m.opcode < 65536,
    ;
    assert(data.subrange(8, size as int) =~= args_bytes(m.args));
    lemma_args_round_trip(m.args, sig, fds);
    lemma_args_aligned(m.args);
    assert(header_size(data) == size);
    assert(size >= 8 && size % 4 == 0 && data.len() >= size);
    let parsed = MessageView {
        sender_id: word_at(data, 0),
        opcode: (word_at(data, 4) % 65536) as u16,
        args: m.args,
    };
    assert(parsed == m);
}

} // verus!
