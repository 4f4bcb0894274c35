use vstd::prelude::*;
use crate::wire::{
    args_fds, copy_range, decode, encodable, header_size, lemma_message_round_trip,
    message_bytes, message_size, parse_frame, word_at, ArgumentType, DecodeError, FrameParse,
    Message, MessageView,
};

verus! {

/// The bytes of a run of chunks, received one after another.
pub open spec fn concat(chunks: Seq<Seq<u8>>) -> Seq<u8>
    decreases chunks.len(),
{
    if chunks.len() == 0 {
        seq![]
    } else {
        concat(chunks.drop_last()) + chunks.last()
    }
}

/// The bytes and file descriptors received and not yet consumed.
pub struct InView {
    pub bytes: Seq<u8>,
    pub fds: Seq<i32>,
}

/// The incoming side of a socket: what was received and not yet consumed.
///
/// Bytes left over after a message stay for the next one, so that a message
/// split across reads is decoded once its last byte has come.
pub struct ReadBuffer {
    data: Vec<u8>,
    fds: Vec<i32>,
}

impl View for ReadBuffer {
    type V = InView;

    closed spec fn view(&self) -> InView {
        InView { bytes: self.data@, fds: self.fds@ }
    }
}

fn copy_fds(fds: &[i32], start: usize) -> (r: Vec<i32>)
    requires
        start <= fds@.len(),
    ensures
        r@ == fds@.skip(start as int),
{
    let mut r: Vec<i32> = Vec::new();
    let mut i: usize = start;
    while i < fds.len()
        invariant
            start <= i <= fds@.len(),
            r@ == fds@.subrange(start as int, i as int),
        decreases fds@.len() - i,
    {
        r.push(fds[i]);
        i = i + 1;
        assert(r@ =~= fds@.subrange(start as int, i as int));
    }
    assert(r@ =~= fds@.skip(start as int));
    r
}

fn append_fds(out: &mut Vec<i32>, fds: &[i32])
    ensures
        final(out)@ == old(out)@ + fds@,
{
    let ghost start = out@;
    let mut i: usize = 0;
    while i < fds.len()
        invariant
            i <= fds@.len(),
            out@ == start + fds@.subrange(0, i as int),
        decreases fds@.len() - i,
    {
        out.push(fds[i]);
        i = i + 1;
        assert(out@ =~= start + fds@.subrange(0, i as int));
    }
    assert(fds@.subrange(0, i as int) =~= fds@);
}

fn append_bytes(out: &mut Vec<u8>, bytes: &[u8])
    ensures
        final(out)@ == old(out)@ + bytes@,
{
    let ghost start = out@;
    let mut i: usize = 0;
    while i < bytes.len()
        invariant
            i <= bytes@.len(),
            out@ == start + bytes@.subrange(0, i as int),
        decreases bytes@.len() - i,
    {
        out.push(bytes[i]);
        i = i + 1;
        assert(out@ =~= start + bytes@.subrange(0, i as int));
    }
    assert(bytes@.subrange(0, i as int) =~= bytes@);
}

impl ReadBuffer {
    /// An empty buffer.
    pub fn new() -> (r: ReadBuffer)
        ensures
            r@.bytes == Seq::<u8>::empty(),
            r@.fds == Seq::<i32>::empty(),
    {
        ReadBuffer { data: Vec::new(), fds: Vec::new() }
    }

    /// Appends what one read from the socket brought, without parsing it.
    pub fn receive(&mut self, bytes: &[u8], fds: &[i32])
        ensures
            final(self)@.bytes == old(self)@.bytes + bytes@,
            final(self)@.fds == old(self)@.fds + fds@,
    {
        append_bytes(&mut self.data, bytes);
        append_fds(&mut self.fds, fds);
    }

    /// The number of bytes received and not yet consumed.
    pub fn len(&self) -> (r: usize)
        ensures
            r == self@.bytes.len(),
    {
        self.data.len()
    }

    /// The target id and opcode of the message at the front, once its header has come.
    pub fn peek_header(&self) -> (r: Option<(u32, u16)>)
        ensures
            self@.bytes.len() < 8 ==> r is None,
            self@.bytes.len() >= 8 ==> r == Some(
                (word_at(self@.bytes, 0), (word_at(self@.bytes, 4) % 65536) as u16),
            ),
    {
        if self.data.len() < 8 {
            None
        } else {
            let id = self.data[0] as u32 + 256 * (self.data[1] as u32) + 65536 * (
            self.data[2] as u32) + 16777216 * (self.data[3] as u32);
            let hw = self.data[4] as u32 + 256 * (self.data[5] as u32) + 65536 * (
            self.data[6] as u32) + 16777216 * (self.data[7] as u32);
            Some((id, (hw % 65536) as u16))
        }
    }

    /// Decodes the message at the front with the given signature, and consumes
    /// its bytes and descriptors; leaves the buffer as it was on any error.
    pub fn pop_message(&mut self, sig: &[ArgumentType]) -> (r: Result<Message, DecodeError>)
        ensures
            match parse_frame(old(self)@.bytes, old(self)@.fds, sig@) {
                FrameParse::Message(m, n, k) => r matches Ok(msg) && msg@ == m
                    && final(self)@.bytes == old(self)@.bytes.skip(n as int)
                    && final(self)@.fds == old(self)@.fds.skip(k as int),
                FrameParse::Incomplete => r == Err::<Message, DecodeError>(DecodeError::Incomplete)
                    && final(self)@ == old(self)@,
                FrameParse::Malformed => r == Err::<Message, DecodeError>(
                    DecodeError::MalformedMessage,
                ) && final(self)@ == old(self)@,
            },
    {
        let res = decode(self.data.as_slice(), self.fds.as_slice(), sig);
        match res {
            Ok((msg, n, k)) => {
                let rest = copy_range(self.data.as_slice(), n, self.data.len());
                let rest_fds = copy_fds(self.fds.as_slice(), k);
                proof {
                    assert(rest@ =~= self.data@.skip(n as int));
                }
                self.data = rest;
                self.fds = rest_fds;
                Ok(msg)
            },
            Err(e) => Err(e),
        }
    }
}

/// The bytes and file descriptors waiting to be sent.
pub struct OutView {
    pub bytes: Seq<u8>,
    pub fds: Seq<i32>,
}

/// The outgoing side of a socket: frames queued and not yet sent.
pub struct WriteBuffer {
    data: Vec<u8>,
    fds: Vec<i32>,
}

impl View for WriteBuffer {
    type V = OutView;

    closed spec fn view(&self) -> OutView {
        OutView { bytes: self.data@, fds: self.fds@ }
    }
}

impl WriteBuffer {
    /// An empty buffer.
    pub fn new() -> (r: WriteBuffer)
        ensures
            r@.bytes == Seq::<u8>::empty(),
            r@.fds == Seq::<i32>::empty(),
    {
        WriteBuffer { data: Vec::new(), fds: Vec::new() }
    }

    /// Queues a frame and its descriptors behind what is already waiting.
    pub fn queue_write(&mut self, bytes: &[u8], fds: &[i32])
        ensures
            final(self)@.bytes == old(self)@.bytes + bytes@,
            final(self)@.fds == old(self)@.fds + fds@,
    {
        append_bytes(&mut self.data, bytes);
        append_fds(&mut self.fds, fds);
    }

    /// The bytes waiting to be sent.
    pub fn pending_bytes(&self) -> (r: &[u8])
        ensures
            r@ == self@.bytes,
    {
        self.data.as_slice()
    }

    /// The descriptors waiting to be sent, to go with the next send.
    pub fn pending_fds(&self) -> (r: &[i32])
        ensures
            r@ == self@.fds,
    {
        self.fds.as_slice()
    }

    /// Records that a send took the first `n` bytes and, where it carried
    /// descriptors, all those pending; what was not sent stays queued.
    pub fn consume_sent(&mut self, n: usize, sent_fds: bool)
        requires
            n <= old(self)@.bytes.len(),
        ensures
            final(self)@.bytes == old(self)@.bytes.skip(n as int),
            final(self)@.fds == (if sent_fds {
                Seq::<i32>::empty()
            } else {
                old(self)@.fds
            }),
    {
        let rest = copy_range(self.data.as_slice(), n, self.data.len());
        assert(rest@ =~= self.data@.skip(n as int));
        self.data = rest;
        if sent_fds {
            self.fds = Vec::new();
        }
    }
}

// ---------------------------------------------------------------------------
// Partial reads
// ---------------------------------------------------------------------------

/// Every proper prefix of an encoded message is incomplete, never malformed.
pub proof fn lemma_prefix_incomplete(
    m: MessageView,
    sig: Seq<ArgumentType>,
    p: Seq<u8>,
    fds: Seq<i32>,
)
    requires
        encodable(m, sig),
        p.len() < message_bytes(m).len(),
        p == message_bytes(m).take(p.len() as int),
    ensures
        parse_frame(p, fds, sig) == FrameParse::Incomplete,
{
    if p.len() >= 8 {
        let full = message_bytes(m);
        lemma_message_round_trip(m, sig, seq![], args_fds(m.args));
        assert(full + seq![] =~= full);
        assert(header_size(full) == message_size(m));
        assert(word_at(p, 4) == word_at(full, 4));
        crate::wire::lemma_args_aligned(m.args);
        assert(full.len() == message_size(m));
    }
}

/// The chunks before the `j`-th make up a prefix of all of them.
proof fn lemma_concat_prefix(chunks: Seq<Seq<u8>>, j: int)
    requires
        0 <= j <= chunks.len(),
        forall|i: int| 0 <= i < chunks.len() ==> (#[trigger] chunks[i]).len() > 0,
    ensures
        concat(chunks.take(j)) == concat(chunks).take(concat(chunks.take(j)).len() as int),
        j < chunks.len() ==> concat(chunks.take(j)).len() < concat(chunks).len(),
    decreases chunks.len(),
{
    if j == chunks.len() {
        assert(chunks.take(j) =~= chunks);
        assert(concat(chunks) =~= concat(chunks).take(concat(chunks).len() as int));
    } else {
        let init = chunks.drop_last();
        assert forall|i: int| 0 <= i < init.len() implies (#[trigger] init[i]).len() > 0 by {
            assert(init[i] == chunks[i]);
        }
        lemma_concat_prefix(init, j);
        assert(init.take(j) =~= chunks.take(j));
        let a = concat(chunks.take(j));
        assert(chunks.last().len() > 0);
        assert(a =~= concat(chunks).take(a.len() as int));
    }
}

/// A message split into chunks, received one after another: after each
/// chunk but the last a read gives `Incomplete`; after the last it gives the
/// message, as one read of the whole frame would.
pub proof fn lemma_split_reassembly(
    m: MessageView,
    sig: Seq<ArgumentType>,
    chunks: Seq<Seq<u8>>,
    fds: Seq<i32>,
)
    requires
        encodable(m, sig),
        concat(chunks) == message_bytes(m),
        forall|i: int| 0 <= i < chunks.len() ==> (#[trigger] chunks[i]).len() > 0,
    ensures
        forall|j: int|
            0 <= j < chunks.len() ==> parse_frame(#[trigger] concat(chunks.take(j)), fds, sig)
                == FrameParse::Incomplete,
        parse_frame(concat(chunks), args_fds(m.args) + fds, sig) == FrameParse::Message(
            m,
            message_size(m),
            args_fds(m.args).len(),
        ),
{
    assert forall|j: int| 0 <= j < chunks.len() implies parse_frame(
        #[trigger] concat(chunks.take(j)),
        fds,
        sig,
    ) == FrameParse::Incomplete by {
        lemma_concat_prefix(chunks, j);
        lemma_prefix_incomplete(m, sig, concat(chunks.take(j)), fds);
    }
    lemma_message_round_trip(m, sig, seq![], fds);
    assert(message_bytes(m) + seq![] =~= message_bytes(m));
}

} // verus!
