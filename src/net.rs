//! The wire format: big-endian integers, length-prefixed frames, and the
//! bookkeeping of a read of an exact number of bytes.

use vstd::prelude::*;

verus! {

/// `256^n`: the number of values that `n` bytes can hold.
pub open spec fn byte_span(n: nat) -> nat
    decreases n,
{
    if n == 0 {
        1
    } else {
        256 * byte_span((n - 1) as nat)
    }
}

/// The number that the bytes `s` spell, most significant first.
pub open spec fn be_value(s: Seq<u8>) -> nat
    decreases s.len(),
{
    if s.len() == 0 {
        0
    } else {
        be_value(s.drop_last()) * 256 + s.last() as nat
    }
}

/// The `n` low bytes of `v`, most significant first.
pub open spec fn be_bytes(v: nat, n: nat) -> Seq<u8>
    decreases n,
{
    if n == 0 {
        Seq::empty()
    } else {
        be_bytes(v / 256, (n - 1) as nat).push((v % 256) as u8)
    }
}

/// A frame on the wire: a 4-byte big-endian length, then the payload.
pub open spec fn frame_bytes(payload: Seq<u8>) -> Seq<u8> {
    be_bytes(payload.len(), 4) + payload
}

proof fn lemma_byte_span_small()
    ensures
        byte_span(4) == 0x1_0000_0000,
        byte_span(8) == 0x1_0000_0000_0000_0000,
{
    reveal_with_fuel(byte_span, 9);
}

/// A number spelled by `n` bytes is below `256^n`.
proof fn lemma_be_value_bound(s: Seq<u8>)
    ensures
        be_value(s) < byte_span(s.len()),
    decreases s.len(),
{
    if s.len() > 0 {
        lemma_be_value_bound(s.drop_last());
    }
}

/// Spelling a number in `n` bytes and reading it back gives the number, when it fits.
pub proof fn lemma_be_round_trip(v: nat, n: nat)
    requires
        v < byte_span(n),
    ensures
        be_bytes(v, n).len() == n,
        be_value(be_bytes(v, n)) == v,
    decreases n,
{
    if n > 0 {
        lemma_be_round_trip(v / 256, (n - 1) as nat);
        let s = be_bytes(v, n);
        assert(s.drop_last() =~= be_bytes(v / 256, (n - 1) as nat));
    }
}

/// The `n` low bytes of `v`, most significant first.
pub fn encode_be(v: u64, n: usize) -> (r: Vec<u8>)
    ensures
        r@ == be_bytes(v as nat, n as nat),
        r@.len() == n,
    decreases n,
{
    if n == 0 {
        Vec::new()
    } else {
        let mut r = encode_be(v / 256, n - 1);
        r.push((v % 256) as u8);
        r
    }
}

/// The number that `b` spells, most significant byte first.
pub fn decode_be(b: &[u8]) -> (r: u64)
    requires
        b@.len() <= 8,
    ensures
        r as nat == be_value(b@),
{
    let mut acc: u64 = 0;
    let mut i: usize = 0;
    proof {
        lemma_byte_span_small();
    }
    while i < b.len()
        invariant
            i <= b@.len() <= 8,
            acc as nat == be_value(b@.take(i as int)),
            byte_span(8) == 0x1_0000_0000_0000_0000,
        decreases b@.len() - i,
    {
        proof {
            lemma_be_value_bound(b@.take(i as int));
            lemma_byte_span_mono(i as nat, 7);
            assert(b@.take(i + 1).drop_last() =~= b@.take(i as int));
        }
        acc = acc * 256 + b[i] as u64;
        i += 1;
    }
    assert(b@.take(i as int) =~= b@);
    acc
}

proof fn lemma_byte_span_mono(i: nat, j: nat)
    requires
        i <= j,
    ensures
        byte_span(i) <= byte_span(j),
    decreases j,
{
    if i < j {
        lemma_byte_span_mono(i, (j - 1) as nat);
    }
}

/// A frame splits back into its header, which announces the payload's length,
/// and the payload itself.
pub proof fn lemma_frame_split(payload: Seq<u8>)
    requires
        payload.len() <= u32::MAX,
    ensures
        frame_bytes(payload).len() == 4 + payload.len(),
        be_value(frame_bytes(payload).take(4)) == payload.len(),
        frame_bytes(payload).skip(4) == payload,
{
    lemma_byte_span_small();
    lemma_be_round_trip(payload.len(), 4);
    let f = frame_bytes(payload);
    assert(f.take(4) =~= be_bytes(payload.len(), 4));
    assert(f.skip(4) =~= payload);
}

/// A frame carrying `payload`: its length in four big-endian bytes, then the bytes.
pub fn encode_frame(payload: &[u8]) -> (r: Vec<u8>)
    requires
        payload@.len() <= u32::MAX,
    ensures
        r@ == frame_bytes(payload@),
{
    let mut r = encode_be(payload.len() as u64, 4);
    let mut i: usize = 0;
    let ghost head = r@;
    while i < payload.len()
        invariant
            i <= payload@.len(),
            r@ == head + payload@.take(i as int),
        decreases payload@.len() - i,
    {
        r.push(payload[i]);
        i += 1;
        assert(r@ =~= head + payload@.take(i as int));
    }
    assert(payload@.take(i as int) =~= payload@);
    r
}

/// The payload length that a frame's 4-byte header announces.
pub fn frame_len(header: &[u8]) -> (r: u32)
    requires
        header@.len() == 4,
    ensures
        r as nat == be_value(header@),
{
    proof {
        lemma_be_value_bound(header@);
        lemma_byte_span_small();
    }
    decode_be(header) as u32
}

/// The first `n` bytes of `s`.
pub(crate) fn prefix_of(s: &[u8], n: usize) -> (r: Vec<u8>)
    requires
        n <= s@.len(),
    ensures
        r@ == s@.take(n as int),
{
    let mut r: Vec<u8> = Vec::with_capacity(n);
    let mut i: usize = 0;
    while i < n
        invariant
            i <= n <= s@.len(),
            r@ == s@.take(i as int),
        decreases n - i,
    {
        r.push(s[i]);
        i += 1;
        assert(r@ =~= s@.take(i as int));
    }
    r
}

/// The bytes of `s` from position `n` on.
pub(crate) fn suffix_of(s: &[u8], n: usize) -> (r: Vec<u8>)
    requires
        n <= s@.len(),
    ensures
        r@ == s@.skip(n as int),
{
    let mut r: Vec<u8> = Vec::with_capacity(s.len() - n);
    let mut i: usize = n;
    while i < s.len()
        invariant
            n <= i <= s@.len(),
            r@ == s@.subrange(n as int, i as int),
        decreases s@.len() - i,
    {
        r.push(s[i]);
        i += 1;
        assert(r@ =~= s@.subrange(n as int, i as int));
    }
    assert(r@ =~= s@.skip(n as int));
    r
}

/// Why a read of an exact number of bytes failed.
#[derive(Debug, Clone, Copy, PartialEq, Eq)]
pub enum RecvError {
    /// The peer closed the connection before all the bytes arrived.
    ConnectionClosed,
}

/// The progress of a read of exactly `wanted` bytes, fed with what each
/// read of the stream returns.
pub struct ExactReader {
    wanted: usize,
    buf: Vec<u8>,
}

impl ExactReader {
    /// How many bytes the read must gather.
    pub closed spec fn wanted_len(&self) -> nat {
        self.wanted as nat
    }

    /// The bytes gathered so far.
    pub closed spec fn received(&self) -> Seq<u8> {
        self.buf@
    }

    /// Never more gathered than wanted.
    pub closed spec fn wf(&self) -> bool {
        self.buf@.len() <= self.wanted
    }

    /// A read of exactly `len` bytes, with nothing gathered yet.
    pub fn new(len: usize) -> (r: ExactReader)
        ensures
            r.wf(),
            r.wanted_len() == len,
            r.received() == Seq::<u8>::empty(),
    {
        ExactReader { wanted: len, buf: Vec::new() }
    }

    /// How many bytes are still missing.
    pub fn remaining(&self) -> (r: usize)
        requires
            self.wf(),
        ensures
            r == self.wanted_len() - self.received().len(),
    {
        self.wanted - self.buf.len()
    }

    /// Whether all the wanted bytes have arrived.
    pub fn is_complete(&self) -> (r: bool)
        requires
            self.wf(),
        ensures
            r == (self.received().len() == self.wanted_len()),
    {
        self.buf.len() == self.wanted
    }

    /// Takes in what one read of the stream returned. An empty chunk while
    /// bytes are still missing means the peer closed the connection: that is
    /// an error, never a short success.
    pub fn on_read(&mut self, chunk: &[u8]) -> (r: Result<(), RecvError>)
        requires
            old(self).wf(),
            chunk@.len() <= old(self).wanted_len() - old(self).received().len(),
        ensures
            final(self).wf(),
            final(self).wanted_len() == old(self).wanted_len(),
            chunk@.len() == 0 && old(self).received().len() < old(self).wanted_len() ==> (
                r == Err::<(), RecvError>(RecvError::ConnectionClosed)
                && final(self).received() == old(self).received()),
            !(chunk@.len() == 0 && old(self).received().len() < old(self).wanted_len()) ==> (
                r == Ok::<(), RecvError>(())
                && final(self).received() == old(self).received() + chunk@),
    {
        if chunk.len() == 0 && self.buf.len() < self.wanted {
            return Err(RecvError::ConnectionClosed);
        }
        let ghost before = self.buf@;
        let mut i: usize = 0;
        while i < chunk.len()
            invariant
                i <= chunk@.len(),
                self.wanted == old(self).wanted,
                before == old(self).buf@,
                self.buf@ == before + chunk@.take(i as int),
                before.len() + chunk@.len() <= self.wanted,
            decreases chunk@.len() - i,
        {
            self.buf.push(chunk[i]);
            i += 1;
            assert(self.buf@ =~= before + chunk@.take(i as int));
        }
        assert(chunk@.take(i as int) =~= chunk@);
        Ok(())
    }

    /// The gathered bytes.
    pub fn into_bytes(self) -> (r: Vec<u8>)
        ensures
            r@ == self.received(),
    {
        self.buf
    }
}

} // verus!
