//! The session's decisions: which keystream goes each way, what to do with a
//! line of operator input, and how inbound frames become messages.

use crate::cipher::{keystream, lcg_advance, xor_with_keystream, xor_seq, Lcg};
use crate::net::{be_value, encode_frame, frame_bytes, frame_len, prefix_of};
use vstd::prelude::*;

verus! {

/// Which side of the connection a party plays. The server is the responder,
/// the client the initiator; the role fixes which keystream sends.
#[derive(Debug, Clone, Copy)]
pub enum Role {
    Server,
    Client,
}

impl Role {
    /// Whether this side sends its public value first in the handshake.
    pub fn sends_first(&self) -> (r: bool)
        ensures
            r == (*self is Server),
    {
        match self {
            Role::Server => true,
            Role::Client => false,
        }
    }
}

/// Line feed.
pub const LF: u8 = 10;

/// Carriage return.
pub const CR: u8 = 13;

/// `line` without its trailing line terminators.
pub open spec fn trim_line_end(line: Seq<u8>) -> Seq<u8>
    decreases line.len(),
{
    if line.len() > 0 && (line.last() == LF || line.last() == CR) {
        trim_line_end(line.drop_last())
    } else {
        line
    }
}

/// The bytes of the command that ends the outbound loop: `/quit`.
pub open spec fn quit_command() -> Seq<u8> {
    seq![47u8, 113u8, 117u8, 105u8, 116u8]
}

/// What the outbound loop does with one line of operator input.
#[derive(Debug)]
pub enum OutboundAction {
    /// Nothing to send: prompt again.
    Skip,
    /// End the outbound loop without telling the peer.
    Quit,
    /// Write these bytes (one whole frame) to the peer.
    Send(Vec<u8>),
}

/// The length of `line` once its trailing line terminators are cut.
fn trimmed_len(line: &[u8]) -> (r: usize)
    ensures
        r <= line@.len(),
        trim_line_end(line@) == line@.take(r as int),
{
    let mut n: usize = line.len();
    assert(line@.take(n as int) =~= line@);
    while n > 0 && (line[n - 1] == LF || line[n - 1] == CR)
        invariant
            n <= line@.len(),
            trim_line_end(line@) == trim_line_end(line@.take(n as int)),
        decreases n,
    {
        assert(line@.take(n as int).drop_last() =~= line@.take(n - 1));
        n -= 1;
    }
    n
}

/// Whether `t` is the quit command.
fn is_quit(t: &[u8]) -> (r: bool)
    ensures
        r == (t@ == quit_command()),
{
    let q: [u8; 5] = [47u8, 113u8, 117u8, 105u8, 116u8];
    if t.len() != 5 {
        return false;
    }
    let mut i: usize = 0;
    while i < 5
        invariant
            t@.len() == 5,
            q@ == quit_command(),
            forall|j: int| 0 <= j < i ==> t@[j] == quit_command()[j],
        decreases 5 - i,
    {
        if t[i] != q[i] {
            return false;
        }
        i += 1;
    }
    assert(t@ =~= quit_command());
    true
}

/// Decides what to do with one line of operator input. An empty line (once
/// its terminators are cut) is skipped, `/quit` ends the loop, and any other
/// line is encrypted with the sending keystream and framed. Only a sent line
/// advances the keystream, by exactly its length.
pub fn outbound_step(line: &[u8], ks: &mut Lcg) -> (r: OutboundAction)
    requires
        line@.len() <= u32::MAX,
    ensures
        trim_line_end(line@).len() == 0 ==> (r is Skip && final(ks)@ == old(ks)@),
        trim_line_end(line@) == quit_command() ==> (r is Quit && final(ks)@ == old(ks)@),
        trim_line_end(line@).len() > 0 && trim_line_end(line@) != quit_command() ==> (
            r is Send
            && r->Send_0@ == frame_bytes(xor_seq(trim_line_end(line@), keystream(old(ks)@, trim_line_end(line@).len())))
            && final(ks)@ == lcg_advance(old(ks)@, trim_line_end(line@).len())),
{
    let n = trimmed_len(line);
    if n == 0 {
        return OutboundAction::Skip;
    }
    let t = prefix_of(line, n);
    if is_quit(t.as_slice()) {
        return OutboundAction::Quit;
    }
    let cipher = xor_with_keystream(t.as_slice(), ks);
    OutboundAction::Send(encode_frame(cipher.as_slice()))
}

/// The inbound loop's state: the receiving keystream, and the length of the
/// payload that the last header announced (zero while a header is awaited).
pub struct Receiver {
    ks: Lcg,
    pending: usize,
}

impl Receiver {
    /// The receiving keystream's state.
    pub closed spec fn keystream_state(&self) -> u32 {
        self.ks@
    }

    /// The announced payload length still to be read; zero when a header is next.
    pub closed spec fn pending(&self) -> nat {
        self.pending as nat
    }

    /// How many bytes the next read must gather.
    pub open spec fn want(&self) -> nat {
        if self.pending() == 0 {
            4
        } else {
            self.pending()
        }
    }

    /// A receiver that awaits a header and decrypts with `ks`.
    pub fn new(ks: Lcg) -> (r: Receiver)
        ensures
            r.keystream_state() == ks@,
            r.pending() == 0,
    {
        Receiver { ks, pending: 0 }
    }

    /// How many bytes to read next: four for a header, else the payload's length.
    pub fn wanted(&self) -> (r: usize)
        ensures
            r == self.want(),
    {
        if self.pending == 0 {
            4
        } else {
            self.pending
        }
    }

    /// Takes in exactly `wanted()` bytes. A header announces the next payload;
    /// a zero-length header is consumed and another header awaited. A payload
    /// is decrypted with the receiving keystream and surfaced as a message.
    pub fn on_bytes(&mut self, bytes: &[u8]) -> (r: Option<Vec<u8>>)
        requires
            bytes@.len() == old(self).want(),
        ensures
            old(self).pending() == 0 ==> (
                r is None
                && final(self).pending() == be_value(bytes@)
                && final(self).keystream_state() == old(self).keystream_state()),
            old(self).pending() > 0 ==> (
                r is Some
                && r->Some_0@ == xor_seq(bytes@, keystream(old(self).keystream_state(), bytes@.len()))
                && final(self).pending() == 0
                && final(self).keystream_state() == lcg_advance(old(self).keystream_state(), bytes@.len())),
    {
        if self.pending == 0 {
            self.pending = frame_len(bytes) as usize;
            None
        } else {
            let plain = xor_with_keystream(bytes, &mut self.ks);
            self.pending = 0;
            Some(plain)
        }
    }
}

} // verus!
