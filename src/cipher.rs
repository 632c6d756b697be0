//! The keystream generator and the XOR cipher built on it.

use crate::chat::Role;
use vstd::prelude::*;

verus! {

/// Multiplier of the generator's recurrence.
pub const LCG_A: u64 = 1103515245;

/// Increment of the generator's recurrence.
pub const LCG_C: u64 = 12345;

/// Constant mixed into the secret for the server's sending direction.
pub const S1: u64 = 0xAAAA_AAAA_AAAA_AAAA;

/// Constant mixed into the secret for the server's receiving direction.
pub const S2: u64 = 0x5555_5555_5555_5555;

/// The state that a seed gives: its low 32 bits.
pub open spec fn seed_state(seed: u64) -> u32 {
    (seed as int % 0x1_0000_0000) as u32
}

/// One step of the recurrence `s' = (A * s + C) mod 2^32`.
pub open spec fn lcg_step(s: u32) -> u32 {
    ((LCG_A * s + LCG_C) % 0x1_0000_0000) as u32
}

/// The state after `n` steps from `s`.
pub open spec fn lcg_advance(s: u32, n: nat) -> u32
    decreases n,
{
    if n == 0 {
        s
    } else {
        lcg_step(lcg_advance(s, (n - 1) as nat))
    }
}

/// The first `n` keystream bytes from state `s`: byte `i` is the low eight
/// bits of the state after `i + 1` steps.
pub open spec fn keystream(s: u32, n: nat) -> Seq<u8> {
    Seq::new(n, |i: int| (lcg_advance(s, (i + 1) as nat) % 256) as u8)
}

/// Byte-wise XOR of `data` with the leading bytes of `ks`.
pub open spec fn xor_seq(data: Seq<u8>, ks: Seq<u8>) -> Seq<u8> {
    Seq::new(data.len(), |i: int| data[i] ^ ks[i])
}

/// The seeds of the (send, receive) keystreams for a role.
pub open spec fn stream_seeds(secret: u64, role: Role) -> (u64, u64) {
    match role {
        Role::Server => (secret ^ S1, secret ^ S2),
        Role::Client => (secret ^ S2, secret ^ S1),
    }
}

/// A linear congruential generator over a 32-bit state.
#[derive(Debug, Clone)]
pub struct Lcg {
    state: u32,
}

impl View for Lcg {
    type V = u32;

    closed spec fn view(&self) -> u32 {
        self.state
    }
}

impl Lcg {
    /// A generator seeded with the low 32 bits of `seed`.
    pub fn new(seed: u64) -> (r: Lcg)
        ensures
            r@ == seed_state(seed),
    {
        assert(seed & 0xFFFF_FFFF == seed % 0x1_0000_0000) by (bit_vector);
        Lcg { state: (seed & 0xFFFF_FFFF) as u32 }
    }

    /// Advances the state one step and returns its low eight bits.
    pub fn next_byte(&mut self) -> (r: u8)
        ensures
            final(self)@ == lcg_step(old(self)@),
            r == (final(self)@ % 256) as u8,
    {
        let next: u64 = (LCG_A * self.state as u64 + LCG_C) % 0x1_0000_0000;
        self.state = next as u32;
        let s = self.state;
        assert(s & 0xFF == s % 256) by (bit_vector);
        (self.state & 0xFF) as u8
    }
}

/// XORs `data` with the next `data.len()` keystream bytes of `ks`, advancing
/// `ks` by exactly that many steps.
pub fn xor_with_keystream(data: &[u8], ks: &mut Lcg) -> (r: Vec<u8>)
    ensures
        r@ == xor_seq(data@, keystream(old(ks)@, data@.len())),
        final(ks)@ == lcg_advance(old(ks)@, data@.len()),
{
    let ghost s0 = ks@;
    let mut out: Vec<u8> = Vec::with_capacity(data.len());
    let mut i: usize = 0;
    while i < data.len()
        invariant
            i <= data@.len(),
            ks@ == lcg_advance(s0, i as nat),
            out@.len() == i,
            forall|j: int| 0 <= j < i ==> out@[j] == data@[j] ^ keystream(s0, data@.len())[j],
        decreases data@.len() - i,
    {
        let k = ks.next_byte();
        out.push(data[i] ^ k);
        i += 1;
    }
    assert(out@ =~= xor_seq(data@, keystream(s0, data@.len())));
    out
}

/// The (send, receive) generators of a party in `role`, seeded from the
/// shared secret. One party's sending stream is the other's receiving stream.
pub fn make_streams(secret: u64, role: Role) -> (r: (Lcg, Lcg))
    ensures
        r.0@ == seed_state(stream_seeds(secret, role).0),
        r.1@ == seed_state(stream_seeds(secret, role).1),
{
    match role {
        Role::Server => (Lcg::new(secret ^ S1), Lcg::new(secret ^ S2)),
        Role::Client => (Lcg::new(secret ^ S2), Lcg::new(secret ^ S1)),
    }
}

/// Two generators in the same state yield the same bytes when advanced the
/// same number of times.
pub proof fn lemma_keystream_deterministic(a: Lcg, b: Lcg, n: nat)
    requires
        a@ == b@,
    ensures
        keystream(a@, n) == keystream(b@, n),
        lcg_advance(a@, n) == lcg_advance(b@, n),
{
}

/// Applying the keystream of a seed twice, from fresh generators seeded alike,
/// gives back the original bytes.
pub proof fn lemma_xor_round_trip(data: Seq<u8>, seed: u64)
    ensures
        xor_seq(xor_seq(data, keystream(seed_state(seed), data.len())), keystream(seed_state(seed), data.len())) == data,
{
    let ks = keystream(seed_state(seed), data.len());
    let once = xor_seq(data, ks);
    assert forall|i: int| 0 <= i < data.len() implies #[trigger] xor_seq(once, ks)[i] == data[i] by {
        let x = data[i];
        let k = ks[i];
        assert((x ^ k) ^ k == x) by (bit_vector);
    }
    assert(xor_seq(once, ks) =~= data);
}

/// The server's sending stream is the client's receiving stream, and the other
/// way round, for every secret.
pub proof fn lemma_role_symmetry(secret: u64)
    ensures
        stream_seeds(secret, Role::Server).0 == stream_seeds(secret, Role::Client).1,
        stream_seeds(secret, Role::Server).1 == stream_seeds(secret, Role::Client).0,
{
}

} // verus!
