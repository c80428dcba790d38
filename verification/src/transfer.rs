//! Transfer executor bookkeeping: byte-count progress toward the declared
//! offer size, and the dotted-quad form of the offered address.

use vstd::prelude::*;

use vstd::math::min;

use crate::classify::TransferDescriptor;
use crate::text::{dec_chars, push_decimal};

verus! {

/// A fatal transport condition: the peer closed the connection before the
/// declared size was reached.
#[derive(Debug, PartialEq, Eq, Structural)]
pub enum TransferError {
    PeerClosed,
}

/// Progress of a file transfer: a monotonically growing byte count, never
/// beyond the declared size.
pub struct Transfer {
    size: u64,
    received: u64,
}

impl Transfer {
    /// The declared size in bytes.
    pub closed spec fn size_spec(&self) -> u64 {
        self.size
    }

    /// Bytes accounted for so far.
    pub closed spec fn progress_spec(&self) -> u64 {
        self.received
    }

    /// Progress never exceeds the declared size.
    pub open spec fn wf(&self) -> bool {
        self.progress_spec() <= self.size_spec()
    }

    /// All declared bytes have arrived.
    pub open spec fn complete(&self) -> bool {
        self.progress_spec() == self.size_spec()
    }

    pub fn new(descriptor: &TransferDescriptor) -> (t: Transfer)
        ensures
            t.wf(),
            t.size_spec() == descriptor.size,
            t.progress_spec() == 0,
    {
        Transfer { size: descriptor.size, received: 0 }
    }

    pub fn size(&self) -> (r: u64)
        ensures
            r == self.size_spec(),
    {
        self.size
    }

    pub fn progress(&self) -> (r: u64)
        ensures
            r == self.progress_spec(),
    {
        self.received
    }

    pub fn is_complete(&self) -> (r: bool)
        ensures
            r == self.complete(),
    {
        self.received == self.size
    }

    /// Account for one read of `count` bytes from the peer. Returns how many
    /// of them belong to the transfer (the rest would overshoot the declared
    /// size). A zero-length read means the peer closed the connection before
    /// the declared size was reached: a fatal transport error.
    pub fn advance(&mut self, count: usize) -> (r: Result<usize, TransferError>)
        requires
            old(self).wf(),
            !old(self).complete(),
        ensures
            final(self).wf(),
            final(self).size_spec() == old(self).size_spec(),
            final(self).progress_spec() >= old(self).progress_spec(),
            (r is Ok) <==> count > 0,
            (r matches Ok(take) ==> take as int == if count as int
                <= old(self).size_spec() - old(self).progress_spec() {
                count as int
            } else {
                old(self).size_spec() - old(self).progress_spec()
            } && final(self).progress_spec() == old(self).progress_spec() + take),
            (r matches Err(e) ==> e == TransferError::PeerClosed && count == 0
                && final(self).progress_spec() == old(self).progress_spec()),
    {
        if count == 0 {
            return Err(TransferError::PeerClosed);
        }
        let remaining = self.size - self.received;
        let take: usize = if count as u64 <= remaining {
            count
        } else {
            proof {
                assert(remaining <= count as u64);
            }
            remaining as usize
        };
        self.received = self.received + take as u64;
        Ok(take)
    }
}

/// The bytes a whole run of reads persists: of each chunk the peer
/// delivers, the prefix granted for storage — whose length is exactly what
/// `advance` returns for that read — until the declared size is reached.
pub open spec fn stored_bytes(size: nat, received: nat, chunks: Seq<Seq<u8>>) -> Seq<u8>
    decreases chunks.len(),
{
    if chunks.len() == 0 || received >= size {
        Seq::empty()
    } else {
        let take = min(chunks[0].len() as int, size - received);
        chunks[0].take(take) + stored_bytes(size, (received + take) as nat, chunks.drop_first())
    }
}

proof fn lemma_stored_bytes_is_prefix(size: nat, received: nat, chunks: Seq<Seq<u8>>)
    requires
        received <= size,
    ensures
        stored_bytes(size, received, chunks) == chunks.flatten().take(
            min(size - received, chunks.flatten().len() as int),
        ),
    decreases chunks.len(),
{
    let f = chunks.flatten();
    if chunks.len() == 0 {
        assert(f.take(min(size - received, f.len() as int)) =~= Seq::<u8>::empty());
    } else if received >= size {
        assert(f.take(min(size - received, f.len() as int)) =~= Seq::<u8>::empty());
    } else {
        let c0 = chunks[0];
        let rest = chunks.drop_first();
        let fr = rest.flatten();
        assert(chunks.first() == c0);
        assert(f == c0 + fr);
        let take = min(c0.len() as int, size - received);
        lemma_stored_bytes_is_prefix(size, (received + take) as nat, rest);
        if received + take >= size {
            assert(stored_bytes(size, (received + take) as nat, rest) =~= Seq::<u8>::empty());
        }
        assert(stored_bytes(size, received, chunks) =~= f.take(
            min(size - received, f.len() as int),
        ));
    }
}

/// Transfer completion over a whole run of reads: viewing the peer's stream
/// as the concatenation of the delivered chunks, the bytes granted for
/// storage by `advance`, appended in order, are exactly the stream's first
/// `size` bytes — all of them once the stream delivers at least `size`
/// bytes, and never a byte more.
pub proof fn lemma_transfer_stores_exact_prefix(size: nat, chunks: Seq<Seq<u8>>)
    ensures
        stored_bytes(size, 0, chunks) == chunks.flatten().take(
            min(size as int, chunks.flatten().len() as int),
        ),
        chunks.flatten().len() >= size ==> stored_bytes(size, 0, chunks) == chunks.flatten().take(
            size as int,
        ),
{
    lemma_stored_bytes_is_prefix(size, 0, chunks);
}

/// The big-endian octets of a packed 32-bit IPv4 address.
pub open spec fn octets(addr: u32) -> (nat, nat, nat, nat) {
    (
        (addr as nat) / 16777216,
        ((addr as nat) / 65536) % 256,
        ((addr as nat) / 256) % 256,
        (addr as nat) % 256,
    )
}

/// The dotted-quad notation of a packed 32-bit IPv4 address.
pub open spec fn dotted_quad(addr: u32) -> Seq<char> {
    dec_chars(octets(addr).0) + seq!['.'] + dec_chars(octets(addr).1) + seq!['.']
        + dec_chars(octets(addr).2) + seq!['.'] + dec_chars(octets(addr).3)
}

/// Decode a packed big-endian 32-bit IPv4 address to its dotted-quad text.
pub fn address_string(addr: u32) -> (r: String)
    ensures
        r@ == dotted_quad(addr),
{
    let b0 = addr / 16777216;
    let b1 = (addr / 65536) % 256;
    let b2 = (addr / 256) % 256;
    let b3 = addr % 256;
    let mut s = String::new();
    push_decimal(&mut s, b0 as u64);
    s.append(".");
    push_decimal(&mut s, b1 as u64);
    s.append(".");
    push_decimal(&mut s, b2 as u64);
    s.append(".");
    push_decimal(&mut s, b3 as u64);
    proof {
        reveal_strlit(".");
        assert(s@ =~= dotted_quad(addr));
    }
    s
}

} // verus!
