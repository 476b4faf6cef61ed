//! The bus boundary of the transport driver: the port trait through which
//! all bus transactions go, the packet-header framing rules, and a
//! mathematical model of what a sequence of read transactions delivers.

use vstd::prelude::*;

pub mod i2c;
pub mod mock_i2c_port;

verus! {

/// Number of bytes in the packet header that opens every transfer.
pub const PACKET_HEADER_LENGTH: usize = 4;

/// Ceiling on the number of bytes one bus read transaction may carry.
pub const MAX_SEGMENT_READ: usize = 240;

/// Byte `i` of `s`, or zero past the end: a transaction that asks for more
/// bytes than the device has to say is filled out with zeros.
pub open spec fn byte_at(s: Seq<u8>, i: int) -> u8 {
    if 0 <= i < s.len() {
        s[i]
    } else {
        0
    }
}

/// The length field of a packet header: the first two bytes, little-endian,
/// with the continuation flag (bit 15) masked out.
pub open spec fn parsed_len(h: Seq<u8>) -> nat {
    (byte_at(h, 0) as nat) + 256 * ((byte_at(h, 1) as nat) % 128)
}

/// What `parse_packet_header` returns: zero for a slice shorter than a
/// header, else the masked length field.
pub open spec fn spec_parse_packet_header(h: Seq<u8>) -> nat {
    if h.len() < PACKET_HEADER_LENGTH {
        0
    } else {
        parsed_len(h)
    }
}

/// A sequence of all-zero bytes.
pub open spec fn seq_zeros(n: nat) -> Seq<u8> {
    Seq::new(n, |i: int| 0u8)
}

/// `buf` with the bytes of `s` laid over it starting at offset `at`.
pub open spec fn overwrite(buf: Seq<u8>, at: int, s: Seq<u8>) -> Seq<u8> {
    Seq::new(buf.len(), |i: int| if at <= i < at + s.len() {
        s[i - at]
    } else {
        buf[i]
    })
}

/// `buf` after one read transaction of `n` bytes: the front planned block,
/// zero-filled up to `n` if it is shorter, lands in the first `n` bytes; the
/// rest of `buf` keeps its old bytes.  With nothing planned the device has
/// nothing to say and the transaction reads zeros.
pub open spec fn served_bytes(pending: Seq<Seq<u8>>, buf: Seq<u8>, n: int) -> Seq<u8> {
    let block = if pending.len() > 0 {
        pending[0]
    } else {
        Seq::<u8>::empty()
    };
    Seq::new(buf.len(), |i: int| if i < n {
        byte_at(block, i)
    } else {
        buf[i]
    })
}

/// The planned blocks left after one read transaction: the front block is
/// consumed whole; an idle device consumes nothing.
pub open spec fn served_pending(pending: Seq<Seq<u8>>) -> Seq<Seq<u8>> {
    if pending.len() > 0 {
        pending.drop_first()
    } else {
        pending
    }
}

/// Every planned block's header claims a length that fits in a buffer of
/// `cap` bytes.
pub open spec fn plan_fits(pending: Seq<Seq<u8>>, cap: int) -> bool {
    forall|i: int| 0 <= i < pending.len() ==> parsed_len(#[trigger] pending[i]) <= cap
}

/// The header that opens a continuation segment: the length field carries
/// `total` with the continuation flag (bit 15) set, followed by the packet's
/// own channel and sequence bytes.
pub open spec fn cont_header(total: int, b2: u8, b3: u8) -> Seq<u8> {
    seq![(total % 256) as u8, ((total / 256) % 128 + 128) as u8, b2, b3]
}

/// The continuation segments that deliver the rest of packet `p` once
/// `served` of its body bytes have already gone out.  Each segment opens
/// with a fresh continuation header naming the bytes still owed, and
/// carries up to `MAX_SEGMENT_READ - PACKET_HEADER_LENGTH` body bytes.
pub open spec fn cont_segments(p: Seq<u8>, served: int) -> Seq<Seq<u8>>
    decreases p.len() - served,
{
    if p.len() < 5 || served < 0 || served >= p.len() - 4 {
        Seq::<Seq<u8>>::empty()
    } else {
        let rem = p.len() - 4 - served;
        let k = if rem > 236 {
            236int
        } else {
            rem
        };
        let seg = cont_header(rem + 4, p[2], p[3]) + p.subrange(4 + served, 4 + served + k);
        if k == rem {
            seq![seg]
        } else {
            seq![seg] + cont_segments(p, served + k)
        }
    }
}

/// All the read transactions that deliver packet `p` in order: the header
/// peek, then either the whole packet in one transaction or the first full
/// segment followed by continuation segments.
pub open spec fn segment_plan(p: Seq<u8>) -> Seq<Seq<u8>> {
    if p.len() < 240 {
        seq![p.take(4), p]
    } else {
        seq![p.take(4), p.take(240)] + cont_segments(p, 236)
    }
}

/// A well-formed packet: more than a bare header, short enough for the
/// 15-bit length field, and its header's length field states the packet's
/// own length.
pub open spec fn wf_packet(p: Seq<u8>) -> bool {
    4 < p.len() < 0x8000 && parsed_len(p) == p.len()
}

/// The bus transaction port the transport reader drives.  An implementation
/// wraps a bus whose device is modelled by the blocks of bytes that coming
/// read transactions will deliver, in order.
pub trait I2cPort: Sized {
    /// The error the bus reports when a transaction fails.
    type CommErr;

    /// The byte blocks that coming read transactions will deliver, in
    /// order.  An implementation overrides this with its own model; the
    /// body here only lets unverified implementations leave it out.
    open spec fn pending(&self) -> Seq<Seq<u8>> {
        Seq::<Seq<u8>>::empty()
    }

    /// The byte blocks written out so far, in order.  An implementation
    /// overrides this with its own model.
    open spec fn sent(&self) -> Seq<Seq<u8>> {
        Seq::<Seq<u8>>::empty()
    }

    /// How many read transactions have been issued so far.  An
    /// implementation overrides this with its own model.
    open spec fn reads_issued(&self) -> nat {
        0
    }

    /// One bounded read transaction: fill the first `n` bytes of `buf` from
    /// the device at `address`.  On success the front planned block, padded
    /// with zeros to `n` bytes, lands in `buf`; a failed transaction leaves
    /// the device model unconstrained.
    fn bus_read(&mut self, address: u8, buf: &mut Vec<u8>, n: usize) -> (r: Result<
        (),
        Self::CommErr,
    >)
        requires
            PACKET_HEADER_LENGTH <= n <= MAX_SEGMENT_READ,
            n <= old(buf).len(),
        ensures
            final(buf)@.len() == old(buf)@.len(),
            final(self).sent() == old(self).sent(),
            final(self).reads_issued() == old(self).reads_issued() + 1,
            r is Ok ==> final(buf)@ == served_bytes(old(self).pending(), old(buf)@, n as int),
            r is Ok ==> final(self).pending() == served_pending(old(self).pending()),
    ;

    /// One bounded write transaction: send all of `bytes` to the device at
    /// `address`.  On success the block is appended to the log of sent
    /// blocks; what the device will deliver is unchanged either way.
    fn bus_write(&mut self, address: u8, bytes: &Vec<u8>) -> (r: Result<(), Self::CommErr>)
        ensures
            final(self).pending() == old(self).pending(),
            final(self).reads_issued() == old(self).reads_issued(),
            r is Ok ==> final(self).sent() == old(self).sent().push(bytes@),
            r is Err ==> final(self).sent() == old(self).sent(),
    ;
}

/// A source of blocking delays, counted in milliseconds.
pub trait DelaySource: Sized {
    /// Total milliseconds slept so far.  An implementation overrides this
    /// with its own model; the body here only lets unverified
    /// implementations leave it out.
    open spec fn slept(&self) -> nat {
        0
    }

    /// Pause execution for `ms` milliseconds.
    fn delay_ms(&mut self, ms: u8)
        ensures
            final(self).slept() == old(self).slept() + ms,
    ;
}

/// Decode the masked total packet length from the leading header bytes.
/// This cannot fail: malformed input decodes to some length, possibly
/// zero, which callers must check before trusting it.
pub fn parse_packet_header(packet: &Vec<u8>) -> (len: usize)
    ensures
        len == spec_parse_packet_header(packet@),
        len < 0x8000,
{
    if packet.len() < PACKET_HEADER_LENGTH {
        return 0;
    }
    let b0 = packet[0];
    let b1 = packet[1];
    let masked = b1 & 0x7F;
    proof {
        assert(b1 & 0x7F == b1 % 128) by (bit_vector);
    }
    (b0 as usize) + (masked as usize) * 256
}

} // verus!
