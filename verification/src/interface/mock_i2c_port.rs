//! A bus port for tests: read transactions serve planned byte blocks in
//! order, writes are logged, and a queued packet is split into exactly the
//! transactions a segmenting device would serve.

use vstd::prelude::*;
use vstd::pervasive::VecAdditionalExecFns;

use crate::interface::DelaySource;
use crate::interface::I2cPort;
use crate::interface::MAX_SEGMENT_READ;
use crate::interface::PACKET_HEADER_LENGTH;
use crate::interface::byte_at;
use crate::interface::cont_header;
use crate::interface::cont_segments;
use crate::interface::segment_plan;
use crate::interface::served_bytes;
use crate::interface::served_pending;

verus! {

/// Make a fresh copy of a byte buffer.
#[verifier::loop_isolation(false)]
fn clone_bytes(src: &Vec<u8>) -> (r: Vec<u8>)
    ensures
        r@ == src@,
{
    let mut out: Vec<u8> = Vec::new();
    let n = src.len();
    let mut i: usize = 0;
    while i < n
        invariant
            i <= n,
            out@.len() == i,
            forall|j: int| 0 <= j < i ==> out@[j] == src@[j],
        decreases n - i,
    {
        out.push(src[i]);
        i = i + 1;
    }
    proof {
        assert(out@ =~= src@);
    }
    out
}

/// Copy the first `n` bytes of a buffer.
#[verifier::loop_isolation(false)]
fn copy_prefix(src: &Vec<u8>, n: usize) -> (r: Vec<u8>)
    requires
        n <= src@.len(),
    ensures
        r@ == src@.take(n as int),
{
    let mut out: Vec<u8> = Vec::new();
    let mut i: usize = 0;
    while i < n
        invariant
            i <= n,
            out@.len() == i,
            forall|j: int| 0 <= j < i ==> out@[j] == src@[j],
        decreases n - i,
    {
        out.push(src[i]);
        i = i + 1;
    }
    proof {
        assert(out@ =~= src@.take(n as int));
    }
    out
}

/// A bus port for tests.  Reads consume `available_packets` front first,
/// one block per transaction; writes land in `sent_packets`.
pub struct FakeI2cPort {
    /// The byte blocks coming read transactions will deliver, in order.
    pub available_packets: Vec<Vec<u8>>,
    /// Every block written through the port, in order.
    pub sent_packets: Vec<Vec<u8>>,
    /// Read transactions issued so far, saturating.
    pub read_calls: u64,
    reads_model: Ghost<nat>,
}

impl FakeI2cPort {
    /// A port with nothing planned and nothing logged.
    pub fn new() -> (r: Self)
        ensures
            r.pending() == Seq::<Seq<u8>>::empty(),
            r.sent() == Seq::<Seq<u8>>::empty(),
            r.reads_issued() == 0,
    {
        let r = FakeI2cPort {
            available_packets: Vec::new(),
            sent_packets: Vec::new(),
            read_calls: 0,
            reads_model: Ghost(0nat),
        };
        proof {
            assert(r.pending() =~= Seq::<Seq<u8>>::empty());
            assert(r.sent() =~= Seq::<Seq<u8>>::empty());
        }
        r
    }

    /// Queue one raw block for a single coming read transaction.
    pub fn add_raw_block(&mut self, block: &Vec<u8>)
        ensures
            final(self).pending() == old(self).pending().push(block@),
            final(self).sent() == old(self).sent(),
            final(self).reads_issued() == old(self).reads_issued(),
    {
        let ghost pending0 = self.pending();
        let copy = clone_bytes(block);
        self.available_packets.push(copy);
        proof {
            assert(self.pending() =~= pending0.push(block@));
        }
    }

    /// Queue one whole packet for reading: plan the header peek and then
    /// the segment transactions that deliver the packet, exactly as the
    /// segmenting device serves them — the whole packet in one transaction
    /// if it fits, else a full first segment and continuation segments
    /// that each open with a fresh continuation header.
    #[verifier::loop_isolation(false)]
    pub fn add_available_packet(&mut self, packet: &Vec<u8>)
        requires
            PACKET_HEADER_LENGTH < packet@.len() < 0x8000,
        ensures
            final(self).pending() == old(self).pending() + segment_plan(packet@),
            final(self).sent() == old(self).sent(),
            final(self).reads_issued() == old(self).reads_issued(),
    {
        let ghost pending0 = self.pending();
        let p_len = packet.len();

        // the header peek transaction
        let mut header: Vec<u8> = Vec::new();
        header.push(packet[0]);
        header.push(packet[1]);
        header.push(packet[2]);
        header.push(packet[3]);
        proof {
            assert(header@ =~= packet@.take(4));
        }
        self.available_packets.push(header);

        if p_len < MAX_SEGMENT_READ {
            // the whole packet fits one transaction
            let whole = clone_bytes(packet);
            self.available_packets.push(whole);
            proof {
                assert(self.pending() =~= pending0 + segment_plan(packet@));
            }
        } else {
            // a full first segment, then continuation segments
            let first = copy_prefix(packet, MAX_SEGMENT_READ);
            self.available_packets.push(first);
            let ghost base = pending0 + seq![packet@.take(4), packet@.take(240)];
            proof {
                assert(self.pending() =~= base);
            }

            let mut served: usize = MAX_SEGMENT_READ - PACKET_HEADER_LENGTH;
            while served < p_len - PACKET_HEADER_LENGTH
                invariant
                    MAX_SEGMENT_READ - PACKET_HEADER_LENGTH <= served <= p_len
                        - PACKET_HEADER_LENGTH,
                    self.pending() + cont_segments(packet@, served as int) == base + cont_segments(
                        packet@,
                        236,
                    ),
                    self.sent() == old(self).sent(),
                    self.reads_issued() == old(self).reads_issued(),
                decreases p_len - served,
            {
                let ghost pend_h = self.pending();
                let ghost served_h = served as int;
                let rem = p_len - PACKET_HEADER_LENGTH - served;
                let k = if rem > MAX_SEGMENT_READ - PACKET_HEADER_LENGTH {
                    MAX_SEGMENT_READ - PACKET_HEADER_LENGTH
                } else {
                    rem
                };
                let total = rem + PACKET_HEADER_LENGTH;

                let mut seg: Vec<u8> = Vec::new();
                let lo = (total % 256) as u8;
                let hi = ((total / 256) + 128) as u8;
                seg.push(lo);
                seg.push(hi);
                seg.push(packet[2]);
                seg.push(packet[3]);
                proof {
                    assert(total / 256 < 128);
                    assert(seg@ =~= cont_header(total as int, packet@[2], packet@[3]));
                }
                let mut j: usize = 0;
                while j < k
                    invariant
                        j <= k,
                        served + k <= p_len - PACKET_HEADER_LENGTH,
                        seg@.len() == 4 + j,
                        seg@ == cont_header(total as int, packet@[2], packet@[3])
                            + packet@.subrange(4 + served, 4 + served + j),
                    decreases k - j,
                {
                    seg.push(packet[PACKET_HEADER_LENGTH + served + j]);
                    proof {
                        assert(seg@ =~= cont_header(total as int, packet@[2], packet@[3])
                            + packet@.subrange(4 + served, 4 + served + j + 1));
                    }
                    j = j + 1;
                }
                self.available_packets.push(seg);
                served = served + k;
                proof {
                    let p = packet@;
                    let seg0 = cont_header(rem + 4, p[2], p[3]) + p.subrange(
                        4 + served_h,
                        4 + served_h + k,
                    );
                    assert(seg@ == seg0);
                    assert(self.pending() =~= pend_h.push(seg@));
                    if k == rem {
                        assert(cont_segments(p, served_h) == seq![seg0]);
                        assert(cont_segments(p, served as int) =~= Seq::<Seq<u8>>::empty());
                        assert(pend_h.push(seg0) + Seq::<Seq<u8>>::empty() =~= pend_h + seq![seg0]);
                        assert(pend_h + cont_segments(p, served_h) =~= pend_h + seq![seg0]);
                    } else {
                        assert(cont_segments(p, served_h) == seq![seg0] + cont_segments(
                            p,
                            served_h + k,
                        ));
                        assert(pend_h.push(seg0) + cont_segments(p, served as int) =~= pend_h + (
                        seq![seg0] + cont_segments(p, served_h + k)));
                        assert(pend_h + cont_segments(p, served_h) =~= pend_h + (seq![seg0]
                            + cont_segments(p, served_h + k)));
                    }
                }
            }
            proof {
                let p = packet@;
                assert(cont_segments(p, served as int) =~= Seq::<Seq<u8>>::empty());
                assert(self.pending() + Seq::<Seq<u8>>::empty() =~= self.pending());
                assert(segment_plan(p) == seq![p.take(4), p.take(240)] + cont_segments(p, 236));
                assert(pending0 + (seq![p.take(4), p.take(240)] + cont_segments(p, 236)) =~= (
                pending0 + seq![p.take(4), p.take(240)]) + cont_segments(p, 236));
                assert(self.pending() =~= pending0 + segment_plan(p));
            }
        }
    }
}

impl I2cPort for FakeI2cPort {
    type CommErr = ();

    closed spec fn pending(&self) -> Seq<Seq<u8>> {
        self.available_packets@.map_values(|v: Vec<u8>| v@)
    }

    closed spec fn sent(&self) -> Seq<Seq<u8>> {
        self.sent_packets@.map_values(|v: Vec<u8>| v@)
    }

    closed spec fn reads_issued(&self) -> nat {
        self.reads_model@
    }

    #[verifier::loop_isolation(false)]
    fn bus_read(&mut self, address: u8, buf: &mut Vec<u8>, n: usize) -> (r: Result<(), ()>) {
        let ghost pending0 = self.pending();
        let ghost buf0 = buf@;
        self.reads_model = Ghost(self.reads_model@ + 1);
        self.read_calls = self.read_calls.saturating_add(1);

        if self.available_packets.len() == 0 {
            let mut i: usize = 0;
            while i < n
                invariant
                    i <= n,
                    n <= buf@.len(),
                    buf@.len() == buf0.len(),
                    forall|j: int| 0 <= j < i ==> buf@[j] == 0u8,
                    forall|j: int| i <= j < buf0.len() ==> buf@[j] == buf0[j],
                decreases n - i,
            {
                buf.set(i, 0);
                i = i + 1;
            }
            proof {
                assert(buf@ =~= served_bytes(pending0, buf0, n as int));
                assert(self.pending() =~= served_pending(pending0));
            }
            Ok(())
        } else {
            let block = self.available_packets.remove(0);
            let block_len = block.len();
            let mut i: usize = 0;
            while i < n
                invariant
                    i <= n,
                    n <= buf@.len(),
                    buf@.len() == buf0.len(),
                    block_len == block@.len(),
                    forall|j: int| 0 <= j < i ==> buf@[j] == byte_at(block@, j),
                    forall|j: int| i <= j < buf0.len() ==> buf@[j] == buf0[j],
                decreases n - i,
            {
                let v: u8 = if i < block_len {
                    block[i]
                } else {
                    0
                };
                buf.set(i, v);
                i = i + 1;
            }
            proof {
                assert(pending0[0] == block@);
                assert(buf@ =~= served_bytes(pending0, buf0, n as int));
                assert(self.pending() =~= served_pending(pending0));
            }
            Ok(())
        }
    }

    fn bus_write(&mut self, address: u8, bytes: &Vec<u8>) -> (r: Result<(), ()>) {
        let ghost sent0 = self.sent();
        let copy = clone_bytes(bytes);
        self.sent_packets.push(copy);
        proof {
            assert(self.sent() =~= sent0.push(bytes@));
        }
        Ok(())
    }
}

/// A delay source for tests: it only counts, it does not sleep.
pub struct FakeDelay {
    /// Milliseconds of delay asked for so far, saturating.
    pub delay_calls: u64,
    slept_model: Ghost<nat>,
}

impl FakeDelay {
    /// A delay source that has not slept yet.
    pub fn new() -> (r: Self)
        ensures
            r.slept() == 0,
    {
        FakeDelay { delay_calls: 0, slept_model: Ghost(0nat) }
    }
}

impl DelaySource for FakeDelay {
    closed spec fn slept(&self) -> nat {
        self.slept_model@
    }

    fn delay_ms(&mut self, ms: u8) {
        self.slept_model = Ghost(self.slept_model@ + ms as nat);
        self.delay_calls = self.delay_calls.saturating_add(ms as u64);
    }
}

} // verus!
