//! The segmented packet transport reader over an I2C bus port.
//!
//! Every transfer from the device opens with a four-byte header whose
//! length field names the whole packet's length.  A packet longer than one
//! bus transaction arrives in segments, each opening with a fresh header;
//! the reader keeps the first header in the caller's buffer and strips the
//! headers of the continuation segments while reassembling the body.

use vstd::prelude::*;
use vstd::pervasive::VecAdditionalExecFns;

use crate::Error;
use crate::interface::DelaySource;
use crate::interface::I2cPort;
use crate::interface::MAX_SEGMENT_READ;
use crate::interface::PACKET_HEADER_LENGTH;
use crate::interface::byte_at;
use crate::interface::cont_header;
use crate::interface::cont_segments;
use crate::interface::overwrite;
use crate::interface::segment_plan;
use crate::interface::wf_packet;
use crate::interface::parse_packet_header;
use crate::interface::parsed_len;
use crate::interface::plan_fits;
use crate::interface::served_bytes;
use crate::interface::served_pending;

verus! {

/// The i2c address normally used by BNO080.
pub const DEFAULT_ADDRESS: u8 = 0x4A;

/// Alternate i2c address for BNO080.
pub const ALTERNATE_ADDRESS: u8 = 0x4B;

/// `buf` with its leading header region zeroed.
pub open spec fn zeroed_header(buf: Seq<u8>) -> Seq<u8> {
    overwrite(buf, 0, seq![0u8, 0u8, 0u8, 0u8])
}

/// What one read operation did to the port and the output buffer.
#[verifier::ext_equal]
pub struct ReadOutcome {
    /// The output buffer afterwards.
    pub buf: Seq<u8>,
    /// Bytes written into the output buffer, header bytes counted.
    pub written: int,
    /// The blocks the port still has planned afterwards.
    pub pending: Seq<Seq<u8>>,
    /// Read transactions issued.
    pub reads: int,
    /// Whether a continuation header claiming no body aborted the read.
    pub aborted: bool,
}

/// The reassembly loop, replayed over the model: with `remaining` body
/// bytes still owed and `written` bytes already in `buf`, each step reads
/// one segment, checks its re-parsed header, and transcribes it — whole on
/// the first segment, header stripped on every later one.
pub open spec fn replay(pending: Seq<Seq<u8>>, buf: Seq<u8>, remaining: int, written: int) -> ReadOutcome
    decreases remaining,
{
    if remaining <= 0 {
        ReadOutcome { buf, written, pending, reads: 0, aborted: false }
    } else {
        let n = if remaining + 4 > 240 {
            240int
        } else {
            remaining + 4
        };
        let block = if pending.len() > 0 {
            pending[0]
        } else {
            Seq::<u8>::empty()
        };
        if parsed_len(block) <= 4 {
            ReadOutcome {
                buf,
                written,
                pending: served_pending(pending),
                reads: 1,
                aborted: true,
            }
        } else {
            let start = if written > 0 {
                4int
            } else {
                0int
            };
            let seg = Seq::new(n as nat, |i: int| byte_at(block, i));
            let buf2 = overwrite(buf, written, seg.subrange(start, n));
            let rest = replay(served_pending(pending), buf2, remaining - (n - 4), written + n - start);
            ReadOutcome {
                buf: rest.buf,
                written: rest.written,
                pending: rest.pending,
                reads: rest.reads + 1,
                aborted: rest.aborted,
            }
        }
    }
}

/// What `read_sized_packet` does, given the port's planned blocks, the
/// output buffer, and the already-decoded total packet length.
pub open spec fn read_sized_outcome(pending: Seq<Seq<u8>>, buf: Seq<u8>, total: int) -> ReadOutcome {
    let b0 = zeroed_header(buf);
    if total <= 0 {
        ReadOutcome { buf: b0, written: 0, pending, reads: 0, aborted: false }
    } else if total < 240 {
        ReadOutcome {
            buf: served_bytes(pending, b0, total),
            written: total,
            pending: served_pending(pending),
            reads: 1,
            aborted: false,
        }
    } else {
        replay(pending, b0, total - 4, 0)
    }
}

/// The length the next header read will decode: the front planned block's
/// length field, or zero from an idle device.
pub open spec fn packet_read_len(pending: Seq<Seq<u8>>) -> int {
    if pending.len() > 0 {
        parsed_len(pending[0]) as int
    } else {
        0
    }
}

/// What `read_packet` does: a header read decodes the total length; a
/// length of no more than a bare header is handed back as is; otherwise the
/// body is read as `read_sized_outcome` says.  `written` is the call's
/// return value.
pub open spec fn read_packet_outcome(pending: Seq<Seq<u8>>, buf: Seq<u8>) -> ReadOutcome {
    let len = packet_read_len(pending);
    if len <= 4 {
        ReadOutcome {
            buf,
            written: len,
            pending: served_pending(pending),
            reads: 1,
            aborted: false,
        }
    } else {
        let o = read_sized_outcome(served_pending(pending), buf, len);
        ReadOutcome {
            buf: o.buf,
            written: if o.aborted {
                0int
            } else {
                o.written
            },
            pending: o.pending,
            reads: o.reads + 1,
            aborted: o.aborted,
        }
    }
}

/// What a whole poll window did to the port, the output buffer, the delay
/// source and the packet counter.
#[verifier::ext_equal]
pub struct WaitOutcome {
    /// The output buffer afterwards.
    pub buf: Seq<u8>,
    /// The call's result: the first poll's non-zero byte count, or zero.
    pub written: int,
    /// The blocks the port still has planned afterwards.
    pub pending: Seq<Seq<u8>>,
    /// Read transactions issued over the window.
    pub reads: int,
    /// Milliseconds slept over the window.
    pub sleeps: int,
    /// Packets counted over the window.
    pub packets: int,
}

/// What `read_with_timeout` does over a window of up to `polls` polls:
/// each poll reads one packet; the first poll that yields bytes ends the
/// window at once with no sleep; a poll that yields none costs one
/// millisecond of sleep.
pub open spec fn read_with_timeout_outcome(pending: Seq<Seq<u8>>, buf: Seq<u8>, polls: int) -> WaitOutcome
    decreases polls,
{
    if polls <= 0 {
        WaitOutcome { buf, written: 0, pending, reads: 0, sleeps: 0, packets: 0 }
    } else {
        let o = read_packet_outcome(pending, buf);
        let counted = if packet_read_len(pending) > 0 {
            1int
        } else {
            0int
        };
        if o.written != 0 {
            WaitOutcome {
                buf: o.buf,
                written: o.written,
                pending: o.pending,
                reads: o.reads,
                sleeps: 0,
                packets: counted,
            }
        } else {
            let rest = read_with_timeout_outcome(o.pending, o.buf, polls - 1);
            WaitOutcome {
                buf: rest.buf,
                written: rest.written,
                pending: rest.pending,
                reads: o.reads + rest.reads,
                sleeps: 1 + rest.sleeps,
                packets: counted + rest.packets,
            }
        }
    }
}

/// The segmented packet transport reader: it owns the bus port, a scratch
/// buffer one segment long, and a count of packets framed so far.
pub struct I2cInterface<I2C> {
    /// i2c port
    i2c_port: I2C,
    /// address for i2c communications with the sensor hub
    address: u8,
    /// buffer for receiving segments of packets from the sensor hub
    seg_recv_buf: Vec<u8>,
    /// number of packets received
    received_packet_count: usize,
}

impl<I2C: I2cPort> I2cInterface<I2C> {
    /// The blocks the port will deliver to coming read transactions.
    pub closed spec fn pending(&self) -> Seq<Seq<u8>> {
        self.i2c_port.pending()
    }

    /// The blocks written out through the port so far.
    pub closed spec fn sent(&self) -> Seq<Seq<u8>> {
        self.i2c_port.sent()
    }

    /// Read transactions the port has issued so far.
    pub closed spec fn reads_issued(&self) -> nat {
        self.i2c_port.reads_issued()
    }

    /// Packets framed so far.
    pub closed spec fn received_count(&self) -> nat {
        self.received_packet_count as nat
    }

    /// The device address this reader talks to.
    pub closed spec fn address_spec(&self) -> u8 {
        self.address
    }

    /// The scratch buffer's bytes.
    pub closed spec fn scratch(&self) -> Seq<u8> {
        self.seg_recv_buf@
    }

    /// The reader's structural invariant: the scratch buffer is exactly one
    /// segment long.
    pub closed spec fn wf(&self) -> bool {
        self.seg_recv_buf@.len() == MAX_SEGMENT_READ
    }

    /// The bus port the reader holds.
    pub closed spec fn port(&self) -> I2C {
        self.i2c_port
    }

    /// A reader bound to the usual BNO080 address.
    pub fn default(i2c: I2C) -> (r: Self)
        ensures
            r.wf(),
            r.address_spec() == DEFAULT_ADDRESS,
            r.received_count() == 0,
            r.scratch() == crate::interface::seq_zeros(MAX_SEGMENT_READ as nat),
            r.port() == i2c,
            r.pending() == i2c.pending(),
            r.sent() == i2c.sent(),
            r.reads_issued() == i2c.reads_issued(),
    {
        Self::new(i2c, DEFAULT_ADDRESS)
    }

    /// A reader bound to the alternate BNO080 address.
    pub fn alternate(i2c: I2C) -> (r: Self)
        ensures
            r.wf(),
            r.address_spec() == ALTERNATE_ADDRESS,
            r.received_count() == 0,
            r.scratch() == crate::interface::seq_zeros(MAX_SEGMENT_READ as nat),
            r.port() == i2c,
            r.pending() == i2c.pending(),
            r.sent() == i2c.sent(),
            r.reads_issued() == i2c.reads_issued(),
    {
        Self::new(i2c, ALTERNATE_ADDRESS)
    }

    /// A reader bound to the given device address.
    pub fn new(i2c: I2C, addr: u8) -> (r: Self)
        ensures
            r.wf(),
            r.address_spec() == addr,
            r.received_count() == 0,
            r.scratch() == crate::interface::seq_zeros(MAX_SEGMENT_READ as nat),
            r.port() == i2c,
            r.pending() == i2c.pending(),
            r.sent() == i2c.sent(),
            r.reads_issued() == i2c.reads_issued(),
    {
        let mut buf: Vec<u8> = Vec::new();
        let mut i: usize = 0;
        while i < MAX_SEGMENT_READ
            invariant
                i <= MAX_SEGMENT_READ,
                buf@.len() == i,
                forall|j: int| 0 <= j < i ==> buf@[j] == 0u8,
            decreases MAX_SEGMENT_READ - i,
        {
            buf.push(0);
            i += 1;
        }
        proof {
            assert(buf@ =~= crate::interface::seq_zeros(MAX_SEGMENT_READ as nat));
        }
        Self { i2c_port: i2c, address: addr, seg_recv_buf: buf, received_packet_count: 0 }
    }

    /// Give the bus port back to the caller.
    pub fn free(self) -> (r: I2C)
        ensures
            r == self.port(),
            r.pending() == self.pending(),
            r.sent() == self.sent(),
            r.reads_issued() == self.reads_issued(),
    {
        self.i2c_port
    }

    /// Zero the header region of the scratch buffer, so that a device that
    /// fails to send a fresh header is seen as silence, not stale bytes.
    pub fn zero_recv_packet_header(&mut self)
        requires
            old(self).wf(),
        ensures
            final(self).wf(),
            final(self).scratch() == zeroed_header(old(self).scratch()),
            final(self).pending() == old(self).pending(),
            final(self).sent() == old(self).sent(),
            final(self).reads_issued() == old(self).reads_issued(),
            final(self).received_count() == old(self).received_count(),
            final(self).address_spec() == old(self).address_spec(),
    {
        let ghost s0 = self.seg_recv_buf@;
        self.seg_recv_buf.set(0, 0);
        self.seg_recv_buf.set(1, 0);
        self.seg_recv_buf.set(2, 0);
        self.seg_recv_buf.set(3, 0);
        proof {
            assert(self.seg_recv_buf@ =~= zeroed_header(s0));
        }
    }

    /// Zero a whole buffer.
    pub fn zero_buffer(buf: &mut Vec<u8>)
        ensures
            final(buf)@ == crate::interface::seq_zeros(old(buf)@.len()),
    {
        let ghost b0 = buf@;
        let mut i: usize = 0;
        let n = buf.len();
        while i < n
            invariant
                i <= n,
                n == buf@.len(),
                buf@.len() == b0.len(),
                forall|j: int| 0 <= j < i ==> buf@[j] == 0u8,
            decreases n - i,
        {
            buf.set(i, 0);
            i += 1;
        }
        proof {
            assert(buf@ =~= crate::interface::seq_zeros(b0.len()));
        }
    }
}

/// Copy `len` bytes of `src` starting at `s_start` into `dst` starting at
/// `d_start`.
#[verifier::loop_isolation(false)]
fn copy_segment(src: &Vec<u8>, s_start: usize, dst: &mut Vec<u8>, d_start: usize, len: usize)
    requires
        s_start + len <= src@.len(),
        d_start + len <= old(dst)@.len(),
    ensures
        final(dst)@.len() == old(dst)@.len(),
        final(dst)@ == overwrite(old(dst)@, d_start as int, src@.subrange(s_start as int, s_start + len)),
{
    let ghost d0 = dst@;
    let src_len = src.len();
    let dst_len = dst.len();
    let mut j: usize = 0;
    while j < len
        invariant
            j <= len,
            s_start + len <= src_len,
            d_start + len <= dst_len,
            dst@.len() == d0.len(),
            forall|i: int| 0 <= i < d0.len() && !(d_start <= i < d_start + j) ==> dst@[i] == d0[i],
            forall|i: int| d_start <= i < d_start + j ==> dst@[i] == src@[i - d_start + s_start],
        decreases len - j,
    {
        let v = src[s_start + j];
        dst.set(d_start + j, v);
        j += 1;
    }
    proof {
        assert(dst@ =~= overwrite(d0, d_start as int, src@.subrange(s_start as int, s_start + len)));
    }
}

impl<I2C: I2cPort> I2cInterface<I2C> {
    /// Zero the scratch header region and issue a header-only read.
    pub fn read_packet_header(&mut self) -> (r: Result<(), Error<I2C::CommErr, ()>>)
        requires
            old(self).wf(),
        ensures
            final(self).wf(),
            final(self).address_spec() == old(self).address_spec(),
            final(self).sent() == old(self).sent(),
            final(self).received_count() == old(self).received_count(),
            final(self).reads_issued() == old(self).reads_issued() + 1,
            final(self).scratch().len() == old(self).scratch().len(),
            r is Ok ==> final(self).scratch() == served_bytes(
                old(self).pending(),
                zeroed_header(old(self).scratch()),
                PACKET_HEADER_LENGTH as int,
            ),
            r is Ok ==> final(self).pending() == served_pending(old(self).pending()),
            r is Err ==> r->Err_0 is Comm,
    {
        self.zero_recv_packet_header();
        let res = self.i2c_port.bus_read(self.address, &mut self.seg_recv_buf, PACKET_HEADER_LENGTH);
        match res {
            Ok(()) => Ok(()),
            Err(e) => Err(Error::Comm(e)),
        }
    }

    /// Read the whole packet once its total length is known from an
    /// already-consumed header read.  A packet that fits one segment is read
    /// in a single transaction, header and all, straight into the caller's
    /// buffer.  A longer packet is read segment by segment: the first
    /// segment is transcribed whole, every later segment is re-parsed —
    /// aborting with zero bytes if its header claims no body — and
    /// transcribed with its header stripped.
    #[verifier::loop_isolation(false)]
    pub fn read_sized_packet(
        &mut self,
        total_packet_len: usize,
        packet_recv_buf: &mut Vec<u8>,
    ) -> (r: Result<usize, Error<I2C::CommErr, ()>>)
        requires
            old(self).wf(),
            total_packet_len == 0 || (PACKET_HEADER_LENGTH <= total_packet_len
                && total_packet_len < 0x8000),
            old(packet_recv_buf)@.len() >= PACKET_HEADER_LENGTH,
            old(packet_recv_buf)@.len() >= total_packet_len,
        ensures
            final(self).wf(),
            final(self).address_spec() == old(self).address_spec(),
            final(self).received_count() == old(self).received_count(),
            final(self).sent() == old(self).sent(),
            final(packet_recv_buf)@.len() == old(packet_recv_buf)@.len(),
            r is Ok ==> ({
                let o = read_sized_outcome(
                    old(self).pending(),
                    old(packet_recv_buf)@,
                    total_packet_len as int,
                );
                &&& r->Ok_0 == (if o.aborted {
                    0int
                } else {
                    o.written
                })
                &&& final(packet_recv_buf)@ == o.buf
                &&& final(self).pending() == o.pending
                &&& final(self).reads_issued() == old(self).reads_issued() + o.reads
            }),
            // asking for nothing issues no bus transaction, so success is
            // owed outright
            total_packet_len == 0 ==> r is Ok,
            // the only error is a failed bus transaction, propagated as is
            r is Err ==> r->Err_0 is Comm,
            // a failure stops the read at once: no transaction follows the
            // one that failed, so no more are issued than a successful run
            // takes
            r is Err ==> ({
                let o = read_sized_outcome(
                    old(self).pending(),
                    old(packet_recv_buf)@,
                    total_packet_len as int,
                );
                old(self).reads_issued() < final(self).reads_issued()
                    <= old(self).reads_issued() + o.reads
            }),
    {
        let ghost pending0 = self.pending();
        let ghost buf0 = packet_recv_buf@;
        let ghost reads0 = self.reads_issued();
        let ghost sent0 = self.sent();
        let ghost count0 = self.received_count();
        let ghost addr0 = self.address_spec();

        let mut remaining_body_len: usize = if total_packet_len >= PACKET_HEADER_LENGTH {
            total_packet_len - PACKET_HEADER_LENGTH
        } else {
            0
        };
        let mut already_read_len: usize = 0;

        // zero packet header receive buffer
        packet_recv_buf.set(0, 0);
        packet_recv_buf.set(1, 0);
        packet_recv_buf.set(2, 0);
        packet_recv_buf.set(3, 0);
        proof {
            assert(packet_recv_buf@ =~= zeroed_header(buf0));
        }

        if total_packet_len < MAX_SEGMENT_READ {
            // read directly into the provided receive buffer
            if total_packet_len > 0 {
                let res = self.i2c_port.bus_read(self.address, packet_recv_buf, total_packet_len);
                match res {
                    Ok(()) => {},
                    Err(e) => {
                        return Err(Error::Comm(e));
                    },
                }
                already_read_len = total_packet_len;
            }
        } else {
            while remaining_body_len > 0
                invariant
                    self.wf(),
                    self.address_spec() == addr0,
                    self.sent() == sent0,
                    self.received_count() == count0,
                    packet_recv_buf@.len() == buf0.len(),
                    MAX_SEGMENT_READ <= total_packet_len < 0x8000,
                    buf0.len() >= total_packet_len,
                    remaining_body_len <= total_packet_len - PACKET_HEADER_LENGTH,
                    already_read_len == 0 ==> (remaining_body_len == total_packet_len
                        - PACKET_HEADER_LENGTH && packet_recv_buf@ == zeroed_header(buf0)
                        && self.pending() == pending0 && self.reads_issued() == reads0),
                    already_read_len > 0 ==> already_read_len + remaining_body_len
                        == total_packet_len,
                    reads0 <= self.reads_issued(),
                    ({
                        let oc = replay(
                            self.pending(),
                            packet_recv_buf@,
                            remaining_body_len as int,
                            already_read_len as int,
                        );
                        let og = replay(
                            pending0,
                            zeroed_header(buf0),
                            total_packet_len - PACKET_HEADER_LENGTH,
                            0,
                        );
                        &&& og.buf == oc.buf
                        &&& og.written == oc.written
                        &&& og.pending == oc.pending
                        &&& og.aborted == oc.aborted
                        &&& og.reads == oc.reads + self.reads_issued() - reads0
                    }),
                decreases remaining_body_len,
            {
                let ghost pending_h = self.pending();
                let ghost buf_h = packet_recv_buf@;
                let ghost reads_h = self.reads_issued();
                let ghost rem_h = remaining_body_len as int;
                let ghost alr_h = already_read_len as int;
                let ghost block = if pending_h.len() > 0 {
                    pending_h[0]
                } else {
                    Seq::<u8>::empty()
                };

                let whole_segment_length = remaining_body_len + PACKET_HEADER_LENGTH;
                let segment_read_len = if whole_segment_length > MAX_SEGMENT_READ {
                    MAX_SEGMENT_READ
                } else {
                    whole_segment_length
                };

                self.zero_recv_packet_header();
                let res = self.i2c_port.bus_read(
                    self.address,
                    &mut self.seg_recv_buf,
                    segment_read_len,
                );
                match res {
                    Ok(()) => {},
                    Err(e) => {
                        proof {
                            lemma_replay_reads_low(pending_h, buf_h, rem_h, alr_h);
                        }
                        return Err(Error::Comm(e));
                    },
                }

                let promised_packet_len = parse_packet_header(&self.seg_recv_buf);
                proof {
                    assert(byte_at(self.seg_recv_buf@, 0) == byte_at(block, 0));
                    assert(byte_at(self.seg_recv_buf@, 1) == byte_at(block, 1));
                    assert(promised_packet_len == parsed_len(block));
                }
                if promised_packet_len <= PACKET_HEADER_LENGTH {
                    proof {
                        let oc_h = replay(pending_h, buf_h, rem_h, alr_h);
                        assert(oc_h.buf == buf_h);
                        assert(oc_h.written == alr_h);
                        assert(oc_h.pending == served_pending(pending_h));
                        assert(oc_h.reads == 1);
                        assert(oc_h.aborted);
                    }
                    return Ok(0);
                }

                // if we've never read any segments, transcribe the first packet
                // header; otherwise, just transcribe the segment body (no header)
                let transcribe_start_idx = if already_read_len > 0 {
                    PACKET_HEADER_LENGTH
                } else {
                    0
                };
                let transcribe_len = segment_read_len - transcribe_start_idx;
                copy_segment(
                    &self.seg_recv_buf,
                    transcribe_start_idx,
                    packet_recv_buf,
                    already_read_len,
                    transcribe_len,
                );
                already_read_len = already_read_len + transcribe_len;

                let body_read_len = segment_read_len - PACKET_HEADER_LENGTH;
                remaining_body_len = remaining_body_len - body_read_len;

                proof {
                    let n = segment_read_len as int;
                    let start = transcribe_start_idx as int;
                    let seg = Seq::new(n as nat, |i: int| byte_at(block, i));
                    assert(self.seg_recv_buf@.subrange(start, start + (n - start)) =~= seg.subrange(
                        start,
                        n,
                    ));
                    assert(packet_recv_buf@ == overwrite(buf_h, alr_h, seg.subrange(start, n)));
                    let oc_h = replay(pending_h, buf_h, rem_h, alr_h);
                    let oc_n = replay(
                        self.pending(),
                        packet_recv_buf@,
                        remaining_body_len as int,
                        already_read_len as int,
                    );
                    assert(oc_h.buf == oc_n.buf);
                    assert(oc_h.written == oc_n.written);
                    assert(oc_h.pending == oc_n.pending);
                    assert(oc_h.aborted == oc_n.aborted);
                    assert(oc_h.reads == oc_n.reads + 1);
                }
            }
        }

        Ok(already_read_len)
    }

    /// Read one packet into the receive buffer.  A header-only read decodes
    /// the total length; a decoded length of no more than a bare header is
    /// handed back unchanged (zero means no packet is available); otherwise
    /// the body is read and reassembled.  Every non-zero decoded length
    /// counts one received packet.
    pub fn read_packet(&mut self, recv_buf: &mut Vec<u8>) -> (r: Result<
        usize,
        Error<I2C::CommErr, ()>,
    >)
        requires
            old(self).wf(),
            old(self).received_count() < usize::MAX,
            old(self).pending().len() > 0 ==> parsed_len(old(self).pending()[0]) <= old(
                recv_buf,
            )@.len(),
        ensures
            final(self).wf(),
            final(self).address_spec() == old(self).address_spec(),
            final(self).sent() == old(self).sent(),
            final(recv_buf)@.len() == old(recv_buf)@.len(),
            r is Err ==> final(self).received_count() == old(self).received_count(),
            r is Ok ==> ({
                let o = read_packet_outcome(old(self).pending(), old(recv_buf)@);
                &&& r->Ok_0 == o.written
                &&& final(recv_buf)@ == o.buf
                &&& final(self).pending() == o.pending
                &&& final(self).reads_issued() == old(self).reads_issued() + o.reads
                &&& final(self).received_count() == old(self).received_count() + (
                if packet_read_len(old(self).pending()) > 0 {
                    1int
                } else {
                    0int
                })
            }),
            // an idle device answers the header read with zeros: no packet,
            // no body read, nothing written to the caller's buffer
            (r is Ok && old(self).pending().len() == 0) ==> ({
                &&& r->Ok_0 == 0
                &&& final(recv_buf)@ == old(recv_buf)@
                &&& final(self).pending() == old(self).pending()
                &&& final(self).reads_issued() == old(self).reads_issued() + 1
                &&& final(self).received_count() == old(self).received_count()
            }),
            // the only error is a failed bus transaction, propagated as is
            r is Err ==> r->Err_0 is Comm,
            // a failure stops the call at once: the header read was issued,
            // and no transaction follows the one that failed
            r is Err ==> ({
                let o = read_packet_outcome(old(self).pending(), old(recv_buf)@);
                old(self).reads_issued() < final(self).reads_issued()
                    <= old(self).reads_issued() + o.reads
            }),
    {
        let ghost pending0 = self.pending();
        let ghost buf0 = recv_buf@;

        match self.read_packet_header() {
            Ok(()) => {},
            Err(e) => {
                proof {
                    lemma_read_packet_reads_low(pending0, buf0);
                }
                return Err(e);
            },
        }
        let packet_len = parse_packet_header(&self.seg_recv_buf);
        proof {
            let block = if pending0.len() > 0 {
                pending0[0]
            } else {
                Seq::<u8>::empty()
            };
            assert(byte_at(self.seg_recv_buf@, 0) == byte_at(block, 0));
            assert(byte_at(self.seg_recv_buf@, 1) == byte_at(block, 1));
            assert(packet_len == packet_read_len(pending0));
        }

        let received_len = if packet_len > PACKET_HEADER_LENGTH {
            let res = self.read_sized_packet(packet_len, recv_buf);
            match res {
                Ok(n) => n,
                Err(e) => {
                    return Err(e);
                },
            }
        } else {
            packet_len
        };

        if packet_len > 0 {
            self.received_packet_count = self.received_packet_count + 1;
        }

        Ok(received_len)
    }

    /// Send one packet to the device.
    pub fn write_packet(&mut self, packet: &Vec<u8>) -> (r: Result<(), Error<I2C::CommErr, ()>>)
        requires
            old(self).wf(),
        ensures
            final(self).wf(),
            final(self).address_spec() == old(self).address_spec(),
            final(self).received_count() == old(self).received_count(),
            final(self).pending() == old(self).pending(),
            final(self).reads_issued() == old(self).reads_issued(),
            final(self).scratch() == old(self).scratch(),
            r is Ok ==> final(self).sent() == old(self).sent().push(packet@),
            r is Err ==> final(self).sent() == old(self).sent(),
            r is Err ==> r->Err_0 is Comm,
    {
        let res = self.i2c_port.bus_write(self.address, packet);
        match res {
            Ok(()) => Ok(()),
            Err(e) => Err(Error::Comm(e)),
        }
    }

    /// Whether the device wants a soft reset from the layer above before use.
    pub fn requires_soft_reset(&self) -> (r: bool)
        ensures
            r,
    {
        true
    }

    /// A fixed settling delay before first use; the layer above decides
    /// whether a device-level reset is additionally required.
    pub fn setup<D: DelaySource>(&mut self, delay_source: &mut D) -> (r: Result<
        (),
        Error<I2C::CommErr, ()>,
    >)
        ensures
            *final(self) == *old(self),
            final(delay_source).slept() == old(delay_source).slept() + 5,
            r is Ok,
    {
        delay_source.delay_ms(5);
        Ok(())
    }

    /// Write a command, zero the receive buffer, and read back one packet.
    /// The device does not support a repeated-start combined transaction,
    /// so the write and the read are two separate bus operations, with no
    /// delay in between.
    pub fn send_and_receive_packet(&mut self, send_buf: &Vec<u8>, recv_buf: &mut Vec<u8>) -> (r:
        Result<usize, Error<I2C::CommErr, ()>>)
        requires
            old(self).wf(),
            old(self).received_count() < usize::MAX,
            old(self).pending().len() > 0 ==> parsed_len(old(self).pending()[0]) <= old(
                recv_buf,
            )@.len(),
        ensures
            final(self).wf(),
            final(self).address_spec() == old(self).address_spec(),
            final(recv_buf)@.len() == old(recv_buf)@.len(),
            r is Err ==> final(self).received_count() == old(self).received_count(),
            r is Ok ==> ({
                let o = read_packet_outcome(
                    old(self).pending(),
                    crate::interface::seq_zeros(old(recv_buf)@.len()),
                );
                &&& final(self).sent() == old(self).sent().push(send_buf@)
                &&& r->Ok_0 == o.written
                &&& final(recv_buf)@ == o.buf
                &&& final(self).pending() == o.pending
                &&& final(self).reads_issued() == old(self).reads_issued() + o.reads
                &&& final(self).received_count() == old(self).received_count() + (
                if packet_read_len(old(self).pending()) > 0 {
                    1int
                } else {
                    0int
                })
            }),
            // the only error is a failed bus transaction, propagated as is
            r is Err ==> r->Err_0 is Comm,
            // a failed write — the sent log unchanged — stops the call
            // before the receive buffer is touched or any read is issued
            (r is Err && final(self).sent() == old(self).sent()) ==> ({
                &&& final(recv_buf)@ == old(recv_buf)@
                &&& final(self).pending() == old(self).pending()
                &&& final(self).reads_issued() == old(self).reads_issued()
            }),
            // a failed read stops the call at once: no transaction follows
            // the one that failed
            r is Err ==> ({
                let o = read_packet_outcome(
                    old(self).pending(),
                    crate::interface::seq_zeros(old(recv_buf)@.len()),
                );
                final(self).reads_issued() <= old(self).reads_issued() + o.reads
            }),
    {
        let ghost pending0 = self.pending();
        let ghost sent0 = self.sent();

        let res = self.i2c_port.bus_write(self.address, send_buf);
        match res {
            Ok(()) => {},
            Err(e) => {
                proof {
                    lemma_read_packet_reads_low(
                        pending0,
                        crate::interface::seq_zeros(old(recv_buf)@.len()),
                    );
                }
                return Err(Error::Comm(e));
            },
        }

        self.zero_recv_packet_header();
        Self::zero_buffer(recv_buf);

        let r = self.read_packet(recv_buf);
        proof {
            if r is Err {
                assert(self.sent() == sent0.push(send_buf@));
                assert(self.sent().len() == sent0.len() + 1);
            }
        }
        r
    }

    /// Poll for a packet once per millisecond until one arrives or
    /// `max_ms` milliseconds have been waited out.  Waiting the window out
    /// with nothing to show is a normal zero-length result, not an error; a
    /// bus failure propagates at once.
    #[verifier::loop_isolation(false)]
    pub fn read_with_timeout<D: DelaySource>(
        &mut self,
        recv_buf: &mut Vec<u8>,
        delay_source: &mut D,
        max_ms: u8,
    ) -> (r: Result<usize, Error<I2C::CommErr, ()>>)
        requires
            old(self).wf(),
            old(self).received_count() + max_ms <= usize::MAX,
            plan_fits(old(self).pending(), old(recv_buf)@.len() as int),
        ensures
            final(self).wf(),
            final(self).address_spec() == old(self).address_spec(),
            final(self).sent() == old(self).sent(),
            final(recv_buf)@.len() == old(recv_buf)@.len(),
            // the whole window, poll by poll: each poll reads one packet,
            // the first non-zero result returns at once, and every empty
            // poll costs exactly one millisecond of sleep
            r is Ok ==> ({
                let w = read_with_timeout_outcome(
                    old(self).pending(),
                    old(recv_buf)@,
                    max_ms as int,
                );
                &&& r->Ok_0 == w.written
                &&& final(recv_buf)@ == w.buf
                &&& final(self).pending() == w.pending
                &&& final(self).reads_issued() == old(self).reads_issued() + w.reads
                &&& final(delay_source).slept() == old(delay_source).slept() + w.sleeps
                &&& final(self).received_count() == old(self).received_count() + w.packets
            }),
            // a silent device: one poll and one millisecond slept per unit
            // of the window, then a normal zero-length result
            (r is Ok && old(self).pending().len() == 0) ==> ({
                &&& r->Ok_0 == 0
                &&& final(recv_buf)@ == old(recv_buf)@
                &&& final(self).pending() == old(self).pending()
                &&& final(self).reads_issued() == old(self).reads_issued() + max_ms
                &&& final(self).received_count() == old(self).received_count()
                &&& final(delay_source).slept() == old(delay_source).slept() + max_ms
            }),
            // an empty window issues no transaction and owes success
            max_ms == 0 ==> ({
                &&& r is Ok
                &&& r->Ok_0 == 0
                &&& final(recv_buf)@ == old(recv_buf)@
                &&& final(self).pending() == old(self).pending()
                &&& final(self).reads_issued() == old(self).reads_issued()
                &&& final(self).received_count() == old(self).received_count()
                &&& final(delay_source).slept() == old(delay_source).slept()
            }),
            // the only error is a failed bus transaction, propagated at
            // once: no further poll and no further sleep follow it
            r is Err ==> r->Err_0 is Comm,
            r is Err ==> ({
                let w = read_with_timeout_outcome(
                    old(self).pending(),
                    old(recv_buf)@,
                    max_ms as int,
                );
                &&& final(self).reads_issued() <= old(self).reads_issued() + w.reads
                &&& final(delay_source).slept() <= old(delay_source).slept() + w.sleeps
                &&& final(self).received_count() <= old(self).received_count() + w.packets
            }),
    {
        let ghost pending0 = self.pending();
        let ghost buf0 = recv_buf@;
        let ghost reads0 = self.reads_issued();
        let ghost count0 = self.received_count();
        let ghost slept0 = delay_source.slept();

        let mut total_delay: u8 = 0;
        while total_delay < max_ms
            invariant
                self.wf(),
                self.address_spec() == old(self).address_spec(),
                self.sent() == old(self).sent(),
                recv_buf@.len() == buf0.len(),
                total_delay <= max_ms,
                plan_fits(self.pending(), buf0.len() as int),
                reads0 <= self.reads_issued(),
                slept0 <= delay_source.slept(),
                count0 <= self.received_count() <= count0 + total_delay,
                ({
                    let wg = read_with_timeout_outcome(pending0, buf0, max_ms as int);
                    let wc = read_with_timeout_outcome(
                        self.pending(),
                        recv_buf@,
                        max_ms - total_delay,
                    );
                    &&& wg.buf == wc.buf
                    &&& wg.written == wc.written
                    &&& wg.pending == wc.pending
                    &&& wg.reads == wc.reads + self.reads_issued() - reads0
                    &&& wg.sleeps == wc.sleeps + delay_source.slept() - slept0
                    &&& wg.packets == wc.packets + self.received_count() - count0
                }),
            decreases max_ms - total_delay,
        {
            let ghost pending_h = self.pending();
            let ghost buf_h = recv_buf@;
            let ghost polls_h = max_ms - total_delay;
            let res = self.read_packet(recv_buf);
            match res {
                Ok(read_size) => {
                    if 0 == read_size {
                        proof {
                            lemma_read_packet_plan_fits(pending_h, buf_h, buf0.len() as int);
                            lemma_read_packet_reads_low(pending_h, buf_h);
                        }
                        // no data available yet... wait a while longer
                        delay_source.delay_ms(1);
                        total_delay = total_delay + 1;
                    } else {
                        proof {
                            if pending0.len() == 0 {
                                assert(pending0 =~= Seq::<Seq<u8>>::empty());
                                lemma_wait_outcome_idle(buf0, max_ms as int);
                            }
                        }
                        return Ok(read_size);
                    }
                },
                Err(e) => {
                    proof {
                        let o = read_packet_outcome(pending_h, buf_h);
                        lemma_wait_outcome_low(o.pending, o.buf, polls_h - 1);
                    }
                    return Err(e);
                },
            }
        }

        proof {
            if pending0.len() == 0 {
                assert(pending0 =~= Seq::<Seq<u8>>::empty());
                lemma_wait_outcome_idle(buf0, max_ms as int);
            }
        }
        Ok(0)
    }
}

/// Over a poll window no model quantity runs backwards, and the sleeps
/// and the counted packets never outnumber the polls of the window.
pub proof fn lemma_wait_outcome_low(pending: Seq<Seq<u8>>, buf: Seq<u8>, polls: int)
    ensures
        ({
            let w = read_with_timeout_outcome(pending, buf, polls);
            &&& 0 <= w.reads
            &&& 0 <= w.sleeps
            &&& 0 <= w.packets
            &&& polls >= 0 ==> w.sleeps <= polls && w.packets <= polls
        }),
    decreases polls,
{
    if polls <= 0 {
    } else {
        let o = read_packet_outcome(pending, buf);
        lemma_read_packet_reads_low(pending, buf);
        if o.written != 0 {
        } else {
            lemma_wait_outcome_low(o.pending, o.buf, polls - 1);
        }
    }
}

/// An idle device never produces data: every poll of the window reads
/// zeros, costs one transaction and one millisecond, and counts nothing.
proof fn lemma_wait_outcome_idle(buf: Seq<u8>, polls: int)
    requires
        polls >= 0,
    ensures
        ({
            let w = read_with_timeout_outcome(Seq::<Seq<u8>>::empty(), buf, polls);
            &&& w.buf == buf
            &&& w.written == 0
            &&& w.pending == Seq::<Seq<u8>>::empty()
            &&& w.reads == polls
            &&& w.sleeps == polls
            &&& w.packets == 0
        }),
    decreases polls,
{
    if polls <= 0 {
    } else {
        let o = read_packet_outcome(Seq::<Seq<u8>>::empty(), buf);
        assert(o.written == 0);
        assert(o.pending == Seq::<Seq<u8>>::empty());
        assert(o.buf == buf);
        assert(o.reads == 1);
        lemma_wait_outcome_idle(buf, polls - 1);
    }
}

/// The replayed loop issues a non-negative number of transactions, and at
/// least one while body bytes are still owed.
proof fn lemma_replay_reads_low(pending: Seq<Seq<u8>>, buf: Seq<u8>, remaining: int, written: int)
    ensures
        replay(pending, buf, remaining, written).reads >= 0,
        remaining > 0 ==> replay(pending, buf, remaining, written).reads >= 1,
    decreases remaining,
{
    if remaining <= 0 {
    } else {
        let n = if remaining + 4 > 240 {
            240int
        } else {
            remaining + 4
        };
        let block = if pending.len() > 0 {
            pending[0]
        } else {
            Seq::<u8>::empty()
        };
        if parsed_len(block) <= 4 {
        } else {
            let start = if written > 0 {
                4int
            } else {
                0int
            };
            let seg = Seq::new(n as nat, |i: int| byte_at(block, i));
            let buf2 = overwrite(buf, written, seg.subrange(start, n));
            lemma_replay_reads_low(served_pending(pending), buf2, remaining - (n - 4), written + n - start);
        }
    }
}

/// A whole packet read takes at least the header transaction, and no
/// transaction count in its outcome is negative.
proof fn lemma_read_packet_reads_low(pending: Seq<Seq<u8>>, buf: Seq<u8>)
    ensures
        read_packet_outcome(pending, buf).reads >= 1,
{
    let len = packet_read_len(pending);
    if len <= 4 {
    } else {
        if len < 240 {
        } else {
            lemma_replay_reads_low(served_pending(pending), zeroed_header(buf), len - 4, 0);
        }
    }
}

/// One consumed block keeps every remaining block's claimed length inside
/// the buffer.
proof fn lemma_served_pending_plan_fits(pending: Seq<Seq<u8>>, cap: int)
    requires
        plan_fits(pending, cap),
    ensures
        plan_fits(served_pending(pending), cap),
{
    let s = served_pending(pending);
    assert forall|i: int| 0 <= i < s.len() implies parsed_len(#[trigger] s[i]) <= cap by {
        assert(s[i] == pending[i + 1]);
    }
}

/// The reassembly loop only ever consumes planned blocks from the front,
/// so a plan whose claimed lengths fit a buffer keeps fitting it.
proof fn lemma_replay_plan_fits(
    pending: Seq<Seq<u8>>,
    buf: Seq<u8>,
    remaining: int,
    written: int,
    cap: int,
)
    requires
        plan_fits(pending, cap),
    ensures
        plan_fits(replay(pending, buf, remaining, written).pending, cap),
    decreases remaining,
{
    lemma_served_pending_plan_fits(pending, cap);
    if remaining <= 0 {
    } else {
        let n = if remaining + 4 > 240 {
            240int
        } else {
            remaining + 4
        };
        let block = if pending.len() > 0 {
            pending[0]
        } else {
            Seq::<u8>::empty()
        };
        if parsed_len(block) <= 4 {
        } else {
            let start = if written > 0 {
                4int
            } else {
                0int
            };
            let seg = Seq::new(n as nat, |i: int| byte_at(block, i));
            let buf2 = overwrite(buf, written, seg.subrange(start, n));
            lemma_replay_plan_fits(
                served_pending(pending),
                buf2,
                remaining - (n - 4),
                written + n - start,
                cap,
            );
        }
    }
}

/// The length field of a continuation header decodes back to the total it
/// was built from.
pub proof fn lemma_cont_header_parses(total: int, b2: u8, b3: u8)
    requires
        0 <= total < 0x8000,
    ensures
        parsed_len(cont_header(total, b2, b3)) == total,
{
    let h = cont_header(total, b2, b3);
    assert(total / 256 < 128);
    assert(0 <= total % 256 < 256);
    assert(byte_at(h, 0) == (total % 256) as u8);
    assert(byte_at(h, 1) == ((total / 256) % 128 + 128) as u8);
    assert((((total / 256) % 128 + 128) as u8) as nat % 128 == total / 256);
    vstd::arithmetic::div_mod::lemma_fundamental_div_mod(total, 256);
}

/// Replaying the reassembly loop over the continuation segments of a
/// well-formed packet delivers exactly the packet's remaining body bytes,
/// consuming exactly those segments.
pub proof fn lemma_replay_cont(p: Seq<u8>, served: int, rest: Seq<Seq<u8>>, buf: Seq<u8>)
    requires
        wf_packet(p),
        0 < served < p.len() - 4,
        buf.len() >= p.len(),
    ensures
        ({
            let o = replay(cont_segments(p, served) + rest, buf, p.len() - 4 - served, 4 + served);
            &&& !o.aborted
            &&& o.written == p.len()
            &&& o.buf == overwrite(buf, 4 + served, p.skip(4 + served))
            &&& o.pending == rest
            &&& o.reads == cont_segments(p, served).len()
        }),
    decreases p.len() - served,
{
    let rem = p.len() - 4 - served;
    let k = if rem > 236 {
        236int
    } else {
        rem
    };
    let seg0 = cont_header(rem + 4, p[2], p[3]) + p.subrange(4 + served, 4 + served + k);
    let pending = cont_segments(p, served) + rest;
    assert(pending[0] == seg0);
    let remaining = rem;
    let written = 4 + served;
    let n = if remaining + 4 > 240 {
        240int
    } else {
        remaining + 4
    };
    assert(n == k + 4);
    lemma_cont_header_parses(rem + 4, p[2], p[3]);
    assert(byte_at(seg0, 0) == byte_at(cont_header(rem + 4, p[2], p[3]), 0));
    assert(byte_at(seg0, 1) == byte_at(cont_header(rem + 4, p[2], p[3]), 1));
    assert(parsed_len(seg0) == rem + 4);
    let seg = Seq::new(n as nat, |i: int| byte_at(pending[0], i));
    assert(seg.subrange(4, n) =~= p.subrange(4 + served, 4 + served + k));
    let buf2 = overwrite(buf, written, seg.subrange(4, n));
    if k == rem {
        assert(cont_segments(p, served) == seq![seg0]);
        assert(served_pending(pending) =~= rest);
        let o2 = replay(rest, buf2, 0, written + k);
        assert(o2.buf == buf2);
        assert(buf2 =~= overwrite(buf, 4 + served, p.skip(4 + served)));
        assert(written + k == p.len());
    } else {
        assert(cont_segments(p, served) == seq![seg0] + cont_segments(p, served + k));
        assert(served_pending(pending) =~= cont_segments(p, served + k) + rest);
        lemma_replay_cont(p, served + k, rest, buf2);
        let o2 = replay(
            cont_segments(p, served + k) + rest,
            buf2,
            p.len() - 4 - (served + k),
            4 + served + k,
        );
        assert(o2.buf == overwrite(buf2, 4 + served + k, p.skip(4 + served + k)));
        assert(o2.buf =~= overwrite(buf, 4 + served, p.skip(4 + served)));
        assert(cont_segments(p, served).len() == 1 + cont_segments(p, served + k).len());
    }
}

/// Round trip of segmentation and reassembly: feeding the transactions of
/// `segment_plan(p)` through a whole packet read reproduces `p` exactly —
/// one transaction past the header peek when the packet fits a segment,
/// else the retained first header and the continuation bodies, with no
/// duplicated and no missing bytes.
pub proof fn lemma_segmented_read_reassembles(p: Seq<u8>, rest: Seq<Seq<u8>>, buf: Seq<u8>)
    requires
        wf_packet(p),
        buf.len() >= p.len(),
    ensures
        ({
            let o = read_packet_outcome(segment_plan(p) + rest, buf);
            &&& !o.aborted
            &&& o.written == p.len()
            &&& o.buf == p + buf.skip(p.len() as int)
            &&& o.pending == rest
            &&& o.reads == segment_plan(p).len()
        }),
{
    let pending = segment_plan(p) + rest;
    let hdr = p.take(4);
    assert(pending[0] == hdr);
    assert(byte_at(hdr, 0) == byte_at(p, 0));
    assert(byte_at(hdr, 1) == byte_at(p, 1));
    assert(parsed_len(hdr) == parsed_len(p));
    let len = packet_read_len(pending);
    assert(len == p.len());
    let tail = served_pending(pending);
    let b0 = zeroed_header(buf);
    if p.len() < 240 {
        assert(tail =~= seq![p] + rest);
        assert(tail[0] == p);
        let o1 = read_sized_outcome(tail, buf, len);
        assert(o1.buf == served_bytes(tail, b0, len));
        assert(o1.buf =~= p + buf.skip(p.len() as int));
        assert(served_pending(tail) =~= rest);
    } else {
        assert(tail =~= (seq![p.take(240)] + cont_segments(p, 236)) + rest);
        let o1 = read_sized_outcome(tail, buf, len);
        let remaining = p.len() - 4;
        let block = tail[0];
        assert(block == p.take(240));
        assert(byte_at(block, 0) == byte_at(p, 0));
        assert(byte_at(block, 1) == byte_at(p, 1));
        assert(parsed_len(block) == parsed_len(p));
        let n = if remaining + 4 > 240 {
            240int
        } else {
            remaining + 4
        };
        assert(n == 240);
        let seg = Seq::new(240nat, |i: int| byte_at(block, i));
        assert(seg.subrange(0, 240) =~= p.take(240));
        let buf2 = overwrite(b0, 0, seg.subrange(0, 240));
        assert(served_pending(tail) =~= cont_segments(p, 236) + rest);
        if p.len() == 240 {
            assert(cont_segments(p, 236) =~= Seq::<Seq<u8>>::empty());
            assert(served_pending(tail) =~= rest);
            let o2 = replay(served_pending(tail), buf2, 0, 240);
            assert(o1.buf == buf2);
            assert(buf2 =~= p + buf.skip(p.len() as int));
            assert(segment_plan(p).len() == 2);
        } else {
            lemma_replay_cont(p, 236, rest, buf2);
            let o2 = replay(cont_segments(p, 236) + rest, buf2, p.len() - 4 - 236, 240int);
            assert(o1.buf == o2.buf);
            assert(o2.buf == overwrite(buf2, 240, p.skip(240)));
            assert(o2.buf =~= p + buf.skip(p.len() as int));
            assert(o1.reads == o2.reads + 1);
            assert(segment_plan(p).len() == 2 + cont_segments(p, 236).len());
        }
    }
}

/// A packet that fits one bus segment is delivered whole by the single
/// read transaction after the header peek, and the caller's buffer keeps
/// the transmitted header as its first bytes.
pub proof fn lemma_single_segment_read(p: Seq<u8>, rest: Seq<Seq<u8>>, buf: Seq<u8>)
    requires
        wf_packet(p),
        p.len() < 240,
        buf.len() >= p.len(),
    ensures
        ({
            let o = read_packet_outcome(segment_plan(p) + rest, buf);
            &&& o.written == p.len()
            &&& o.reads == 2
            &&& o.buf.subrange(0, 4) == p.take(4)
            &&& o.buf == p + buf.skip(p.len() as int)
        }),
{
    lemma_segmented_read_reassembles(p, rest, buf);
    assert(segment_plan(p).len() == 2);
    assert((p + buf.skip(p.len() as int)).subrange(0, 4) =~= p.take(4));
}

/// The bytes of the given segments after their headers, concatenated in
/// transmission order.
pub open spec fn concat_bodies(segs: Seq<Seq<u8>>) -> Seq<u8>
    decreases segs.len(),
{
    if segs.len() == 0 {
        Seq::<u8>::empty()
    } else {
        segs[0].skip(4) + concat_bodies(segs.drop_first())
    }
}

/// The continuation segments of a packet carry, between them, exactly the
/// packet's remaining body bytes.
proof fn lemma_cont_bodies(p: Seq<u8>, served: int)
    requires
        wf_packet(p),
        0 < served < p.len() - 4,
    ensures
        concat_bodies(cont_segments(p, served)) == p.skip(4 + served),
    decreases p.len() - served,
{
    let rem = p.len() - 4 - served;
    let k = if rem > 236 {
        236int
    } else {
        rem
    };
    let seg0 = cont_header(rem + 4, p[2], p[3]) + p.subrange(4 + served, 4 + served + k);
    assert(seg0.skip(4) =~= p.subrange(4 + served, 4 + served + k));
    if k == rem {
        assert(cont_segments(p, served) == seq![seg0]);
        let s = seq![seg0];
        assert(s.drop_first() =~= Seq::<Seq<u8>>::empty());
        assert(s.drop_first() == Seq::<Seq<u8>>::empty());
        assert(concat_bodies(Seq::<Seq<u8>>::empty()) == Seq::<u8>::empty());
        assert(s[0] == seg0);
        assert(concat_bodies(s) == seg0.skip(4) + Seq::<u8>::empty());
        assert(seg0.skip(4) + Seq::<u8>::empty() =~= p.skip(4 + served));
    } else {
        lemma_cont_bodies(p, served + k);
        assert((seq![seg0] + cont_segments(p, served + k))[0] == seg0);
        assert((seq![seg0] + cont_segments(p, served + k)).drop_first() =~= cont_segments(
            p,
            served + k,
        ));
        assert(concat_bodies(cont_segments(p, served)) =~= p.skip(4 + served));
    }
}

/// For a packet spanning several segments, the reassembled bytes past the
/// retained first header are the concatenation of the body bytes of every
/// segment in transmission order: no continuation header is duplicated
/// into the output and no body byte is dropped.
pub proof fn lemma_reassembly_concatenates_bodies(p: Seq<u8>)
    requires
        wf_packet(p),
        p.len() >= 240,
    ensures
        p == p.take(240) + concat_bodies(cont_segments(p, 236)),
        p.skip(4) == p.take(240).skip(4) + concat_bodies(cont_segments(p, 236)),
{
    if p.len() == 240 {
        assert(cont_segments(p, 236) =~= Seq::<Seq<u8>>::empty());
        assert(p =~= p.take(240) + concat_bodies(cont_segments(p, 236)));
    } else {
        lemma_cont_bodies(p, 236);
        assert(p =~= p.take(240) + p.skip(240));
    }
    assert(p.skip(4) =~= p.take(240).skip(4) + concat_bodies(cont_segments(p, 236)));
}

/// For a packet spanning several segments, the reassembled output's bytes
/// past the retained header are exactly the concatenation of the body
/// bytes of every segment, in transmission order.
pub proof fn lemma_multi_segment_output_bodies(p: Seq<u8>, rest: Seq<Seq<u8>>, buf: Seq<u8>)
    requires
        wf_packet(p),
        p.len() >= 240,
        buf.len() >= p.len(),
    ensures
        ({
            let o = read_packet_outcome(segment_plan(p) + rest, buf);
            o.buf.subrange(4, p.len() as int) == p.take(240).skip(4) + concat_bodies(
                cont_segments(p, 236),
            )
        }),
{
    lemma_segmented_read_reassembles(p, rest, buf);
    lemma_reassembly_concatenates_bodies(p);
    let o = read_packet_outcome(segment_plan(p) + rest, buf);
    assert(o.buf.subrange(4, p.len() as int) =~= p.skip(4));
}

/// When no segment aborts the loop, the replayed loop writes exactly the
/// body bytes still owed, plus the retained header when it starts from an
/// empty output buffer.
proof fn lemma_replay_total(pending: Seq<Seq<u8>>, buf: Seq<u8>, remaining: int, written: int)
    requires
        remaining >= 0,
        written >= 0,
    ensures
        ({
            let o = replay(pending, buf, remaining, written);
            !o.aborted ==> o.written == written + remaining + (if written == 0 && remaining > 0 {
                4int
            } else {
                0int
            })
        }),
    decreases remaining,
{
    if remaining <= 0 {
    } else {
        let n = if remaining + 4 > 240 {
            240int
        } else {
            remaining + 4
        };
        let block = if pending.len() > 0 {
            pending[0]
        } else {
            Seq::<u8>::empty()
        };
        if parsed_len(block) <= 4 {
        } else {
            let start = if written > 0 {
                4int
            } else {
                0int
            };
            let seg = Seq::new(n as nat, |i: int| byte_at(block, i));
            let buf2 = overwrite(buf, written, seg.subrange(start, n));
            lemma_replay_total(served_pending(pending), buf2, remaining - (n - 4), written + n - start);
        }
    }
}

/// On success the bytes written across all iterations total exactly the
/// packet length that was asked for, whatever the port served.
pub proof fn lemma_sized_read_writes_total(pending: Seq<Seq<u8>>, buf: Seq<u8>, total: int)
    ensures
        ({
            let o = read_sized_outcome(pending, buf, total);
            !o.aborted ==> o.written == (if total <= 0 {
                0int
            } else {
                total
            })
        }),
{
    if total >= 240 {
        lemma_replay_total(pending, zeroed_header(buf), total - 4, 0);
    }
}

/// Every continuation segment of a packet is more than a bare header and
/// no longer than the segment ceiling.
proof fn lemma_cont_segments_sizes(p: Seq<u8>, served: int)
    requires
        wf_packet(p),
        0 < served < p.len() - 4,
    ensures
        forall|i: int|
            0 <= i < cont_segments(p, served).len() ==> 4 < (#[trigger] cont_segments(p, served)[i]).len() <= 240,
    decreases p.len() - served,
{
    let rem = p.len() - 4 - served;
    let k = if rem > 236 {
        236int
    } else {
        rem
    };
    let seg0 = cont_header(rem + 4, p[2], p[3]) + p.subrange(4 + served, 4 + served + k);
    assert(seg0.len() == 4 + k);
    if k == rem {
        assert(cont_segments(p, served) == seq![seg0]);
    } else {
        lemma_cont_segments_sizes(p, served + k);
        let s = cont_segments(p, served);
        assert(s == seq![seg0] + cont_segments(p, served + k));
        assert forall|i: int| 0 <= i < s.len() implies 4 < (#[trigger] s[i]).len() <= 240 by {
            if i == 0 {
                assert(s[i] == seg0);
            } else {
                assert(s[i] == cont_segments(p, served + k)[i - 1]);
            }
        }
    }
}

/// Splitting a packet plans only transactions that fit the segment
/// ceiling: the header peek, a first transaction no longer than one
/// segment, and continuation segments no longer than one segment each.
pub proof fn lemma_segment_plan_within_ceiling(p: Seq<u8>)
    requires
        wf_packet(p),
    ensures
        forall|i: int|
            0 <= i < segment_plan(p).len() ==> (#[trigger] segment_plan(p)[i]).len() <= 240,
{
    let plan = segment_plan(p);
    if p.len() < 240 {
        assert forall|i: int| 0 <= i < plan.len() implies (#[trigger] plan[i]).len() <= 240 by {
            if i == 0 {
                assert(plan[i] == p.take(4));
            } else {
                assert(plan[i] == p);
            }
        }
    } else {
        if p.len() > 240 {
            lemma_cont_segments_sizes(p, 236);
        }
        assert forall|i: int| 0 <= i < plan.len() implies (#[trigger] plan[i]).len() <= 240 by {
            if i == 0 {
                assert(plan[i] == p.take(4));
            } else if i == 1 {
                assert(plan[i] == p.take(240));
            } else {
                assert(plan[i] == cont_segments(p, 236)[i - 2]);
            }
        }
    }
}

/// The bytes a run that meets no fault transcribes, from the current
/// write position on: the first segment whole, then every later segment's
/// bytes past its four-byte header, each padded to the requested transfer
/// size, concatenated in transmission order.
pub open spec fn transcript(pending: Seq<Seq<u8>>, remaining: int, written: int) -> Seq<u8>
    decreases remaining,
{
    if remaining <= 0 {
        Seq::<u8>::empty()
    } else {
        let n = if remaining + 4 > 240 {
            240int
        } else {
            remaining + 4
        };
        let block = if pending.len() > 0 {
            pending[0]
        } else {
            Seq::<u8>::empty()
        };
        let start = if written > 0 {
            4int
        } else {
            0int
        };
        let part = Seq::new((n - start) as nat, |i: int| byte_at(block, start + i));
        part + transcript(served_pending(pending), remaining - (n - 4), written + n - start)
    }
}

/// The transcript is as long as the body bytes owed, plus the retained
/// header when the run starts from an empty output.
proof fn lemma_transcript_len(pending: Seq<Seq<u8>>, remaining: int, written: int)
    requires
        remaining >= 0,
        written >= 0,
    ensures
        transcript(pending, remaining, written).len() == remaining + (if written == 0 && remaining
            > 0 {
            4int
        } else {
            0int
        }),
    decreases remaining,
{
    if remaining <= 0 {
    } else {
        let n = if remaining + 4 > 240 {
            240int
        } else {
            remaining + 4
        };
        lemma_transcript_len(served_pending(pending), remaining - (n - 4), written + n - (
        if written > 0 {
            4int
        } else {
            0int
        }));
    }
}

/// A run that meets no fault copies exactly its transcript into the
/// output, in order, and touches nothing else.
proof fn lemma_no_fault_transcribes(
    pending: Seq<Seq<u8>>,
    buf: Seq<u8>,
    remaining: int,
    written: int,
)
    requires
        remaining >= 0,
        written >= 0,
    ensures
        ({
            let o = replay(pending, buf, remaining, written);
            !o.aborted ==> o.buf == overwrite(buf, written, transcript(pending, remaining, written))
        }),
    decreases remaining,
{
    if remaining <= 0 {
        assert(overwrite(buf, written, Seq::<u8>::empty()) =~= buf);
    } else {
        let n = if remaining + 4 > 240 {
            240int
        } else {
            remaining + 4
        };
        let block = if pending.len() > 0 {
            pending[0]
        } else {
            Seq::<u8>::empty()
        };
        if parsed_len(block) <= 4 {
        } else {
            let start = if written > 0 {
                4int
            } else {
                0int
            };
            let seg = Seq::new(n as nat, |i: int| byte_at(block, i));
            let part = Seq::new((n - start) as nat, |i: int| byte_at(block, start + i));
            assert(seg.subrange(start, n) =~= part);
            let buf2 = overwrite(buf, written, part);
            let tail = served_pending(pending);
            lemma_no_fault_transcribes(tail, buf2, remaining - (n - 4), written + n - start);
            let rest = replay(tail, buf2, remaining - (n - 4), written + n - start);
            if !rest.aborted {
                let t2 = transcript(tail, remaining - (n - 4), written + n - start);
                assert(overwrite(buf2, written + (n - start), t2) =~= overwrite(
                    buf,
                    written,
                    part + t2,
                ));
            }
        }
    }
}

/// Wherever the segment bytes came from: a long packet read that meets no
/// fault returns the total it was asked for and fills the output with the
/// first segment whole — its header as the output's first bytes — and the
/// bytes past each continuation segment's header, in transmission order,
/// with no continuation-header bytes copied in.
pub proof fn lemma_no_fault_output(pending: Seq<Seq<u8>>, buf: Seq<u8>, total: int)
    requires
        240 <= total < 0x8000,
        buf.len() >= total,
    ensures
        ({
            let o = read_sized_outcome(pending, buf, total);
            !o.aborted ==> {
                &&& o.written == total
                &&& transcript(pending, total - 4, 0).len() == total
                &&& o.buf == overwrite(zeroed_header(buf), 0, transcript(pending, total - 4, 0))
            }
        }),
{
    lemma_sized_read_writes_total(pending, buf, total);
    lemma_transcript_len(pending, total - 4, 0);
    lemma_no_fault_transcribes(pending, zeroed_header(buf), total - 4, 0);
}

/// The block the `j`-th read transaction of a window will consume, or the
/// idle device's silence past the end of the plan.
pub open spec fn block_at(pending: Seq<Seq<u8>>, j: int) -> Seq<u8> {
    if 0 <= j < pending.len() {
        pending[j]
    } else {
        Seq::<u8>::empty()
    }
}

/// The planned blocks left once the first `n` of them are consumed.
pub open spec fn consumed(pending: Seq<Seq<u8>>, n: int) -> Seq<Seq<u8>> {
    if n <= pending.len() {
        pending.skip(n)
    } else {
        pending.skip(pending.len() as int)
    }
}

/// Wherever in the run the fault sits: when the replayed loop aborts, the
/// transaction consumed last is the one whose re-parsed header claimed no
/// body, every earlier one claimed one, and no transaction follows the
/// faulty one.
pub proof fn lemma_replay_abort_position(
    pending: Seq<Seq<u8>>,
    buf: Seq<u8>,
    remaining: int,
    written: int,
)
    ensures
        ({
            let o = replay(pending, buf, remaining, written);
            o.aborted ==> {
                &&& 1 <= o.reads
                &&& parsed_len(block_at(pending, o.reads - 1)) <= 4
                &&& forall|j: int| 0 <= j < o.reads - 1 ==> parsed_len(block_at(pending, j)) > 4
                &&& o.pending == consumed(pending, o.reads)
            }
        }),
    decreases remaining,
{
    if remaining <= 0 {
    } else {
        let n = if remaining + 4 > 240 {
            240int
        } else {
            remaining + 4
        };
        let block = if pending.len() > 0 {
            pending[0]
        } else {
            Seq::<u8>::empty()
        };
        if parsed_len(block) <= 4 {
            assert(block == block_at(pending, 0));
            assert(served_pending(pending) =~= consumed(pending, 1));
        } else {
            let start = if written > 0 {
                4int
            } else {
                0int
            };
            let seg = Seq::new(n as nat, |i: int| byte_at(block, i));
            let buf2 = overwrite(buf, written, seg.subrange(start, n));
            let tail = served_pending(pending);
            lemma_replay_abort_position(tail, buf2, remaining - (n - 4), written + n - start);
            let rest = replay(tail, buf2, remaining - (n - 4), written + n - start);
            if rest.aborted {
                // a silent device parses to zero, so the run would have
                // aborted right here: the plan cannot be empty
                assert(pending.len() > 0);
                assert(forall|j: int| 0 <= j ==> block_at(tail, j) == block_at(pending, j + 1));
                let o = replay(pending, buf, remaining, written);
                assert(o.reads == rest.reads + 1);
                assert(parsed_len(block_at(pending, o.reads - 1)) <= 4);
                assert forall|j: int| 0 <= j < o.reads - 1 implies parsed_len(
                    block_at(pending, j),
                ) > 4 by {
                    if j == 0 {
                        assert(block_at(pending, 0) == block);
                    } else {
                        assert(block_at(pending, j) == block_at(tail, j - 1));
                    }
                }
                assert(consumed(tail, rest.reads) =~= consumed(pending, rest.reads + 1));
            }
        }
    }
}

/// Wherever the faulty segment sits in a long packet read: when the read
/// reports the fault, exactly the transactions up to and through the
/// faulty segment were issued, its re-parsed header claimed no body while
/// every earlier one claimed one, and no segment after it was read.
pub proof fn lemma_fault_position(pending: Seq<Seq<u8>>, buf: Seq<u8>, total: int)
    requires
        240 <= total < 0x8000,
    ensures
        ({
            let o = read_sized_outcome(pending, buf, total);
            o.aborted ==> {
                &&& 1 <= o.reads
                &&& parsed_len(block_at(pending, o.reads - 1)) <= 4
                &&& forall|j: int| 0 <= j < o.reads - 1 ==> parsed_len(block_at(pending, j)) > 4
                &&& o.pending == consumed(pending, o.reads)
            }
        }),
{
    lemma_replay_abort_position(pending, zeroed_header(buf), total - 4, 0);
}

/// A segment whose re-parsed header claims no more than a bare header
/// aborts the sized read: zero bytes are reported, nothing past the zeroed
/// header region is written, and only that one transaction was issued.
pub proof fn lemma_bad_continuation_aborts(pending: Seq<Seq<u8>>, buf: Seq<u8>, total: int)
    requires
        240 <= total < 0x8000,
        pending.len() > 0,
        parsed_len(pending[0]) <= 4,
    ensures
        ({
            let o = read_sized_outcome(pending, buf, total);
            &&& o.aborted
            &&& o.buf == zeroed_header(buf)
            &&& o.reads == 1
            &&& o.pending == served_pending(pending)
        }),
{
}

/// A whole packet read only ever consumes planned blocks from the front,
/// so a plan whose claimed lengths fit a buffer keeps fitting it.
proof fn lemma_read_packet_plan_fits(pending: Seq<Seq<u8>>, buf: Seq<u8>, cap: int)
    requires
        plan_fits(pending, cap),
    ensures
        plan_fits(read_packet_outcome(pending, buf).pending, cap),
{
    lemma_served_pending_plan_fits(pending, cap);
    let len = packet_read_len(pending);
    if len <= 4 {
    } else {
        let tail = served_pending(pending);
        if len < 240 {
            lemma_served_pending_plan_fits(tail, cap);
        } else {
            lemma_replay_plan_fits(tail, zeroed_header(buf), len - 4, 0, cap);
        }
    }
}

} // verus!
