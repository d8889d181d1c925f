//! The wire format of one frame and the dispatch decision made for it.
//!
//! A frame is an 8-byte header followed by its payload: the magic marker
//! byte, an options byte whose bit 6 marks the frame sensitive, a big-endian
//! payload length, a big-endian checksum (meaningful only when the frame is
//! sensitive), and two reserved bytes.  A sensitive frame is forwarded only
//! when its stated checksum matches the one computed over the whole frame;
//! any other frame is forwarded unconditionally.

use vstd::prelude::*;
use crate::checksum::{checksum_of, compute_checksum, verify_checksum, lemma_checksum_ignores_checksum_field};

verus! {

/// The fixed marker byte that opens every frame header.
pub const MAGIC: u8 = 0xCC;

/// The options-byte bit that marks a frame sensitive (checksummed).
pub const SENSITIVE_BIT: u8 = 0x40;

/// The 16-bit big-endian value held by bytes `i` and `i + 1` of `m`.
pub open spec fn be16_at(m: Seq<u8>, i: int) -> u16
    recommends
        0 <= i,
        i + 2 <= m.len(),
{
    (m[i] as int * 256 + m[i + 1] as int) as u16
}

/// The payload length a header states: bytes 2 and 3, big-endian.
pub open spec fn payload_len(f: Seq<u8>) -> int
    recommends
        f.len() >= 8,
{
    be16_at(f, 2) as int
}

/// The on-wire size of the frame a header announces: header plus payload.
pub open spec fn total_len(f: Seq<u8>) -> int
    recommends
        f.len() >= 8,
{
    8 + payload_len(f)
}

/// Whether the options byte marks the frame sensitive.
pub open spec fn is_sensitive(f: Seq<u8>) -> bool
    recommends
        f.len() >= 2,
{
    f[1] & SENSITIVE_BIT != 0
}

/// The checksum the frame carries: bytes 4 and 5, big-endian.
pub open spec fn stated_checksum(f: Seq<u8>) -> u16
    recommends
        f.len() >= 6,
{
    be16_at(f, 4)
}

/// One complete frame: it opens with the magic byte and is exactly as long
/// as its header announces.
pub open spec fn valid_frame(f: Seq<u8>) -> bool {
    &&& f.len() >= 8
    &&& f[0] == MAGIC
    &&& f.len() == total_len(f)
}

/// The dispatch decision: a frame is forwarded unless it is sensitive and its
/// stated checksum disagrees with the computed one.
pub open spec fn frame_forward(f: Seq<u8>) -> bool {
    !is_sensitive(f) || checksum_of(f) == stated_checksum(f)
}

/// One complete frame as extracted from the source stream, held verbatim.
pub struct Frame {
    bytes: Vec<u8>,
}

impl View for Frame {
    type V = Seq<u8>;

    closed spec fn view(&self) -> Seq<u8> {
        self.bytes@
    }
}

impl Frame {
    /// Well-formed: the held bytes are one complete frame.
    pub open spec fn wf(&self) -> bool {
        valid_frame(self@)
    }

    /// Wraps bytes already known to form one complete frame.
    pub fn new(bytes: Vec<u8>) -> (f: Frame)
        requires
            valid_frame(bytes@),
        ensures
            f@ == bytes@,
            f.wf(),
    {
        Frame { bytes }
    }

    /// The frame verbatim, header and payload: what a broadcast writes.
    pub fn data(&self) -> (r: &Vec<u8>)
        ensures
            r@ == self@,
    {
        &self.bytes
    }

    /// The on-wire size of the frame.
    pub fn len(&self) -> (r: usize)
        ensures
            r == self@.len(),
    {
        self.bytes.len()
    }

    /// The options byte.
    pub fn options(&self) -> (r: u8)
        requires
            self.wf(),
        ensures
            r == self@[1],
    {
        self.bytes[1]
    }

    /// Whether the sensitive bit of the options byte is set.
    pub fn sensitive(&self) -> (r: bool)
        requires
            self.wf(),
        ensures
            r == is_sensitive(self@),
    {
        self.bytes[1] & SENSITIVE_BIT != 0
    }

    /// The checksum the frame carries.
    pub fn checksum_field(&self) -> (r: u16)
        requires
            self.wf(),
        ensures
            r == stated_checksum(self@),
    {
        (self.bytes[4] as u16) * 256 + (self.bytes[5] as u16)
    }

    /// A copy of the payload alone.
    pub fn payload(&self) -> (r: Vec<u8>)
        requires
            self.wf(),
        ensures
            r@ == self@.skip(8),
    {
        let mut r: Vec<u8> = Vec::new();
        let mut i: usize = 8;
        while i < self.bytes.len()
            invariant
                8 <= i <= self@.len(),
                self@.len() >= 8,
                r@ == self@.subrange(8, i as int),
            decreases self@.len() - i,
        {
            r.push(self.bytes[i]);
            i = i + 1;
        }
        assert(r@ =~= self@.skip(8));
        r
    }

    /// The dispatch decision for this frame: verify the checksum when the
    /// sensitive bit is set, forward unconditionally otherwise.
    pub fn should_forward(&self) -> (r: bool)
        requires
            self.wf(),
        ensures
            r == frame_forward(self@),
    {
        if self.sensitive() {
            let stated: u16 = self.checksum_field();
            verify_checksum(self.bytes.as_slice(), stated)
        } else {
            true
        }
    }
}

/// Every valid frame whose sensitive bit is clear is forwarded: the checksum
/// is consulted only for sensitive frames.
pub proof fn lemma_clear_frame_forwarded(f: Seq<u8>)
    requires
        valid_frame(f),
        !is_sensitive(f),
    ensures
        frame_forward(f),
{
}

/// Writing the computed checksum into the checksum field of a message does
/// not change its computed checksum, so the message then carries exactly the
/// checksum that verification recomputes: checksum round trips.
pub proof fn lemma_stored_checksum_verifies(m: Seq<u8>)
    requires
        m.len() >= 6,
    ensures
        ({
            let c = checksum_of(m);
            let stored = m.update(4, (c / 256) as u8).update(5, (c % 256) as u8);
            checksum_of(stored) == c && stated_checksum(stored) == c
        }),
{
    let c = checksum_of(m);
    let stored = m.update(4, (c / 256) as u8).update(5, (c % 256) as u8);
    lemma_checksum_ignores_checksum_field(m, stored);
    assert(stated_checksum(stored) == c) by {
        assert(stored[4] == (c / 256) as u8);
        assert(stored[5] == (c % 256) as u8);
        assert(c / 256 * 256 + c % 256 == c) by {
            vstd::arithmetic::div_mod::lemma_fundamental_div_mod(c as int, 256);
        }
    }
}

/// Builds the one complete frame with the given options byte and payload:
/// magic, options, big-endian payload length, the computed checksum stored in
/// the checksum field, zeroed reserved bytes, then the payload verbatim.
pub fn make_frame(options: u8, payload: &[u8]) -> (r: Vec<u8>)
    requires
        payload@.len() <= 0xFFFF,
    ensures
        valid_frame(r@),
        r@.len() == 8 + payload@.len(),
        r@[0] == MAGIC,
        r@[1] == options,
        payload_len(r@) == payload@.len(),
        stated_checksum(r@) == checksum_of(r@),
        r@[6] == 0 && r@[7] == 0,
        r@.skip(8) == payload@,
{
    let n: usize = payload.len();
    let mut v: Vec<u8> = Vec::new();
    v.push(MAGIC);
    v.push(options);
    v.push((n / 256) as u8);
    v.push((n % 256) as u8);
    v.push(0);
    v.push(0);
    v.push(0);
    v.push(0);
    let mut i: usize = 0;
    while i < n
        invariant
            n == payload@.len(),
            i <= n,
            v@.len() == 8 + i,
            v@[0] == MAGIC && v@[1] == options,
            v@[2] == (n / 256) as u8 && v@[3] == (n % 256) as u8,
            v@[4] == 0 && v@[5] == 0 && v@[6] == 0 && v@[7] == 0,
            v@.skip(8) == payload@.take(i as int),
        decreases n - i,
    {
        v.push(payload[i]);
        i = i + 1;
        assert(v@.skip(8) =~= payload@.take(i as int));
    }
    assert(payload@.take(n as int) =~= payload@);
    proof {
        assert(be16_at(v@, 2) == n) by {
            assert(n / 256 * 256 + n % 256 == n) by {
                vstd::arithmetic::div_mod::lemma_fundamental_div_mod(n as int, 256);
            }
            assert(n / 256 <= 255) by {
                vstd::arithmetic::div_mod::lemma_div_is_ordered_by_denominator(0xFFFF as int, 1, 256);
            }
        }
    }
    let c: u16 = compute_checksum(v.as_slice());
    let hi: u8 = (c / 256) as u8;
    let lo: u8 = (c % 256) as u8;
    let ghost before = v@;
    v.remove(4);
    v.insert(4, hi);
    assert(v@ =~= before.update(4, hi));
    v.remove(5);
    v.insert(5, lo);
    assert(v@ =~= before.update(4, hi).update(5, lo));
    proof {
        lemma_stored_checksum_verifies(before);
        assert(c / 256 <= 255);
        assert(v@.skip(8) =~= before.skip(8));
    }
    v
}

} // verus!
