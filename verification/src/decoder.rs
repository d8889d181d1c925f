//! The incremental frame decoder: an append-only byte buffer from which every
//! complete frame is drained as soon as it is present.
//!
//! After each read the decoder searches the buffer for the magic byte,
//! silently discards whatever precedes it (resynchronization), waits when the
//! header or the payload is still short, and otherwise removes exactly one
//! complete frame from the buffer front — repeating until no complete frame
//! is left.  `decode` is the specification of that drain: what it extracts
//! and what it keeps is a function of the buffered bytes alone, so frames
//! split arbitrarily across reads decode exactly as they would in one piece.

use vstd::prelude::*;
use crate::frame::{MAGIC, Frame, be16_at, total_len, valid_frame};

verus! {

/// The offset of the first magic byte of `b`, or -1 when `b` holds none.
pub open spec fn find_magic(b: Seq<u8>) -> int
    decreases b.len(),
{
    if b.len() == 0 {
        -1
    } else if b[0] == MAGIC {
        0
    } else {
        let r = find_magic(b.skip(1));
        if r < 0 {
            -1
        } else {
            r + 1
        }
    }
}

/// `find_magic` returns -1 exactly when no magic byte occurs, and otherwise
/// the offset of the first one.
pub proof fn lemma_find_magic_props(b: Seq<u8>)
    ensures
        find_magic(b) == -1 || 0 <= find_magic(b) < b.len(),
        find_magic(b) == -1 ==> forall|i: int| 0 <= i < b.len() ==> b[i] != MAGIC,
        find_magic(b) >= 0 ==> b[find_magic(b)] == MAGIC,
        find_magic(b) >= 0 ==> forall|i: int| 0 <= i < find_magic(b) ==> b[i] != MAGIC,
    decreases b.len(),
{
    if b.len() == 0 {
    } else if b[0] == MAGIC {
    } else {
        let t = b.skip(1);
        lemma_find_magic_props(t);
        assert forall|i: int| 1 <= i < b.len() implies b[i] == t[i - 1] by {
            assert(t[i - 1] == b[i]);
        }
        if find_magic(t) == -1 {
            assert forall|i: int| 0 <= i < b.len() implies b[i] != MAGIC by {
                if i >= 1 {
                    assert(b[i] == t[i - 1]);
                }
            }
        } else {
            let r = find_magic(t);
            assert(b[r + 1] == t[r]);
            assert forall|i: int| 0 <= i < r + 1 implies b[i] != MAGIC by {
                if i >= 1 {
                    assert(b[i] == t[i - 1]);
                }
            }
        }
    }
}

/// A position that holds the magic byte with none before it is the one
/// `find_magic` returns.
pub proof fn lemma_find_magic_unique(b: Seq<u8>, p: int)
    requires
        0 <= p < b.len(),
        b[p] == MAGIC,
        forall|i: int| 0 <= i < p ==> b[i] != MAGIC,
    ensures
        find_magic(b) == p,
{
    lemma_find_magic_props(b);
    if find_magic(b) == -1 {
        assert(b[p] != MAGIC);
    } else {
        let q = find_magic(b);
        if q < p {
            assert(b[q] != MAGIC);
        } else if q > p {
            assert(b[p] != MAGIC);
        }
    }
}

/// What one drain pass extracts from buffer `b` and what it leaves behind:
/// the sequence of complete frames, in order, and the retained bytes.
/// `find_magic` only ever yields -1 or an in-range offset; guarding on the
/// range keeps the recursion well-founded without appealing to that fact.
pub open spec fn decode(b: Seq<u8>) -> (Seq<Seq<u8>>, Seq<u8>)
    decreases b.len(),
{
    let p = find_magic(b);
    if !(0 <= p < b.len()) {
        (Seq::<Seq<u8>>::empty(), Seq::<u8>::empty())
    } else {
        let s = b.skip(p);
        if s.len() < 8 || s.len() < total_len(s) {
            (Seq::<Seq<u8>>::empty(), s)
        } else {
            let f = s.take(total_len(s));
            let rest = decode(s.skip(total_len(s)));
            (seq![f] + rest.0, rest.1)
        }
    }
}

/// Discarding the bytes before the first magic byte does not change what is
/// decoded: that is exactly what resynchronization does.
pub proof fn lemma_decode_resync(b: Seq<u8>)
    requires
        0 <= find_magic(b) < b.len(),
    ensures
        decode(b) == decode(b.skip(find_magic(b))),
{
    let p = find_magic(b);
    let s = b.skip(p);
    lemma_find_magic_props(b);
    assert(s[0] == b[p]);
    assert(find_magic(s) == 0);
    assert(s.skip(0) =~= s);
}

/// How `decode` acts on a buffer that already starts with the magic byte:
/// wait while the header or the payload is short, else split off one frame.
pub proof fn lemma_decode_synced(b: Seq<u8>)
    requires
        b.len() > 0,
        b[0] == MAGIC,
    ensures
        b.len() < 8 || b.len() < total_len(b) ==> decode(b) == (
            Seq::<Seq<u8>>::empty(),
            b,
        ),
        b.len() >= 8 && b.len() >= total_len(b) ==> decode(b) == (
            seq![b.take(total_len(b))] + decode(b.skip(total_len(b))).0,
            decode(b.skip(total_len(b))).1,
        ),
{
    assert(find_magic(b) == 0);
    assert(b.skip(0) =~= b);
}

/// Split-boundary invariance: bytes arriving in two reads decode exactly as
/// they would in one.  Decoding `b1` and then decoding what it retained with
/// `b2` appended yields, frame for frame and byte for byte, what decoding
/// `b1 + b2` at once yields.
pub proof fn lemma_decode_append(b1: Seq<u8>, b2: Seq<u8>)
    ensures
        decode(b1 + b2).0 == decode(b1).0 + decode(decode(b1).1 + b2).0,
        decode(b1 + b2).1 == decode(decode(b1).1 + b2).1,
    decreases b1.len(),
{
    lemma_find_magic_props(b1);
    lemma_find_magic_props(b2);
    let p1 = find_magic(b1);
    if p1 == -1 {
        assert(decode(b1).0 =~= Seq::<Seq<u8>>::empty());
        assert(decode(b1).1 =~= Seq::<u8>::empty());
        assert(decode(b1).1 + b2 =~= b2);
        let p2 = find_magic(b2);
        if p2 == -1 {
            lemma_find_magic_props(b1 + b2);
            if find_magic(b1 + b2) >= 0 {
                let q = find_magic(b1 + b2);
                if q < b1.len() {
                    assert(b1[q] == MAGIC);
                } else {
                    assert(b2[q - b1.len()] == MAGIC);
                }
                assert(false);
            }
            assert(decode(b1 + b2).0 =~= Seq::<Seq<u8>>::empty());
            assert(decode(b2).0 =~= Seq::<Seq<u8>>::empty());
            assert(decode(b1 + b2).1 =~= decode(b2).1);
        } else {
            assert((b1 + b2)[b1.len() + p2] == b2[p2]);
            assert forall|i: int| 0 <= i < b1.len() + p2 implies (b1 + b2)[i] != MAGIC by {
                if i < b1.len() {
                    assert((b1 + b2)[i] == b1[i]);
                } else {
                    assert((b1 + b2)[i] == b2[i - b1.len()]);
                }
            }
            lemma_find_magic_unique(b1 + b2, b1.len() + p2);
            lemma_decode_resync(b1 + b2);
            lemma_decode_resync(b2);
            assert((b1 + b2).skip(b1.len() + p2) =~= b2.skip(p2));
        }
        assert(decode(b1 + b2).0 =~= decode(b1).0 + decode(decode(b1).1 + b2).0);
    } else {
        let s = b1.skip(p1);
        lemma_decode_resync(b1);
        assert((b1 + b2)[p1] == b1[p1]);
        assert forall|i: int| 0 <= i < p1 implies (b1 + b2)[i] != MAGIC by {
            assert((b1 + b2)[i] == b1[i]);
        }
        lemma_find_magic_unique(b1 + b2, p1);
        lemma_decode_resync(b1 + b2);
        assert((b1 + b2).skip(p1) =~= s + b2);
        assert(s[0] == b1[p1]);
        if s.len() < 8 || s.len() < total_len(s) {
            lemma_decode_synced(s);
            assert(decode(b1).0 =~= Seq::<Seq<u8>>::empty());
            assert(decode(b1).1 == s);
            assert(decode(b1 + b2) == decode(s + b2));
            assert(decode(b1 + b2).0 =~= decode(b1).0 + decode(decode(b1).1 + b2).0);
        } else {
            let t = total_len(s);
            let f = s.take(t);
            let s2 = s.skip(t);
            lemma_decode_synced(s);
            let u = s + b2;
            assert(u[0] == s[0]);
            assert(u[2] == s[2] && u[3] == s[3]);
            assert(total_len(u) == t);
            lemma_decode_synced(u);
            assert(u.take(t) =~= f);
            assert(u.skip(t) =~= s2 + b2);
            lemma_decode_append(s2, b2);
            assert(decode(b1 + b2).0 == seq![f] + decode(s2 + b2).0);
            assert(decode(s2 + b2).0 == decode(s2).0 + decode(decode(s2).1 + b2).0);
            assert(decode(b1).0 == seq![f] + decode(s2).0);
            assert(decode(b1).1 == decode(s2).1);
            assert(seq![f] + (decode(s2).0 + decode(decode(s2).1 + b2).0) =~= (seq![f]
                + decode(s2).0) + decode(decode(s2).1 + b2).0);
            assert(decode(b1 + b2).1 == decode(decode(b1).1 + b2).1);
        }
    }
}

/// Non-magic noise before one complete frame decodes to exactly that frame
/// and nothing else: the noise is dropped silently, never misparsed as a
/// header, and no bytes are retained.
pub proof fn lemma_noise_then_frame(noise: Seq<u8>, f: Seq<u8>)
    requires
        forall|i: int| 0 <= i < noise.len() ==> noise[i] != MAGIC,
        valid_frame(f),
    ensures
        decode(noise + f).0 == seq![f],
        decode(noise + f).1 == Seq::<u8>::empty(),
{
    let u = noise + f;
    assert(u[noise.len() as int] == f[0]);
    assert forall|i: int| 0 <= i < noise.len() implies u[i] != MAGIC by {
        assert(u[i] == noise[i]);
    }
    lemma_find_magic_unique(u, noise.len() as int);
    lemma_decode_resync(u);
    assert(u.skip(noise.len() as int) =~= f);
    lemma_decode_synced(f);
    assert(f.take(total_len(f)) =~= f);
    let e = f.skip(total_len(f));
    assert(e =~= Seq::<u8>::empty());
    assert(find_magic(e) == -1);
    assert(decode(e).0 =~= Seq::<Seq<u8>>::empty());
    assert(decode(u).0 =~= seq![f]);
}

/// The views of the frames of `s`, in order: the byte sequences a broadcast
/// of them would write.
pub open spec fn frame_views(s: Seq<Frame>) -> Seq<Seq<u8>> {
    s.map_values(|f: Frame| f@)
}

fn push_all(v: &mut Vec<u8>, data: &[u8])
    ensures
        final(v)@ == old(v)@ + data@,
{
    let mut i: usize = 0;
    while i < data.len()
        invariant
            i <= data@.len(),
            v@ == old(v)@ + data@.take(i as int),
        decreases data@.len() - i,
    {
        v.push(data[i]);
        i = i + 1;
        assert(old(v)@ + data@.take(i as int) =~= (old(v)@ + data@.take(i - 1)).push(
            data@[i - 1],
        ));
    }
    assert(data@.take(data@.len() as int) =~= data@);
}

fn drain_front(v: &mut Vec<u8>, n: usize)
    requires
        n <= old(v)@.len(),
    ensures
        final(v)@ == old(v)@.skip(n as int),
{
    let tail = v.split_off(n);
    *v = tail;
    assert(v@ =~= old(v)@.skip(n as int));
}

fn take_front(v: &mut Vec<u8>, n: usize) -> (r: Vec<u8>)
    requires
        n <= old(v)@.len(),
    ensures
        r@ == old(v)@.take(n as int),
        final(v)@ == old(v)@.skip(n as int),
{
    let mut tail = v.split_off(n);
    core::mem::swap(v, &mut tail);
    assert(v@ =~= old(v)@.skip(n as int));
    assert(tail@ =~= old(v)@.take(n as int));
    tail
}

fn find_magic_pos(v: &Vec<u8>) -> (r: Option<usize>)
    ensures
        match r {
            Some(p) => p < v@.len() && find_magic(v@) == p,
            None => find_magic(v@) == -1,
        },
{
    let mut i: usize = 0;
    while i < v.len()
        invariant
            i <= v@.len(),
            forall|j: int| 0 <= j < i ==> v@[j] != MAGIC,
        decreases v@.len() - i,
    {
        if v[i] == MAGIC {
            proof {
                lemma_find_magic_unique(v@, i as int);
            }
            return Some(i);
        }
        i = i + 1;
    }
    proof {
        lemma_find_magic_props(v@);
        if find_magic(v@) >= 0 {
            assert(v@[find_magic(v@)] != MAGIC);
        }
    }
    None
}

fn read_be16(v: &Vec<u8>, i: usize) -> (r: u16)
    requires
        i + 2 <= v@.len(),
    ensures
        r == be16_at(v@, i as int),
{
    let n: usize = v.len();
    assert(i + 2 <= n);
    (v[i] as u16) * 256 + (v[i + 1] as u16)
}

/// The per-session frame decoder: the not-yet-processed bytes of the source
/// stream.  Bytes go in as they are read; complete frames come out at once.
pub struct Decoder {
    buf: Vec<u8>,
}

impl View for Decoder {
    type V = Seq<u8>;

    closed spec fn view(&self) -> Seq<u8> {
        self.buf@
    }
}

impl Decoder {
    /// A decoder with an empty buffer.
    pub fn new() -> (d: Decoder)
        ensures
            d@ == Seq::<u8>::empty(),
    {
        Decoder { buf: Vec::new() }
    }

    /// How many bytes wait in the buffer.
    pub fn buffered(&self) -> (r: usize)
        ensures
            r == self@.len(),
    {
        self.buf.len()
    }

    /// Appends the bytes just read from the source and drains every frame
    /// they complete, in order; the buffer keeps exactly what `decode`
    /// retains, so a later read resumes where this one stopped.
    pub fn feed(&mut self, data: &[u8]) -> (frames: Vec<Frame>)
        ensures
            frame_views(frames@) == decode(old(self)@ + data@).0,
            final(self)@ == decode(old(self)@ + data@).1,
            forall|i: int| 0 <= i < frames@.len() ==> (#[trigger] frames@[i]).wf(),
    {
        push_all(&mut self.buf, data);
        let ghost full: Seq<u8> = self.buf@;
        let mut frames: Vec<Frame> = Vec::new();
        proof {
            assert(frame_views(frames@) =~= Seq::<Seq<u8>>::empty());
            assert(frame_views(frames@) + decode(full).0 =~= decode(full).0);
        }
        loop
            invariant_except_break
                frame_views(frames@) + decode(self.buf@).0 == decode(full).0,
                decode(self.buf@).1 == decode(full).1,
                forall|i: int| 0 <= i < frames@.len() ==> (#[trigger] frames@[i]).wf(),
            ensures
                frame_views(frames@) == decode(full).0,
                self.buf@ == decode(full).1,
                forall|i: int| 0 <= i < frames@.len() ==> (#[trigger] frames@[i]).wf(),
            decreases self.buf@.len(),
        {
            let ghost b0 = self.buf@;
            let pos = find_magic_pos(&self.buf);
            match pos {
                None => {
                    proof {
                        assert(decode(b0).0 =~= Seq::<Seq<u8>>::empty());
                        assert(frame_views(frames@) + decode(b0).0 =~= frame_views(frames@));
                    }
                    self.buf.clear();
                    proof {
                        assert(decode(self.buf@).1 =~= self.buf@);
                    }
                    break;
                },
                Some(p) => {
                    if p > 0 {
                        proof {
                            lemma_decode_resync(b0);
                        }
                        drain_front(&mut self.buf, p);
                    }
                    let ghost b = self.buf@;
                    proof {
                        assert(decode(b) == decode(b0));
                        lemma_find_magic_props(b0);
                        assert(b[0] == MAGIC);
                    }
                    if self.buf.len() < 8 {
                        proof {
                            lemma_decode_synced(b);
                            assert(frame_views(frames@) + decode(b).0 =~= frame_views(frames@));
                        }
                        break;
                    }
                    let length: usize = read_be16(&self.buf, 2) as usize;
                    let total: usize = 8 + length;
                    proof {
                        assert(total == total_len(b));
                    }
                    if self.buf.len() < total {
                        proof {
                            lemma_decode_synced(b);
                            assert(frame_views(frames@) + decode(b).0 =~= frame_views(frames@));
                        }
                        break;
                    }
                    proof {
                        lemma_decode_synced(b);
                    }
                    let fb: Vec<u8> = take_front(&mut self.buf, total);
                    proof {
                        assert(valid_frame(fb@)) by {
                            assert(fb@[0] == b[0]);
                            assert(fb@[2] == b[2] && fb@[3] == b[3]);
                        }
                    }
                    let fr = Frame::new(fb);
                    let ghost frames0 = frames@;
                    frames.push(fr);
                    proof {
                        assert(frame_views(frames@) =~= frame_views(frames0) + seq![fr@]);
                        assert(decode(b).0 == seq![fr@] + decode(self.buf@).0);
                        assert(frame_views(frames0) + (seq![fr@] + decode(self.buf@).0)
                            =~= (frame_views(frames0) + seq![fr@]) + decode(self.buf@).0);
                        assert(frame_views(frames@) + decode(self.buf@).0 == decode(full).0);
                    }
                },
            }
        }
        frames
    }
}

} // verus!
