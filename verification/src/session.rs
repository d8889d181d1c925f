//! The source-session state machine.
//!
//! A session starts when a source connects and moves between two states:
//! reading, in which each chunk of bytes read from the source is absorbed
//! and every frame it completes is handed back for dispatch, and closed,
//! which an orderly disconnect (a zero-length read) or a read error makes
//! terminal.  Only the bytes not yet forming a complete frame are carried
//! between reads, so frames may be split arbitrarily across reads.

use vstd::prelude::*;
use crate::decoder::{Decoder, decode, frame_views};
use crate::frame::Frame;

verus! {

/// One source session: its decoder buffer and whether it has closed.
pub struct Session {
    decoder: Decoder,
    done: bool,
}

impl Session {
    /// The bytes read from the source but not yet part of a complete frame.
    pub closed spec fn buffered(&self) -> Seq<u8> {
        self.decoder@
    }

    /// Whether the session has reached its terminal state.
    pub closed spec fn is_closed(&self) -> bool {
        self.done
    }

    /// A fresh session: nothing buffered, not closed.
    pub fn new() -> (s: Session)
        ensures
            s.buffered() == Seq::<u8>::empty(),
            !s.is_closed(),
    {
        Session { decoder: Decoder::new(), done: false }
    }

    /// Whether the session has closed; a closed session takes no more reads.
    pub fn closed(&self) -> (r: bool)
        ensures
            r == self.is_closed(),
    {
        self.done
    }

    /// One reading step: absorb the bytes just read from the source and
    /// return every frame they complete, in order, for dispatch.  The
    /// session keeps exactly the bytes the decoder retained.
    pub fn on_read(&mut self, data: &[u8]) -> (frames: Vec<Frame>)
        requires
            !old(self).is_closed(),
        ensures
            frame_views(frames@) == decode(old(self).buffered() + data@).0,
            final(self).buffered() == decode(old(self).buffered() + data@).1,
            !final(self).is_closed(),
            forall|i: int| 0 <= i < frames@.len() ==> (#[trigger] frames@[i]).wf(),
    {
        self.decoder.feed(data)
    }

    /// The source disconnected (zero-length read) or its read failed: the
    /// session is closed for good.
    pub fn on_disconnect(&mut self)
        ensures
            final(self).is_closed(),
            final(self).buffered() == old(self).buffered(),
    {
        self.done = true;
    }
}

} // verus!
