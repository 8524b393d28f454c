//! The per-connection framing state machine: an accumulator of bytes read
//! from the socket, from which complete MLI-framed requests are extracted in
//! arrival order. A frame may arrive split across reads, and one read may
//! carry several frames.

use vstd::prelude::*;
use crate::errors::ParseError;
use crate::field::copy_range;
use crate::mli::{MLIType, spec_mli_parse};

verus! {

/// What the connection loop should do next.
#[derive(Debug)]
pub enum ConnStep {
    /// Wait for more bytes from the socket.
    NeedRead,
    /// A complete request frame (payload only, without its length prefix),
    /// ready for dispatch.
    Frame(Vec<u8>),
    /// The connection must close: a framing error, or a frame larger than the
    /// configured cap.
    Close(ParseError),
}

/// Buffered per-connection state: the accumulated bytes not yet consumed and,
/// once the current frame's length prefix has been consumed, the announced
/// payload length.
#[derive(Debug)]
pub struct ConnState {
    pub acc: Vec<u8>,
    pub pending: Option<u32>,
}

impl ConnState {
    /// A fresh connection: nothing buffered, no frame under way.
    pub fn new() -> (r: ConnState)
        ensures
            r.acc@ == Seq::<u8>::empty(),
            r.pending is None,
    {
        ConnState { acc: Vec::new(), pending: None }
    }

    /// Appends bytes read from the socket to the accumulator.
    pub fn feed(&mut self, data: &Vec<u8>)
        ensures
            final(self).acc@ == old(self).acc@ + data@,
            final(self).pending == old(self).pending,
    {
        let mut i: usize = 0;
        let ghost acc0 = self.acc@;
        while i < data.len()
            invariant
                i <= data@.len(),
                self.acc@ =~= acc0 + data@.take(i as int),
                self.pending == old(self).pending,
            decreases data@.len() - i,
        {
            self.acc.push(data[i]);
            proof {
                assert(data@.take(i + 1) =~= data@.take(i as int).push(data@[i as int]));
            }
            i = i + 1;
        }
        proof {
            assert(data@.take(data@.len() as int) =~= data@);
        }
    }

    /// Takes the next step: consumes the length prefix once enough bytes are
    /// buffered, rejects a frame longer than `max_frame` or a malformed
    /// prefix by closing, extracts the frame once its payload is buffered,
    /// and otherwise asks for another read. Frames leave the accumulator in
    /// arrival order, unread bytes stay buffered.
    #[verifier::loop_isolation(false)]
    pub fn next_step(&mut self, mli: &MLIType, max_frame: usize) -> (r: ConnStep)
        ensures
            ({
                match old(self).pending {
                    None => {
                        let m = spec_mli_parse(*mli, old(self).acc@);
                        match m {
                            Err(_) => r is Close,
                            Ok(None) => r is NeedRead && *final(self) == *old(self),
                            Ok(Some((n, c))) => {
                                if n > max_frame {
                                    r is Close
                                } else if old(self).acc@.len() >= c + n {
                                    &&& r matches ConnStep::Frame(f) && f@ == old(
                                        self,
                                    ).acc@.subrange(c, c + n)
                                    &&& final(self).acc@ == old(self).acc@.skip(c + n)
                                    &&& final(self).pending is None
                                } else {
                                    &&& r is NeedRead
                                    &&& final(self).acc@ == old(self).acc@.skip(c)
                                    &&& final(self).pending == Some(n)
                                }
                            },
                        }
                    },
                    Some(n) => {
                        if old(self).acc@.len() >= n {
                            &&& r matches ConnStep::Frame(f) && f@ == old(self).acc@.take(n as int)
                            &&& final(self).acc@ == old(self).acc@.skip(n as int)
                            &&& final(self).pending is None
                        } else {
                            r is NeedRead && *final(self) == *old(self)
                        }
                    },
                }
            }),
    {
        match self.pending {
            None => {
                match mli.parse(&self.acc, 0) {
                    Err(e) => ConnStep::Close(e),
                    Ok(None) => ConnStep::NeedRead,
                    Ok(Some((n, c))) => {
                        if n as usize > max_frame {
                            return ConnStep::Close(
                                ParseError {
                                    msg: "frame exceeds the configured maximum".to_owned(),
                                },
                            );
                        }
                        if self.acc.len() - c >= n as usize {
                            let frame = copy_range(&self.acc, c, c + n as usize);
                            let rest = copy_range(&self.acc, c + n as usize, self.acc.len());
                            proof {
                                assert(rest@ =~= self.acc@.skip(c + n as usize));
                            }
                            self.acc = rest;
                            self.pending = None;
                            ConnStep::Frame(frame)
                        } else {
                            let rest = copy_range(&self.acc, c, self.acc.len());
                            proof {
                                assert(rest@ =~= self.acc@.skip(c as int));
                            }
                            self.acc = rest;
                            self.pending = Some(n);
                            ConnStep::NeedRead
                        }
                    },
                }
            },
            Some(n) => {
                if self.acc.len() >= n as usize {
                    let frame = copy_range(&self.acc, 0, n as usize);
                    let rest = copy_range(&self.acc, n as usize, self.acc.len());
                    proof {
                        assert(frame@ =~= self.acc@.take(n as int));
                        assert(rest@ =~= self.acc@.skip(n as int));
                    }
                    self.acc = rest;
                    self.pending = None;
                    ConnStep::Frame(frame)
                } else {
                    ConnStep::NeedRead
                }
            },
        }
    }
}

} // verus!
