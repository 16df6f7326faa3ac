use vstd::prelude::*;
use vstd::slice::slice_to_vec;

use crate::data::WeechatMessage;
use crate::decode::be_u32_at;
use crate::errors::{ErrorKind, WeechatParseError};
use crate::wire::{be_u32, spec_message, MessageModel};

verus! {

/// What draining an accumulator yields: the decode results in frame order
/// (`None` stands for the one error that ends the session), the bytes that
/// remain accumulated, and whether the session failed.
pub open spec fn spec_drain(acc: Seq<u8>) -> (Seq<Option<MessageModel>>, Seq<u8>, bool)
    decreases acc.len(),
{
    if acc.len() <= 4 {
        (Seq::<Option<MessageModel>>::empty(), acc, false)
    } else {
        let l = be_u32(acc) as int;
        if l < 5 {
            (seq![Option::<MessageModel>::None], acc.skip(l), true)
        } else if acc.len() < l {
            (Seq::<Option<MessageModel>>::empty(), acc, false)
        } else {
            match spec_message(acc.take(l)) {
                None => (seq![Option::<MessageModel>::None], acc.skip(l), true),
                Some(m) => {
                    let r = spec_drain(acc.skip(l));
                    (seq![Some(m)] + r.0, r.1, r.2)
                },
            }
        }
    }
}

/// Whether the emitted results stand for the modelled outcomes, in order:
/// a decoded message for each `Some`, an error for each `None`.
pub open spec fn outputs_match(
    out: Seq<Result<WeechatMessage, WeechatParseError>>,
    models: Seq<Option<MessageModel>>,
) -> bool {
    &&& out.len() == models.len()
    &&& forall|i: int|
        #![trigger out[i]]
        0 <= i < out.len() ==> match models[i] {
            Some(m) => out[i] is Ok && out[i]->Ok_0.dview() == m,
            None => out[i] is Err,
        }
}

/// Frames drained from the front of the accumulator, one after the other,
/// until the bytes left are too few or a frame fails to decode.
fn drain_frames(buf: Vec<u8>) -> (r: (
    Vec<Result<WeechatMessage, WeechatParseError>>,
    Vec<u8>,
    bool,
))
    ensures
        ({
            let d = spec_drain(buf@);
            r.1@ == d.1 && r.2 == d.2 && outputs_match(r.0@, d.0)
        }),
    decreases buf@.len(),
{
    if buf.len() <= 4 {
        (Vec::new(), buf, false)
    } else {
        let l32 = be_u32_at(buf.as_slice(), 0);
        let l = l32 as usize;
        if l < 5 {
            let mut b = buf;
            let tail = b.split_off(l);
            let mut out: Vec<Result<WeechatMessage, WeechatParseError>> = Vec::new();
            out.push(
                Err(
                    WeechatParseError::new(
                        ErrorKind::MalformedBinaryParse,
                        "declared frame length is shorter than a frame header",
                    ),
                ),
            );
            (out, tail, true)
        } else if buf.len() < l {
            (Vec::new(), buf, false)
        } else {
            let mut b = buf;
            let tail = b.split_off(l);
            proof {
                assert(b@ =~= buf@.take(l as int));
                assert(tail@ =~= buf@.skip(l as int));
            }
            match WeechatMessage::from_raw_message(b.as_slice()) {
                Ok(m) => {
                    let ghost mm = m.dview();
                    let (mut out, rbuf, f) = drain_frames(tail);
                    let ghost old_out = out@;
                    out.insert(0, Ok(m));
                    proof {
                        let d = spec_drain(buf@);
                        assert(out@ =~= seq![
                            Result::<WeechatMessage, WeechatParseError>::Ok(m),
                        ] + old_out);
                        assert(d.0 == seq![Some(mm)] + spec_drain(buf@.skip(l as int)).0);
                        assert forall|i: int| 0 <= i < out@.len() implies match d.0[i] {
                            Some(m2) => #[trigger] out@[i] is Ok && out@[i]->Ok_0.dview() == m2,
                            None => out@[i] is Err,
                        } by {
                            if i > 0 {
                                assert(out@[i] == old_out[i - 1]);
                                assert(d.0[i] == spec_drain(buf@.skip(l as int)).0[i - 1]);
                            }
                        }
                    }
                    (out, rbuf, f)
                },
                Err(e) => {
                    let mut out: Vec<Result<WeechatMessage, WeechatParseError>> = Vec::new();
                    out.push(Err(e));
                    (out, tail, true)
                },
            }
        }
    }
}

/// The stateful reassembler: it accumulates arbitrary byte chunks, drains
/// complete frames in arrival order, and stops for good at the first error.
pub struct Reassembler {
    buffer: Vec<u8>,
    failed: bool,
}

impl Reassembler {
    /// The bytes accumulated and not yet drained as a complete frame.
    pub closed spec fn acc(self) -> Seq<u8> {
        self.buffer@
    }

    /// Whether the session saw an error and stopped for good.
    pub closed spec fn has_failed(self) -> bool {
        self.failed
    }

    /// A fresh session: nothing accumulated, nothing failed.
    pub fn new() -> (r: Reassembler)
        ensures
            r.acc() == Seq::<u8>::empty(),
            !r.has_failed(),
    {
        Reassembler { buffer: Vec::new(), failed: false }
    }

    /// One chunk of arbitrary size fed in: the chunk joins the accumulator,
    /// every complete frame is drained and decoded in order, and the results
    /// come back. After the first error the session is failed for good:
    /// nothing more is consumed and nothing more comes back.
    pub fn feed(&mut self, chunk: &[u8]) -> (out: Vec<
        Result<WeechatMessage, WeechatParseError>,
    >)
        ensures
            old(self).has_failed() ==> *final(self) == *old(self) && out@.len() == 0,
            !old(self).has_failed() ==> ({
                let d = spec_drain(old(self).acc() + chunk@);
                &&& final(self).acc() == d.1
                &&& final(self).has_failed() == d.2
                &&& outputs_match(out@, d.0)
            }),
    {
        if self.failed {
            return Vec::new();
        }
        let mut incoming = slice_to_vec(chunk);
        self.buffer.append(&mut incoming);
        let mut drained: Vec<u8> = Vec::new();
        core::mem::swap(&mut drained, &mut self.buffer);
        let (out, rest, failed) = drain_frames(drained);
        self.buffer = rest;
        self.failed = failed;
        out
    }
}

} // verus!

verus! {

/// Draining is incremental: where draining `a` has not failed, appending more
/// bytes first drains exactly what `a` alone drained, then continues on what
/// `a` left over followed by the new bytes.
pub proof fn lemma_drain_append(a: Seq<u8>, b: Seq<u8>)
    requires
        !spec_drain(a).2,
    ensures
        ({
            let d1 = spec_drain(a);
            let d2 = spec_drain(d1.1 + b);
            spec_drain(a + b) == (d1.0 + d2.0, d2.1, d2.2)
        }),
    decreases a.len(),
{
    let d1 = spec_drain(a);
    if a.len() <= 4 {
        assert(d1.1 + b =~= a + b);
        let d2 = spec_drain(a + b);
        assert(d1.0 + d2.0 =~= d2.0);
    } else {
        assert((a + b)[0] == a[0] && (a + b)[1] == a[1] && (a + b)[2] == a[2] && (a + b)[3]
            == a[3]);
        assert(be_u32(a + b) == be_u32(a));
        let l = be_u32(a) as int;
        if l < 5 {
            // draining `a` failed, contrary to what is required
        } else if a.len() < l {
            assert(d1.1 + b =~= a + b);
            let d2 = spec_drain(a + b);
            assert(d1.0 + d2.0 =~= d2.0);
        } else {
            assert((a + b).take(l) =~= a.take(l));
            match spec_message(a.take(l)) {
                None => {
                    // draining `a` failed, contrary to what is required
                },
                Some(m) => {
                    let r = spec_drain(a.skip(l));
                    assert((a + b).skip(l) =~= a.skip(l) + b);
                    lemma_drain_append(a.skip(l), b);
                    let dd = spec_drain(r.1 + b);
                    assert(spec_drain(a.skip(l) + b) == (r.0 + dd.0, dd.1, dd.2));
                    assert(seq![Some(m)] + (r.0 + dd.0) =~= (seq![Some(m)] + r.0) + dd.0);
                    assert(spec_drain(a + b) == ((seq![Some(m)] + r.0) + dd.0, dd.1, dd.2));
                },
            }
        }
    }
}

/// Reassembler framing: feeding bytes `x` and then bytes `y`, starting from
/// an unfailed accumulator, drains the same results overall as feeding
/// `x + y` as one chunk — so a frame split at an arbitrary boundary across
/// two chunks decodes to the identical message sequence.
pub proof fn lemma_feed_split(acc: Seq<u8>, x: Seq<u8>, y: Seq<u8>)
    requires
        !spec_drain(acc + x).2,
    ensures
        ({
            let d1 = spec_drain(acc + x);
            let d2 = spec_drain(d1.1 + y);
            spec_drain(acc + (x + y)) == (d1.0 + d2.0, d2.1, d2.2)
        }),
{
    assert(acc + (x + y) =~= (acc + x) + y);
    lemma_drain_append(acc + x, y);
}

} // verus!
