//! Byte-wise frame recognition: a frame starts with `0xAA` and ends with `0xBB`.

use vstd::prelude::*;

verus! {

/// Longest frame: a body of 13 bytes with header and trailer.
pub const MAX_FRAME_LEN: usize = 15;

/// Room for the worst case: half a frame left over and a whole new frame.
pub const BUF_LEN: usize = MAX_FRAME_LEN * 2 - 1;

/// Frame header byte.
pub const FRAME_HEAD: u8 = 0xAA;

/// Frame trailer byte.
pub const FRAME_TAIL: u8 = 0xBB;

/// The value of the 16-bit two's complement number with bytes `high` and `low`.
pub open spec fn i16_value(high: u8, low: u8) -> int {
    if high < 128 {
        high * 256 + low
    } else {
        high * 256 + low - 65536
    }
}

/// Joins two bytes, high byte first, into an `i16`; negative numbers come back too.
pub fn u8_to_i16(high: u8, low: u8) -> (r: i16)
    ensures
        r as int == i16_value(high, low),
{
    let combined = ((high as u16) << 8) | (low as u16);
    assert(combined == high as u16 * 256 + low as u16) by (bit_vector)
        requires
            combined == ((high as u16) << 8) | (low as u16),
    ;
    assert(combined < 32768 ==> (combined as i16) as i32 == combined as i32) by (bit_vector);
    assert(combined >= 32768 ==> (combined as i16) as i32 == combined as i32 - 65536)
        by (bit_vector);
    combined as i16
}

/// Splitting an `i16` into its high and low bytes and joining them again gives it back.
pub proof fn lemma_i16_bytes_roundtrip(v: i16)
    ensures
        i16_value(((v as u16) >> 8u16) as u8, (v as u16) as u8) == v,
{
    let u = v as u16;
    let h = (u >> 8u16) as u8;
    let l = u as u8;
    assert(u == h as u16 * 256 + l as u16) by (bit_vector)
        requires
            h == (u >> 8u16) as u8,
            l == u as u8,
    ;
    assert(u < 32768 ==> v as i32 == u as i32) by (bit_vector)
        requires
            u == v as u16,
    ;
    assert(u >= 32768 ==> v as i32 == u as i32 - 65536) by (bit_vector)
        requires
            u == v as u16,
    ;
    assert((h < 128) == (u < 32768)) by (bit_vector)
        requires
            h == (u >> 8u16) as u8,
    ;
}

/// What a frame parser holds: the bytes kept of the current or last frame, and
/// whether a frame is under way.
pub struct FrameView {
    pub data: Seq<u8>,
    pub in_frame: bool,
}

impl FrameView {
    /// The kept bytes start with the header, end with the trailer once a frame is
    /// complete, and leave room for the trailer while a frame is under way.
    pub open spec fn valid(self) -> bool {
        &&& self.data.len() <= BUF_LEN
        &&& self.in_frame ==> 1 <= self.data.len() < BUF_LEN
        &&& self.data.len() >= 1 ==> self.data[0] == FRAME_HEAD
        &&& !self.in_frame && self.data.len() >= 1 ==> {
            &&& self.data.len() >= 2
            &&& self.data[self.data.len() - 1] == FRAME_TAIL
        }
    }
}

/// The parser after one byte, and whether that byte completed a frame.
pub open spec fn feed_step(v: FrameView, byte: u8) -> (FrameView, bool) {
    if byte == FRAME_HEAD {
        (FrameView { data: seq![FRAME_HEAD], in_frame: true }, false)
    } else if !v.in_frame {
        (v, false)
    } else if byte == FRAME_TAIL {
        (
            FrameView {
                data: if v.data.len() < BUF_LEN {
                    v.data.push(FRAME_TAIL)
                } else {
                    v.data
                },
                in_frame: false,
            },
            true,
        )
    } else {
        (
            FrameView {
                data: if v.data.len() < BUF_LEN - 1 {
                    v.data.push(byte)
                } else {
                    v.data
                },
                in_frame: true,
            },
            false,
        )
    }
}

/// The parser after the bytes `bytes`, one after the other.
pub open spec fn feed_all(v: FrameView, bytes: Seq<u8>) -> FrameView
    decreases bytes.len(),
{
    if bytes.len() == 0 {
        v
    } else {
        feed_step(feed_all(v, bytes.drop_last()), bytes.last()).0
    }
}

/// The body of the kept frame bytes: without header and trailer.
pub open spec fn body_of(data: Seq<u8>) -> Seq<u8> {
    if data.len() >= 2 {
        data.subrange(1, data.len() - 1)
    } else {
        seq![]
    }
}

/// Recognises frames in a byte stream, one byte at a time.
pub struct FrameParser {
    buf: [u8; BUF_LEN],
    len: usize,
    in_frame: bool,
}

impl View for FrameParser {
    type V = FrameView;

    closed spec fn view(&self) -> FrameView {
        FrameView { data: self.buf@.take(self.len as int), in_frame: self.in_frame }
    }
}

impl FrameParser {
    /// The parser is well formed.
    pub closed spec fn wf(&self) -> bool {
        &&& self.len <= BUF_LEN
        &&& self@.valid()
    }

    /// A parser that has seen nothing.
    pub fn new() -> (r: Self)
        ensures
            r.wf(),
            r@.data == Seq::<u8>::empty(),
            !r@.in_frame,
    {
        let r = Self { buf: [0u8; BUF_LEN], len: 0, in_frame: false };
        assert(r@.data =~= Seq::<u8>::empty());
        r
    }

    /// Takes one byte. Returns true when it is the trailer that completes a frame,
    /// whose body `body()` then gives. A header starts a new frame and drops an
    /// unfinished one; bytes outside a frame are ignored; a body longer than the
    /// buffer allows keeps its first bytes.
    pub fn feed(&mut self, byte: u8) -> (r: bool)
        requires
            old(self).wf(),
        ensures
            final(self).wf(),
            (final(self)@, r) == feed_step(old(self)@, byte),
    {
        let ghost v = self@;
        if byte == FRAME_HEAD {
            self.buf[0] = FRAME_HEAD;
            self.len = 1;
            self.in_frame = true;
            assert(self@.data =~= seq![FRAME_HEAD]);
            return false;
        }
        if !self.in_frame {
            return false;
        }
        if byte == FRAME_TAIL {
            self.in_frame = false;
            if self.len < BUF_LEN {
                self.buf[self.len] = FRAME_TAIL;
                self.len += 1;
                assert(self@.data =~= v.data.push(FRAME_TAIL));
            }
            return true;
        }
        if self.len < BUF_LEN - 1 {
            self.buf[self.len] = byte;
            self.len += 1;
            assert(self@.data =~= v.data.push(byte));
        }
        false
    }

    /// The body of the last frame, without header and trailer.
    pub fn body(&self) -> (r: &[u8])
        requires
            self.wf(),
        ensures
            r@ == body_of(self@.data),
    {
        if self.len >= 2 {
            vstd::slice::slice_subrange(self.buf.as_slice(), 1, self.len - 1)
        } else {
            &[]
        }
    }
}

/// Feeding a header and then body bytes, none of them a header or a trailer, from
/// any state, leaves a frame under way that holds the header and as much of the
/// body as there is room for.
pub proof fn lemma_feed_open_frame(v: FrameView, body: Seq<u8>)
    requires
        forall|i: int| 0 <= i < body.len() ==> body[i] != FRAME_HEAD && body[i] != FRAME_TAIL,
    ensures
        feed_all(v, seq![FRAME_HEAD] + body) == (FrameView {
            data: seq![FRAME_HEAD] + body.take(
                if body.len() <= BUF_LEN - 2 {
                    body.len() as int
                } else {
                    BUF_LEN - 2
                },
            ),
            in_frame: true,
        }),
    decreases body.len(),
{
    let s = seq![FRAME_HEAD] + body;
    if body.len() == 0 {
        assert(s.drop_last() =~= Seq::<u8>::empty());
        assert(s.last() == FRAME_HEAD);
        assert(body.take(0) =~= Seq::<u8>::empty());
        assert(seq![FRAME_HEAD] + body.take(0) =~= seq![FRAME_HEAD]);
    } else {
        let b = body.drop_last();
        assert(s.drop_last() =~= seq![FRAME_HEAD] + b);
        lemma_feed_open_frame(v, b);
        assert(s.last() == body.last());
        assert(body.last() == body[body.len() - 1]);
        let k = if b.len() <= BUF_LEN - 2 {
            b.len() as int
        } else {
            BUF_LEN - 2
        };
        let prev = feed_all(v, s.drop_last());
        assert(prev.data == seq![FRAME_HEAD] + b.take(k));
        assert(prev.in_frame);
        assert(feed_all(v, s) == feed_step(prev, body.last()).0);
        assert(prev.data.len() == 1 + k);
        if b.len() < BUF_LEN - 2 {
            assert(b.take(k) =~= b);
            assert(seq![FRAME_HEAD] + b.take(k) + seq![body.last()] =~= seq![FRAME_HEAD]
                + body.take(body.len() as int));
            assert(prev.data.push(body.last()) =~= seq![FRAME_HEAD] + body.take(
                body.len() as int,
            ));
        } else {
            assert(b.take(k) =~= body.take(BUF_LEN - 2));
        }
    }
}

/// A complete frame is recognised: after a header, a body of bytes that are neither
/// header nor trailer and fits the buffer, and a trailer, the trailer is reported as
/// completing a frame and the body read back is the body fed in.
pub proof fn lemma_frame_recognised(v: FrameView, body: Seq<u8>)
    requires
        body.len() <= BUF_LEN - 2,
        forall|i: int| 0 <= i < body.len() ==> body[i] != FRAME_HEAD && body[i] != FRAME_TAIL,
    ensures
        feed_step(feed_all(v, seq![FRAME_HEAD] + body), FRAME_TAIL).1,
        body_of(feed_step(feed_all(v, seq![FRAME_HEAD] + body), FRAME_TAIL).0.data) == body,
        !feed_step(feed_all(v, seq![FRAME_HEAD] + body), FRAME_TAIL).0.in_frame,
{
    lemma_feed_open_frame(v, body);
    assert(body.take(body.len() as int) =~= body);
    let d = (seq![FRAME_HEAD] + body).push(FRAME_TAIL);
    assert(d.subrange(1, d.len() - 1) =~= body);
}

} // verus!
