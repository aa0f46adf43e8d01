//! Ring buffer of received bytes, from which complete `0xAA ... 0xBB` frames are taken.

use vstd::prelude::*;

verus! {

/// Capacity of the ring buffer in bytes.
pub const BUFFER_SIZE: usize = 256;

/// Longest frame: header `0xAA`, a body of at most 13 bytes, trailer `0xBB`.
pub const MAX_FRAME_LEN: usize = 15;

/// Frame header byte.
pub const FRAME_HEAD: u8 = 0xAA;

/// Frame trailer byte.
pub const FRAME_TAIL: u8 = 0xBB;

/// A circular byte buffer. The bytes between `read_index` (inclusive) and
/// `write_index` (exclusive), going round modulo `BUFFER_SIZE`, are its contents.
pub struct RingBuffer {
    buf: [u8; 256],
    read_index: usize,
    pub write_index: usize,
}

/// What a ring buffer holds: its storage and its two positions.
pub struct RingView {
    pub buf: Seq<u8>,
    pub read_index: int,
    pub write_index: int,
}

impl RingView {
    /// The buffer is well formed: both positions lie inside the storage.
    pub open spec fn wf(self) -> bool {
        &&& self.buf.len() == BUFFER_SIZE
        &&& 0 <= self.read_index < BUFFER_SIZE
        &&& 0 <= self.write_index < BUFFER_SIZE
    }

    /// Number of bytes held.
    pub open spec fn length(self) -> int {
        (self.write_index + BUFFER_SIZE - self.read_index) % (BUFFER_SIZE as int)
    }

    /// The bytes held, oldest first.
    pub open spec fn contents(self) -> Seq<u8> {
        Seq::new(
            self.length() as nat,
            |k: int| self.buf[(self.read_index + k) % (BUFFER_SIZE as int)],
        )
    }
}

impl View for RingBuffer {
    type V = RingView;

    closed spec fn view(&self) -> RingView {
        RingView {
            buf: self.buf@,
            read_index: self.read_index as int,
            write_index: self.write_index as int,
        }
    }
}

/// Storage after writing `data` at position `w`, going round past the end.
pub open spec fn written(buf: Seq<u8>, w: int, data: Seq<u8>) -> Seq<u8> {
    Seq::new(
        BUFFER_SIZE as nat,
        |p: int|
            {
                let k = (p - w + BUFFER_SIZE) % (BUFFER_SIZE as int);
                if k < data.len() {
                    data[k]
                } else {
                    buf[p]
                }
            },
    )
}

/// Index, after `from`, of the first trailer byte of a frame that starts at index 0,
/// looking no further than the longest frame allows.
pub open spec fn frame_end_from(s: Seq<u8>, from: int) -> Option<int>
    decreases MAX_FRAME_LEN - from,
{
    if from >= MAX_FRAME_LEN || from >= s.len() || from < 1 {
        None
    } else if s[from] == FRAME_TAIL {
        Some(from)
    } else {
        frame_end_from(s, from + 1)
    }
}

/// Index of the trailer of a frame that starts at index 0 of `s`, if there is one.
pub open spec fn frame_end(s: Seq<u8>) -> Option<int> {
    frame_end_from(s, 1)
}

/// What taking a command from the contents `s` does: the number of leading bytes that
/// are discarded, and the length of the frame that follows them (0 when none is taken).
pub open spec fn next_command(s: Seq<u8>) -> (int, int)
    decreases s.len(),
{
    if s.len() < 2 {
        (0, 0)
    } else if s[0] != FRAME_HEAD {
        let r = next_command(s.drop_first());
        (r.0 + 1, r.1)
    } else {
        match frame_end(s) {
            Some(j) => (0, j + 1),
            None => if s.len() >= MAX_FRAME_LEN {
                let r = next_command(s.drop_first());
                (r.0 + 1, r.1)
            } else {
                (0, 0)
            },
        }
    }
}

/// Moving the read position `m` bytes forward, `m` at most the length, drops the
/// first `m` bytes of the contents.
pub proof fn lemma_advance(v: RingView, m: int)
    requires
        v.wf(),
        0 <= m <= v.length(),
    ensures
        ({
            let v2 = RingView {
                buf: v.buf,
                read_index: (v.read_index + m) % (BUFFER_SIZE as int),
                write_index: v.write_index,
            };
            &&& v2.wf()
            &&& v2.length() == v.length() - m
            &&& v2.contents() == v.contents().skip(m)
        }),
{
    let n = BUFFER_SIZE as int;
    let r2 = (v.read_index + m) % n;
    let v2 = RingView { buf: v.buf, read_index: r2, write_index: v.write_index };
    if v.read_index + m < n {
        assert(r2 == v.read_index + m);
    } else {
        assert(r2 == v.read_index + m - n);
    }
    assert(v2.length() == v.length() - m);
    assert forall|k: int| 0 <= k < v2.length() implies #[trigger] v2.contents()[k]
        == v.contents().skip(m)[k] by {
        assert((r2 + k) % n == (v.read_index + (m + k)) % n);
    }
    assert(v2.contents() =~= v.contents().skip(m));
}

/// Writing `data` at the write position, when it fits, appends it to the contents;
/// when it fills the storage to the last byte, the positions meet and the contents
/// read as empty.
pub proof fn lemma_written(v: RingView, data: Seq<u8>)
    requires
        v.wf(),
        data.len() <= BUFFER_SIZE - v.length(),
    ensures
        ({
            let v2 = RingView {
                buf: written(v.buf, v.write_index, data),
                read_index: v.read_index,
                write_index: (v.write_index + data.len()) % (BUFFER_SIZE as int),
            };
            &&& v2.wf()
            &&& v.length() + data.len() < BUFFER_SIZE ==> v2.contents() == v.contents() + data
            &&& v.length() + data.len() == BUFFER_SIZE ==> v2.length() == 0
        }),
{
    let n = BUFFER_SIZE as int;
    let w = v.write_index;
    let r = v.read_index;
    let len = v.length();
    let w2 = (w + data.len()) % n;
    let v2 = RingView { buf: written(v.buf, w, data), read_index: r, write_index: w2 };
    if w >= r {
        assert(len == w - r);
    } else {
        assert(len == w + n - r);
    }
    if w + data.len() < n {
        assert(w2 == w + data.len());
    } else {
        assert(w2 == w + data.len() - n);
    }
    if len + data.len() < n {
        assert(v2.length() == len + data.len());
        assert forall|k: int| 0 <= k < v2.length() implies #[trigger] v2.contents()[k] == (
        v.contents() + data)[k] by {
            let p = (r + k) % n;
            if r + k < n {
                assert(p == r + k);
            } else {
                assert(p == r + k - n);
            }
            let kk = (p - w + n) % n;
            if k < len {
                assert(kk == k - len + n);
            } else {
                assert(kk == k - len);
            }
        }
        assert(v2.contents() =~= v.contents() + data);
    }
}

/// What `frame_end_from` finds: the first trailer at or after `from`, inside the
/// frame limit, or that there is none there.
pub proof fn lemma_frame_end_from(s: Seq<u8>, from: int)
    requires
        1 <= from,
    ensures
        frame_end_from(s, from) matches Some(j) ==> {
            &&& from <= j < MAX_FRAME_LEN
            &&& j < s.len()
            &&& s[j] == FRAME_TAIL
            &&& forall|i: int| from <= i < j ==> s[i] != FRAME_TAIL
        },
        frame_end_from(s, from) is None ==> forall|i: int|
            from <= i < s.len() && i < MAX_FRAME_LEN ==> s[i] != FRAME_TAIL,
    decreases MAX_FRAME_LEN - from,
{
    if from < MAX_FRAME_LEN && from < s.len() && s[from] != FRAME_TAIL {
        lemma_frame_end_from(s, from + 1);
    }
}

/// A frame taken from the contents `s` starts with the header, ends with the
/// first trailer after it, and is between 2 and `MAX_FRAME_LEN` bytes long; the
/// discarded bytes and the frame lie inside `s`.
pub proof fn lemma_next_command(s: Seq<u8>)
    ensures
        0 <= next_command(s).0,
        0 <= next_command(s).1 <= MAX_FRAME_LEN,
        next_command(s).0 + next_command(s).1 <= s.len(),
        next_command(s).1 != 0 ==> {
            let d = next_command(s).0;
            let n = next_command(s).1;
            &&& 2 <= n
            &&& s[d] == FRAME_HEAD
            &&& s[d + n - 1] == FRAME_TAIL
            &&& forall|i: int| d < i < d + n - 1 ==> s[i] != FRAME_TAIL
        },
    decreases s.len(),
{
    if s.len() >= 2 {
        lemma_frame_end_from(s, 1);
        if s[0] != FRAME_HEAD || (frame_end(s) is None && s.len() >= MAX_FRAME_LEN) {
            let t = s.drop_first();
            lemma_next_command(t);
            if next_command(s).1 != 0 {
                let d = next_command(t).0;
                let n = next_command(t).1;
                assert(s[d + 1] == t[d]);
                assert(s[d + n] == t[d + n - 1]);
                assert forall|i: int| d + 1 < i < d + n implies s[i] != FRAME_TAIL by {
                    assert(s[i] == t[i - 1]);
                }
            }
        }
    }
}

/// One step of the search for a frame: dropping the first byte of the contents,
/// when the search goes on past it, keeps the search's outcome.
proof fn lemma_discard_one(v: RingView, s0: Seq<u8>, skipped: int, r0: int)
    requires
        v.wf(),
        0 <= r0 < BUFFER_SIZE,
        0 <= skipped,
        v.read_index == (r0 + skipped) % (BUFFER_SIZE as int),
        v.contents() == s0.skip(skipped),
        skipped <= s0.len(),
        v.length() >= 2,
        next_command(s0).0 == skipped + next_command(v.contents()).0,
        next_command(s0).1 == next_command(v.contents()).1,
        next_command(v.contents()) == ({
            let t = next_command(v.contents().drop_first());
            (t.0 + 1, t.1)
        }),
    ensures
        ({
            let v2 = RingView {
                buf: v.buf,
                read_index: (v.read_index + 1) % (BUFFER_SIZE as int),
                write_index: v.write_index,
            };
            &&& v2.wf()
            &&& v2.length() < v.length()
            &&& skipped + 1 <= s0.len()
            &&& v2.read_index == (r0 + skipped + 1) % (BUFFER_SIZE as int)
            &&& v2.contents() == s0.skip(skipped + 1)
            &&& next_command(s0).0 == skipped + 1 + next_command(v2.contents()).0
            &&& next_command(s0).1 == next_command(v2.contents()).1
        }),
{
    let cur = v.contents();
    lemma_advance(v, 1);
    assert(cur.skip(1) =~= cur.drop_first());
    assert(s0.skip(skipped).skip(1) =~= s0.skip(skipped + 1));
}

/// The last step of taking a frame of length `n` after `skipped` discarded bytes.
#[verifier::rlimit(60)]
proof fn lemma_take_frame(v: RingView, s0: Seq<u8>, skipped: int, r0: int, n: int)
    requires
        v.wf(),
        0 <= r0 < BUFFER_SIZE,
        0 <= skipped,
        v.read_index == (r0 + skipped) % (BUFFER_SIZE as int),
        v.contents() == s0.skip(skipped),
        skipped <= s0.len(),
        0 <= n <= v.length(),
    ensures
        ({
            let v2 = RingView {
                buf: v.buf,
                read_index: (v.read_index + n) % (BUFFER_SIZE as int),
                write_index: v.write_index,
            };
            &&& v2.wf()
            &&& v2.read_index == (r0 + skipped + n) % (BUFFER_SIZE as int)
            &&& v2.contents() == s0.skip(skipped + n)
            &&& v.contents().subrange(0, n) == s0.subrange(skipped, skipped + n)
        }),
{
    lemma_advance(v, n);
    assert(s0.skip(skipped).skip(n) =~= s0.skip(skipped + n));
    assert(v.contents().subrange(0, n) =~= s0.subrange(skipped, skipped + n));
}

/// The bytes of a frame around `body`: header, body, trailer.
pub open spec fn framed(body: Seq<u8>) -> Seq<u8> {
    seq![FRAME_HEAD] + body + seq![FRAME_TAIL]
}

/// A body fits in a frame: at most `MAX_FRAME_LEN - 2` bytes, none of them a trailer.
pub open spec fn frameable(body: Seq<u8>) -> bool {
    &&& body.len() <= MAX_FRAME_LEN - 2
    &&& forall|i: int| 0 <= i < body.len() ==> body[i] != FRAME_TAIL
}

/// Taking a command gives back a frame that was put in: when the contents are bytes
/// without a header, then a frame around a body that fits, then anything, the bytes
/// before the frame are discarded and the whole frame is taken.
pub proof fn lemma_frame_taken(junk: Seq<u8>, body: Seq<u8>, rest: Seq<u8>)
    requires
        frameable(body),
        forall|i: int| 0 <= i < junk.len() ==> junk[i] != FRAME_HEAD,
    ensures
        next_command(junk + framed(body) + rest) == (junk.len() as int, body.len() as int + 2),
        (junk + framed(body) + rest).subrange(junk.len() as int, junk.len() + body.len() + 2int)
            == framed(body),
    decreases junk.len(),
{
    let f = framed(body);
    let s = junk + f + rest;
    if junk.len() == 0 {
        assert(s =~= f + rest);
        assert forall|i: int| 1 <= i <= body.len() implies s[i] != FRAME_TAIL by {
            assert(s[i] == body[i - 1]);
        }
        assert(s[body.len() as int + 1] == FRAME_TAIL);
        lemma_frame_end_from(s, 1);
        assert(frame_end(s) == Some(body.len() as int + 1)) by {
            lemma_frame_end_from(s, 1);
            if let Some(j) = frame_end(s) {
                assert(j == body.len() as int + 1);
            }
        }
    } else {
        lemma_frame_taken(junk.drop_first(), body, rest);
        assert(s.drop_first() =~= junk.drop_first() + f + rest);
        assert(s[0] == junk[0]);
    }
    assert(s.subrange(junk.len() as int, junk.len() + body.len() + 2int) =~= f);
}

/// A frame that has not fully arrived is waited for: when the contents start with a
/// header, hold no trailer and are shorter than the longest frame, taking a command
/// discards nothing and takes nothing.
pub proof fn lemma_partial_frame_waits(s: Seq<u8>)
    requires
        s.len() > 0,
        s[0] == FRAME_HEAD,
        s.len() < MAX_FRAME_LEN,
        forall|i: int| 0 <= i < s.len() ==> s[i] != FRAME_TAIL,
    ensures
        next_command(s) == (0int, 0int),
{
    lemma_frame_end_from(s, 1);
    if let Some(j) = frame_end(s) {
        assert(s[j] == FRAME_TAIL);
    }
}

/// A frame that arrives in two pieces is taken whole: whatever the split point,
/// taking a command after the first piece takes and discards nothing, and taking
/// one after the second piece takes the whole frame.
pub proof fn lemma_frame_in_two_pieces(body: Seq<u8>, k: int)
    requires
        frameable(body),
        0 <= k < body.len() + 2,
    ensures
        next_command(framed(body).take(k)) == (0int, 0int),
        next_command(framed(body).take(k) + framed(body).skip(k)) == (0int, body.len() as int + 2),
{
    let f = framed(body);
    let first = f.take(k);
    if k >= 1 {
        assert forall|i: int| 0 <= i < first.len() implies first[i] != FRAME_TAIL by {
            if i >= 1 {
                assert(first[i] == body[i - 1]);
            }
        }
        assert(first[0] == FRAME_HEAD);
        lemma_partial_frame_waits(first);
    }
    assert(first + f.skip(k) =~= Seq::<u8>::empty() + f + Seq::<u8>::empty());
    lemma_frame_taken(Seq::<u8>::empty(), body, Seq::<u8>::empty());
}

/// A false header is dropped on its own: bytes without a trailer, where every header
/// among them is followed by at least `MAX_FRAME_LEN` bytes before the trailer of
/// the frame after them, are discarded, and the frame that follows is taken whole.
pub proof fn lemma_false_headers_skipped(junk: Seq<u8>, body: Seq<u8>, rest: Seq<u8>)
    requires
        frameable(body),
        forall|i: int| 0 <= i < junk.len() ==> junk[i] != FRAME_TAIL,
        forall|p: int|
            0 <= p < junk.len() && junk[p] == FRAME_HEAD ==> junk.len() + body.len() + 1 - p
                >= MAX_FRAME_LEN,
    ensures
        next_command(junk + framed(body) + rest) == (junk.len() as int, body.len() as int + 2),
    decreases junk.len(),
{
    let f = framed(body);
    let s = junk + f + rest;
    if junk.len() == 0 {
        lemma_frame_taken(junk, body, rest);
    } else {
        let j2 = junk.drop_first();
        assert forall|p: int|
            0 <= p < j2.len() && j2[p] == FRAME_HEAD implies j2.len() + body.len() + 1 - p
                >= MAX_FRAME_LEN by {
            assert(j2[p] == junk[p + 1]);
        }
        lemma_false_headers_skipped(j2, body, rest);
        assert(s.drop_first() =~= j2 + f + rest);
        assert(s[0] == junk[0]);
        if junk[0] == FRAME_HEAD {
            lemma_frame_end_from(s, 1);
            if let Some(j) = frame_end(s) {
                if j < junk.len() {
                    assert(s[j] == junk[j]);
                } else if j == junk.len() {
                    assert(s[j] == FRAME_HEAD);
                } else if j <= junk.len() + body.len() {
                    assert(s[j] == body[j - junk.len() - 1]);
                }
            }
            assert(frame_end(s) is None);
            assert(s.len() >= MAX_FRAME_LEN);
        }
    }
}

impl RingBuffer {
    /// An empty buffer.
    pub fn new() -> (r: Self)
        ensures
            r@.wf(),
            r@.read_index == 0,
            r@.write_index == 0,
            r@.buf == Seq::new(BUFFER_SIZE as nat, |i: int| 0u8),
            r@.length() == 0,
    {
        let r = Self { buf: [0u8; 256], read_index: 0, write_index: 0 };
        assert(r.buf@ =~= Seq::new(BUFFER_SIZE as nat, |i: int| 0u8));
        r
    }

    /// Moves the read position `length` bytes forward, round the end of the storage.
    pub fn add_read_index(&mut self, length: usize)
        requires
            old(self)@.wf(),
            old(self)@.read_index + length <= usize::MAX,
        ensures
            final(self)@.wf(),
            final(self)@.read_index == (old(self)@.read_index + length) % (BUFFER_SIZE as int),
            final(self)@.buf == old(self)@.buf,
            final(self)@.write_index == old(self)@.write_index,
    {
        self.read_index += length;
        self.read_index %= BUFFER_SIZE;
    }

    /// The byte stored at position `i`, taken round the end of the storage.
    pub fn read(&self, i: usize) -> (r: u8)
        ensures
            r == self@.buf[(i as int) % (BUFFER_SIZE as int)],
    {
        let index = i % BUFFER_SIZE;
        self.buf[index]
    }

    /// Number of bytes held.
    pub fn get_length(&self) -> (r: usize)
        requires
            self@.wf(),
        ensures
            r == self@.length(),
            r < BUFFER_SIZE,
    {
        (self.write_index + BUFFER_SIZE - self.read_index) % BUFFER_SIZE
    }

    /// Room left: the capacity minus the number of bytes held.
    pub fn get_remain(&self) -> (r: usize)
        requires
            self@.wf(),
        ensures
            r == BUFFER_SIZE - self@.length(),
            r + self@.length() == BUFFER_SIZE,
    {
        BUFFER_SIZE - self.get_length()
    }


    /// Appends `data` when there is room for all of it, and returns its length;
    /// otherwise changes nothing and returns 0.
    pub fn write(&mut self, data: &[u8]) -> (r: usize)
        requires
            old(self)@.wf(),
        ensures
            final(self)@.wf(),
            data@.len() <= BUFFER_SIZE - old(self)@.length() ==> {
                &&& r == data@.len()
                &&& final(self)@.buf == written(old(self)@.buf, old(self)@.write_index, data@)
                &&& final(self)@.write_index == (old(self)@.write_index + data@.len()) % (
                BUFFER_SIZE as int)
                &&& final(self)@.read_index == old(self)@.read_index
            },
            data@.len() > BUFFER_SIZE - old(self)@.length() ==> {
                &&& r == 0
                &&& final(self)@ == old(self)@
            },
            old(self)@.length() + data@.len() < BUFFER_SIZE ==> final(self)@.contents()
                == old(self)@.contents() + data@,
            old(self)@.length() + data@.len() == BUFFER_SIZE ==> final(self)@.length() == 0,
    {
        let length = data.len();
        if self.get_remain() < length {
            return 0;
        }
        let ghost old_buf = self.buf@;
        let ghost w = self.write_index as int;
        let ghost r0 = self.read_index;
        proof {
            lemma_written(self@, data@);
        }
        let end = self.write_index + length;
        if end < BUFFER_SIZE {
            let mut i: usize = 0;
            while i < length
                invariant
                    0 <= i <= length,
                    length == data@.len(),
                    w == self.write_index,
                    w + length < BUFFER_SIZE,
                    self.read_index == r0,
                    self.buf@.len() == BUFFER_SIZE,
                    forall|p: int|
                        0 <= p < BUFFER_SIZE ==> #[trigger] self.buf@[p] == if w <= p < w + i {
                            data@[p - w]
                        } else {
                            old_buf[p]
                        },
                decreases length - i,
            {
                self.buf[self.write_index + i] = data[i];
                i += 1;
            }
            assert(self.buf@ =~= written(old_buf, w, data@)) by {
                assert forall|p: int| 0 <= p < BUFFER_SIZE implies #[trigger] self.buf@[p]
                    == written(old_buf, w, data@)[p] by {
                    if p >= w {
                        assert((p - w + BUFFER_SIZE) % (BUFFER_SIZE as int) == p - w);
                    } else {
                        assert((p - w + BUFFER_SIZE) % (BUFFER_SIZE as int) == p - w
                            + BUFFER_SIZE);
                    }
                }
            }
            self.write_index += length;
        } else {
            let first_length = BUFFER_SIZE - self.write_index;
            let mut i: usize = 0;
            while i < first_length
                invariant
                    0 <= i <= first_length,
                    first_length == BUFFER_SIZE - w,
                    first_length <= length,
                    length == data@.len(),
                    w == self.write_index,
                    self.read_index == r0,
                    self.buf@.len() == BUFFER_SIZE,
                    forall|p: int|
                        0 <= p < BUFFER_SIZE ==> #[trigger] self.buf@[p] == if w <= p < w + i {
                            data@[p - w]
                        } else {
                            old_buf[p]
                        },
                decreases first_length - i,
            {
                self.buf[self.write_index + i] = data[i];
                i += 1;
            }
            let mut j: usize = 0;
            while j < length - first_length
                invariant
                    0 <= j <= length - first_length,
                    first_length == BUFFER_SIZE - w,
                    first_length <= length <= BUFFER_SIZE,
                    length == data@.len(),
                    w == self.write_index,
                    self.read_index == r0,
                    self.buf@.len() == BUFFER_SIZE,
                    forall|p: int|
                        0 <= p < BUFFER_SIZE ==> #[trigger] self.buf@[p] == if w <= p {
                            data@[p - w]
                        } else if p < j {
                            data@[p + first_length]
                        } else {
                            old_buf[p]
                        },
                decreases length - first_length - j,
            {
                self.buf[j] = data[first_length + j];
                j += 1;
            }
            assert(self.buf@ =~= written(old_buf, w, data@)) by {
                assert forall|p: int| 0 <= p < BUFFER_SIZE implies #[trigger] self.buf@[p]
                    == written(old_buf, w, data@)[p] by {
                    if p >= w {
                        assert((p - w + BUFFER_SIZE) % (BUFFER_SIZE as int) == p - w);
                    } else {
                        assert((p - w + BUFFER_SIZE) % (BUFFER_SIZE as int) == p - w
                            + BUFFER_SIZE);
                    }
                }
            }
            self.write_index = length - first_length;
        }
        length
    }


    /// Takes the next complete frame: discards bytes up to a header `0xAA` that is
    /// followed, within `MAX_FRAME_LEN` bytes, by a trailer `0xBB` (a header with no
    /// trailer within that limit is discarded too, once that many bytes are held),
    /// copies the frame with header and trailer to the front of `command_buf`, removes
    /// it from the buffer and returns its length. Returns 0 when no complete frame is
    /// held yet.
    pub fn get_command(&mut self, command_buf: &mut [u8]) -> (r: usize)
        requires
            old(self)@.wf(),
            next_command(old(self)@.contents()).1 <= old(command_buf)@.len(),
        ensures
            final(self)@.wf(),
            r == next_command(old(self)@.contents()).1,
            final(self)@.buf == old(self)@.buf,
            final(self)@.write_index == old(self)@.write_index,
            final(self)@.read_index == (old(self)@.read_index + next_command(
                old(self)@.contents(),
            ).0 + r) % (BUFFER_SIZE as int),
            final(self)@.contents() == old(self)@.contents().skip(
                next_command(old(self)@.contents()).0 + r,
            ),
            final(command_buf)@.len() == old(command_buf)@.len(),
            final(command_buf)@.subrange(0, r as int) == old(self)@.contents().subrange(
                next_command(old(self)@.contents()).0,
                next_command(old(self)@.contents()).0 + r,
            ),
            final(command_buf)@.subrange(r as int, old(command_buf)@.len() as int) == old(
                command_buf,
            )@.subrange(r as int, old(command_buf)@.len() as int),
    {
        let ghost s0 = self@.contents();
        let ghost r0 = self@.read_index;
        let ghost buf0 = self@.buf;
        let ghost w0 = self@.write_index;
        let ghost cb0 = command_buf@;
        let ghost mut skipped: int = 0;
        proof {
            lemma_next_command(s0);
            assert(s0.skip(0) =~= s0);
        }
        loop
            invariant
                self@.wf(),
                self@.buf == buf0,
                self@.write_index == w0,
                0 <= skipped <= s0.len(),
                self@.read_index == (r0 + skipped) % (BUFFER_SIZE as int),
                self@.contents() == s0.skip(skipped),
                next_command(s0).0 == skipped + next_command(self@.contents()).0,
                next_command(s0).1 == next_command(self@.contents()).1,
                next_command(s0).1 <= cb0.len(),
                command_buf@ == cb0,
                0 <= r0 < BUFFER_SIZE,
                s0 == old(self)@.contents(),
                buf0 == old(self)@.buf,
                w0 == old(self)@.write_index,
                r0 == old(self)@.read_index,
                cb0 == old(command_buf)@,
            decreases self@.length(),
        {
            let ghost cur = self@.contents();
            proof {
                lemma_next_command(cur);
                lemma_frame_end_from(cur, 1);
            }
            if self.get_length() < 2 {
                return 0;
            }
            if self.read(self.read_index) != FRAME_HEAD {
                proof {
                    assert(cur[0] == self@.buf[(self@.read_index + 0) % (BUFFER_SIZE as int)]);
                    lemma_discard_one(self@, s0, skipped, r0);
                    skipped = skipped + 1;
                }
                self.add_read_index(1);
                continue;
            }
            proof {
                assert(cur[0] == self@.buf[(self@.read_index + 0) % (BUFFER_SIZE as int)]);
            }
            let (found, frame_len) = self.scan_frame();
            if !found {
                if self.get_length() >= MAX_FRAME_LEN {
                    proof {
                        lemma_discard_one(self@, s0, skipped, r0);
                        skipped = skipped + 1;
                    }
                    self.add_read_index(1);
                    continue;
                }
                return 0;
            }
            self.copy_front(command_buf, frame_len);
            proof {
                lemma_take_frame(self@, s0, skipped, r0, frame_len as int);
                assert(command_buf@.subrange(0, frame_len as int) =~= self@.contents().subrange(
                    0,
                    frame_len as int,
                ));
                assert(command_buf@.subrange(frame_len as int, cb0.len() as int) =~= cb0.subrange(
                    frame_len as int,
                    cb0.len() as int,
                ));
            }
            self.add_read_index(frame_len);
            return frame_len;
        }
    }


    /// With a header at the read position, looks for the trailer that ends the
    /// frame: returns whether it was found and, if so, the frame's length.
    fn scan_frame(&self) -> (r: (bool, usize))
        requires
            self@.wf(),
            self@.length() >= 2,
            self@.contents()[0] == FRAME_HEAD,
        ensures
            r.0 ==> frame_end(self@.contents()) == Some(r.1 - 1),
            !r.0 ==> frame_end(self@.contents()) is None,
            r.1 <= MAX_FRAME_LEN,
    {
        let ghost cur = self@.contents();
        let mut frame_len: usize = 1;
        let mut found = false;
        while frame_len < MAX_FRAME_LEN && frame_len < self.get_length()
            invariant_except_break
                1 <= frame_len <= MAX_FRAME_LEN,
                frame_len <= cur.len(),
                !found,
                self@.wf(),
                self@.contents() == cur,
                frame_end(cur) == frame_end_from(cur, frame_len as int),
            ensures
                frame_len <= MAX_FRAME_LEN,
                found ==> frame_end(cur) == Some(frame_len - 1),
                !found ==> frame_end(cur) is None,
            decreases MAX_FRAME_LEN - frame_len,
        {
            proof {
                assert(cur[frame_len as int] == self@.buf[(self@.read_index + frame_len) % (
                BUFFER_SIZE as int)]);
            }
            if self.read(self.read_index + frame_len) == FRAME_TAIL {
                found = true;
                frame_len += 1;
                break;
            }
            frame_len += 1;
        }
        (found, frame_len)
    }

    /// Copies the first `n` bytes of the contents to the front of `command_buf`.
    fn copy_front(&self, command_buf: &mut [u8], n: usize)
        requires
            self@.wf(),
            n <= self@.length(),
            n <= old(command_buf)@.len(),
        ensures
            final(command_buf)@.len() == old(command_buf)@.len(),
            forall|k: int| 0 <= k < n ==> #[trigger] final(command_buf)@[k] == self@.contents()[k],
            forall|k: int|
                n <= k < old(command_buf)@.len() ==> #[trigger] final(command_buf)@[k] == old(
                    command_buf,
                )@[k],
    {
        let ghost cur = self@.contents();
        let ghost cb0 = command_buf@;
        let mut i: usize = 0;
        while i < n
            invariant
                0 <= i <= n,
                n <= cur.len(),
                n <= cb0.len(),
                self@.wf(),
                self@.contents() == cur,
                command_buf@.len() == cb0.len(),
                forall|k: int| 0 <= k < i ==> #[trigger] command_buf@[k] == cur[k],
                forall|k: int| i <= k < cb0.len() ==> #[trigger] command_buf@[k] == cb0[k],
            decreases n - i,
        {
            proof {
                assert(cur[i as int] == self@.buf[(self@.read_index + i) % (BUFFER_SIZE as int)]);
            }
            command_buf[i] = self.read(self.read_index + i);
            i += 1;
        }
    }

    /// Sets the write position from the count of bytes a DMA transfer into the
    /// storage has yet to write.
    pub fn update_write_index(&mut self, dma_remaining: usize)
        requires
            old(self)@.wf(),
            dma_remaining <= BUFFER_SIZE,
        ensures
            final(self)@.wf(),
            final(self)@.write_index == (BUFFER_SIZE - dma_remaining) % (BUFFER_SIZE as int),
            final(self)@.buf == old(self)@.buf,
            final(self)@.read_index == old(self)@.read_index,
    {
        self.write_index = (BUFFER_SIZE - dma_remaining) % BUFFER_SIZE;
    }
}

/// The body of a frame of length `n` at the front of `frame`: without its header
/// and trailer.
pub fn command_body(frame: &[u8], n: usize) -> (r: &[u8])
    requires
        2 <= n <= frame@.len(),
    ensures
        r@ == frame@.subrange(1, n - 1),
{
    vstd::slice::slice_subrange(frame, 1, n - 1)
}

} // verus!
