//! Line input: bytes are gathered until a newline, then the line is trimmed.

use vstd::prelude::*;
use vstd::utf8::valid_utf8;
use vstd::string::StringSliceAdditionalSpecFns;
use crate::text::str_from_utf8;

verus! {

/// Capacity of the line buffer.
pub const LINE_CAPACITY: usize = 256;

/// The line without a final carriage return.
pub open spec fn trim_cr(d: Seq<u8>) -> Seq<u8> {
    if d.len() > 0 && d.last() == 13u8 {
        d.drop_last()
    } else {
        d
    }
}

/// The bytes without leading spaces.
pub open spec fn trim_start(d: Seq<u8>) -> Seq<u8>
    decreases d.len(),
{
    if d.len() > 0 && d[0] == 32u8 {
        trim_start(d.drop_first())
    } else {
        d
    }
}

/// The bytes without trailing spaces.
pub open spec fn trim_end(d: Seq<u8>) -> Seq<u8>
    decreases d.len(),
{
    if d.len() > 0 && d.last() == 32u8 {
        trim_end(d.drop_last())
    } else {
        d
    }
}

/// The line a newline completes: without a final carriage return, then without
/// leading and trailing spaces.
pub open spec fn trimmed_line(d: Seq<u8>) -> Seq<u8> {
    trim_end(trim_start(trim_cr(d)))
}

/// Dropping leading spaces leaves a suffix that does not start with a space.
pub proof fn lemma_trim_start(d: Seq<u8>)
    ensures
        trim_start(d).len() <= d.len(),
        trim_start(d) == d.subrange(d.len() - trim_start(d).len(), d.len() as int),
        trim_start(d).len() > 0 ==> trim_start(d)[0] != 32u8,
    decreases d.len(),
{
    if d.len() > 0 && d[0] == 32u8 {
        lemma_trim_start(d.drop_first());
        assert(trim_start(d) == trim_start(d.drop_first()));
        assert(d.drop_first().subrange(
            d.drop_first().len() - trim_start(d).len(),
            d.drop_first().len() as int,
        ) =~= d.subrange(d.len() - trim_start(d).len(), d.len() as int));
    } else {
        assert(d.subrange(0, d.len() as int) =~= d);
    }
}

/// Dropping trailing spaces leaves a prefix that does not end with a space.
pub proof fn lemma_trim_end(d: Seq<u8>)
    ensures
        trim_end(d).len() <= d.len(),
        trim_end(d) == d.subrange(0, trim_end(d).len() as int),
        trim_end(d).len() > 0 ==> trim_end(d).last() != 32u8,
    decreases d.len(),
{
    if d.len() > 0 && d.last() == 32u8 {
        lemma_trim_end(d.drop_last());
        assert(trim_end(d) == trim_end(d.drop_last()));
        assert(d.drop_last().subrange(0, trim_end(d).len() as int) =~= d.subrange(
            0,
            trim_end(d).len() as int,
        ));
    } else {
        assert(d.subrange(0, d.len() as int) =~= d);
    }
}

/// A completed line is a piece of the bytes gathered, with no space at either end.
pub proof fn lemma_trimmed_line(d: Seq<u8>)
    ensures
        exists|i: int, j: int|
            0 <= i <= j <= d.len() && trimmed_line(d) == d.subrange(i, j),
        trimmed_line(d).len() > 0 ==> trimmed_line(d)[0] != 32u8 && trimmed_line(d).last()
            != 32u8,
{
    let c = trim_cr(d);
    let s = trim_start(c);
    let t = trim_end(s);
    lemma_trim_start(c);
    lemma_trim_end(s);
    let i = c.len() - s.len();
    let j = i + t.len();
    assert(c =~= d.subrange(0, c.len() as int));
    assert(t =~= d.subrange(i, j)) by {
        assert(t =~= s.subrange(0, t.len() as int));
        assert(s =~= c.subrange(i, c.len() as int));
    }
    if t.len() > 0 {
        assert(t[0] == s[0]);
    }
}

/// Only one final carriage return is dropped: a line without spaces ending in a
/// CR LF pair comes back as the bytes before the carriage return, and a line
/// without spaces or a final carriage return comes back unchanged.
pub proof fn lemma_crlf_line(d: Seq<u8>)
    requires
        forall|i: int| 0 <= i < d.len() ==> d[i] != 32u8,
    ensures
        trimmed_line(d.push(13u8)) == d,
        d.len() == 0 || d.last() != 13u8 ==> trimmed_line(d) == d,
{
    assert(d.push(13u8).drop_last() =~= d);
    assert(trim_start(d) == d);
    assert(trim_end(d) == d);
}

/// Gathers bytes into lines.
pub struct InputBuf {
    buf: [u8; LINE_CAPACITY],
    len: usize,
}

impl View for InputBuf {
    /// The bytes gathered since the last completed line.
    type V = Seq<u8>;

    closed spec fn view(&self) -> Seq<u8> {
        self.buf@.take(self.len as int)
    }
}

impl InputBuf {
    /// The buffer is well formed.
    pub closed spec fn wf(&self) -> bool {
        self.len <= LINE_CAPACITY
    }

    /// An empty line buffer.
    pub fn new() -> (r: Self)
        ensures
            r.wf(),
            r@ == Seq::<u8>::empty(),
    {
        let r = InputBuf { buf: [0u8; LINE_CAPACITY], len: 0 };
        assert(r@ =~= Seq::<u8>::empty());
        r
    }

    /// Takes one byte. A newline completes the line and the buffer starts over for
    /// the next one; the trimmed line is returned when it is valid UTF-8, and nothing
    /// otherwise. Any other byte is kept, and nothing is returned.
    pub fn feed(&mut self, byte: u8) -> (r: Option<&str>)
        requires
            old(self).wf(),
            byte != 10u8 ==> old(self)@.len() < LINE_CAPACITY,
        ensures
            final(self).wf(),
            byte == 10u8 ==> final(self)@ == Seq::<u8>::empty(),
            byte == 10u8 ==> (r is Some <==> valid_utf8(trimmed_line(old(self)@))),
            byte == 10u8 ==> (r matches Some(s) ==> s.spec_bytes() == trimmed_line(old(self)@)),
            byte != 10u8 ==> {
                &&& r is None
                &&& final(self)@ == old(self)@.push(byte)
            },
    {
        let ghost d = self@;
        if byte == 10u8 {
            let mut end = self.len;
            if end > 0 && self.buf[end - 1] == 13u8 {
                end -= 1;
            }
            let ghost x = trim_cr(d);
            proof {
                assert(x =~= d.subrange(0, end as int));
            }
            let mut start: usize = 0;
            while start < end && self.buf[start] == 32u8
                invariant
                    0 <= start <= end <= self.len <= LINE_CAPACITY,
                    d == self.buf@.take(self.len as int),
                    x == d.subrange(0, end as int),
                    trim_start(x) == trim_start(d.subrange(start as int, end as int)),
                decreases end - start,
            {
                proof {
                    let sub = d.subrange(start as int, end as int);
                    assert(sub.drop_first() =~= d.subrange(start + 1, end as int));
                }
                start += 1;
            }
            let ghost y = d.subrange(start as int, end as int);
            proof {
                assert(trim_start(y) == y);
            }
            while end > start && self.buf[end - 1] == 32u8
                invariant
                    0 <= start <= end <= self.len <= LINE_CAPACITY,
                    d == self.buf@.take(self.len as int),
                    trim_end(y) == trim_end(d.subrange(start as int, end as int)),
                decreases end - start,
            {
                proof {
                    let sub = d.subrange(start as int, end as int);
                    assert(sub.drop_last() =~= d.subrange(start as int, end - 1));
                }
                end -= 1;
            }
            proof {
                assert(trim_end(d.subrange(start as int, end as int)) == d.subrange(
                    start as int,
                    end as int,
                ));
                assert(self.buf@.subrange(start as int, end as int) =~= d.subrange(
                    start as int,
                    end as int,
                ));
            }
            let line = str_from_utf8(vstd::slice::slice_subrange(self.buf.as_slice(), start, end));
            self.len = 0;
            proof {
                assert(self@ =~= Seq::<u8>::empty());
            }
            line
        } else {
            self.buf[self.len] = byte;
            self.len += 1;
            proof {
                assert(self@ =~= d.push(byte));
            }
            None
        }
    }
}

} // verus!
