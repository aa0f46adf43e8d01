//! Text of values: decimal numbers, booleans and strings written into a byte buffer.

use vstd::prelude::*;
use vstd::string::StringSliceAdditionalSpecFns;
use vstd::utf8::{valid_utf8, encode_utf8_valid_utf8};
use crate::text::{str_from_utf8, lemma_ascii_valid_utf8, copy_at};

verus! {

/// The ASCII code of the digit 0.
pub const DIGIT_ZERO: u8 = 48;

/// The ASCII code of the minus sign.
pub const MINUS_SIGN: u8 = 45;

/// The decimal digits of `n`, most significant first, as ASCII; empty for 0.
pub open spec fn decimal_digits(n: nat) -> Seq<u8>
    decreases n,
{
    if n == 0 {
        seq![]
    } else {
        decimal_digits(n / 10).push((DIGIT_ZERO + n % 10) as u8)
    }
}

/// The decimal text of `n`, as ASCII: "0" for 0.
pub open spec fn decimal(n: nat) -> Seq<u8> {
    if n == 0 {
        seq![DIGIT_ZERO]
    } else {
        decimal_digits(n)
    }
}

/// The number that ASCII decimal digits stand for.
pub open spec fn digits_value(s: Seq<u8>) -> int
    decreases s.len(),
{
    if s.len() == 0 {
        0
    } else {
        digits_value(s.drop_last()) * 10 + (s.last() - DIGIT_ZERO)
    }
}

/// The decimal text of an `i32`: a minus sign for negative numbers, then the digits
/// of its magnitude.
pub open spec fn i32_text(v: i32) -> Seq<u8> {
    if v < 0 {
        seq![MINUS_SIGN] + decimal((-v) as nat)
    } else {
        decimal(v as nat)
    }
}

/// The text of a `bool`.
pub open spec fn bool_text(b: bool) -> Seq<u8> {
    if b {
        seq![116u8, 114u8, 117u8, 101u8]
    } else {
        seq![102u8, 97u8, 108u8, 115u8, 101u8]
    }
}

/// Ten to the power `k`.
pub open spec fn pow10(k: nat) -> nat
    decreases k,
{
    if k == 0 {
        1
    } else {
        10 * pow10((k - 1) as nat)
    }
}

/// Every digit is an ASCII digit, and a number below `10^k` has at most `k` digits.
pub proof fn lemma_decimal_digits(n: nat, k: nat)
    requires
        n < pow10(k),
    ensures
        decimal_digits(n).len() <= k,
        forall|i: int|
            0 <= i < decimal_digits(n).len() ==> DIGIT_ZERO <= #[trigger] decimal_digits(n)[i]
                <= DIGIT_ZERO + 9,
    decreases n,
{
    if n != 0 {
        lemma_decimal_digits(n / 10, (k - 1) as nat);
    }
}

/// A `u32` has at most ten decimal digits, all of them ASCII digits.
pub proof fn lemma_decimal_u32(n: u32)
    ensures
        1 <= decimal(n as nat).len() <= 10,
        forall|i: int|
            0 <= i < decimal(n as nat).len() ==> DIGIT_ZERO <= #[trigger] decimal(n as nat)[i]
                <= DIGIT_ZERO + 9,
{
    reveal_with_fuel(pow10, 11);
    assert(pow10(10) == 10000000000);
    lemma_decimal_digits(n as nat, 10);
}

/// The decimal text of a number reads back as that number.
pub proof fn lemma_decimal_value(n: nat)
    ensures
        digits_value(decimal(n)) == n,
{
    lemma_decimal_digits_value(n);
    if n == 0 {
        assert(seq![DIGIT_ZERO].drop_last() =~= Seq::<u8>::empty());
    }
}

proof fn lemma_decimal_digits_value(n: nat)
    ensures
        digits_value(decimal_digits(n)) == n,
    decreases n,
{
    if n != 0 {
        lemma_decimal_digits_value(n / 10);
        let d = decimal_digits(n);
        assert(d.drop_last() =~= decimal_digits(n / 10));
    }
}

/// The number of bytes in the decimal text of `n`.
pub fn decimal_len(n: u32) -> (r: usize)
    ensures
        r == decimal(n as nat).len(),
{
    proof {
        lemma_decimal_u32(n);
    }
    let ghost n0 = n as nat;
    let mut n = n;
    let mut len: usize = 1;
    while n >= 10
        invariant
            1 <= len <= 10,
            n > 0 || n0 == 0,
            n0 == 0 ==> n == 0 && len == 1,
            n0 > 0 ==> decimal_digits(n0).len() == decimal_digits(n as nat).len() + len - 1,
            decimal(n0).len() <= 10,
        decreases n,
    {
        proof {
            assert(decimal_digits(n as nat).len() == decimal_digits((n / 10) as nat).len() + 1);
        }
        n /= 10;
        len += 1;
    }
    proof {
        if n0 > 0 {
            assert(decimal_digits((n / 10) as nat) =~= Seq::<u8>::empty());
        }
    }
    len
}

/// Writes the decimal text of `n` into `buf` from position `idx`, and returns the
/// position after it.
pub fn write_u32(n: u32, buf: &mut [u8], idx: usize) -> (r: usize)
    requires
        idx + decimal(n as nat).len() <= old(buf)@.len(),
    ensures
        r == idx + decimal(n as nat).len(),
        final(buf)@.len() == old(buf)@.len(),
        final(buf)@.subrange(idx as int, r as int) == decimal(n as nat),
        forall|k: int|
            0 <= k < old(buf)@.len() && !(idx <= k < r) ==> #[trigger] final(buf)@[k] == old(
                buf,
            )@[k],
{
    let ghost n0 = n as nat;
    let ghost buf0 = buf@;
    proof {
        lemma_decimal_u32(n);
    }
    let mut n = n;
    let mut digits = [0u8; 10];
    let mut len: usize = 0;
    loop
        invariant_except_break
            len == 0 ==> n == n0,
            len > 0 ==> n > 0 && n0 > 0 && decimal(n0) == decimal_digits(n as nat) + Seq::new(
                len as nat,
                |k: int| (DIGIT_ZERO + digits@[len - 1 - k]) as u8,
            ),
            len <= 9,
            1 <= decimal(n0).len() <= 10,
            forall|k: int| 0 <= k < len ==> #[trigger] digits@[k] <= 9,
        ensures
            1 <= len <= 10,
            decimal(n0) == Seq::new(len as nat, |k: int| (DIGIT_ZERO + digits@[len - 1 - k]) as u8),
            forall|k: int| 0 <= k < len ==> #[trigger] digits@[k] <= 9,
        decreases n,
    {
        let ghost prev = Seq::new(len as nat, |k: int| (DIGIT_ZERO + digits@[len - 1 - k]) as u8);
        let ghost nn = n;
        digits[len] = (n % 10) as u8;
        len += 1;
        n /= 10;
        proof {
            let cur = Seq::new(len as nat, |k: int| (DIGIT_ZERO + digits@[len - 1 - k]) as u8);
            assert(cur =~= seq![(DIGIT_ZERO + nn % 10) as u8] + prev);
            if nn > 0 {
                assert(decimal_digits(nn as nat) == decimal_digits(n as nat).push(
                    (DIGIT_ZERO + nn % 10) as u8,
                ));
                assert(decimal_digits(nn as nat) + prev =~= decimal_digits(n as nat) + cur);
            }
            if n == 0 {
                assert(decimal_digits(0) =~= Seq::<u8>::empty());
                assert(decimal(n0) =~= cur);
            } else {
                assert(decimal_digits(n as nat).len() >= 1);
            }
        }
        if n == 0 {
            break;
        }
    }
    let mut idx = idx;
    let ghost start = idx;
    let ghost total = len;
    while len > 0
        invariant
            0 <= len <= total <= 10,
            idx == start + (total - len),
            start + total <= buf0.len(),
            decimal(n0).len() == total,
            decimal(n0) == Seq::new(total as nat, |k: int| (DIGIT_ZERO + digits@[total - 1 - k]) as u8),
            forall|k: int| 0 <= k < total ==> #[trigger] digits@[k] <= 9,
            buf@.len() == buf0.len(),
            forall|k: int|
                0 <= k < buf0.len() ==> #[trigger] buf@[k] == if start <= k < idx {
                    decimal(n0)[k - start]
                } else {
                    buf0[k]
                },
        decreases len,
    {
        len -= 1;
        buf[idx] = DIGIT_ZERO + digits[len];
        idx += 1;
    }
    proof {
        assert(buf@.subrange(start as int, idx as int) =~= decimal(n0));
    }
    idx
}


/// Values that write their text into a caller's buffer and hand it back as a `&str`.
pub trait Tostr {
    /// The bytes of the value's text.
    spec fn text(&self) -> Seq<u8>;

    /// Writes the value's text at the front of `buf` and returns it as a string slice
    /// of `buf`.
    fn to_str<'a>(&self, buf: &'a mut [u8]) -> (r: &'a str)
        requires
            self.text().len() <= old(buf)@.len(),
        ensures
            r.spec_bytes() == self.text(),
            final(buf)@.len() == old(buf)@.len(),
            final(buf)@.subrange(0, self.text().len() as int) == self.text(),
            forall|k: int|
                self.text().len() <= k < old(buf)@.len() ==> #[trigger] final(buf)@[k] == old(
                    buf,
                )@[k],
    ;
}

/// The string slice made of the first `len` bytes of `buf`, which are valid UTF-8.
fn front_str<'a>(buf: &'a [u8], len: usize) -> (r: &'a str)
    requires
        len <= buf@.len(),
        valid_utf8(buf@.subrange(0, len as int)),
    ensures
        r.spec_bytes() == buf@.subrange(0, len as int),
{
    match str_from_utf8(vstd::slice::slice_subrange(buf, 0, len)) {
        Some(s) => s,
        None => {
            proof {
                assert(false);
            }
            ""
        },
    }
}

impl Tostr for &str {
    open spec fn text(&self) -> Seq<u8> {
        (*self).spec_bytes()
    }

    fn to_str<'a>(&self, buf: &'a mut [u8]) -> (r: &'a str) {
        let bytes = self.as_bytes();
        let len = bytes.len();
        copy_at(buf, 0, bytes);
        proof {
            encode_utf8_valid_utf8((*self)@);
        }
        let b: &'a [u8] = buf;
        front_str(b, len)
    }
}

/// The magnitude of an `i32`, as a `u32`.
fn magnitude(v: i32) -> (r: u32)
    ensures
        r as int == if v < 0 {
            -v
        } else {
            v as int
        },
{
    if v < 0 {
        (0i64 - v as i64) as u32
    } else {
        v as u32
    }
}

impl Tostr for i32 {
    open spec fn text(&self) -> Seq<u8> {
        i32_text(*self)
    }

    fn to_str<'a>(&self, buf: &'a mut [u8]) -> (r: &'a str) {
        let ghost buf0 = buf@;
        let mut idx: usize = 0;
        if *self < 0 {
            buf[idx] = MINUS_SIGN;
            idx += 1;
        }
        let n: u32 = magnitude(*self);
        proof {
            lemma_decimal_u32(n);
        }
        idx = write_u32(n, buf, idx);
        let ghost t = i32_text(*self);
        proof {
            assert(buf@.subrange(0, idx as int) =~= t) by {
                if *self < 0 {
                    assert(buf@.subrange(1, idx as int) == decimal(n as nat));
                    assert forall|k: int| 0 <= k < idx implies buf@[k] == t[k] by {
                        if k >= 1 {
                            assert(buf@[k] == buf@.subrange(1, idx as int)[k - 1]);
                        }
                    }
                }
            }
            assert forall|k: int| 0 <= k < t.len() implies t[k] < 128 by {
                if *self < 0 && k >= 1 {
                    assert(t[k] == decimal(n as nat)[k - 1]);
                }
            }
            lemma_ascii_valid_utf8(t);
        }
        let b: &'a [u8] = buf;
        front_str(b, idx)
    }
}

impl Tostr for bool {
    open spec fn text(&self) -> Seq<u8> {
        bool_text(*self)
    }

    fn to_str<'a>(&self, buf: &'a mut [u8]) -> (r: &'a str) {
        let s: &str = if *self {
            "true"
        } else {
            "false"
        };
        proof {
            reveal_strlit("true");
            reveal_strlit("false");
            vstd::string::is_ascii_spec_bytes(s);
            assert(s.spec_bytes() =~= bool_text(*self));
            lemma_ascii_valid_utf8(bool_text(*self));
        }
        let bytes = s.as_bytes();
        let len = bytes.len();
        copy_at(buf, 0, bytes);
        let b: &'a [u8] = buf;
        front_str(b, len)
    }
}

} // verus!
