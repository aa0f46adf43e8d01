//! Serial screen: text objects and the commands that set their text.

use vstd::prelude::*;
use vstd::string::StringSliceAdditionalSpecFns;
use crate::text::copy_at;

verus! {

/// The ASCII code of `=`.
pub const EQUALS_SIGN: u8 = 61;

/// The ASCII code of `"`.
pub const QUOTE: u8 = 34;

/// The byte that ends a screen command; a command ends with three of them.
pub const COMMAND_END: u8 = 0xFF;

/// A text object on the screen: its name and up to `T` bytes of text.
pub struct Object<'a, const T: usize> {
    pub name: &'a str,
    pub context: [u8; T],
    pub len: usize,
}

/// How many bytes of `context` an object with room for `t` bytes keeps.
pub open spec fn kept_len(context: Seq<u8>, t: int) -> int {
    if context.len() < t {
        context.len() as int
    } else {
        t
    }
}

impl<'a, const T: usize> Object<'a, T> {
    /// An object named `name` that holds as much of `context` as fits.
    pub fn new(name: &'a str, context: &[u8]) -> (r: Self)
        ensures
            r.name == name,
            r.len == kept_len(context@, T as int),
            r.context@.subrange(0, r.len as int) == context@.subrange(0, r.len as int),
            forall|k: int| r.len <= k < T ==> #[trigger] r.context@[k] == 0u8,
    {
        let mut obj = Object { name, context: [0u8; T], len: 0 };
        obj.set_context(context);
        obj
    }

    /// Replaces the text with as much of `context` as fits; the bytes after it stay.
    pub fn set_context(&mut self, context: &[u8])
        ensures
            final(self).name == old(self).name,
            final(self).len == kept_len(context@, T as int),
            final(self).context@.subrange(0, final(self).len as int) == context@.subrange(
                0,
                final(self).len as int,
            ),
            forall|k: int|
                final(self).len <= k < T ==> #[trigger] final(self).context@[k] == old(
                    self,
                ).context@[k],
    {
        let len = if context.len() < T {
            context.len()
        } else {
            T
        };
        let ghost c0 = self.context@;
        let mut i: usize = 0;
        while i < len
            invariant
                0 <= i <= len,
                len <= T,
                len <= context@.len(),
                self.context@.len() == T,
                self.name == old(self).name,
                c0 == old(self).context@,
                forall|k: int|
                    0 <= k < T ==> #[trigger] self.context@[k] == if k < i {
                        context@[k]
                    } else {
                        c0[k]
                    },
            decreases len - i,
        {
            self.context[i] = context[i];
            i += 1;
        }
        self.len = len;
        assert(self.context@.subrange(0, len as int) =~= context@.subrange(0, len as int));
    }
}

/// Sends all `N` objects of a screen over a serial link.
pub trait SerialHandle<const N: usize, const T: usize> {
    /// Sends the objects' texts; `Err` when the link fails.
    fn refresh(&mut self, objs: &[Object<'_, T>; N]) -> Result<(), ()>;
}

/// Sends one object of a screen over a serial link.
pub trait RefreshOne<const T: usize> {
    /// Sends the object's text; `Err` when the link fails.
    fn refresh_one(&mut self, obj: &Object<'_, T>) -> Result<(), ()>;
}

/// A serial screen: `N` objects and the link that sends them.
pub struct Screen<'a, const N: usize, const T: usize, S: SerialHandle<N, T>> {
    pub serial: S,
    pub objects: [Object<'a, T>; N],
}

/// The command that sets object `name` to show `text`: `name="text"` and three `0xFF`.
pub open spec fn command_bytes(name: Seq<u8>, text: Seq<u8>) -> Seq<u8> {
    name + seq![EQUALS_SIGN, QUOTE] + text + seq![QUOTE, COMMAND_END, COMMAND_END, COMMAND_END]
}

/// The command holds the whole name and the whole text: the name, `=`, a quote, the
/// text, a quote and three end bytes, so its length is the two lengths plus 6.
pub proof fn lemma_command_layout(name: Seq<u8>, text: Seq<u8>)
    ensures
        command_bytes(name, text).len() == name.len() + text.len() + 6,
        command_bytes(name, text).subrange(0, name.len() as int) == name,
        command_bytes(name, text)[name.len() as int] == EQUALS_SIGN,
        command_bytes(name, text)[name.len() as int + 1] == QUOTE,
        command_bytes(name, text).subrange(name.len() as int + 2, name.len() + 2 + text.len() as int) == text,
        command_bytes(name, text)[name.len() as int + 2 + text.len()] == QUOTE,
        command_bytes(name, text)[name.len() as int + 3 + text.len()] == COMMAND_END,
        command_bytes(name, text)[name.len() as int + 4 + text.len()] == COMMAND_END,
        command_bytes(name, text)[name.len() as int + 5 + text.len()] == COMMAND_END,
{
    let c = command_bytes(name, text);
    assert(c.subrange(0, name.len() as int) =~= name);
    assert(c.subrange(name.len() as int + 2, name.len() + 2 + text.len() as int) =~= text);
}

/// Writes into `buf` the command that sets object `name` to the first `len` bytes of
/// `context`, and returns the command's length.
pub fn build_cmd(name: &str, context: &[u8], len: usize, buf: &mut [u8]) -> (r: usize)
    requires
        len <= context@.len(),
        name.spec_bytes().len() + len + 6 <= old(buf)@.len(),
    ensures
        r == name.spec_bytes().len() + len + 6,
        r == command_bytes(name.spec_bytes(), context@.subrange(0, len as int)).len(),
        final(buf)@.len() == old(buf)@.len(),
        final(buf)@.subrange(0, r as int) == command_bytes(
            name.spec_bytes(),
            context@.subrange(0, len as int),
        ),
        forall|k: int| r <= k < old(buf)@.len() ==> #[trigger] final(buf)@[k] == old(buf)@[k],
{
    let ghost buf0 = buf@;
    let ghost cmd = command_bytes(name.spec_bytes(), context@.subrange(0, len as int));
    let mut i: usize = 0;
    let name_bytes = name.as_bytes();
    copy_at(buf, i, name_bytes);
    i += name.len();
    buf[i] = EQUALS_SIGN;
    i += 1;
    buf[i] = QUOTE;
    i += 1;
    let ghost mid = i;
    copy_at(buf, i, vstd::slice::slice_subrange(context, 0, len));
    i += len;
    buf[i] = QUOTE;
    i += 1;
    buf[i] = COMMAND_END;
    i += 1;
    buf[i] = COMMAND_END;
    i += 1;
    buf[i] = COMMAND_END;
    i += 1;
    proof {
        let nl = name_bytes@.len() as int;
        assert forall|k: int| 0 <= k < i implies #[trigger] buf@[k] == cmd[k] by {
            if k < nl {
                assert(buf@[k] == buf@.subrange(0, nl)[k]);
            } else if mid <= k < mid + len {
                assert(buf@[k] == buf@.subrange(mid as int, mid + len)[k - mid]);
            }
        }
        assert(buf@.subrange(0, i as int) =~= cmd);
    }
    i
}

} // verus!
