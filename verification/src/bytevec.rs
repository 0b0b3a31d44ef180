//! A byte buffer of fixed capacity that never allocates.
//!
//! The buffer holds at most `N` bytes. It also counts every byte that was
//! handed to it, so a caller can tell a buffer that took everything from one
//! that ran out of room.
use crate::variants::is_symbol;
use vstd::prelude::*;
use vstd::utf8::{decode_utf8, valid_utf8};

verus! {

/// A byte buffer with room for `N` bytes.
///
/// Its view is the stored bytes, of which there are `min(len, N)`. Its length
/// counts every byte that it was given, stored or not.
#[derive(Clone, Copy, Debug)]
pub struct ByteVec<const N: usize> {
    data: [u8; N],
    idx: usize,
}

impl<const N: usize> View for ByteVec<N> {
    type V = Seq<u8>;

    closed spec fn view(&self) -> Seq<u8> {
        self.data@.take(
            if self.idx <= N {
                self.idx as int
            } else {
                N as int
            },
        )
    }
}

impl<const N: usize> ByteVec<N> {
    /// The logical length: the number of bytes handed to the buffer.
    pub closed spec fn spec_len(&self) -> usize {
        self.idx
    }

    /// The stored bytes are as many as the logical length says, up to the
    /// capacity.
    pub proof fn lemma_view_len(&self)
        ensures
            self@.len() == if self.spec_len() <= N {
                self.spec_len() as int
            } else {
                N as int
            },
    {
    }

    /// An empty buffer.
    pub fn new() -> (buffer: Self)
        ensures
            buffer@ == Seq::<u8>::empty(),
            buffer.spec_len() == 0,
    {
        ByteVec { data: [0u8; N], idx: 0 }
    }

    /// Appends `b`. It is stored where there is room and dropped where there
    /// is none; the length advances either way, and wraps to zero at the end
    /// of the `usize` range.
    pub fn push(&mut self, b: u8)
        ensures
            final(self).spec_len() == if old(self).spec_len() == usize::MAX {
                0
            } else {
                old(self).spec_len() + 1
            },
            final(self)@ == if old(self).spec_len() < N {
                old(self)@.push(b)
            } else if old(self).spec_len() == usize::MAX {
                Seq::<u8>::empty()
            } else {
                old(self)@
            },
    {
        if self.idx < N {
            self.data[self.idx] = b;
        }
        self.idx = self.idx.wrapping_add(1);
    }

    /// The buffer, to be shown as the UTF-8 text that its bytes are.
    pub fn display_unchecked(&self) -> (shown: Display<'_, N>)
        ensures
            shown.0 == self,
    {
        Display(self)
    }

    /// The buffer, to be shown with its printable bytes only.
    pub fn display_ascii(&self) -> (shown: DisplayChecked<'_, N>)
        ensures
            shown.0 == self,
    {
        DisplayChecked(self)
    }

    /// The stored byte at `off`, or `None` past the stored bytes.
    pub fn get(&self, off: usize) -> (byte: Option<&u8>)
        ensures
            byte == if off < self@.len() {
                Some(&self@[off as int])
            } else {
                None
            },
    {
        if off < self.idx && off < N {
            Some(&self.data[off])
        } else {
            None
        }
    }

    /// Inserts `value` before the byte at `idx`: the bytes from `idx` on move
    /// one place to the right, and a byte that is moved past the capacity is
    /// dropped. The length advances as it does for `push`.
    pub fn insert(&mut self, idx: usize, value: u8)
        requires
            idx <= old(self).spec_len(),
        ensures
            final(self).spec_len() == if old(self).spec_len() == usize::MAX {
                0
            } else {
                old(self).spec_len() + 1
            },
            final(self)@ == if old(self).spec_len() == usize::MAX {
                Seq::<u8>::empty()
            } else if idx < N {
                old(self)@.insert(idx as int, value).take(
                    if old(self).spec_len() < N {
                        old(self).spec_len() + 1
                    } else {
                        N as int
                    },
                )
            } else {
                old(self)@
            },
    {
        if idx < N {
            let last: usize = if self.idx < N {
                self.idx
            } else {
                N - 1
            };
            let mut k: usize = last;
            while k > idx
                invariant
                    idx <= k <= last < N,
                    self.idx == old(self).idx,
                    forall|j: int| 0 <= j <= k ==> self.data@[j] == old(self).data@[j],
                    forall|j: int| k < j <= last ==> self.data@[j] == old(self).data@[j - 1],
                    forall|j: int| last < j < N ==> self.data@[j] == old(self).data@[j],
                decreases k,
            {
                self.data[k] = self.data[k - 1];
                k = k - 1;
            }
            self.data[idx] = value;
        }
        self.idx = self.idx.wrapping_add(1);
    }

    /// The stored bytes.
    pub fn as_slice(&self) -> (bytes: &[u8])
        ensures
            bytes@ == self@,
    {
        let stored: usize = if self.idx <= N {
            self.idx
        } else {
            N
        };
        vstd::slice::slice_subrange(self.data.as_slice(), 0, stored)
    }

    /// A buffer that was handed every byte of `items`, in order.
    pub fn from_slice(items: &[u8]) -> (buffer: Self)
        ensures
            buffer.spec_len() == items@.len(),
            buffer@ == items@.take(
                if items@.len() <= N {
                    items@.len() as int
                } else {
                    N as int
                },
            ),
    {
        let mut buffer = Self::new();
        assert(items@.len() == items.len());
        buffer.extend_from_slice(items);
        buffer
    }

    /// Appends every byte of `items`, in order, as `push` does.
    pub fn extend_from_slice(&mut self, items: &[u8])
        requires
            old(self).spec_len() + items@.len() <= usize::MAX,
        ensures
            final(self).spec_len() == old(self).spec_len() + items@.len(),
            final(self)@ == (old(self)@ + items@).take(
                if final(self).spec_len() <= N {
                    final(self).spec_len() as int
                } else {
                    N as int
                },
            ),
    {
        let mut i: usize = 0;
        while i < items.len()
            invariant
                i <= items@.len(),
                old(self).spec_len() + items@.len() <= usize::MAX,
                self.spec_len() == old(self).spec_len() + i,
                self@ == (old(self)@ + items@).take(
                    if self.spec_len() <= N {
                        self.spec_len() as int
                    } else {
                        N as int
                    },
                ),
            decreases items@.len() - i,
        {
            proof {
                old(self).lemma_view_len();
            }
            self.push(items[i]);
            i = i + 1;
        }
    }

    /// The stored bytes as an array, where the buffer is exactly full.
    /// Otherwise the length and the capacity.
    pub fn try_into_array(self) -> (array: Result<[u8; N], (usize, usize)>)
        ensures
            match array {
                Ok(bytes) => self.spec_len() == N && bytes@ == self@,
                Err(sizes) => self.spec_len() != N && sizes == (self.spec_len(), N),
            },
    {
        if self.idx == N {
            Ok(self.data)
        } else {
            Err((self.idx, N))
        }
    }

    /// The number of bytes handed to the buffer.
    #[verifier::when_used_as_spec(spec_len)]
    pub fn len(&self) -> (len: usize)
        ensures
            len == self.spec_len(),
    {
        self.idx
    }

    /// The capacity `N`.
    pub fn capacity() -> (capacity: usize)
        ensures
            capacity == N,
    {
        N
    }
}

/// The characters of the printable bytes of `bytes`, in order: every byte
/// that is a visible ASCII character or a space, and no other.
pub open spec fn printable(bytes: Seq<u8>) -> Seq<char>
    decreases bytes.len(),
{
    if bytes.len() == 0 {
        Seq::empty()
    } else if is_symbol(bytes.last()) {
        printable(bytes.drop_last()).push(bytes.last() as char)
    } else {
        printable(bytes.drop_last())
    }
}

/// `String::from_utf8_lossy` of the standard library reads bytes as UTF-8.
/// Bytes that are valid UTF-8 give the text that they encode. Of other
/// bytes nothing is stated here.
#[verifier::external_body]
fn text_from_utf8_lossy(bytes: &[u8]) -> (text: String)
    ensures
        valid_utf8(bytes@) ==> text@ == decode_utf8(bytes@),
{
    String::from_utf8_lossy(bytes).into_owned()
}

/// A buffer to be shown as the UTF-8 text that its bytes are.
pub struct Display<'a, const N: usize>(pub &'a ByteVec<N>);

/// A buffer to be shown with its printable bytes only.
pub struct DisplayChecked<'a, const N: usize>(pub &'a ByteVec<N>);

impl<'a, const N: usize> Display<'a, N> {
    /// The stored bytes as text. Bytes that are valid UTF-8 give the text
    /// that they encode.
    pub fn to_string(&self) -> (text: String)
        ensures
            valid_utf8(self.0@) ==> text@ == decode_utf8(self.0@),
    {
        text_from_utf8_lossy(self.0.as_slice())
    }
}

impl<'a, const N: usize> DisplayChecked<'a, N> {
    /// The printable bytes of the buffer as text.
    pub fn to_string(&self) -> (text: String)
        ensures
            text@ == printable(self.0@),
    {
        let bytes = self.0.as_slice();
        let mut text = String::new();
        let mut i: usize = 0;
        while i < bytes.len()
            invariant
                i <= bytes@.len(),
                text@ == printable(bytes@.take(i as int)),
            decreases bytes@.len() - i,
        {
            assert(bytes@.take(i + 1).drop_last() == bytes@.take(i as int));
            let b: u8 = bytes[i];
            if 0x20 <= b && b <= 0x7e {
                text.push(b as char);
            }
            i = i + 1;
        }
        assert(bytes@.take(i as int) == bytes@);
        text
    }
}

} // verus!
