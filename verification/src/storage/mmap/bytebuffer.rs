use vstd::prelude::*;

verus! {

use crate::storage::{ByteOperat, u64_at, put_u64_at, write_bytes, lemma_u64_at_put_same};
use super::segment_container::{read_u64_le, write_u64_le};
use vstd::bytes::{spec_u64_to_le_bytes, u64_from_le_bytes, u64_to_le_bytes};

/// A mapping covers whole pages of this size.
pub const MAP_PAGE_SIZE: usize = 4096;

/// How many bytes lie from `len` to the end of its page.
pub open spec fn page_rest(len: int) -> int {
    if len % (MAP_PAGE_SIZE as int) == 0 {
        0
    } else {
        MAP_PAGE_SIZE - len % (MAP_PAGE_SIZE as int)
    }
}

/// The end of the page that holds byte `n - 1`: `n` rounded up to whole
/// pages.
pub open spec fn page_end(n: int) -> int {
    n + page_rest(n)
}

/// A mapped region of a resource: the bytes mapped, the bytes that follow
/// them up to the end of the last mapped page (reached by word access, not
/// by indexing), whether it was mapped read-only, and how far from its start
/// a read reaches without faulting (a read-only mapping of a file faults on
/// its pages that lie wholly past the file's end).  Writes into a read-only
/// region, and reads of a faulting page, are refused by `requires`.
pub struct ByteBuffer {
    content: Vec<u8>,
    tail: Vec<u8>,
    is_readonly: bool,
    readable: Ghost<nat>,
}

impl View for ByteBuffer {
    type V = Seq<u8>;

    closed spec fn view(&self) -> Seq<u8> {
        self.content@
    }
}

impl ByteBuffer {
    /// Whether the region was mapped read-only.
    pub closed spec fn readonly(&self) -> bool {
        self.is_readonly
    }

    /// The bytes after the mapped ones, up to the end of the last page.
    pub closed spec fn tail(&self) -> Seq<u8> {
        self.tail@
    }

    /// Every byte a word access can reach: the mapped ones, then the tail.
    pub open spec fn reach(&self) -> Seq<u8> {
        self@ + self.tail()
    }

    /// The bound past which a read of the region faults.
    pub closed spec fn readable_limit(&self) -> nat {
        self.readable@
    }

    /// How many bytes from the start can be read without a fault.
    pub open spec fn readable_len(&self) -> nat {
        if self.readable_limit() < self.reach().len() {
            self.readable_limit()
        } else {
            self.reach().len()
        }
    }

    /// Whether every mapped byte can be read.
    pub open spec fn all_readable(&self) -> bool {
        self@.len() <= self.readable_len()
    }

    /// A region holding `content`, all of it readable.
    pub fn new(content: Vec<u8>, is_readonly: bool) -> (r: Self)
        ensures
            r@ == content@,
            r.tail() == Seq::<u8>::empty(),
            r.readonly() == is_readonly,
            r.readable_len() == content@.len(),
    {
        let ghost n = content@.len();
        Self { content, tail: Vec::new(), is_readonly, readable: Ghost(n) }
    }

    /// A region whose last page goes on past the mapped bytes with `tail`,
    /// readable up to `readable` bytes from its start.
    pub(crate) fn with_tail(content: Vec<u8>, tail: Vec<u8>, readable: Ghost<nat>, is_readonly: bool) -> (r: Self)
        ensures
            r@ == content@,
            r.tail() == tail@,
            r.readonly() == is_readonly,
            r.readable_len() == if readable@ < content@.len() + tail@.len() {
                readable@
            } else {
                (content@.len() + tail@.len()) as nat
            },
    {
        Self { content, tail, is_readonly, readable }
    }

    /// The mapped bytes, taking the buffer apart.
    pub fn into_content(self) -> (r: Vec<u8>)
        requires
            self.all_readable(),
        ensures
            r@ == self@,
    {
        self.content
    }

    /// The mapped bytes, taking the buffer apart to map them again; they
    /// are not read.
    pub(crate) fn into_mapped(self) -> (r: Vec<u8>)
        ensures
            r@ == self@,
    {
        self.content
    }

    /// The mapped bytes.
    pub fn as_slice(&self) -> (r: &[u8])
        requires
            self.all_readable(),
        ensures
            r@ == self@,
    {
        self.content.as_slice()
    }

    /// The mapped bytes, for writing in place.
    pub fn as_mut_slice(&mut self) -> (r: &mut [u8])
        requires
            !old(self).readonly(),
        ensures
            r@ == old(self)@,
            final(self)@ == final(r)@,
            final(self).readonly() == old(self).readonly(),
            final(self).tail() == old(self).tail(),
            final(self).readable_limit() == old(self).readable_limit(),
    {
        self.content.as_mut_slice()
    }

    /// Whether the region was mapped read-only.
    pub fn is_readonly(&self) -> (r: bool)
        ensures
            r == self.readonly(),
    {
        self.is_readonly
    }

    pub fn len(&self) -> (r: usize)
        ensures
            r == self@.len(),
    {
        self.content.len()
    }

    /// Sets `size` bytes from `pos` on to `value`.
    pub fn fill(&mut self, pos: usize, size: usize, value: u8)
        requires
            !old(self).readonly(),
            pos + size <= old(self)@.len(),
        ensures
            final(self).readonly() == old(self).readonly(),
            final(self).tail() == old(self).tail(),
            final(self)@.len() == old(self)@.len(),
            final(self).readable_len() == old(self).readable_len(),
            forall|i: int|
                0 <= i < old(self)@.len() ==> #[trigger] final(self)@[i] == if pos <= i < pos + size {
                    value
                } else {
                    old(self)@[i]
                },
    {
        proof {
            assert(self.content@.len() == self.content.len());
        }
        let mut k: usize = 0;
        while k < size
            invariant
                k <= size,
                pos + size <= old(self)@.len(),
                pos + size <= usize::MAX,
                self.is_readonly == old(self).is_readonly,
                self.readable@ == old(self).readable@,
                self.tail@ == old(self).tail@,
                self.content@.len() == old(self)@.len(),
                forall|i: int|
                    0 <= i < old(self)@.len() ==> #[trigger] self.content@[i] == if pos <= i < pos + k {
                        value
                    } else {
                        old(self)@[i]
                    },
            decreases size - k,
        {
            self.content.set(pos + k, value);
            k = k + 1;
        }
    }

    /// Byte `base + k` of everything a word access reaches.
    fn reach_byte(&self, base: usize, k: usize) -> (r: u8)
        requires
            base + k < self.reach().len(),
        ensures
            r == self.reach()[base + k],
    {
        let n = self.content.len();
        proof {
            assert(self.tail@.len() == self.tail.len());
        }
        if base < n && k < n - base {
            self.content[base + k]
        } else if base < n {
            self.tail[k - (n - base)]
        } else {
            self.tail[(base - n) + k]
        }
    }

    /// Sets byte `base + k` of everything a word access reaches.
    fn set_reach_byte(&mut self, base: usize, k: usize, value: u8)
        requires
            base + k < old(self).reach().len(),
        ensures
            final(self).reach() == old(self).reach().update(base + k, value),
            final(self)@.len() == old(self)@.len(),
            final(self).readonly() == old(self).readonly(),
            final(self).readable@ == old(self).readable@,
    {
        let n = self.content.len();
        proof {
            assert(self.tail@.len() == self.tail.len());
        }
        if base < n && k < n - base {
            self.content.set(base + k, value);
        } else if base < n {
            self.tail.set(k - (n - base), value);
        } else {
            self.tail.set((base - n) + k, value);
        }
        assert(self.reach() =~= old(self).reach().update(base + k, value));
    }
}

impl ByteOperat for ByteBuffer {
    open spec fn byte_view(&self) -> Seq<u8> {
        self.reach().subrange(0, self.readable_len() as int)
    }

    open spec fn is_writable(&self) -> bool {
        !self.readonly()
    }

    open spec fn index_len(&self) -> nat {
        if self@.len() < self.readable_len() {
            self@.len()
        } else {
            self.readable_len()
        }
    }

    fn get_byte(&self, position: usize) -> (r: u8) {
        self.content[position]
    }

    fn put_byte(&mut self, position: usize, value: u8)
        ensures
            final(self)@ == old(self)@.update(position as int, value),
            final(self).tail() == old(self).tail(),
            final(self).readable_len() == old(self).readable_len(),
    {
        self.content.set(position, value);
        assert(self.reach() =~= old(self).reach().update(position as int, value));
        assert(self.byte_view() =~= old(self).byte_view().update(position as int, value));
    }

    fn get_u64(&self, position: usize) -> (r: u64)
        ensures
            position + 8 <= self@.len() ==> r == u64_at(self@, position as int),
    {
        assert(self.byte_view().subrange(position as int, position + 8) =~= self.reach().subrange(
            position as int,
            position + 8,
        ));
        let n = self.content.len();
        if position <= n && 8 <= n - position {
            let r = read_u64_le(self.content.as_slice(), position);
            assert(self.reach().subrange(position as int, position + 8) =~= self@.subrange(
                position as int,
                position + 8,
            ));
            r
        } else {
            let mut bytes: Vec<u8> = Vec::new();
            let mut k: usize = 0;
            while k < 8
                invariant
                    k <= 8,
                    position + 8 <= self.reach().len(),
                    bytes@ == self.reach().subrange(position as int, position + k),
                decreases 8 - k,
            {
                bytes.push(self.reach_byte(position, k));
                k = k + 1;
                assert(bytes@ =~= self.reach().subrange(position as int, position + k));
            }
            u64_from_le_bytes(bytes.as_slice())
        }
    }

    fn put_u64(&mut self, position: usize, value: u64)
        ensures
            final(self)@.len() == old(self)@.len(),
            position + 8 <= old(self)@.len() ==> final(self)@ == put_u64_at(old(self)@, position as int, value)
                && final(self).tail() == old(self).tail(),
            final(self).readable_len() == old(self).readable_len(),
    {
        proof {
            vstd::bytes::lemma_auto_spec_u64_to_from_le_bytes();
        }
        let n = self.content.len();
        if position <= n && 8 <= n - position {
            proof {
                lemma_u64_at_put_same(old(self)@, position as int, value);
            }
            write_u64_le(self.content.as_mut_slice(), position, value);
            assert(self.reach() =~= put_u64_at(old(self).reach(), position as int, value));
        } else {
            let le = u64_to_le_bytes(value);
            let ghost bytes = spec_u64_to_le_bytes(value);
            let mut k: usize = 0;
            while k < 8
                invariant
                    k <= 8,
                    position + 8 <= old(self).reach().len(),
                    bytes == spec_u64_to_le_bytes(value),
                    bytes.len() == 8,
                    le@ == bytes,
                    self@.len() == old(self)@.len(),
                    self.readonly() == old(self).readonly(),
                    self.readable@ == old(self).readable@,
                    self.reach().len() == old(self).reach().len(),
                    forall|i: int|
                        0 <= i < self.reach().len() ==> #[trigger] self.reach()[i] == if position <= i
                            < position + k {
                            bytes[i - position]
                        } else {
                            old(self).reach()[i]
                        },
                decreases 8 - k,
            {
                self.set_reach_byte(position, k, le[k]);
                k = k + 1;
            }
            assert(self.reach() =~= write_bytes(old(self).reach(), position as int, bytes));
        }
        assert(self.byte_view() =~= put_u64_at(old(self).byte_view(), position as int, value));
    }
}

} // verus!
