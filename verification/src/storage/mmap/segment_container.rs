use vstd::prelude::*;

verus! {

use crate::storage::{BaseResource, ByteOperat, u64_at, put_u64_at, write_bytes};
use vstd::bytes::{spec_u64_to_le_bytes, spec_u64_to_le_bytes_to_open, u64_from_le_bytes};
use super::bytebuffer_resource::{ByteBufferResource, remapped, file_after_map};

struct SegmentMeta(usize);

/// A resource cut into pages of a fixed size, handed out one after another.
pub struct SegmentContainer {
    buffer: ByteBufferResource,
    metadata: SegmentMeta,
}

impl View for SegmentContainer {
    type V = Seq<u8>;

    closed spec fn view(&self) -> Seq<u8> {
        self.buffer@
    }
}

impl SegmentContainer {
    pub closed spec fn wf(&self) -> bool {
        self.buffer.wf()
    }

    /// The size of a page.
    pub closed spec fn page_size(&self) -> usize {
        self.metadata.0
    }

    /// The bytes of the file behind the data that a new mapping shows.
    pub closed spec fn file(&self) -> Seq<u8> {
        self.buffer.file()
    }

    /// Whether the data resource is read-only.
    pub closed spec fn readonly(&self) -> bool {
        self.buffer.readonly()
    }

    /// Whether a buffer has been mapped yet.
    pub closed spec fn is_mapped(&self) -> bool {
        self.buffer.is_mapped()
    }

    /// A non-empty well-formed container is mapped.
    pub proof fn lemma_wf(&self)
        requires
            self.wf(),
        ensures
            self@.len() > 0 ==> self.is_mapped(),
            self@.len() <= usize::MAX,
    {
        self.buffer.lemma_wf();
    }

    pub fn new(buffer: ByteBufferResource, page_size: usize) -> (r: Self)
        requires
            buffer.wf(),
        ensures
            r.wf(),
            r@ == buffer@,
            r.page_size() == page_size,
            r.readonly() == buffer.readonly(),
            r.is_mapped() == buffer.is_mapped(),
            r.file() == buffer.file(),
    {
        return Self { buffer, metadata: SegmentMeta(page_size) };
    }

    /// The resource that holds the pages, taking the container apart.
    pub fn into_buffer(self) -> (r: ByteBufferResource)
        requires
            self.wf(),
        ensures
            r.wf(),
            r@ == self@,
            r.readonly() == self.readonly(),
            r.is_mapped() == self.is_mapped(),
            r.file() == self.file(),
    {
        self.buffer
    }

    /// The size of a page.
    pub fn page_size_value(&self) -> (r: usize)
        ensures
            r == self.page_size(),
    {
        self.metadata.0
    }

    /// Appends a page, mapped from the file, and returns where it starts.
    pub fn allocate(&mut self) -> (r: usize)
        requires
            old(self).wf(),
            old(self)@.len() + old(self).page_size() <= usize::MAX,
        ensures
            r == old(self)@.len(),
            final(self)@ == remapped(old(self)@, old(self).file(), (old(self)@.len() + old(self).page_size()) as nat),
            final(self).file() == if old(self).page_size() > 0 {
                file_after_map(old(self).file(), (old(self)@.len() + old(self).page_size()) as nat, old(self).readonly())
            } else {
                old(self).file()
            },
            final(self).wf(),
            final(self).page_size() == old(self).page_size(),
            final(self).readonly() == old(self).readonly(),
            final(self).is_mapped() == (old(self).is_mapped() || old(self).page_size() > 0),
    {
        proof {
            self.buffer.lemma_wf();
        }
        let old_len = self.buffer.len();
        let buffer_size = self.buffer.len() + self.metadata.0;
        self.buffer.resize(buffer_size);
        assert(self.buffer@ =~= remapped(old(self)@, old(self).file(), (old(self)@.len() + old(self).page_size()) as nat));
        return old_len;
    }

    /// A view of all pages that can be written in place.
    pub fn get_segment(&mut self) -> (r: SnapshotSegmentContainer<'_>)
        requires
            old(self).wf(),
            old(self).is_mapped(),
            !old(self).readonly(),
        ensures
            r.slice@ == old(self)@,
            r.page_size == old(self).page_size(),
            final(self)@ == final(r.slice)@,
            final(self).page_size() == old(self).page_size(),
            final(self).readonly() == old(self).readonly(),
            final(self).is_mapped(),
            final(self).file() == old(self).file(),
            final(self).wf() == (final(r.slice)@.len() == old(self)@.len()),
    {
        proof {
            self.buffer.lemma_wf();
        }
        let page_size = self.metadata.0;
        SnapshotSegmentContainer { slice: self.buffer.content_mut().as_mut_slice(), page_size }
    }
}

/// All pages of a container, borrowed for writing.
pub struct SnapshotSegmentContainer<'a> {
    pub slice: &'a mut [u8],
    pub page_size: usize,
}

/// The bytes from `start` to `end` of a slice, borrowed for writing: what is
/// written through the part is what `s` holds there afterwards, the rest of
/// `s` unchanged.
fn slice_range_mut(s: &mut [u8], start: usize, end: usize) -> (r: &mut [u8])
    requires
        start <= end <= old(s)@.len(),
    ensures
        r@ == old(s)@.subrange(start as int, end as int),
        final(s)@ == old(s)@.subrange(0, start as int) + final(r)@ + old(s)@.subrange(
            end as int,
            old(s)@.len() as int,
        ),
{
    let (_head, rest) = s.split_at_mut(start);
    let (part, _back) = rest.split_at_mut(end - start);
    part
}

impl<'a> SnapshotSegmentContainer<'a> {
    /// The page that starts at `pos`.
    pub fn get_slice(&mut self, pos: usize) -> (r: &mut [u8])
        requires
            pos + old(self).page_size <= old(self).slice@.len(),
        ensures
            r@ == old(self).slice@.subrange(pos as int, pos + old(self).page_size),
            final(self).page_size == old(self).page_size,
            final(final(self).slice)@ == final(old(self).slice)@,
            final(self).slice@ == old(self).slice@.subrange(0, pos as int) + final(r)@
                + old(self).slice@.subrange(pos + old(self).page_size, old(self).slice@.len() as int),
    {
        proof {
            assert(self.slice@.len() == self.slice.len());
        }
        slice_range_mut(self.slice, pos, pos + self.page_size)
    }
}

/// The little-endian word at `position` of `s`.
pub(crate) fn read_u64_le(s: &[u8], position: usize) -> (r: u64)
    requires
        position + 8 <= s@.len(),
    ensures
        r == u64_at(s@, position as int),
{
    proof {
        assert(s@.len() == s.len());
    }
    u64_from_le_bytes(vstd::slice::slice_subrange(s, position, position + 8))
}

/// Stores `value` little-endian at `position` of `s`.
pub(crate) fn write_u64_le(s: &mut [u8], position: usize, value: u64)
    requires
        position + 8 <= old(s)@.len(),
    ensures
        final(s)@ == put_u64_at(old(s)@, position as int, value),
{
    proof {
        spec_u64_to_le_bytes_to_open(value);
    }
    s[position] = (value & 0xff) as u8;
    s[position + 1] = ((value >> 8) & 0xff) as u8;
    s[position + 2] = ((value >> 16) & 0xff) as u8;
    s[position + 3] = ((value >> 24) & 0xff) as u8;
    s[position + 4] = ((value >> 32) & 0xff) as u8;
    s[position + 5] = ((value >> 40) & 0xff) as u8;
    s[position + 6] = ((value >> 48) & 0xff) as u8;
    s[position + 7] = ((value >> 56) & 0xff) as u8;
    assert(s@ =~= write_bytes(old(s)@, position as int, spec_u64_to_le_bytes(value)));
}

impl<'a> ByteOperat for &'a mut [u8] {
    open spec fn byte_view(&self) -> Seq<u8> {
        (**self)@
    }

    open spec fn is_writable(&self) -> bool {
        true
    }

    open spec fn index_len(&self) -> nat {
        (**self)@.len()
    }

    fn get_byte(&self, position: usize) -> (r: u8) {
        self[position]
    }

    fn put_byte(&mut self, position: usize, value: u8)
        ensures
            final(*final(self))@ == final(*old(self))@,
    {
        self[position] = value;
    }

    fn get_u64(&self, position: usize) -> (r: u64) {
        read_u64_le(*self, position)
    }

    fn put_u64(&mut self, position: usize, value: u64)
        ensures
            final(*final(self))@ == final(*old(self))@,
    {
        write_u64_le(*self, position, value)
    }
}

} // verus!
