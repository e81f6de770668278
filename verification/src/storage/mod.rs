pub mod mmap;

pub use mmap::ByteBufferResource;

use vstd::prelude::*;

verus! {

use vstd::bytes::{spec_u64_from_le_bytes, spec_u64_to_le_bytes};

/// `s` with the bytes from `pos` on replaced by `bytes`.
pub open spec fn write_bytes(s: Seq<u8>, pos: int, bytes: Seq<u8>) -> Seq<u8> {
    s.subrange(0, pos) + bytes + s.subrange(pos + bytes.len(), s.len() as int)
}

/// The little-endian `u64` stored in `s` at `pos`.
pub open spec fn u64_at(s: Seq<u8>, pos: int) -> u64 {
    spec_u64_from_le_bytes(s.subrange(pos, pos + 8))
}

/// `s` with the little-endian encoding of `value` stored at `pos`.
pub open spec fn put_u64_at(s: Seq<u8>, pos: int, value: u64) -> Seq<u8> {
    write_bytes(s, pos, spec_u64_to_le_bytes(value))
}

/// Reading back a word that was just stored gives the stored value.
pub proof fn lemma_u64_at_put_same(s: Seq<u8>, pos: int, value: u64)
    requires
        0 <= pos,
        pos + 8 <= s.len(),
    ensures
        u64_at(put_u64_at(s, pos, value), pos) == value,
        put_u64_at(s, pos, value).len() == s.len(),
{
    vstd::bytes::lemma_auto_spec_u64_to_from_le_bytes();
    let t = put_u64_at(s, pos, value);
    assert(t.subrange(pos, pos + 8) =~= spec_u64_to_le_bytes(value));
}

/// Storing a word leaves the bytes outside it unchanged.
pub proof fn lemma_put_u64_at_frame(s: Seq<u8>, pos: int, value: u64, i: int)
    requires
        0 <= pos,
        pos + 8 <= s.len(),
        0 <= i < s.len(),
        !(pos <= i < pos + 8),
    ensures
        put_u64_at(s, pos, value)[i] == s[i],
{
    vstd::bytes::lemma_auto_spec_u64_to_from_le_bytes();
}

/// Storing a word leaves every word that does not overlap it unchanged.
pub proof fn lemma_u64_at_put_other(s: Seq<u8>, pos: int, value: u64, q: int)
    requires
        0 <= pos,
        pos + 8 <= s.len(),
        0 <= q,
        q + 8 <= s.len(),
        q + 8 <= pos || pos + 8 <= q,
    ensures
        u64_at(put_u64_at(s, pos, value), q) == u64_at(s, q),
{
    vstd::bytes::lemma_auto_spec_u64_to_from_le_bytes();
    let t = put_u64_at(s, pos, value);
    assert forall|i: int| q <= i < q + 8 implies t[i] == s[i] by {
        lemma_put_u64_at_frame(s, pos, value, i);
    }
    assert(t.subrange(q, q + 8) =~= s.subrange(q, q + 8));
}

/// A word read from a part of a byte sequence is the word at the matching
/// place of the whole.
pub proof fn lemma_u64_at_subrange(s: Seq<u8>, a: int, b: int, p: int)
    requires
        0 <= a <= b <= s.len(),
        0 <= p,
        p + 8 <= b - a,
    ensures
        u64_at(s.subrange(a, b), p) == u64_at(s, a + p),
{
    assert(s.subrange(a, b).subrange(p, p + 8) =~= s.subrange(a + p, a + p + 8));
}

/// Storing a word into a part of a byte sequence, and putting the part back
/// in its place, stores the word at the matching place of the whole.
pub proof fn lemma_put_u64_at_subrange(s: Seq<u8>, a: int, b: int, p: int, value: u64)
    requires
        0 <= a <= b <= s.len(),
        0 <= p,
        p + 8 <= b - a,
    ensures
        s.subrange(0, a) + put_u64_at(s.subrange(a, b), p, value) + s.subrange(b, s.len() as int)
            == put_u64_at(s, a + p, value),
{
    vstd::bytes::lemma_auto_spec_u64_to_from_le_bytes();
    assert(s.subrange(0, a) + put_u64_at(s.subrange(a, b), p, value) + s.subrange(b, s.len() as int)
        =~= put_u64_at(s, a + p, value));
}

/// A word made of zero bytes is zero.
pub proof fn lemma_u64_at_zeros(s: Seq<u8>, pos: int)
    requires
        0 <= pos,
        pos + 8 <= s.len(),
        forall|i: int| pos <= i < pos + 8 ==> s[i] == 0u8,
    ensures
        u64_at(s, pos) == 0,
{
    vstd::bytes::lemma_auto_spec_u64_to_from_le_bytes();
    let z = s.subrange(pos, pos + 8);
    assert(z =~= spec_u64_to_le_bytes(0u64)) by {
        vstd::bytes::spec_u64_to_le_bytes_to_open(0u64);
        assert(0u64 & 0xff == 0 && (0u64 >> 8) & 0xff == 0 && (0u64 >> 16) & 0xff == 0
            && (0u64 >> 24) & 0xff == 0 && (0u64 >> 32) & 0xff == 0 && (0u64 >> 40) & 0xff == 0
            && (0u64 >> 48) & 0xff == 0 && (0u64 >> 56) & 0xff == 0) by (bit_vector);
    }
}

/// A word made of `0xFF` bytes has all bits set.
pub proof fn lemma_u64_at_ones(s: Seq<u8>, pos: int)
    requires
        0 <= pos,
        pos + 8 <= s.len(),
        forall|i: int| pos <= i < pos + 8 ==> s[i] == 0xFFu8,
    ensures
        u64_at(s, pos) == u64::MAX,
{
    vstd::bytes::lemma_auto_spec_u64_to_from_le_bytes();
    let z = s.subrange(pos, pos + 8);
    let m: u64 = u64::MAX;
    assert(z =~= spec_u64_to_le_bytes(m)) by {
        vstd::bytes::spec_u64_to_le_bytes_to_open(m);
        assert(m & 0xff == 0xff && (m >> 8) & 0xff == 0xff && (m >> 16) & 0xff == 0xff
            && (m >> 24) & 0xff == 0xff && (m >> 32) & 0xff == 0xff && (m >> 40) & 0xff == 0xff
            && (m >> 48) & 0xff == 0xff && (m >> 56) & 0xff == 0xff) by (bit_vector)
            requires m == 0xffff_ffff_ffff_ffffu64;
    }
}

/// Byte-level access to a buffer.  Words are stored little-endian.
pub trait ByteOperat {
    /// The bytes the buffer holds.
    spec fn byte_view(&self) -> Seq<u8>;

    /// Whether the buffer accepts writes.
    spec fn is_writable(&self) -> bool;

    /// How many of the bytes can be reached one at a time by index; words
    /// reach all of `byte_view`.
    spec fn index_len(&self) -> nat;

    fn get_u64(&self, position: usize) -> (r: u64)
        requires
            position + 8 <= self.byte_view().len(),
        ensures
            r == u64_at(self.byte_view(), position as int),
    ;

    fn put_u64(&mut self, position: usize, value: u64)
        requires
            old(self).is_writable(),
            position + 8 <= old(self).byte_view().len(),
        ensures
            final(self).byte_view() == put_u64_at(old(self).byte_view(), position as int, value),
            final(self).is_writable(),
    ;

    fn get_byte(&self, position: usize) -> (r: u8)
        requires
            position < self.index_len(),
            self.index_len() <= self.byte_view().len(),
        ensures
            r == self.byte_view()[position as int],
    ;

    fn put_byte(&mut self, position: usize, value: u8)
        requires
            old(self).is_writable(),
            position < old(self).index_len(),
            old(self).index_len() <= old(self).byte_view().len(),
        ensures
            final(self).byte_view() == old(self).byte_view().update(position as int, value),
            final(self).is_writable(),
    ;
}

/// Something that can map a region of itself into a buffer.
pub trait MappedResource {
    type BufferType;

    fn map(&self, position: u64, size: usize, is_readonly: bool) -> Result<Self::BufferType, ()>;
}

/// The list of file head fields, usually stored in a control file.
pub enum HeadFields {
    CommonFields(),
}

/// A resource whose content is held in a buffer that can grow.
pub trait BaseResource {
    type BufferType;

    fn map_content(&mut self);

    fn resize(&mut self, size: usize);

    fn force(&self);
}

pub trait ByteBufferResource1: BaseResource {
    type HeadMeta;

    fn get_headmeta(head: HeadFields) -> Self::HeadMeta;
}

} // verus!
