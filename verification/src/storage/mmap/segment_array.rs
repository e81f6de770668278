use vstd::prelude::*;

verus! {

use crate::storage::{BaseResource, ByteOperat, u64_at, put_u64_at};
use crate::storage::{lemma_u64_at_put_same, lemma_u64_at_put_other, lemma_u64_at_ones};
use super::bytebuffer_resource::{ByteBufferResource, file_byte, file_after_map};

/// The offset that marks a segment without a page.
pub const ABSENT_OFFSET: u64 = 0xFFFF_FFFF_FFFF;

/// Below this many bytes the index grows to exactly what is needed; from
/// there on it grows by this many bytes more.
pub const CAPACITY_STEP: usize = 1024 * 16;

/// Where a segment's page lives, and how many of its words hold the default
/// (zero) value.
#[derive(Clone, Copy, Debug)]
pub struct SegmentEntry {
    pub offset: u64,
    pub default_value_count: usize,
}

/// The entry of a segment that has never been stored.
pub open spec fn default_entry() -> SegmentEntry {
    SegmentEntry { offset: ABSENT_OFFSET, default_value_count: 0x100 }
}

/// An entry is stored as one word: the offset in the low 48 bits, the
/// count in the 8 bits above them.
pub open spec fn encode_entry(e: SegmentEntry) -> u64 {
    e.offset | ((e.default_value_count as u64) << 48u64)
}

pub open spec fn decode_entry(w: u64) -> SegmentEntry {
    SegmentEntry { offset: w & 0xFFFF_FFFF_FFFFu64, default_value_count: ((w >> 48u64) & 0xFFu64) as usize }
}

/// The entry of segment `idx` in the index bytes `bytes`: the stored word
/// where the index holds all 8 of its bytes, the default entry otherwise.
pub open spec fn entry_at(bytes: Seq<u8>, idx: int) -> SegmentEntry {
    if idx * 8 + 8 > bytes.len() {
        default_entry()
    } else {
        decode_entry(u64_at(bytes, idx * 8))
    }
}

/// The capacity the index grows to when it must hold `min_capacity` bytes.
pub open spec fn next_capacity(min_capacity: int) -> int {
    if min_capacity < CAPACITY_STEP {
        min_capacity
    } else {
        min_capacity + CAPACITY_STEP
    }
}

/// The index bytes grown so that segment `idx` fits: the bytes up to the
/// segment's end that are new read `0xFF` (absent entries); those beyond it,
/// up to the new capacity, are the bytes the file holds there.
pub open spec fn index_grown(bytes: Seq<u8>, file: Seq<u8>, idx: int) -> Seq<u8> {
    let min_capacity = (idx + 1) * 8;
    if bytes.len() < min_capacity {
        Seq::new(
            next_capacity(min_capacity) as nat,
            |i: int|
                if i < bytes.len() {
                    bytes[i]
                } else if i < min_capacity {
                    0xFFu8
                } else {
                    file_byte(file, i)
                },
        )
    } else {
        bytes
    }
}

/// The index bytes after storing `e` as the entry of segment `idx`.
pub open spec fn index_after_set(bytes: Seq<u8>, file: Seq<u8>, idx: int, e: SegmentEntry) -> Seq<u8> {
    put_u64_at(index_grown(bytes, file, idx), idx * 8, encode_entry(e))
}

/// The file behind the index after storing the entry of segment `idx`: a
/// growth maps the index writable to its new capacity, cutting the file
/// there.
pub open spec fn index_file_after_set(bytes: Seq<u8>, file: Seq<u8>, idx: int) -> Seq<u8> {
    if bytes.len() < (idx + 1) * 8 {
        file_after_map(file, next_capacity((idx + 1) * 8) as nat, false)
    } else {
        file
    }
}

/// The entry that the file behind the index holds for segment `t`, zero
/// bytes past the file's end.
pub open spec fn file_entry(file: Seq<u8>, t: int) -> SegmentEntry {
    decode_entry(u64_at(Seq::new((t * 8 + 8) as nat, |i: int| file_byte(file, i)), t * 8))
}

/// An entry that its stored word represents exactly.
pub open spec fn storable(e: SegmentEntry) -> bool {
    e.offset <= 0xFFFF_FFFF_FFFFu64 && e.default_value_count < 0x100
}

/// A storable entry comes back unchanged from its stored word.
pub proof fn lemma_entry_roundtrip(e: SegmentEntry)
    requires
        storable(e),
    ensures
        decode_entry(encode_entry(e)) == e,
{
    let o = e.offset;
    let c = e.default_value_count as u64;
    assert((o | (c << 48u64)) & 0xFFFF_FFFF_FFFFu64 == o && ((o | (c << 48u64)) >> 48u64) & 0xFFu64 == c)
        by (bit_vector)
        requires
            o <= 0xFFFF_FFFF_FFFFu64,
            c < 0x100u64,
    ;
}

/// A decoded entry is storable.
pub proof fn lemma_decode_storable(w: u64)
    ensures
        storable(decode_entry(w)),
{
    assert(w & 0xFFFF_FFFF_FFFFu64 <= 0xFFFF_FFFF_FFFFu64 && (w >> 48u64) & 0xFFu64 < 0x100u64) by (bit_vector);
}

/// The word of an absent entry grown into the index, and the word of a
/// zero-filled one.
pub proof fn lemma_decode_fill_words()
    ensures
        decode_entry(u64::MAX) == (SegmentEntry { offset: ABSENT_OFFSET, default_value_count: 255 }),
        decode_entry(0) == (SegmentEntry { offset: 0, default_value_count: 0 }),
{
    let m: u64 = u64::MAX;
    assert(m & 0xFFFF_FFFF_FFFFu64 == 0xFFFF_FFFF_FFFFu64 && (m >> 48u64) & 0xFFu64 == 0xFFu64)
        by (bit_vector)
        requires
            m == 0xffff_ffff_ffff_ffffu64,
    ;
    let z: u64 = 0;
    assert(z & 0xFFFF_FFFF_FFFFu64 == 0 && (z >> 48u64) & 0xFFu64 == 0) by (bit_vector)
        requires
            z == 0u64,
    ;
}

/// The entries after storing `e` for segment `idx`: segment `idx` holds
/// the stored word; every other segment keeps its entry where the index
/// held it; segments that the index grew to hold before `idx` are absent,
/// and those it grew to hold after `idx` are the file's entries.
pub proof fn lemma_entry_after_set(bytes: Seq<u8>, file: Seq<u8>, idx: int, e: SegmentEntry, t: int)
    requires
        bytes.len() % 8 == 0,
        0 <= idx,
        0 <= t,
    ensures
        index_after_set(bytes, file, idx, e).len() % 8 == 0,
        index_after_set(bytes, file, idx, e).len() >= bytes.len(),
        index_after_set(bytes, file, idx, e).len() >= (idx + 1) * 8,
        t == idx ==> entry_at(index_after_set(bytes, file, idx, e), t) == decode_entry(encode_entry(e)),
        t != idx ==> entry_at(index_after_set(bytes, file, idx, e), t) == if t * 8 + 8 <= bytes.len() {
            entry_at(bytes, t)
        } else if t < idx {
            SegmentEntry { offset: ABSENT_OFFSET, default_value_count: 255 }
        } else if t * 8 + 8 <= index_grown(bytes, file, idx).len() {
            file_entry(file, t)
        } else {
            default_entry()
        },
{
    let g = index_grown(bytes, file, idx);
    let a = index_after_set(bytes, file, idx, e);
    lemma_u64_at_put_same(g, idx * 8, encode_entry(e));
    lemma_decode_fill_words();
    if t != idx && t * 8 + 8 <= g.len() {
        assert(t * 8 + 8 <= idx * 8 || idx * 8 + 8 <= t * 8) by (nonlinear_arith)
            requires
                t != idx,
        ;
        lemma_u64_at_put_other(g, idx * 8, encode_entry(e), t * 8);
        if t * 8 + 8 <= bytes.len() {
            assert(g.subrange(t * 8, t * 8 + 8) =~= bytes.subrange(t * 8, t * 8 + 8));
        } else if t < idx {
            assert(t * 8 >= bytes.len()) by (nonlinear_arith)
                requires
                    t * 8 + 8 > bytes.len(),
                    bytes.len() % 8 == 0,
            ;
            assert(t * 8 + 8 <= (idx + 1) * 8) by (nonlinear_arith)
                requires
                    t < idx,
            ;
            lemma_u64_at_ones(g, t * 8);
        } else {
            assert(t * 8 >= (idx + 1) * 8) by (nonlinear_arith)
                requires
                    t > idx,
            ;
            assert(t * 8 >= bytes.len()) by (nonlinear_arith)
                requires
                    t * 8 + 8 > bytes.len(),
                    bytes.len() % 8 == 0,
            ;
            let padded = Seq::new((t * 8 + 8) as nat, |i: int| file_byte(file, i));
            assert(g.subrange(t * 8, t * 8 + 8) =~= padded.subrange(t * 8, t * 8 + 8));
        }
    }
}

/// Reading a segment's entry right after storing a storable entry for it
/// gives that entry back.
pub proof fn law_entry_read_back(bytes: Seq<u8>, file: Seq<u8>, idx: int, e: SegmentEntry)
    requires
        0 <= idx,
        storable(e),
    ensures
        entry_at(index_after_set(bytes, file, idx, e), idx) == e,
{
    let g = index_grown(bytes, file, idx);
    assert(g.len() >= (idx + 1) * 8);
    lemma_u64_at_put_same(g, idx * 8, encode_entry(e));
    lemma_entry_roundtrip(e);
}

impl Default for SegmentEntry {
    fn default() -> (r: Self)
        ensures
            r == default_entry(),
    {
        Self { offset: 0xFFFF_FFFF_FFFF, default_value_count: 0x100 }
    }
}

/// The capacity the index grows to when it must hold `min_capacity` bytes.
pub fn get_next_capacity(min_capacity: usize) -> (r: usize)
    requires
        next_capacity(min_capacity as int) <= usize::MAX,
    ensures
        r == next_capacity(min_capacity as int),
{
    if min_capacity < 1024 * 16 {
        min_capacity
    } else {
        min_capacity + (1024 * 16)
    }
}

/// An array of segment entries, one 8-byte word each, kept in a resource.
pub struct SegmentArray {
    buffer: ByteBufferResource,
}

impl View for SegmentArray {
    type V = Seq<u8>;

    closed spec fn view(&self) -> Seq<u8> {
        self.buffer@
    }
}

impl SegmentArray {
    pub closed spec fn wf(&self) -> bool {
        self.buffer.wf()
    }

    /// The bytes of the file behind the index that a new mapping shows.
    pub closed spec fn file(&self) -> Seq<u8> {
        self.buffer.file()
    }

    /// How many bytes from the start of the index can be read without a
    /// fault.
    pub closed spec fn readable(&self) -> nat {
        self.buffer.readable()
    }

    /// Whether the index resource is read-only.
    pub closed spec fn readonly(&self) -> bool {
        self.buffer.readonly()
    }

    pub fn new(buffer: ByteBufferResource) -> (r: Self)
        requires
            buffer.wf(),
        ensures
            r.wf(),
            r@ == buffer@,
            r.readonly() == buffer.readonly(),
            r.file() == buffer.file(),
    {
        return Self { buffer };
    }

    /// The resource that holds the index, taking the array apart.
    pub fn into_buffer(self) -> (r: ByteBufferResource)
        requires
            self.wf(),
        ensures
            r.wf(),
            r@ == self@,
            r.readonly() == self.readonly(),
            r.file() == self.file(),
    {
        self.buffer
    }

    /// The entry of segment `idx`; a segment past the end of the index has
    /// the default entry.  In a read-only index the entry must lie in a page
    /// that can be read.
    pub fn get(&mut self, idx: usize) -> (r: SegmentEntry)
        requires
            old(self).wf(),
            idx * 8 <= usize::MAX,
            old(self).readonly() && (idx + 1) * 8 <= old(self)@.len() ==> (idx + 1) * 8
                <= old(self).readable(),
        ensures
            r == entry_at(old(self)@, idx as int),
            final(self)@ == old(self)@,
            final(self).wf(),
            final(self).readonly() == old(self).readonly(),
            final(self).file() == old(self).file(),
            final(self).readable() == old(self).readable(),
    {
        proof {
            self.buffer.lemma_wf();
        }
        let pos: usize = idx * 8;
        let len = self.buffer.len();
        if pos > len || len - pos < 8 {
            return SegmentEntry::default();
        }
        self.buffer.map_content();
        let bf = self.buffer.content();
        let seg = bf.get_u64(pos);
        assert((seg >> 48u64) & 0xFFu64 <= 0xFFu64) by (bit_vector);
        return SegmentEntry { offset: seg & 0xFFFF_FFFF_FFFF, default_value_count: ((seg >> 48) & 0xFF) as usize };
    }

    /// Stores `value` as the entry of segment `idx`, growing the index first
    /// when it is too short.
    pub fn set(&mut self, idx: usize, value: SegmentEntry)
        requires
            old(self).wf(),
            !old(self).readonly(),
            (idx + 1) * 8 <= usize::MAX,
            next_capacity((idx + 1) * 8) <= usize::MAX,
        ensures
            final(self)@ == index_after_set(old(self)@, old(self).file(), idx as int, value),
            final(self).file() == index_file_after_set(old(self)@, old(self).file(), idx as int),
            final(self).wf(),
            final(self).readonly() == old(self).readonly(),
    {
        proof {
            self.buffer.lemma_wf();
        }
        let min_capacity = (idx + 1) * 8;
        if self.buffer.len() < min_capacity {
            let old_capacity = self.buffer.len();
            let ghost before = self.buffer@;
            let ghost file = self.buffer.file();
            self.buffer.resize(get_next_capacity(min_capacity));
            self.buffer.fill(old_capacity, min_capacity - old_capacity, u8::MAX);
            assert(self.buffer@ =~= index_grown(before, file, idx as int));
        }
        proof {
            self.buffer.lemma_wf();
        }
        let pos = idx * 8;
        let seg = value.offset | (value.default_value_count as u64) << 48;
        self.buffer.map_content();
        proof {
            lemma_u64_at_put_same(self.buffer@, pos as int, seg);
        }
        self.buffer.content_mut().put_u64(pos, seg);
    }
}

} // verus!
