use vstd::prelude::*;

verus! {

use crate::storage::{ByteOperat, u64_at, put_u64_at};
use crate::storage::{lemma_u64_at_subrange, lemma_put_u64_at_subrange, lemma_u64_at_put_same};
use crate::storage::mmap::segment_array::{
    SegmentArray, SegmentEntry, ABSENT_OFFSET, default_entry, entry_at, index_after_set,
    index_file_after_set, file_entry, next_capacity,
    storable, lemma_entry_after_set, lemma_entry_roundtrip,
    lemma_decode_storable,
};
use crate::storage::mmap::segment_container::SegmentContainer;
use crate::storage::mmap::bytebuffer_resource::file_after_map;
use super::BatchBitmapI;

/// `s` made `size` bytes long, with zero bytes past its end; where a page is
/// added, the fill that follows decides every new byte.
pub open spec fn grown(s: Seq<u8>, size: nat) -> Seq<u8> {
    Seq::new(size, |i: int| if i < s.len() { s[i] } else { 0u8 })
}

/// The file behind the data after the data went from `old_len` to `new_len`
/// bytes: adding a page maps the data writable to its new length, cutting
/// the file there.
pub open spec fn data_file_after(old_len: nat, new_len: nat, file: Seq<u8>) -> Seq<u8> {
    if new_len > old_len {
        file_after_map(file, new_len, false)
    } else {
        file
    }
}

/// `s` with the `size` bytes from `pos` on set to `b`.
pub open spec fn filled(s: Seq<u8>, pos: int, size: int, b: u8) -> Seq<u8> {
    Seq::new(s.len(), |i: int| if pos <= i < pos + size { b } else { s[i] })
}

/// The entry of a segment whose page was just allocated at `offset`: one
/// word of it is about to be set, the other 255 hold the default value.
pub open spec fn fresh_entry(offset: int) -> SegmentEntry {
    SegmentEntry { offset: offset as u64, default_value_count: 255 }
}

/// The entry stored for a segment whose words have all returned to zero.
pub open spec fn released_entry() -> SegmentEntry {
    SegmentEntry { offset: ABSENT_OFFSET, default_value_count: 255 }
}

/// What a `BatchBitmap` holds: the index bytes, the bytes of the file behind
/// the index that a growth of the index shows, the page bytes, the page size,
/// the default fill flag, and the one segment it remembers.
#[verifier::ext_equal]
pub struct BatchBitmapView {
    pub index: Seq<u8>,
    pub index_file: Seq<u8>,
    pub data: Seq<u8>,
    pub page_size: nat,
    pub default: bool,
    pub cached_index: usize,
    pub cached: SegmentEntry,
}

impl BatchBitmapView {
    /// The entry the index holds for segment `s`, with every absent entry
    /// made the default one.
    pub open spec fn stored(self, s: int) -> SegmentEntry {
        let e = entry_at(self.index, s);
        if e.offset == ABSENT_OFFSET {
            default_entry()
        } else {
            e
        }
    }

    /// The entry used for segment `s`: the remembered one when `s` is the
    /// remembered segment, the stored one otherwise.
    pub open spec fn segment(self, s: int) -> SegmentEntry {
        if self.cached_index == s {
            self.cached
        } else {
            self.stored(s)
        }
    }

    /// Word `i` of the page of `e`.
    pub open spec fn word(self, e: SegmentEntry, i: int) -> u64 {
        u64_at(self.data, e.offset + i * 8)
    }

    /// The word at `idx`: zero in a segment without a page.
    pub open spec fn value_at(self, idx: int) -> u64 {
        let e = self.segment(idx / 256);
        if e.offset == ABSENT_OFFSET {
            0
        } else {
            self.word(e, idx % 256)
        }
    }

    /// `e` has no page, or its page lies within the data.
    pub open spec fn page_in_bounds(self, e: SegmentEntry) -> bool {
        e.offset == ABSENT_OFFSET || e.offset + self.page_size <= self.data.len()
    }

    /// An entry the index file holds names no page past the data's end.
    pub open spec fn file_entry_in_bounds(self, e: SegmentEntry) -> bool {
        e.offset == ABSENT_OFFSET || e.offset <= self.data.len()
    }

    /// The entries that a growth of the index for segment `s` takes from
    /// the index's file (those past `s`, up to the new capacity) name pages
    /// that lie within the data once a page is added.
    pub open spec fn growth_in_bounds(self, s: int) -> bool {
        self.index.len() < (s + 1) * 8 ==> forall|t: int|
            s < t && t * 8 + 8 <= next_capacity((s + 1) * 8) ==> #[trigger] self.file_entry_in_bounds(
                file_entry(self.index_file, t),
            )
    }

    /// Every page that an entry names lies within the data, a page holds
    /// 256 words, and offsets fit the 48 bits of a stored entry.  The index
    /// has whole entries (it starts empty and every growth ends on an entry's
    /// end; a growth of a partial entry would join its bytes with absent-entry
    /// bytes into an entry naming an arbitrary page) and holds the remembered
    /// segment.
    pub open spec fn wf(self) -> bool {
        &&& self.page_size >= 2048
        &&& self.data.len() <= ABSENT_OFFSET
        &&& self.index.len() % 8 == 0
        &&& !self.default
        &&& forall|s: int| 0 <= s ==> #[trigger] self.page_in_bounds(entry_at(self.index, s))
        &&& self.page_in_bounds(self.cached)
        &&& self.cached.offset != ABSENT_OFFSET ==> self.cached.default_value_count <= 255
        &&& self.cached_index <= usize::MAX / 256 ==> (self.cached_index + 1) * 8 <= self.index.len()
    }

    /// `set(idx, value)` runs without failing: a page can still be
    /// allocated within 48-bit offsets when one is needed, the entries a
    /// growth of the index then takes from its file name pages within the
    /// data, and the count of default words is not already zero when a
    /// default word is overwritten.
    pub open spec fn set_allowed(self, idx: int, value: u64) -> bool {
        let e = self.segment(idx / 256);
        if e.offset == ABSENT_OFFSET {
            value != 0 ==> {
                &&& self.data.len() + self.page_size <= ABSENT_OFFSET
                &&& self.data.len() + self.page_size <= usize::MAX
                &&& self.growth_in_bounds(idx / 256)
            }
        } else {
            let cur = self.word(e, idx % 256);
            value != cur && cur == 0 ==> e.default_value_count > 0
        }
    }

    /// The state after `set(idx, value)`.
    pub open spec fn after_set(self, idx: int, value: u64) -> BatchBitmapView {
        let s = idx / 256;
        let i = idx % 256;
        let e = self.segment(s);
        if e.offset == ABSENT_OFFSET {
            if value == 0 {
                self
            } else {
                let offset = self.data.len() as int;
                let fill_byte: u8 = if self.default { 0xFF } else { 0 };
                let page = filled(grown(self.data, (offset + self.page_size) as nat), offset, self.page_size as int, fill_byte);
                BatchBitmapView {
                    index: index_after_set(self.index, self.index_file, s, fresh_entry(offset)),
                    index_file: index_file_after_set(self.index, self.index_file, s),
                    data: put_u64_at(page, offset + i * 8, value),
                    cached_index: s as usize,
                    cached: fresh_entry(offset),
                    ..self
                }
            }
        } else {
            let cur = self.word(e, i);
            if value == cur {
                self
            } else {
                let data = put_u64_at(self.data, e.offset + i * 8, value);
                let c = e.default_value_count as int;
                let n = if cur == 0 {
                    c - 1
                } else if value == 0 {
                    c + 1
                } else {
                    c
                };
                if n == c {
                    BatchBitmapView { data, ..self }
                } else if n == 256 {
                    BatchBitmapView {
                        data,
                        index: index_after_set(self.index, self.index_file, s, released_entry()),
                        index_file: index_file_after_set(self.index, self.index_file, s),
                        cached: default_entry(),
                        ..self
                    }
                } else {
                    let t = SegmentEntry { offset: e.offset, default_value_count: n as usize };
                    BatchBitmapView {
                        data,
                        index: index_after_set(self.index, self.index_file, s, t),
                        index_file: index_file_after_set(self.index, self.index_file, s),
                        cached: t,
                        ..self
                    }
                }
            }
        }
    }
}

/// Every entry the index holds after `index_after_set` names a page within
/// `data_len` bytes, when the entry stored does and the old ones did, and
/// pages fit in the data.
proof fn lemma_index_after_set_in_bounds(
    v: BatchBitmapView,
    s: int,
    e: SegmentEntry,
    data_len: nat,
)
    requires
        v.wf(),
        0 <= s,
        storable(e),
        e.offset == ABSENT_OFFSET || e.offset + v.page_size <= data_len,
        v.data.len() <= data_len,
        v.page_size <= data_len,
        v.index.len() >= (s + 1) * 8 || v.data.len() + v.page_size <= data_len,
        v.growth_in_bounds(s),
    ensures
        forall|t: int|
            0 <= t ==> #[trigger] entry_at(index_after_set(v.index, v.index_file, s, e), t).offset == ABSENT_OFFSET
                || entry_at(index_after_set(v.index, v.index_file, s, e), t).offset + v.page_size <= data_len,
        index_after_set(v.index, v.index_file, s, e).len() % 8 == 0,
        index_after_set(v.index, v.index_file, s, e).len() >= v.index.len(),
        index_after_set(v.index, v.index_file, s, e).len() >= (s + 1) * 8,
{
    assert forall|t: int|
        0 <= t implies #[trigger] entry_at(index_after_set(v.index, v.index_file, s, e), t).offset == ABSENT_OFFSET
            || entry_at(index_after_set(v.index, v.index_file, s, e), t).offset + v.page_size <= data_len by {
        lemma_entry_after_set(v.index, v.index_file, s, e, t);
        lemma_entry_roundtrip(e);
        assert(v.page_in_bounds(entry_at(v.index, t)));
        if v.index.len() < (s + 1) * 8 && s < t && t * 8 + 8 <= next_capacity((s + 1) * 8) {
            assert(v.file_entry_in_bounds(file_entry(v.index_file, t)));
        }
    }
    lemma_entry_after_set(v.index, v.index_file, s, e, 0);
}

/// `set` keeps the state well-formed.
pub proof fn lemma_after_set_wf(v: BatchBitmapView, idx: usize, value: u64)
    requires
        v.wf(),
        v.set_allowed(idx as int, value),
    ensures
        v.after_set(idx as int, value).wf(),
{
    let s = idx / 256;
    let i = idx % 256;
    let e = v.segment(s as int);
    let w = v.after_set(idx as int, value);
    if v.cached_index != s {
        if entry_at(v.index, s as int).offset != ABSENT_OFFSET {
            lemma_decode_storable(crate::storage::u64_at(v.index, s * 8));
        }
        assert(v.page_in_bounds(entry_at(v.index, s as int)));
    }
    if e.offset != ABSENT_OFFSET {
        assert(v.index.len() >= (s + 1) * 8);
        assert(index_file_after_set(v.index, v.index_file, s as int) == v.index_file);
    }
    if e.offset == ABSENT_OFFSET {
        if value != 0 {
            lemma_entry_after_set(v.index, v.index_file, s as int, fresh_entry(v.data.len() as int), 0);
            assert(next_capacity((s + 1) * 8) % 8 == 0);
            let offset = v.data.len() as int;
            let f = fresh_entry(offset);
            let page = filled(grown(v.data, (offset + v.page_size) as nat), offset, v.page_size as int, 0);
            lemma_u64_at_put_same(page, offset + i * 8, value);
            lemma_index_after_set_in_bounds(v, s as int, f, (offset + v.page_size) as nat);
            assert forall|t: int| 0 <= t implies #[trigger] w.page_in_bounds(entry_at(w.index, t)) by {
                assert(entry_at(index_after_set(v.index, v.index_file, s as int, f), t).offset == ABSENT_OFFSET
                    || entry_at(index_after_set(v.index, v.index_file, s as int, f), t).offset + v.page_size <= offset + v.page_size);
            }
            assert(w.data.len() == offset + v.page_size);
            assert(w.page_in_bounds(w.cached));
            assert(w.index.len() % 8 == 0);
            assert(w.data.len() <= ABSENT_OFFSET);
            assert(w.cached_index <= usize::MAX / 256 ==> (w.cached_index + 1) * 8 <= w.index.len());
            assert(w.cached.offset != ABSENT_OFFSET ==> w.cached.default_value_count <= 255);
        }
    } else {
        let cur = v.word(e, i as int);
        if value != cur {
            lemma_u64_at_put_same(v.data, e.offset + i * 8, value);
            let c = e.default_value_count as int;
            let n = if cur == 0 {
                c - 1
            } else if value == 0 {
                c + 1
            } else {
                c
            };
            if n != c {
                let t_entry = if n == 256 {
                    released_entry()
                } else {
                    SegmentEntry { offset: e.offset, default_value_count: n as usize }
                };
                lemma_index_after_set_in_bounds(v, s as int, t_entry, v.data.len());
                assert forall|t: int| 0 <= t implies #[trigger] w.page_in_bounds(entry_at(w.index, t)) by {
                    assert(entry_at(index_after_set(v.index, v.index_file, s as int, t_entry), t).offset == ABSENT_OFFSET
                        || entry_at(index_after_set(v.index, v.index_file, s as int, t_entry), t).offset + v.page_size
                        <= v.data.len());
                }
                assert(w.data.len() == v.data.len());
                assert(w.page_in_bounds(w.cached));
                assert(w.index.len() % 8 == 0);
            } else {
                assert forall|t: int| 0 <= t implies #[trigger] w.page_in_bounds(entry_at(w.index, t)) by {
                    assert(v.page_in_bounds(entry_at(v.index, t)));
                }
            }
        }
    }
}

/// Reading a word right after setting it gives the value set.
pub proof fn law_set_reads_back(v: BatchBitmapView, idx: usize, value: u64)
    requires
        v.wf(),
        v.set_allowed(idx as int, value),
    ensures
        v.after_set(idx as int, value).value_at(idx as int) == value,
{
    let s = idx / 256;
    let i = idx % 256;
    let e = v.segment(s as int);
    if v.cached_index != s {
        if entry_at(v.index, s as int).offset != ABSENT_OFFSET {
            lemma_decode_storable(crate::storage::u64_at(v.index, s * 8));
        }
        assert(v.page_in_bounds(entry_at(v.index, s as int)));
    }
    if e.offset == ABSENT_OFFSET {
        if value != 0 {
            let offset = v.data.len() as int;
            let page = filled(grown(v.data, (offset + v.page_size) as nat), offset, v.page_size as int, 0);
            lemma_u64_at_put_same(page, offset + i * 8, value);
        }
    } else {
        let cur = v.word(e, i as int);
        if value != cur {
            lemma_u64_at_put_same(v.data, e.offset + i * 8, value);
            let c = e.default_value_count as int;
            let n = if cur == 0 {
                c - 1
            } else if value == 0 {
                c + 1
            } else {
                c
            };
            if n != c {
                let t_entry = if n == 256 {
                    released_entry()
                } else {
                    SegmentEntry { offset: e.offset, default_value_count: n as usize }
                };
                lemma_entry_after_set(v.index, v.index_file, s as int, t_entry, s as int);
                lemma_entry_roundtrip(t_entry);
            }
        }
    }
}

#[derive(Clone, Copy)]
struct BitmapSegment {
    segment_entry: SegmentEntry,
}

impl BitmapSegment {
    pub closed spec fn entry(self) -> SegmentEntry {
        self.segment_entry
    }
}

impl Default for BitmapSegment {
    fn default() -> (r: Self)
        ensures
            r.entry() == default_entry(),
    {
        Self { segment_entry: Default::default() }
    }
}

/// A map from word indexes to `u64` words kept in segments of 256 words.
/// A segment that holds only zero words has no page.  The bitmap remembers
/// one segment entry so that it need not read it from the index again.
pub struct BatchBitmap {
    segment_array: SegmentArray,
    data_container: SegmentContainer,
    default: bool,
    last_get_segment_entry_index: usize,
    last_get_segment: BitmapSegment,
}

impl View for BatchBitmap {
    type V = BatchBitmapView;

    closed spec fn view(&self) -> BatchBitmapView {
        BatchBitmapView {
            index: self.segment_array@,
            index_file: self.segment_array.file(),
            data: self.data_container@,
            page_size: self.data_container.page_size() as nat,
            default: self.default,
            cached_index: self.last_get_segment_entry_index,
            cached: self.last_get_segment.segment_entry,
        }
    }
}

impl BatchBitmap {
    pub closed spec fn wf(&self) -> bool {
        &&& self.segment_array.wf()
        &&& !self.segment_array.readonly()
        &&& self.data_container.wf()
        &&& !self.data_container.readonly()
        &&& self@.wf()
    }

    /// The bytes of the file behind the data that a new mapping shows.
    pub closed spec fn data_file(&self) -> Seq<u8> {
        self.data_container.file()
    }

    /// A well-formed bitmap has a well-formed view.
    pub proof fn lemma_view_wf(&self)
        requires
            self.wf(),
        ensures
            self@.wf(),
    {
    }

    pub fn new(segment_array: SegmentArray, data_container: SegmentContainer) -> (r: Self)
        requires
            segment_array.wf(),
            !segment_array.readonly(),
            data_container.wf(),
            !data_container.readonly(),
            (BatchBitmapView {
                index: segment_array@,
                index_file: segment_array.file(),
                data: data_container@,
                page_size: data_container.page_size() as nat,
                default: false,
                cached_index: usize::MAX,
                cached: default_entry(),
            }).wf(),
        ensures
            r.wf(),
            r@ == (BatchBitmapView {
                index: segment_array@,
                index_file: segment_array.file(),
                data: data_container@,
                page_size: data_container.page_size() as nat,
                default: false,
                cached_index: usize::MAX,
                cached: default_entry(),
            }),
            r.data_file() == data_container.file(),
    {
        Self {
            segment_array: segment_array,
            data_container: data_container,
            default: false,
            last_get_segment_entry_index: usize::MAX,
            last_get_segment: BitmapSegment::default(),
        }
    }

    /// The index and the data container, taking the bitmap apart.
    pub fn into_parts(self) -> (r: (SegmentArray, SegmentContainer))
        requires
            self.wf(),
        ensures
            r.0.wf(),
            r.1.wf(),
            r.0@ == self@.index,
            r.0.file() == self@.index_file,
            r.1@ == self@.data,
            r.1.page_size() == self@.page_size,
            !r.0.readonly(),
            !r.1.readonly(),
            r.1.file() == self.data_file(),
    {
        (self.segment_array, self.data_container)
    }

    fn create_and_fill_segment(&mut self, seg_idx: usize) -> (r: BitmapSegment)
        requires
            old(self).wf(),
            seg_idx <= usize::MAX / 256,
            old(self)@.data.len() + old(self)@.page_size <= ABSENT_OFFSET,
            old(self)@.data.len() + old(self)@.page_size <= usize::MAX,
        ensures
            r.entry() == fresh_entry(old(self)@.data.len() as int),
            final(self)@ == (BatchBitmapView {
                index: index_after_set(old(self)@.index, old(self)@.index_file, seg_idx as int, r.entry()),
                index_file: index_file_after_set(old(self)@.index, old(self)@.index_file, seg_idx as int),
                data: filled(
                    grown(old(self)@.data, (old(self)@.data.len() + old(self)@.page_size) as nat),
                    old(self)@.data.len() as int,
                    old(self)@.page_size as int,
                    0,
                ),
                cached_index: seg_idx,
                cached: r.entry(),
                ..old(self)@
            }),
            final(self).segment_array.wf(),
            !final(self).segment_array.readonly(),
            final(self).data_container.wf(),
            !final(self).data_container.readonly(),
            final(self).data_container.is_mapped(),
            final(self).data_file() == file_after_map(
                old(self).data_file(),
                (old(self)@.data.len() + old(self)@.page_size) as nat,
                false,
            ),
    {
        proof {
            self.data_container.lemma_wf();
        }
        let offset = self.data_container.allocate();
        let ghost data = self@.data;
        let ghost page = self@.page_size;
        let mut binding = self.data_container.get_segment();
        let buffer = binding.get_slice(offset);
        let seg_entry = SegmentEntry { offset: offset as u64, default_value_count: 0x100 - 1 };
        self.segment_array.set(seg_idx, seg_entry.clone());
        let seg = BitmapSegment { segment_entry: seg_entry };
        if !self.default {
            fill_slice(buffer, 0);
        } else {
            fill_slice(buffer, 0xFF);
        }
        proof {
            assert(self@.data =~= filled(data, offset as int, page as int, 0));
        }
        self.last_get_segment_entry_index = seg_idx;
        self.last_get_segment = seg.clone();
        return seg;
    }

    fn get_segment(&mut self, segment_idx: usize) -> (r: BitmapSegment)
        requires
            old(self).wf(),
            segment_idx <= usize::MAX / 256,
        ensures
            r.segment_entry == old(self)@.segment(segment_idx as int),
            final(self)@ == old(self)@,
            final(self).wf(),
            final(self).data_file() == old(self).data_file(),
    {
        if self.last_get_segment_entry_index != segment_idx {
            let seg_entry = self.segment_array.get(segment_idx);
            if seg_entry.offset == 0xFFFF_FFFF_FFFF {
                BitmapSegment::default()
            } else {
                BitmapSegment { segment_entry: seg_entry }
            }
        } else {
            self.last_get_segment.clone()
        }
    }
}

/// Sets every byte of `buffer` to `value`.
fn fill_slice(buffer: &mut [u8], value: u8)
    ensures
        final(buffer)@ == Seq::new(old(buffer)@.len(), |i: int| value),
{
    let n = buffer.len();
    let mut k: usize = 0;
    while k < n
        invariant
            k <= n,
            n == old(buffer)@.len(),
            buffer@.len() == n,
            forall|i: int| 0 <= i < k ==> #[trigger] buffer@[i] == value,
        decreases n - k,
    {
        buffer[k] = value;
        k = k + 1;
    }
    assert(buffer@ =~= Seq::new(old(buffer)@.len(), |i: int| value));
}

/// The place of word `idx` within its segment and page.
proof fn lemma_word_place(idx: usize)
    ensures
        idx >> 8 == idx / 256,
        idx & 0xFF == idx % 256,
        (idx & 0xFF) << 3 == (idx % 256) * 8,
        idx / 256 <= usize::MAX / 256,
{
    assert(idx >> 8 == idx / 256) by (bit_vector);
    assert(idx & 0xFF == idx % 256) by (bit_vector);
    assert((idx & 0xFF) << 3 == (idx & 0xFF) * 8) by (bit_vector);
}

impl BatchBitmapI for BatchBitmap {
    open spec fn batch_inv(&self) -> bool {
        self.wf()
    }

    open spec fn set_allowed(&self, idx: usize, value: u64) -> bool {
        self@.set_allowed(idx as int, value)
    }

    open spec fn word_at(&self, idx: usize) -> u64 {
        self@.value_at(idx as int)
    }

    fn set(&mut self, idx: usize, value: u64)
        ensures
            final(self)@ == old(self)@.after_set(idx as int, value),
            final(self).data_file() == data_file_after(
                old(self)@.data.len(),
                final(self)@.data.len(),
                old(self).data_file(),
            ),
    {
        proof {
            lemma_word_place(idx);
            lemma_after_set_wf(self@, idx, value);
            law_set_reads_back(self@, idx, value);
            if self.last_get_segment_entry_index != idx / 256 && entry_at(self@.index, (idx / 256) as int).offset
                != ABSENT_OFFSET {
                lemma_decode_storable(crate::storage::u64_at(self@.index, (idx / 256) * 8));
            }
        }
        let seg_idx = idx >> 8;
        let mut seg = self.get_segment(seg_idx);
        let inner_seg_idx = idx & 0xFF;
        if seg.segment_entry.offset == 0xFFFF_FFFF_FFFF {
            if value != 0 {
                seg = self.create_and_fill_segment(seg_idx);
                let offset = seg.segment_entry.offset as usize;
                let ghost page = self@.page_size;
                let ghost data = self@.data;
                let mut binding = self.data_container.get_segment();
                let mut buffer = binding.get_slice(offset);
                let ghost before: Seq<u8> = buffer@;
                buffer.put_u64(inner_seg_idx << 3, value);
                proof {
                    lemma_u64_at_put_same(before, (inner_seg_idx << 3) as int, value);
                    lemma_put_u64_at_subrange(data, offset as int, offset + page, (idx % 256) * 8, value);
                    assert(has_resolved(buffer));
                    assert(has_resolved(binding));
                    assert(self@ == old(self)@.after_set(idx as int, value));
                    assert(self.wf());
                }
                return;
            }
        } else {
            proof {
                self.data_container.lemma_wf();
                if self.last_get_segment_entry_index != idx / 256 {
                    assert(self@.page_in_bounds(entry_at(self@.index, (idx / 256) as int)));
                }
            }
            let offset = seg.segment_entry.offset as usize;
            let ghost page = self@.page_size;
            let ghost data = self@.data;
            let mut binding = self.data_container.get_segment();
            let mut buffer = binding.get_slice(offset);
            let cur_u64 = buffer.get_u64(inner_seg_idx << 3);
            proof {
                lemma_u64_at_subrange(data, offset as int, offset + page, (idx % 256) * 8);
            }
            if value != cur_u64 {
                let ghost before: Seq<u8> = buffer@;
                buffer.put_u64(inner_seg_idx << 3, value);
                proof {
                    lemma_u64_at_put_same(before, (inner_seg_idx << 3) as int, value);
                    lemma_put_u64_at_subrange(data, offset as int, offset + page, (idx % 256) * 8, value);
                }
                let old_count = seg.segment_entry.default_value_count;
                let mut new_count = old_count;
                if cur_u64 == 0 {
                    new_count = old_count - 1;
                } else if value == 0 {
                    new_count = old_count + 1;
                }
                if old_count != new_count {
                    if new_count == 256 {
                        self.last_get_segment = BitmapSegment::default();
                        self.segment_array.set(
                            seg_idx,
                            SegmentEntry { offset: 0xFFFF_FFFF_FFFF, default_value_count: 255 },
                        );
                    } else {
                        let tmp = SegmentEntry {
                            offset: seg.segment_entry.offset,
                            default_value_count: new_count,
                        };
                        self.segment_array.set(seg_idx, tmp.clone());
                        self.last_get_segment.segment_entry = tmp;
                    }
                }
            }
            proof {
                assert(has_resolved(buffer));
                assert(has_resolved(binding));
            }
        }
        proof {
            assert(self@ == old(self)@.after_set(idx as int, value));
            assert(self.wf());
        }
    }

    fn get(&mut self, idx: usize) -> (r: u64)
        ensures
            final(self)@ == old(self)@,
            final(self).data_file() == old(self).data_file(),
    {
        proof {
            lemma_word_place(idx);
        }
        let seg = self.get_segment(idx / 256);
        if seg.segment_entry.offset == 0xFFFF_FFFF_FFFF {
            return 0;
        } else {
            proof {
                self.data_container.lemma_wf();
                if self.last_get_segment_entry_index != idx / 256 {
                    assert(self@.page_in_bounds(entry_at(self@.index, (idx / 256) as int)));
                }
            }
            let offset = seg.segment_entry.offset as usize;
            let ghost page = self@.page_size;
            let ghost data = self@.data;
            let mut binding = self.data_container.get_segment();
            let buffer = binding.get_slice(offset);
            let r = buffer.get_u64((idx & 0xFF) << 3);
            proof {
                assert(has_resolved(buffer));
                assert(has_resolved(binding));
                assert(self@ == old(self)@);
                assert(self.wf());
                lemma_u64_at_subrange(data, offset as int, offset + page, (idx % 256) * 8);
            }
            return r;
        }
    }
}

} // verus!
