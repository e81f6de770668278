use vstd::prelude::*;

verus! {

use super::batchbitmap::{BatchBitmap, BatchBitmapView, data_file_after, lemma_after_set_wf};
use super::{BatchBitmapI, BitmapI, Flushable};

/// Bit `b` of `w`, counting from the least significant bit.
pub open spec fn bit_of(w: u64, b: int) -> bool {
    (w >> (b as u64)) & 1u64 == 1u64
}

/// `w` with bit `b` set to `value`.
pub open spec fn with_bit(w: u64, b: int, value: bool) -> u64 {
    if value {
        w | (1u64 << (b as u64))
    } else {
        w & !(1u64 << (b as u64))
    }
}

/// Setting a bit changes that bit and no other.
pub proof fn lemma_with_bit(w: u64, b: u64, value: bool, j: u64)
    requires
        b < 64,
        j < 64,
    ensures
        bit_of(with_bit(w, b as int, value), j as int) == if j == b {
            value
        } else {
            bit_of(w, j as int)
        },
{
    if value {
        assert(((w | (1u64 << b)) >> j) & 1u64 == 1u64 <==> (j == b || (w >> j) & 1u64 == 1u64))
            by (bit_vector)
            requires
                b < 64,
                j < 64,
        ;
    } else {
        assert(((w & !(1u64 << b)) >> j) & 1u64 == 1u64 <==> (j != b && (w >> j) & 1u64 == 1u64))
            by (bit_vector)
            requires
                b < 64,
                j < 64,
        ;
    }
}

trait BitOper: Sized {
    fn get_bit(&self, bit_off: usize) -> (r: bool)
        requires
            bit_off < 64,
    ;

    fn set_true(&self, bit_off: usize) -> Self
        requires
            bit_off < 64,
    ;

    fn set_false(&self, bit_off: usize) -> Self
        requires
            bit_off < 64,
    ;
}

impl BitOper for u64 {
    fn get_bit(&self, bit_off: usize) -> (r: bool)
        ensures
            r == bit_of(*self, bit_off as int),
    {
        let w = *self;
        let b = bit_off as u64;
        assert((w & (1u64 << b)) != 0u64 <==> (w >> b) & 1u64 == 1u64) by (bit_vector)
            requires
                b < 64,
        ;
        (*self & (1 << bit_off)) != 0
    }

    fn set_true(&self, bit_off: usize) -> (r: Self)
        ensures
            r == with_bit(*self, bit_off as int, true),
    {
        *self | (1 << bit_off)
    }

    fn set_false(&self, bit_off: usize) -> (r: Self)
        ensures
            r == with_bit(*self, bit_off as int, false),
    {
        *self & !(1 << bit_off)
    }
}

/// What a `Bitmap` holds: the word map below it, and the one word whose
/// write is pending (`usize::MAX` when none is).
#[verifier::ext_equal]
pub struct BitmapView {
    pub batch: BatchBitmapView,
    pub wait_index: usize,
    pub wait_word: u64,
}

impl BitmapView {
    /// Word `w`: the pending word when it is the pending one.
    pub open spec fn word(self, w: int) -> u64 {
        if w == self.wait_index {
            self.wait_word
        } else {
            self.batch.value_at(w)
        }
    }

    /// Bit `idx`.
    pub open spec fn bit(self, idx: int) -> bool {
        bit_of(self.word(idx / 64), idx % 64)
    }

    pub open spec fn wf(self) -> bool {
        self.batch.wf()
    }

    /// The pending word, if any, can be written below.
    pub open spec fn flush_allowed(self) -> bool {
        self.wait_index != usize::MAX ==> self.batch.set_allowed(self.wait_index as int, self.wait_word)
    }

    /// The state after the pending word, if any, is written below.
    pub open spec fn after_flush(self) -> BitmapView {
        if self.wait_index != usize::MAX {
            BitmapView {
                batch: self.batch.after_set(self.wait_index as int, self.wait_word),
                wait_index: usize::MAX,
                wait_word: 0,
            }
        } else {
            self
        }
    }

    /// The state after word `w` is made the pending word with value `v`;
    /// another pending word is written below first.
    pub open spec fn after_set_word(self, w: int, v: u64) -> BitmapView {
        if w != self.wait_index {
            BitmapView { wait_index: w as usize, wait_word: v, ..self.after_flush() }
        } else {
            BitmapView { wait_word: v, ..self }
        }
    }

    /// `set(idx, value)` runs without failing: when it must write a word and
    /// that word is not the pending one, the pending one can be written.
    pub open spec fn set_allowed(self, idx: int, value: bool) -> bool {
        self.bit(idx) != value && idx / 64 != self.wait_index ==> self.flush_allowed()
    }

    /// The state after `set(idx, value)`: unchanged when the bit already
    /// has the value, the word with the bit changed made pending otherwise.
    pub open spec fn after_set(self, idx: int, value: bool) -> BitmapView {
        if self.bit(idx) == value {
            self
        } else {
            self.after_set_word(idx / 64, with_bit(self.word(idx / 64), idx % 64, value))
        }
    }
}

/// A bitmap over a `BatchBitmap`: bit `i` is bit `i % 64` of word `i / 64`.
/// The last word changed is kept here and written below only when another
/// word is changed, or on `flush`.
pub struct Bitmap {
    batch_bitmap: BatchBitmap,
    wait_update_idx: usize,
    wait_update_u64: u64,
}

impl View for Bitmap {
    type V = BitmapView;

    closed spec fn view(&self) -> BitmapView {
        BitmapView {
            batch: self.batch_bitmap@,
            wait_index: self.wait_update_idx,
            wait_word: self.wait_update_u64,
        }
    }
}

impl Bitmap {
    pub closed spec fn wf(&self) -> bool {
        self.batch_bitmap.wf()
    }

    /// The bytes of the file behind the data that a new mapping shows.
    pub closed spec fn data_file(&self) -> Seq<u8> {
        self.batch_bitmap.data_file()
    }

    pub fn new(batch_bitmap: BatchBitmap) -> (r: Self)
        requires
            batch_bitmap.wf(),
        ensures
            r.wf(),
            r@ == (BitmapView { batch: batch_bitmap@, wait_index: usize::MAX, wait_word: 0 }),
            r.data_file() == batch_bitmap.data_file(),
    {
        Bitmap { batch_bitmap, wait_update_idx: usize::MAX, wait_update_u64: 0 }
    }

    /// The word map below, taking the bitmap apart; a pending word is not
    /// in it unless `flush` ran first.
    pub fn into_batch_bitmap(self) -> (r: BatchBitmap)
        requires
            self.wf(),
        ensures
            r.wf(),
            r@ == self@.batch,
            r.data_file() == self.data_file(),
    {
        self.batch_bitmap
    }

    fn get_u64(&mut self, idx: usize) -> (r: u64)
        requires
            old(self).wf(),
        ensures
            r == old(self)@.word(idx as int),
            final(self)@ == old(self)@,
            final(self).wf(),
            final(self).data_file() == old(self).data_file(),
    {
        if idx == self.wait_update_idx {
            self.wait_update_u64
        } else {
            self.batch_bitmap.get(idx)
        }
    }

    fn set_u64(&mut self, idx: usize, update_u64: u64)
        requires
            old(self).wf(),
            idx != old(self)@.wait_index ==> old(self)@.flush_allowed(),
        ensures
            final(self)@ == old(self)@.after_set_word(idx as int, update_u64),
            final(self).wf(),
            final(self).data_file() == data_file_after(
                old(self)@.batch.data.len(),
                final(self)@.batch.data.len(),
                old(self).data_file(),
            ),
    {
        if idx != self.wait_update_idx {
            self.flush_wait_u64();
            self.wait_update_idx = idx;
        }
        self.wait_update_u64 = update_u64;
    }

    fn flush_wait_u64(&mut self)
        requires
            old(self).wf(),
            old(self)@.flush_allowed(),
        ensures
            final(self)@ == old(self)@.after_flush(),
            final(self).wf(),
            final(self).data_file() == data_file_after(
                old(self)@.batch.data.len(),
                final(self)@.batch.data.len(),
                old(self).data_file(),
            ),
    {
        if self.wait_update_idx != usize::MAX {
            self.batch_bitmap.set(self.wait_update_idx, self.wait_update_u64);
            self.wait_update_idx = usize::MAX;
            self.wait_update_u64 = 0;
        }
    }

    fn set_true(&mut self, idx: usize)
        requires
            old(self).wf(),
            old(self)@.set_allowed(idx as int, true),
        ensures
            final(self)@ == old(self)@.after_set(idx as int, true),
            final(self).wf(),
            final(self).data_file() == data_file_after(
                old(self)@.batch.data.len(),
                final(self)@.batch.data.len(),
                old(self).data_file(),
            ),
    {
        let u64_idx = idx >> 6;
        let bit_off = idx & 0x3F;
        proof {
            lemma_bit_place(idx);
        }
        let cur_u64 = self.get_u64(u64_idx);
        if cur_u64 == u64::MAX || cur_u64.get_bit(bit_off) {
            proof {
                lemma_full_and_empty(cur_u64, bit_off as u64);
            }
            return;
        }
        let modified_u64 = cur_u64.set_true(bit_off);
        self.set_u64(u64_idx, modified_u64);
    }

    fn set_false(&mut self, idx: usize)
        requires
            old(self).wf(),
            old(self)@.set_allowed(idx as int, false),
        ensures
            final(self)@ == old(self)@.after_set(idx as int, false),
            final(self).wf(),
            final(self).data_file() == data_file_after(
                old(self)@.batch.data.len(),
                final(self)@.batch.data.len(),
                old(self).data_file(),
            ),
    {
        let u64_idx = idx >> 6;
        let bit_off = idx & 0x3F;
        proof {
            lemma_bit_place(idx);
        }
        let cur_u64 = self.get_u64(u64_idx);
        if cur_u64 == 0 || !cur_u64.get_bit(bit_off) {
            proof {
                lemma_full_and_empty(cur_u64, bit_off as u64);
            }
            return;
        }
        let modified_u64 = cur_u64.set_false(bit_off);
        self.set_u64(u64_idx, modified_u64);
    }
}

/// The place of bit `idx` within its word.
proof fn lemma_bit_place(idx: usize)
    ensures
        idx >> 6 == idx / 64,
        idx & 0x3F == idx % 64,
        idx / 64 < usize::MAX,
{
    assert(idx >> 6 == idx / 64) by (bit_vector);
    assert(idx & 0x3F == idx % 64) by (bit_vector);
}

/// Every bit of the full word is set, and none of the empty word.
proof fn lemma_full_and_empty(w: u64, b: u64)
    requires
        b < 64,
    ensures
        w == u64::MAX ==> bit_of(w, b as int),
        w == 0 ==> !bit_of(w, b as int),
{
    assert(w == 0xffff_ffff_ffff_ffffu64 ==> (w >> b) & 1u64 == 1u64) by (bit_vector)
        requires
            b < 64,
    ;
    assert(w == 0u64 ==> (w >> b) & 1u64 != 1u64) by (bit_vector);
}

impl BitmapI for Bitmap {
    open spec fn bitmap_inv(&self) -> bool {
        self.wf()
    }

    open spec fn bit_set_allowed(&self, idx: usize, value: bool) -> bool {
        self@.set_allowed(idx as int, value)
    }

    open spec fn bit_at(&self, idx: usize) -> bool {
        self@.bit(idx as int)
    }

    fn set(&mut self, idx: usize, value: bool)
        ensures
            final(self)@ == old(self)@.after_set(idx as int, value),
            final(self).data_file() == data_file_after(
                old(self)@.batch.data.len(),
                final(self)@.batch.data.len(),
                old(self).data_file(),
            ),
    {
        proof {
            self.batch_bitmap.lemma_view_wf();
            law_bitmap_set_reads_back(self@, idx, value);
        }
        if value {
            self.set_true(idx)
        } else {
            self.set_false(idx)
        }
    }

    fn get(&mut self, idx: usize) -> (r: bool)
        ensures
            final(self)@ == old(self)@,
            final(self).data_file() == old(self).data_file(),
    {
        let u64_idx = idx >> 6;
        let bit_off = idx & 0x3F;
        proof {
            lemma_bit_place(idx);
        }
        let cur_u64 = self.get_u64(u64_idx);
        return cur_u64.get_bit(bit_off);
    }
}

impl Flushable for Bitmap {
    open spec fn flush_allowed(&self) -> bool {
        self.wf() && self@.flush_allowed()
    }

    fn flush(&mut self) -> (r: Result<(), ()>)
        ensures
            r == Ok::<(), ()>(()),
            final(self)@ == old(self)@.after_flush(),
            final(self).wf(),
            final(self).data_file() == data_file_after(
                old(self)@.batch.data.len(),
                final(self)@.batch.data.len(),
                old(self).data_file(),
            ),
    {
        self.flush_wait_u64();
        return Ok(());
    }
}

/// Reading a bit right after setting it gives the value set.
pub proof fn law_bitmap_set_reads_back(v: BitmapView, idx: usize, value: bool)
    requires
        v.wf(),
        v.set_allowed(idx as int, value),
    ensures
        v.after_set(idx as int, value).bit(idx as int) == value,
        v.after_set(idx as int, value).wf(),
{
    lemma_bit_place(idx);
    let w = idx / 64;
    let b = idx % 64;
    if v.bit(idx as int) != value {
        lemma_with_bit(v.word(w as int), b as u64, value, b as u64);
        if w != v.wait_index && v.wait_index != usize::MAX {
            lemma_after_set_wf(v.batch, v.wait_index, v.wait_word);
        }
    }
}

} // verus!
