use vstd::prelude::*;

verus! {

use crate::storage::{u64_at, put_u64_at, lemma_u64_at_put_same, lemma_u64_at_put_other, lemma_u64_at_zeros};
use crate::storage::mmap::segment_array::{
    SegmentEntry, ABSENT_OFFSET, CAPACITY_STEP, default_entry, entry_at, index_after_set,
    lemma_entry_after_set, lemma_entry_roundtrip, lemma_decode_storable, lemma_decode_fill_words, storable,
};
use super::batchbitmap::{BatchBitmapView, filled, grown, fresh_entry, released_entry, lemma_after_set_wf};
use super::bitmap::{BitmapView, bit_of, with_bit, lemma_with_bit};

/// Word `k` of the page that starts at `offset`.
pub open spec fn page_word(data: Seq<u8>, offset: int, k: int) -> u64 {
    u64_at(data, offset + k * 8)
}

/// How many of the first `n` words of the page at `offset` are zero.
pub open spec fn zero_words(data: Seq<u8>, offset: int, n: int) -> int
    decreases n,
{
    if n <= 0 {
        0
    } else {
        zero_words(data, offset, n - 1) + if page_word(data, offset, n - 1) == 0 {
            1int
        } else {
            0int
        }
    }
}

impl BatchBitmapView {
    /// The word at `idx` as the index and the pages hold it, leaving the
    /// remembered segment aside.
    pub open spec fn stored_value(self, idx: int) -> u64 {
        let e = self.stored(idx / 256);
        if e.offset == ABSENT_OFFSET {
            0
        } else {
            self.word(e, idx % 256)
        }
    }

    /// The remembered entry is the one the index holds for its segment.
    pub open spec fn coherent(self) -> bool {
        self.cached == self.stored(self.cached_index as int)
    }

    /// A stored entry with a page counts the zero words of that page.
    pub open spec fn count_ok(self, e: SegmentEntry) -> bool {
        e.offset != ABSENT_OFFSET ==> e.default_value_count == zero_words(self.data, e.offset as int, 256)
    }

    pub open spec fn counts_ok(self) -> bool {
        forall|s: int| 0 <= s ==> #[trigger] self.count_ok(entry_at(self.index, s))
    }

    /// Two entries do not share bytes of their pages.
    pub open spec fn apart(self, a: SegmentEntry, b: SegmentEntry) -> bool {
        ||| a.offset == ABSENT_OFFSET
        ||| b.offset == ABSENT_OFFSET
        ||| a.offset + self.page_size <= b.offset
        ||| b.offset + self.page_size <= a.offset
    }

    /// Different segments have pages that do not overlap.
    pub open spec fn pages_disjoint(self) -> bool {
        forall|s: int, t: int|
            0 <= s && 0 <= t && s != t ==> #[trigger] self.apart(
                entry_at(self.index, s),
                entry_at(self.index, t),
            )
    }

    /// The state the operations are meant to keep: well-formed, the
    /// remembered entry up to date, counts right, pages apart.
    pub open spec fn consistent(self) -> bool {
        &&& self.wf()
        &&& self.coherent()
        &&& self.counts_ok()
        &&& self.pages_disjoint()
    }

    /// Growing the index for the segment of `idx` adds no bytes past that
    /// segment's entry.
    pub open spec fn no_spare_growth(self, idx: int) -> bool {
        let min_capacity = (idx / 256 + 1) * 8;
        self.index.len() >= min_capacity || min_capacity < CAPACITY_STEP
    }
}

proof fn lemma_zero_words_bounds(data: Seq<u8>, offset: int, n: int)
    requires
        0 <= n,
    ensures
        0 <= zero_words(data, offset, n) <= n,
        zero_words(data, offset, n) == n ==> forall|k: int| 0 <= k < n ==> #[trigger] page_word(data, offset, k) == 0,
    decreases n,
{
    if n > 0 {
        lemma_zero_words_bounds(data, offset, n - 1);
    }
}

proof fn lemma_zero_words_update(a: Seq<u8>, b: Seq<u8>, offset: int, i: int, n: int)
    requires
        0 <= i,
        0 <= n,
        forall|k: int| 0 <= k < n && k != i ==> #[trigger] page_word(a, offset, k) == page_word(b, offset, k),
    ensures
        zero_words(b, offset, n) == zero_words(a, offset, n) + if i < n {
            (if page_word(b, offset, i) == 0 { 1int } else { 0int }) - (if page_word(a, offset, i) == 0 {
                1int
            } else {
                0int
            })
        } else {
            0int
        },
    decreases n,
{
    if n > 0 {
        lemma_zero_words_update(a, b, offset, i, n - 1);
    }
}

proof fn lemma_zero_words_one_set(data: Seq<u8>, offset: int, i: int, n: int)
    requires
        0 <= i,
        0 <= n,
        forall|k: int| 0 <= k < n && k != i ==> #[trigger] page_word(data, offset, k) == 0,
        i < n ==> page_word(data, offset, i) != 0,
    ensures
        zero_words(data, offset, n) == n - if i < n { 1int } else { 0int },
    decreases n,
{
    if n > 0 {
        lemma_zero_words_one_set(data, offset, i, n - 1);
    }
}

/// A word stored into one page leaves the words of a page apart from it,
/// and the other words of its own page, unchanged.
proof fn lemma_put_page_frame(
    data: Seq<u8>,
    page_size: int,
    off_s: int,
    i: int,
    value: u64,
    off_t: int,
    k: int,
)
    requires
        page_size >= 2048,
        0 <= off_s,
        off_s + page_size <= data.len(),
        0 <= off_t,
        off_t + page_size <= data.len(),
        0 <= i < 256,
        0 <= k < 256,
        (off_s == off_t && k != i) || off_s + page_size <= off_t || off_t + page_size <= off_s,
    ensures
        page_word(put_u64_at(data, off_s + i * 8, value), off_t, k) == page_word(data, off_t, k),
{
    if off_s == off_t {
        assert(off_s + i * 8 + 8 <= off_t + k * 8 || off_t + k * 8 + 8 <= off_s + i * 8) by (nonlinear_arith)
            requires
                off_s == off_t,
                k != i,
        ;
    } else {
        assert(i * 8 + 8 <= 2048 && k * 8 + 8 <= 2048) by (nonlinear_arith)
            requires
                0 <= i < 256,
                0 <= k < 256,
        ;
    }
    lemma_u64_at_put_other(data, off_s + i * 8, value, off_t + k * 8);
}

/// The data after a page is allocated at its end, zero-filled, and one word
/// of it is set: older pages keep their words; the new page holds `value`
/// at word `i` and zero elsewhere.
proof fn lemma_fresh_page(data: Seq<u8>, page_size: int, i: int, value: u64, off_t: int, k: int)
    requires
        page_size >= 2048,
        0 <= i < 256,
        0 <= k < 256,
    ensures
        ({
            let off = data.len() as int;
            let d2 = put_u64_at(
                filled(grown(data, (off + page_size) as nat), off, page_size, 0),
                off + i * 8,
                value,
            );
            &&& d2.len() == off + page_size
            &&& 0 <= off_t && off_t + page_size <= off ==> page_word(d2, off_t, k) == page_word(data, off_t, k)
            &&& page_word(d2, off, k) == if k == i {
                value
            } else {
                0
            }
        }),
{
    let off = data.len() as int;
    let f = filled(grown(data, (off + page_size) as nat), off, page_size, 0);
    assert(i * 8 + 8 <= 2048 && k * 8 + 8 <= 2048) by (nonlinear_arith)
        requires
            0 <= i < 256,
            0 <= k < 256,
    ;
    lemma_u64_at_put_same(f, off + i * 8, value);
    if 0 <= off_t && off_t + page_size <= off {
        lemma_u64_at_put_other(f, off + i * 8, value, off_t + k * 8);
        assert(f.subrange(off_t + k * 8, off_t + k * 8 + 8) =~= data.subrange(off_t + k * 8, off_t + k * 8 + 8));
    }
    if k != i {
        assert(off + i * 8 + 8 <= off + k * 8 || off + k * 8 + 8 <= off + i * 8) by (nonlinear_arith)
            requires
                k != i,
        ;
        lemma_u64_at_put_other(f, off + i * 8, value, off + k * 8);
        lemma_u64_at_zeros(f, off + k * 8);
    }
}

proof fn lemma_zero_words_has_zero(data: Seq<u8>, offset: int, i: int, n: int)
    requires
        0 <= i < n,
        page_word(data, offset, i) == 0,
    ensures
        zero_words(data, offset, n) >= 1,
    decreases n,
{
    if n - 1 > i {
        lemma_zero_words_has_zero(data, offset, i, n - 1);
    } else {
        lemma_zero_words_bounds(data, offset, n - 1);
    }
}

/// What a well-formed state says of a segment that has a page.
proof fn lemma_present_entry(v: BatchBitmapView, s: int)
    requires
        v.wf(),
        0 <= s,
        v.stored(s).offset != ABSENT_OFFSET,
    ensures
        v.stored(s) == entry_at(v.index, s),
        s * 8 + 8 <= v.index.len(),
        storable(v.stored(s)),
        v.stored(s).offset + v.page_size <= v.data.len(),
        v.stored(s).offset < ABSENT_OFFSET,
{
    lemma_decode_storable(u64_at(v.index, s * 8));
    assert(v.page_in_bounds(entry_at(v.index, s)));
}

/// A coherent state uses the stored entry of every segment.
proof fn lemma_coherent_segment(v: BatchBitmapView, s: int)
    requires
        v.coherent(),
    ensures
        v.segment(s) == v.stored(s),
{
}

/// What `set` is meant to do to the stored map: change the word at `idx`
/// and nothing else, keeping counts right and pages apart.
pub open spec fn set_effect(v: BatchBitmapView, w: BatchBitmapView, idx: int, value: u64) -> bool {
    &&& forall|j: int|
        0 <= j ==> #[trigger] w.stored_value(j) == if j == idx {
            value
        } else {
            v.stored_value(j)
        }
    &&& w.counts_ok()
    &&& w.pages_disjoint()
}

/// After storing `e` for segment `s` without spare growth, every other
/// segment has the entry it had, or had none and still has none.
proof fn lemma_other_entries(v: BatchBitmapView, s: int, e: SegmentEntry, t: int)
    requires
        v.wf(),
        0 <= s,
        0 <= t,
        t != s,
        v.index.len() >= (s + 1) * 8 || (s + 1) * 8 < CAPACITY_STEP,
    ensures
        entry_at(index_after_set(v.index, v.index_file, s, e), t) == entry_at(v.index, t) || (entry_at(
            index_after_set(v.index, v.index_file, s, e),
            t,
        ).offset == ABSENT_OFFSET && entry_at(v.index, t).offset == ABSENT_OFFSET),
{
    lemma_entry_after_set(v.index, v.index_file, s, e, t);
    if t * 8 + 8 > v.index.len() && t > s && v.index.len() < (s + 1) * 8 {
        assert(t * 8 + 8 > (s + 1) * 8) by (nonlinear_arith)
            requires
                t > s,
        ;
    }
}

proof fn lemma_create_branch(v: BatchBitmapView, idx: usize, value: u64)
    requires
        v.consistent(),
        v.set_allowed(idx as int, value),
        v.no_spare_growth(idx as int),
        v.stored((idx / 256) as int).offset == ABSENT_OFFSET,
        value != 0,
    ensures
        set_effect(v, v.after_set(idx as int, value), idx as int, value),
        v.after_set(idx as int, value).coherent(),
{
    let s = (idx / 256) as int;
    let i = (idx % 256) as int;
    lemma_coherent_segment(v, s);
    let off = v.data.len() as int;
    let f = fresh_entry(off);
    let w = v.after_set(idx as int, value);
    lemma_entry_roundtrip(f);
    lemma_entry_after_set(v.index, v.index_file, s, f, s);
    assert(w.stored(s) == f);
    assert forall|k: int| 0 <= k < 256 && k != i implies #[trigger] page_word(w.data, off, k) == 0 by {
        lemma_fresh_page(v.data, v.page_size as int, i, value, 0, k);
    }
    lemma_fresh_page(v.data, v.page_size as int, i, value, 0, i);
    lemma_zero_words_one_set(w.data, off, i, 256);
    assert forall|t: int| 0 <= t && t != s implies #[trigger] w.stored(t) == v.stored(t) && (v.stored(
        t,
    ).offset != ABSENT_OFFSET ==> {
        &&& v.stored(t).offset + v.page_size <= off
        &&& forall|k: int| 0 <= k < 256 ==> #[trigger] page_word(w.data, v.stored(t).offset as int, k) == page_word(v.data, v.stored(t).offset as int, k)
    }) by {
        lemma_other_entries(v, s, f, t);
        if v.stored(t).offset != ABSENT_OFFSET {
            lemma_present_entry(v, t);
            assert forall|k: int| 0 <= k < 256 implies #[trigger] page_word(w.data, v.stored(t).offset as int, k)
                == page_word(v.data, v.stored(t).offset as int, k) by {
                lemma_fresh_page(v.data, v.page_size as int, i, value, v.stored(t).offset as int, k);
            }
        }
    }
    assert forall|j: int| 0 <= j implies #[trigger] w.stored_value(j) == if j == idx {
        value
    } else {
        v.stored_value(j)
    } by {
        let t = j / 256;
        let k = j % 256;
        if t == s {
            lemma_fresh_page(v.data, v.page_size as int, i, value, 0, k);
            assert(w.stored(s) == f);
            assert(page_word(w.data, off, k) == w.word(f, k));
            assert((j == idx) == (k == i));
        } else {
            assert(w.stored(t) == v.stored(t));
            if v.stored(t).offset != ABSENT_OFFSET {
                assert(page_word(w.data, v.stored(t).offset as int, k) == page_word(v.data, v.stored(t).offset as int, k));
            }
        }
    }
    assert forall|t: int| 0 <= t implies #[trigger] w.count_ok(entry_at(w.index, t)) by {
        if t != s {
            lemma_other_entries(v, s, f, t);
            assert(v.count_ok(entry_at(v.index, t)));
            if entry_at(v.index, t).offset != ABSENT_OFFSET && entry_at(w.index, t) == entry_at(v.index, t) {
                assert(w.stored(t) == v.stored(t));
                lemma_zero_words_update(v.data, w.data, entry_at(v.index, t).offset as int, 256, 256);
            }
        }
    }
    assert forall|s1: int, s2: int| 0 <= s1 && 0 <= s2 && s1 != s2 implies #[trigger] w.apart(
        entry_at(w.index, s1),
        entry_at(w.index, s2),
    ) by {
        if s1 != s {
            lemma_other_entries(v, s, f, s1);
            assert(w.stored(s1) == v.stored(s1));
        }
        if s2 != s {
            lemma_other_entries(v, s, f, s2);
            assert(w.stored(s2) == v.stored(s2));
        }
        if s1 != s && s2 != s {
            assert(v.apart(entry_at(v.index, s1), entry_at(v.index, s2)));
        }
    }
}

proof fn lemma_write_branch(v: BatchBitmapView, idx: usize, value: u64)
    requires
        v.consistent(),
        v.set_allowed(idx as int, value),
        v.stored((idx / 256) as int).offset != ABSENT_OFFSET,
        value != v.word(v.stored((idx / 256) as int), (idx % 256) as int),
    ensures
        set_effect(v, v.after_set(idx as int, value), idx as int, value),
        v.cached_index == idx / 256 || (v.word(v.stored((idx / 256) as int), (idx % 256) as int) == 0) == (
        value == 0) ==> v.after_set(idx as int, value).coherent(),
{
    let s = (idx / 256) as int;
    let i = (idx % 256) as int;
    lemma_coherent_segment(v, s);
    lemma_present_entry(v, s);
    let e = v.stored(s);
    let off = e.offset as int;
    let cur = v.word(e, i);
    let c = e.default_value_count as int;
    let w = v.after_set(idx as int, value);
    let n = if cur == 0 {
        c - 1
    } else if value == 0 {
        c + 1
    } else {
        c
    };
    assert(v.count_ok(entry_at(v.index, s)));
    assert(w.data == put_u64_at(v.data, off + i * 8, value));
    assert(i * 8 + 8 <= 2048) by (nonlinear_arith)
        requires
            0 <= i < 256,
    ;
    lemma_u64_at_put_same(v.data, off + i * 8, value);
    assert forall|k: int| 0 <= k < 256 implies #[trigger] page_word(w.data, off, k) == if k == i {
        value
    } else {
        page_word(v.data, off, k)
    } by {
        if k != i {
            lemma_put_page_frame(v.data, v.page_size as int, off, i, value, off, k);
        }
    }
    lemma_zero_words_update(v.data, w.data, off, i, 256);
    assert(zero_words(w.data, off, 256) == n);
    let stored_s = if n == c {
        e
    } else if n == 256 {
        default_entry()
    } else {
        SegmentEntry { offset: e.offset, default_value_count: n as usize }
    };
    if n != c {
        let te = if n == 256 {
            released_entry()
        } else {
            SegmentEntry { offset: e.offset, default_value_count: n as usize }
        };
        lemma_entry_roundtrip(te);
        lemma_entry_after_set(v.index, v.index_file, s, te, s);
        assert(w.index == index_after_set(v.index, v.index_file, s, te));
    }
    assert(w.stored(s) == stored_s);
    if n == 256 {
        lemma_zero_words_bounds(w.data, off, 256);
    }
    assert forall|t: int| 0 <= t && t != s implies #[trigger] w.stored(t) == v.stored(t) && (
    entry_at(w.index, t) == entry_at(v.index, t) || (entry_at(w.index, t).offset == ABSENT_OFFSET
        && entry_at(v.index, t).offset == ABSENT_OFFSET)) && (v.stored(t).offset != ABSENT_OFFSET ==> forall|
        k: int,
    |
        0 <= k < 256 ==> #[trigger] page_word(w.data, v.stored(t).offset as int, k) == page_word(
            v.data,
            v.stored(t).offset as int,
            k,
        )) by {
        if n != c {
            let te = if n == 256 {
                released_entry()
            } else {
                SegmentEntry { offset: e.offset, default_value_count: n as usize }
            };
            lemma_other_entries(v, s, te, t);
        }
        if v.stored(t).offset != ABSENT_OFFSET {
            lemma_present_entry(v, t);
            assert(v.apart(entry_at(v.index, s), entry_at(v.index, t)));
            assert forall|k: int| 0 <= k < 256 implies #[trigger] page_word(w.data, v.stored(t).offset as int, k)
                == page_word(v.data, v.stored(t).offset as int, k) by {
                lemma_put_page_frame(v.data, v.page_size as int, off, i, value, v.stored(t).offset as int, k);
            }
        }
    }
    assert forall|j: int| 0 <= j implies #[trigger] w.stored_value(j) == if j == idx {
        value
    } else {
        v.stored_value(j)
    } by {
        let t = j / 256;
        let k = j % 256;
        if t == s {
            assert((j == idx) == (k == i));
            assert(page_word(w.data, off, k) == if k == i {
                value
            } else {
                page_word(v.data, off, k)
            });
        } else {
            assert(w.stored(t) == v.stored(t));
            if v.stored(t).offset != ABSENT_OFFSET {
                assert(page_word(w.data, v.stored(t).offset as int, k) == page_word(v.data, v.stored(t).offset as int, k));
            }
        }
    }
    assert forall|t: int| 0 <= t implies #[trigger] w.count_ok(entry_at(w.index, t)) by {
        if t != s {
            assert(w.stored(t) == v.stored(t));
            assert(v.count_ok(entry_at(v.index, t)));
            if entry_at(v.index, t).offset != ABSENT_OFFSET && entry_at(w.index, t) == entry_at(v.index, t) {
                lemma_zero_words_update(v.data, w.data, entry_at(v.index, t).offset as int, 256, 256);
            }
        } else if n != c {
            let te = if n == 256 {
                released_entry()
            } else {
                SegmentEntry { offset: e.offset, default_value_count: n as usize }
            };
            lemma_entry_after_set(v.index, v.index_file, s, te, s);
        }
    }
    assert forall|s1: int, s2: int| 0 <= s1 && 0 <= s2 && s1 != s2 implies #[trigger] w.apart(
        entry_at(w.index, s1),
        entry_at(w.index, s2),
    ) by {
        assert(v.apart(entry_at(v.index, s1), entry_at(v.index, s2)));
        if s1 != s {
            assert(w.stored(s1) == v.stored(s1));
        } else if n != c {
            let te = if n == 256 {
                released_entry()
            } else {
                SegmentEntry { offset: e.offset, default_value_count: n as usize }
            };
            lemma_entry_after_set(v.index, v.index_file, s, te, s);
        }
        if s2 != s {
            assert(w.stored(s2) == v.stored(s2));
        } else if n != c {
            let te = if n == 256 {
                released_entry()
            } else {
                SegmentEntry { offset: e.offset, default_value_count: n as usize }
            };
            lemma_entry_after_set(v.index, v.index_file, s, te, s);
        }
    }
}

/// In a coherent state, a read through the remembered segment gives the
/// word the index and the pages hold.
pub proof fn law_coherent_read_is_stored(v: BatchBitmapView, idx: int)
    requires
        v.coherent(),
    ensures
        v.value_at(idx) == v.stored_value(idx),
{
    lemma_coherent_segment(v, idx / 256);
}

/// A bitmap over an empty index and empty data is consistent, and every
/// word of it is zero.
pub proof fn law_empty_is_consistent(page_size: nat, j: int)
    requires
        page_size >= 2048,
        0 <= j,
    ensures
        ({
            let v = BatchBitmapView {
                index: Seq::empty(),
                index_file: Seq::empty(),
                data: Seq::empty(),
                page_size,
                default: false,
                cached_index: usize::MAX,
                cached: default_entry(),
            };
            &&& v.consistent()
            &&& v.stored_value(j) == 0
            &&& v.value_at(j) == 0
        }),
{
    let v = BatchBitmapView {
        index: Seq::empty(),
        index_file: Seq::empty(),
        data: Seq::empty(),
        page_size,
        default: false,
        cached_index: usize::MAX,
        cached: default_entry(),
    };
    assert(v.stored(usize::MAX as int) == default_entry());
    assert(v.stored(j / 256) == default_entry());
    assert forall|s: int| 0 <= s implies #[trigger] v.count_ok(entry_at(v.index, s)) by {
        assert(entry_at(v.index, s) == default_entry());
    }
    assert forall|s1: int, s2: int| 0 <= s1 && 0 <= s2 && s1 != s2 implies #[trigger] v.apart(
        entry_at(v.index, s1),
        entry_at(v.index, s2),
    ) by {
        assert(entry_at(v.index, s1) == default_entry());
    }
    assert forall|s: int| 0 <= s implies #[trigger] v.page_in_bounds(entry_at(v.index, s)) by {
        assert(entry_at(v.index, s) == default_entry());
    }
}

/// In a consistent state `set` can run, unless a page must be allocated and
/// no 48-bit offset is left for it, or the index must grow and the entries
/// it would take from its file name pages past the data.
pub proof fn law_consistent_set_allowed(v: BatchBitmapView, idx: usize, value: u64)
    requires
        v.consistent(),
        v.data.len() + v.page_size <= ABSENT_OFFSET,
        v.data.len() + v.page_size <= usize::MAX,
        v.growth_in_bounds((idx / 256) as int),
    ensures
        v.set_allowed(idx as int, value),
{
    let s = (idx / 256) as int;
    let i = (idx % 256) as int;
    lemma_coherent_segment(v, s);
    if v.stored(s).offset != ABSENT_OFFSET {
        lemma_present_entry(v, s);
        assert(v.count_ok(entry_at(v.index, s)));
        if v.word(v.stored(s), i) == 0 {
            lemma_zero_words_has_zero(v.data, v.stored(s).offset as int, i, 256);
        }
    }
}

/// In a consistent state, `set(idx, value)` changes the stored word at `idx`
/// to `value` and no other stored word; the counts of zero words stay right
/// and the pages stay apart.  Excluded: a set that grows the index past the
/// entry it needs (segments from 2047 on), which leaves zero entries behind.
pub proof fn law_set_is_update(v: BatchBitmapView, idx: usize, value: u64, j: int)
    requires
        v.consistent(),
        v.set_allowed(idx as int, value),
        v.no_spare_growth(idx as int),
        0 <= j,
    ensures
        v.after_set(idx as int, value).stored_value(j) == if j == idx {
            value
        } else {
            v.stored_value(j)
        },
        v.after_set(idx as int, value).wf(),
        v.after_set(idx as int, value).counts_ok(),
        v.after_set(idx as int, value).pages_disjoint(),
{
    lemma_set_effect(v, idx, value);
    lemma_after_set_wf(v, idx, value);
}

/// `set` keeps a state consistent when the segment it writes is the
/// remembered one, has no page, or keeps its count of zero words.  When it
/// changes that count in a segment other than the remembered one, the
/// remembered entry is overwritten with the written segment's entry while it
/// stays remembered for the old segment: consistency is lost there.
pub proof fn law_set_keeps_consistency(v: BatchBitmapView, idx: usize, value: u64)
    requires
        v.consistent(),
        v.set_allowed(idx as int, value),
        v.no_spare_growth(idx as int),
        v.cached_index == idx / 256 || v.stored((idx / 256) as int).offset == ABSENT_OFFSET || (v.value_at(
            idx as int,
        ) == 0) == (value == 0),
    ensures
        v.after_set(idx as int, value).consistent(),
{
    lemma_set_effect(v, idx, value);
    lemma_after_set_wf(v, idx, value);
    lemma_coherent_segment(v, (idx / 256) as int);
}

proof fn lemma_set_effect(v: BatchBitmapView, idx: usize, value: u64)
    requires
        v.consistent(),
        v.set_allowed(idx as int, value),
        v.no_spare_growth(idx as int),
    ensures
        set_effect(v, v.after_set(idx as int, value), idx as int, value),
        v.cached_index == idx / 256 || v.stored((idx / 256) as int).offset == ABSENT_OFFSET || (v.value_at(
            idx as int,
        ) == 0) == (value == 0) ==> v.after_set(idx as int, value).coherent(),
{
    let s = (idx / 256) as int;
    let i = (idx % 256) as int;
    lemma_coherent_segment(v, s);
    let e = v.stored(s);
    if e.offset == ABSENT_OFFSET {
        if value != 0 {
            lemma_create_branch(v, idx, value);
        } else {
            assert(v.after_set(idx as int, value) == v);
            assert forall|j: int| 0 <= j implies #[trigger] v.stored_value(j) == if j == idx {
                value
            } else {
                v.stored_value(j)
            } by {
                if j == idx {
                    assert(j / 256 == s);
                }
            }
        }
    } else if value == v.word(e, i) {
        assert(v.after_set(idx as int, value) == v);
    } else {
        lemma_write_branch(v, idx, value);
    }
}

impl BitmapView {
    /// Word `w` as the pending word and the stored words hold it.
    pub open spec fn stored_word(self, w: int) -> u64 {
        if w == self.wait_index {
            self.wait_word
        } else {
            self.batch.stored_value(w)
        }
    }

    /// Bit `idx` as the pending word and the stored words hold it.
    pub open spec fn stored_bit(self, idx: int) -> bool {
        bit_of(self.stored_word(idx / 64), idx % 64)
    }

    /// The word map below is consistent.
    pub open spec fn consistent(self) -> bool {
        self.batch.consistent()
    }

    /// Writing the pending word below keeps the word map consistent.
    pub open spec fn flush_keeps_consistency(self) -> bool {
        self.wait_index != usize::MAX ==> {
            &&& self.batch.no_spare_growth(self.wait_index as int)
            &&& self.batch.cached_index == self.wait_index / 256 || self.batch.stored(
                (self.wait_index / 256) as int,
            ).offset == ABSENT_OFFSET || (self.batch.value_at(self.wait_index as int) == 0) == (self.wait_word
                == 0)
        }
    }
}

/// Over a coherent word map, a read gives the bit the pending word and the
/// stored words hold.
pub proof fn law_bitmap_read_is_stored(v: BitmapView, idx: int)
    requires
        v.batch.coherent(),
    ensures
        v.bit(idx) == v.stored_bit(idx),
{
    law_coherent_read_is_stored(v.batch, idx / 64);
}

/// Writing the pending word below keeps it readable: the stored word map
/// afterwards holds it, and the pending word is gone.
pub proof fn law_flush_keeps_words(v: BitmapView, w: usize)
    requires
        v.consistent(),
        v.flush_allowed(),
        v.flush_keeps_consistency(),
    ensures
        v.after_flush().consistent(),
        v.after_flush().stored_word(w as int) == v.stored_word(w as int) || w == usize::MAX,
{
    if v.wait_index != usize::MAX {
        law_set_is_update(v.batch, v.wait_index, v.wait_word, w as int);
        law_set_keeps_consistency(v.batch, v.wait_index, v.wait_word);
    }
}

/// In a consistent state, `set(idx, value)` changes bit `idx` to `value` and
/// no other bit, and keeps the state consistent, when the pending word it
/// may write below keeps the word map consistent.
pub proof fn law_bitmap_set_is_update(v: BitmapView, idx: usize, value: bool, j: usize)
    requires
        v.consistent(),
        v.set_allowed(idx as int, value),
        v.bit(idx as int) != value && idx / 64 != v.wait_index ==> v.flush_keeps_consistency(),
    ensures
        v.after_set(idx as int, value).consistent(),
        v.after_set(idx as int, value).stored_bit(j as int) == if j == idx {
            value
        } else {
            v.stored_bit(j as int)
        },
{
    let w = idx / 64;
    let b = idx % 64;
    let a = v.after_set(idx as int, value);
    law_bitmap_read_is_stored(v, idx as int);
    law_bitmap_read_is_stored(v, j as int);
    assert(j / 64 < usize::MAX && w < usize::MAX);
    if v.bit(idx as int) != value {
        let nw = with_bit(v.word(w as int), b as int, value);
        lemma_with_bit(v.word(w as int), b as u64, value, (j % 64) as u64);
        if w != v.wait_index {
            law_flush_keeps_words(v, (j / 64) as usize);
            law_coherent_read_is_stored(v.batch, w as int);
            assert(a.stored_word(w as int) == nw);
        }
        assert((j == idx) == (j / 64 == w && j % 64 == b));
    }
}


/// A page in which every word but word `i` is zero, word `i` is not, has
/// fewer than `n` zero words.
proof fn lemma_zero_words_below(data: Seq<u8>, offset: int, i: int, n: int)
    requires
        0 <= i < n,
        page_word(data, offset, i) != 0,
    ensures
        zero_words(data, offset, n) <= n - 1,
    decreases n,
{
    if n - 1 == i {
        lemma_zero_words_bounds(data, offset, n - 1);
    } else {
        lemma_zero_words_below(data, offset, i, n - 1);
    }
}

/// A page with `n - 1` zero words among its first `n`, word `i` being
/// non-zero, is zero everywhere else.
proof fn lemma_zero_words_all_but_one(data: Seq<u8>, offset: int, i: int, n: int)
    requires
        0 <= i < n,
        page_word(data, offset, i) != 0,
        zero_words(data, offset, n) == n - 1,
    ensures
        forall|k: int| 0 <= k < n && k != i ==> #[trigger] page_word(data, offset, k) == 0,
    decreases n,
{
    if n - 1 == i {
        lemma_zero_words_bounds(data, offset, n - 1);
    } else {
        if page_word(data, offset, n - 1) != 0 {
            lemma_zero_words_below(data, offset, i, n - 1);
        }
        lemma_zero_words_all_but_one(data, offset, i, n - 1);
    }
}

/// Word `idx` and word `j` of the same segment sit at different places of
/// its page when they differ.
proof fn lemma_same_segment(idx: int, j: int)
    requires
        0 <= idx,
        0 <= j,
        j / 256 == idx / 256,
        j != idx,
    ensures
        j % 256 != idx % 256,
        0 <= j % 256 < 256,
        0 <= idx % 256 < 256,
{
}

/// A set into a segment that has no page, in any well-formed state and
/// however far the index grows: the segment then reads `value` at `idx`
/// and zero at every other of its words.
pub proof fn law_new_segment_reads_zero_but_idx(v: BatchBitmapView, idx: usize, value: u64, j: usize)
    requires
        v.wf(),
        v.set_allowed(idx as int, value),
        v.segment((idx / 256) as int).offset == ABSENT_OFFSET,
        j / 256 == idx / 256,
    ensures
        v.after_set(idx as int, value).value_at(j as int) == if j == idx {
            value
        } else {
            0
        },
{
    let s = (idx / 256) as int;
    let i = (idx % 256) as int;
    let k = (j % 256) as int;
    if value != 0 {
        let off = v.data.len() as int;
        let w = v.after_set(idx as int, value);
        lemma_fresh_page(v.data, v.page_size as int, i, value, 0, k);
        assert(w.cached_index == s);
        assert(w.segment(s) == fresh_entry(off));
        assert(fresh_entry(off).offset == off);
        if j != idx {
            lemma_same_segment(idx as int, j as int);
        }
        assert(w.value_at(j as int) == page_word(w.data, off, k));
    }
}

/// In a consistent state, `set(idx, value)` leaves every other word of the
/// segment of `idx` reading what it read, however far the index grows; a
/// segment that gets a new page reads zero at every word but `idx`.
pub proof fn law_set_keeps_segment_words(v: BatchBitmapView, idx: usize, value: u64, j: usize)
    requires
        v.consistent(),
        v.set_allowed(idx as int, value),
        j / 256 == idx / 256,
        j != idx,
    ensures
        v.after_set(idx as int, value).value_at(j as int) == v.value_at(j as int),
{
    let s = (idx / 256) as int;
    lemma_same_segment(idx as int, j as int);
    if v.segment(s).offset == ABSENT_OFFSET {
        law_new_segment_reads_zero_but_idx(v, idx, value, j);
    } else {
        lemma_write_keeps_segment_words(v, idx, value, j);
    }
}

/// The part of `law_set_keeps_segment_words` for a segment with a page.
proof fn lemma_write_keeps_segment_words(v: BatchBitmapView, idx: usize, value: u64, j: usize)
    requires
        v.consistent(),
        v.set_allowed(idx as int, value),
        j / 256 == idx / 256,
        j != idx,
        v.segment((idx / 256) as int).offset != ABSENT_OFFSET,
    ensures
        v.after_set(idx as int, value).value_at(j as int) == v.value_at(j as int),
{
    let s = (idx / 256) as int;
    let i = (idx % 256) as int;
    let k = (j % 256) as int;
    lemma_same_segment(idx as int, j as int);
    lemma_coherent_segment(v, s);
    lemma_present_entry(v, s);
    let e = v.stored(s);
    let off = e.offset as int;
    let cur = v.word(e, i);
    if value != cur {
        let c = e.default_value_count as int;
        let w = v.after_set(idx as int, value);
        let n = if cur == 0 {
            c - 1
        } else if value == 0 {
            c + 1
        } else {
            c
        };
        assert(w.data == put_u64_at(v.data, off + i * 8, value));
        lemma_put_page_frame(v.data, v.page_size as int, off, i, value, off, k);
        assert(page_word(w.data, off, k) == page_word(v.data, off, k));
        assert(v.value_at(j as int) == page_word(v.data, off, k));
        if n == c {
            assert(w.segment(s) == e);
        } else if n == 256 {
            assert(v.count_ok(entry_at(v.index, s)));
            assert(zero_words(v.data, off, 256) == 255);
            assert(page_word(v.data, off, i) == cur);
            lemma_zero_words_all_but_one(v.data, off, i, 256);
            assert(page_word(v.data, off, k) == 0);
            lemma_entry_after_set(v.index, v.index_file, s, released_entry(), s);
            lemma_entry_roundtrip(released_entry());
            assert(w.segment(s).offset == ABSENT_OFFSET);
        } else {
            let t = SegmentEntry { offset: e.offset, default_value_count: n as usize };
            lemma_entry_after_set(v.index, v.index_file, s, t, s);
            lemma_entry_roundtrip(t);
            assert(w.segment(s) == t);
        }
    }
}


/// A set that gives a segment its first page, in a well-formed state whose
/// remembered entry is up to date and however far the index grows, leaves
/// the words of every other segment that the index already held, or that
/// comes before it, reading what they read.
pub proof fn law_new_segment_keeps_other_words(v: BatchBitmapView, idx: usize, value: u64, j: usize)
    requires
        v.wf(),
        v.coherent(),
        v.set_allowed(idx as int, value),
        v.segment((idx / 256) as int).offset == ABSENT_OFFSET,
        j / 256 != idx / 256,
        (j / 256 + 1) * 8 <= v.index.len() || j / 256 < idx / 256,
    ensures
        v.after_set(idx as int, value).value_at(j as int) == v.value_at(j as int),
{
    let s = (idx / 256) as int;
    let t = (j / 256) as int;
    let i = (idx % 256) as int;
    let k = (j % 256) as int;
    if value != 0 {
        let off = v.data.len() as int;
        let f = fresh_entry(off);
        let w = v.after_set(idx as int, value);
        lemma_coherent_segment(v, t);
        lemma_entry_after_set(v.index, v.index_file, s, f, t);
        lemma_decode_fill_words();
        assert(w.cached_index == s);
        assert(w.segment(t) == w.stored(t));
        if t * 8 + 8 <= v.index.len() {
            assert(w.stored(t) == v.stored(t));
            if v.stored(t).offset != ABSENT_OFFSET {
                lemma_present_entry(v, t);
                lemma_fresh_page(v.data, v.page_size as int, i, value, v.stored(t).offset as int, k);
                assert(w.value_at(j as int) == page_word(w.data, v.stored(t).offset as int, k));
            }
        } else {
            assert(w.stored(t).offset == ABSENT_OFFSET);
            assert(v.stored(t).offset == ABSENT_OFFSET);
        }
    }
}

} // verus!
