pub mod batchbitmap;
pub mod bitmap;
pub mod laws;

use vstd::prelude::*;

verus! {

/// Something whose pending writes can be pushed down to its storage.
pub trait Flushable {
    /// Whether pending writes can be pushed down in this state.
    spec fn flush_allowed(&self) -> bool;

    fn flush(&mut self) -> Result<(), ()>
        requires
            old(self).flush_allowed(),
    ;
}

/// `u64` words addressed by index, all zero at first.  A `set` makes the
/// word at its index read back as the value set; what it does to the other
/// words each implementation states (a remembered entry can make it change
/// more than one word).
pub trait BatchBitmapI {
    /// The invariant every operation keeps.
    spec fn batch_inv(&self) -> bool;

    /// Whether `set(idx, value)` can run in this state.
    spec fn set_allowed(&self, idx: usize, value: u64) -> bool;

    /// The word that `get(idx)` returns in this state.
    spec fn word_at(&self, idx: usize) -> u64;

    /// Stores `value` at `idx`; reading `idx` afterwards gives `value`.
    fn set(&mut self, idx: usize, value: u64)
        requires
            old(self).batch_inv(),
            old(self).set_allowed(idx, value),
        ensures
            final(self).batch_inv(),
            final(self).word_at(idx) == value,
    ;

    /// The word at `idx`; reading changes nothing.
    fn get(&mut self, idx: usize) -> (r: u64)
        requires
            old(self).batch_inv(),
        ensures
            r == old(self).word_at(idx),
            final(self).batch_inv(),
            forall|j: usize| #[trigger] final(self).word_at(j) == old(self).word_at(j),
    ;
}

/// Bits addressed by index, all clear at first.  A `set` makes the bit at
/// its index read back as the value set; what it does to the other bits
/// each implementation states.
pub trait BitmapI: Flushable {
    /// The invariant every operation keeps.
    spec fn bitmap_inv(&self) -> bool;

    /// Whether `set(idx, value)` can run in this state.
    spec fn bit_set_allowed(&self, idx: usize, value: bool) -> bool;

    /// The bit that `get(idx)` returns in this state.
    spec fn bit_at(&self, idx: usize) -> bool;

    /// Sets bit `idx` to `value`; reading `idx` afterwards gives `value`.
    fn set(&mut self, idx: usize, value: bool)
        requires
            old(self).bitmap_inv(),
            old(self).bit_set_allowed(idx, value),
        ensures
            final(self).bitmap_inv(),
            final(self).bit_at(idx) == value,
    ;

    /// The bit at `idx`; reading changes nothing.
    fn get(&mut self, idx: usize) -> (r: bool)
        requires
            old(self).bitmap_inv(),
        ensures
            r == old(self).bit_at(idx),
            final(self).bitmap_inv(),
            forall|j: usize| #[trigger] final(self).bit_at(j) == old(self).bit_at(j),
    ;
}

} // verus!
