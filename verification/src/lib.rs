//! A sparse, segmented bitmap stored in growable byte buffers.
//!
//! The bitmap keeps one `u64` word per 64 bits.  Words are grouped into
//! segments of 256 words; a segment gets a page only when one of its words
//! becomes non-zero.  A page whose words all return to zero is marked absent
//! in the index; its bytes stay in the data buffer.  An index (`SegmentArray`) records, for every segment, where its
//! page lives in a data buffer (`SegmentContainer`) and how many of its words
//! are zero.  `Bitmap` keeps the last word it changed and writes it below
//! when another word changes or on `flush`.

pub mod bitmap;
pub mod storage;

pub use bitmap::{batchbitmap, laws, BatchBitmapI, BitmapI, Flushable};
pub use bitmap::bitmap::Bitmap;
pub use storage::mmap;
pub use storage::{
    BaseResource, ByteBufferResource, ByteBufferResource1, ByteOperat, HeadFields, MappedResource,
};
