pub mod bytebuffer;
pub mod bytebuffer_resource;
pub mod segment_array;
pub mod segment_container;

pub use bytebuffer::ByteBuffer;
pub use bytebuffer_resource::ByteBufferResource;
pub use segment_array::{SegmentArray, SegmentEntry};
pub use segment_container::{SegmentContainer, SnapshotSegmentContainer};
