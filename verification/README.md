# jobitmap

A sparse bitmap kept in growable byte buffers, with its behaviour stated and
proved in Verus.

- `src/storage`: byte buffers (`ByteBuffer`, `ByteBufferResource`), the
  index of segment entries (`SegmentArray`), and the page container
  (`SegmentContainer`, `SnapshotSegmentContainer`).  Words are little-endian.
- `src/bitmap`: the word store `BatchBitmap` (segments of 256 words; a
  segment gets a page when it first gets a non-zero word, and keeps it), the
  bit store `Bitmap` over it, and
  `laws.rs`, the properties that span operations.
- `app`: the program and the file layer: opening files, mapping them with
  `memmap2`, and writing a resource's bytes to its file.
