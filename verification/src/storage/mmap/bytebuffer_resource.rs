use vstd::prelude::*;

verus! {

use crate::storage::BaseResource;
use super::bytebuffer::{ByteBuffer, MAP_PAGE_SIZE, page_rest, page_end};

/// Byte `i` of a file: zero past its end, as a mapping shows it.
pub open spec fn file_byte(file: Seq<u8>, i: int) -> u8 {
    if 0 <= i < file.len() {
        file[i]
    } else {
        0u8
    }
}

/// The first `size` bytes of a mapping made again over a file: the bytes
/// mapped before keep what was written to them; the others are the file's.
pub open spec fn remapped(old: Seq<u8>, file: Seq<u8>, size: nat) -> Seq<u8> {
    Seq::new(size, |i: int| if i < old.len() { old[i] } else { file_byte(file, i) })
}

/// The file after a mapping of `size` bytes: a writable mapping first sets
/// the file's length to `size`, cutting what lies past it.
pub open spec fn file_after_map(file: Seq<u8>, size: nat, readonly: bool) -> Seq<u8> {
    if !readonly && file.len() > size {
        file.subrange(0, size as int)
    } else {
        file
    }
}

/// The bytes from `size` to the end of its page, as the file holds them.
pub open spec fn page_tail(file: Seq<u8>, size: nat) -> Seq<u8> {
    Seq::new(page_rest(size as int) as nat, |k: int| file_byte(file, size + k))
}

/// How far from its start a mapping of `size` bytes over `file` can be
/// read: a writable mapping first makes the file `size` bytes long, so all
/// of its pages; a read-only one faults on its pages that lie wholly past
/// the file's end.
pub open spec fn readable_after_map(file: Seq<u8>, size: nat, readonly: bool) -> nat {
    if readonly && page_end(file.len() as int) < page_end(size as int) {
        page_end(file.len() as int) as nat
    } else {
        page_end(size as int) as nat
    }
}

/// The content of a resource named by a file path, held in a buffer that
/// grows on demand and is absent until the first mapping.  The bytes the file
/// held when the resource was made are handed in by the caller, which opens
/// and writes the file itself; a mapping shows them past what was mapped
/// before.
pub struct ByteBufferResource {
    pub(crate) filepath: String,
    pub(crate) content_buffer: Option<ByteBuffer>,
    pub len: usize,
    pub(crate) is_readonly: bool,
    pub(crate) file: Vec<u8>,
}

impl View for ByteBufferResource {
    type V = Seq<u8>;

    closed spec fn view(&self) -> Seq<u8> {
        match self.content_buffer {
            Some(b) => b@,
            None => Seq::empty(),
        }
    }
}

impl ByteBufferResource {
    /// The length recorded for the mapped content.
    pub closed spec fn length(&self) -> usize {
        self.len
    }

    /// The path of the file behind the resource.
    pub closed spec fn path(&self) -> Seq<char> {
        self.filepath@
    }

    /// The bytes of the file behind the resource that a new mapping shows:
    /// the file as it was handed in, cut where a writable mapping set its
    /// length.
    pub closed spec fn file(&self) -> Seq<u8> {
        self.file@
    }

    /// The bytes after the mapped ones, up to the end of the last page.
    pub closed spec fn tail(&self) -> Seq<u8> {
        match self.content_buffer {
            Some(b) => b.tail(),
            None => Seq::empty(),
        }
    }

    /// How many bytes from the start of the mapping can be read without a
    /// fault.
    pub closed spec fn readable(&self) -> nat {
        match self.content_buffer {
            Some(b) => b.readable_len(),
            None => 0,
        }
    }

    /// Whether the resource is mapped read-only.
    pub closed spec fn readonly(&self) -> bool {
        self.is_readonly
    }

    /// Whether a buffer has been mapped yet.
    pub closed spec fn is_mapped(&self) -> bool {
        self.content_buffer is Some
    }

    /// The recorded length is the length of the mapped bytes, and the mapped
    /// buffer has the resource's access mode.
    pub closed spec fn wf(&self) -> bool {
        match self.content_buffer {
            Some(b) => {
                &&& b@.len() == self.len
                &&& b.readonly() == self.is_readonly
                &&& !self.is_readonly ==> b.readable_len() == b.reach().len()
            },
            None => self.len == 0,
        }
    }

    /// A resource over a file that holds no bytes yet.
    pub fn new(filepath: String, is_readonly: bool) -> (r: Self)
        ensures
            r.wf(),
            r@ == Seq::<u8>::empty(),
            r.length() == 0,
            !r.is_mapped(),
            r.readonly() == is_readonly,
            r.path() == filepath@,
            r.file() == Seq::<u8>::empty(),
    {
        ByteBufferResource { filepath, content_buffer: None, len: 0, is_readonly, file: Vec::new() }
    }

    /// A resource over a file that holds `file_bytes`.
    pub fn with_file_bytes(filepath: String, is_readonly: bool, file_bytes: Vec<u8>) -> (r: Self)
        ensures
            r.wf(),
            r@ == Seq::<u8>::empty(),
            r.length() == 0,
            !r.is_mapped(),
            r.readonly() == is_readonly,
            r.path() == filepath@,
            r.file() == file_bytes@,
    {
        ByteBufferResource { filepath, content_buffer: None, len: 0, is_readonly, file: file_bytes }
    }

    /// The path of the file behind the resource.
    pub fn filepath(&self) -> (r: &str)
        ensures
            r@ == self.path(),
    {
        self.filepath.as_str()
    }

    /// The length recorded for the mapped content.
    pub fn len(&self) -> (r: usize)
        ensures
            r == self.length(),
    {
        self.len
    }

    /// In a well-formed resource the recorded length is the number of
    /// mapped bytes, a non-empty resource is mapped, and a writable one can
    /// be read in full.
    pub proof fn lemma_wf(&self)
        requires
            self.wf(),
        ensures
            self.length() == self@.len(),
            self.length() > 0 ==> self.is_mapped(),
            !self.readonly() ==> self.readable() >= self@.len() + self.tail().len(),
    {
    }

    /// Maps the first `min_size` bytes of the resource if less is mapped.
    fn map_content_buffer(&mut self, min_size: usize)
        ensures
            final(self).readonly() == old(self).readonly(),
            final(self).path() == old(self).path(),
            old(self).length() < min_size ==> {
                &&& final(self)@ == remapped(old(self)@, old(self).file(), min_size as nat)
                &&& final(self).file() == file_after_map(old(self).file(), min_size as nat, old(self).readonly())
                &&& final(self).tail() == page_tail(final(self).file(), min_size as nat)
                &&& final(self).readable() == readable_after_map(old(self).file(), min_size as nat, old(self).readonly())
                &&& final(self).length() == min_size
                &&& final(self).is_mapped()
                &&& final(self).wf()
            },
            old(self).length() >= min_size ==> {
                &&& final(self)@ == old(self)@
                &&& final(self).file() == old(self).file()
                &&& final(self).tail() == old(self).tail()
                &&& final(self).readable() == old(self).readable()
                &&& final(self).length() == old(self).length()
                &&& final(self).is_mapped() == old(self).is_mapped()
                &&& final(self).wf() == old(self).wf()
            },
    {
        if self.len < min_size {
            let mut content = match self.content_buffer.take() {
                Some(b) => b.into_mapped(),
                None => Vec::new(),
            };
            let ghost old_bytes = old(self)@;
            let ghost file = old(self).file();
            let ghost target = remapped(old_bytes, file, min_size as nat);
            if content.len() > min_size {
                content.truncate(min_size);
            }
            assert(forall|i: int| 0 <= i < content@.len() ==> #[trigger] content@[i] == target[i]);
            while content.len() < min_size
                invariant
                    content@.len() <= min_size,
                    content@.len() >= old_bytes.len() || content@.len() >= min_size,
                    self.file@ == file,
                    target == remapped(old_bytes, file, min_size as nat),
                    forall|i: int| 0 <= i < content@.len() ==> #[trigger] content@[i] == target[i],
                decreases min_size - content@.len(),
            {
                let i = content.len();
                let b = if i < self.file.len() {
                    self.file[i]
                } else {
                    0u8
                };
                content.push(b);
            }
            assert(content@ =~= target);
            if !self.is_readonly && self.file.len() > min_size {
                self.file.truncate(min_size);
            }
            assert(self.file@ =~= file_after_map(file, min_size as nat, self.is_readonly));
            let rest = if min_size % MAP_PAGE_SIZE == 0 {
                0
            } else {
                MAP_PAGE_SIZE - min_size % MAP_PAGE_SIZE
            };
            let ghost readable = readable_after_map(file, min_size as nat, self.is_readonly);
            let avail = if self.file.len() > min_size {
                self.file.len() - min_size
            } else {
                0
            };
            let ghost wanted = page_tail(self.file@, min_size as nat);
            let mut tail: Vec<u8> = Vec::new();
            while tail.len() < rest
                invariant
                    tail@.len() <= rest,
                    rest == page_rest(min_size as int),
                    avail == if self.file@.len() > min_size { self.file@.len() - min_size } else { 0 },
                    wanted == page_tail(self.file@, min_size as nat),
                    forall|k: int| 0 <= k < tail@.len() ==> #[trigger] tail@[k] == wanted[k],
                decreases rest - tail@.len(),
            {
                let k = tail.len();
                let b = if k < avail {
                    self.file[min_size + k]
                } else {
                    0u8
                };
                tail.push(b);
            }
            assert(tail@ =~= wanted);
            self.content_buffer = Some(ByteBuffer::with_tail(content, tail, Ghost(readable), self.is_readonly));
            self.len = min_size;
        }
    }

    /// Sets `size` bytes from `pos` on to `value`.
    pub fn fill(&mut self, pos: usize, size: usize, value: u8)
        requires
            old(self).wf(),
            old(self).is_mapped(),
            !old(self).readonly(),
            pos + size <= old(self)@.len(),
        ensures
            final(self).wf(),
            final(self).is_mapped(),
            final(self).readonly() == old(self).readonly(),
            final(self).length() == old(self).length(),
            final(self).path() == old(self).path(),
            final(self).file() == old(self).file(),
            final(self).tail() == old(self).tail(),
            final(self).readable() == old(self).readable(),
            final(self)@.len() == old(self)@.len(),
            forall|i: int|
                0 <= i < old(self)@.len() ==> #[trigger] final(self)@[i] == if pos <= i < pos + size {
                    value
                } else {
                    old(self)@[i]
                },
    {
        self.content_mut().fill(pos, size, value);
    }

    /// The mapped buffer, if any, taking the resource apart.
    pub fn into_content_buffer(self) -> (r: Option<ByteBuffer>)
        ensures
            self.is_mapped() <==> r is Some,
            r matches Some(b) ==> b@ == self@ && b.tail() == self.tail() && b.readable_len() == self.readable()
                && (self.wf() ==> b.readonly() == self.readonly()),
    {
        self.content_buffer
    }

    /// The mapped buffer.
    pub(crate) fn content(&self) -> (r: &ByteBuffer)
        requires
            self.is_mapped(),
        ensures
            r@ == self@,
            r.tail() == self.tail(),
            r.readable_len() == self.readable(),
            r.readonly() == self.readonly() || !self.wf(),
    {
        self.content_buffer.as_ref().unwrap()
    }

    /// The mapped buffer, for writing.
    pub(crate) fn content_mut(&mut self) -> (r: &mut ByteBuffer)
        requires
            old(self).is_mapped(),
        ensures
            r@ == old(self)@,
            r.tail() == old(self).tail(),
            r.readable_len() == old(self).readable(),
            old(self).wf() ==> r.readonly() == old(self).readonly(),
            final(self)@ == final(r)@,
            final(self).tail() == final(r).tail(),
            final(self).readable() == final(r).readable_len(),
            final(self).file() == old(self).file(),
            final(self).path() == old(self).path(),
            final(self).length() == old(self).length(),
            final(self).readonly() == old(self).readonly(),
            final(self).is_mapped(),
            final(self).wf() == (final(r)@.len() == old(self).length() && final(r).readonly()
                == old(self).readonly() && (!old(self).readonly() ==> final(r).readable_len()
                == final(r).reach().len())),
    {
        self.content_buffer.as_mut().unwrap()
    }
}

impl BaseResource for ByteBufferResource {
    type BufferType = ByteBuffer;

    /// Maps the whole recorded length; the content is already mapped, so
    /// nothing changes.
    fn map_content(&mut self)
        ensures
            final(self)@ == old(self)@,
            final(self).length() == old(self).length(),
            final(self).readonly() == old(self).readonly(),
            final(self).is_mapped() == old(self).is_mapped(),
            final(self).wf() == old(self).wf(),
            final(self).path() == old(self).path(),
            final(self).file() == old(self).file(),
            final(self).tail() == old(self).tail(),
            final(self).readable() == old(self).readable(),
    {
        let len = self.len;
        self.map_content_buffer(len);
    }

    /// Grows the mapped content to `size` bytes; it never shrinks.  The new
    /// bytes are the file's.
    fn resize(&mut self, size: usize)
        ensures
            final(self).readonly() == old(self).readonly(),
            final(self).path() == old(self).path(),
            old(self).length() < size ==> {
                &&& final(self)@ == remapped(old(self)@, old(self).file(), size as nat)
                &&& final(self).file() == file_after_map(old(self).file(), size as nat, old(self).readonly())
                &&& final(self).tail() == page_tail(final(self).file(), size as nat)
                &&& final(self).readable() == readable_after_map(old(self).file(), size as nat, old(self).readonly())
                &&& final(self).length() == size
                &&& final(self).is_mapped()
                &&& final(self).wf()
            },
            old(self).length() >= size ==> {
                &&& final(self)@ == old(self)@
                &&& final(self).file() == old(self).file()
                &&& final(self).tail() == old(self).tail()
                &&& final(self).readable() == old(self).readable()
                &&& final(self).length() == old(self).length()
                &&& final(self).is_mapped() == old(self).is_mapped()
                &&& final(self).wf() == old(self).wf()
            },
    {
        self.map_content_buffer(size);
    }

    /// The content lives in this buffer; writing it to the file behind the
    /// resource, and syncing that file, is done where the file is opened.
    fn force(&self) {
    }
}

} // verus!
