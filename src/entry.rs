use vstd::prelude::*;
use crate::header::Metadata;

verus! {

/// Where to seek to within an entry's payload.
#[derive(Debug, Clone, Copy, PartialEq, Eq)]
pub enum SeekFrom {
    /// That many bytes from the start.
    Start(u64),
    /// That many bytes from the end (negative: before it).
    End(i64),
    /// That many bytes from the current position.
    Current(i64),
}

/// `x` brought into `[0, size]`.
pub open spec fn clamp(x: int, size: int) -> int {
    if x < 0 {
        0
    } else if x > size {
        size
    } else {
        x
    }
}

/// The position that a seek leads to, from `pos` in a payload of `size` bytes.
pub open spec fn seek_target(size: int, pos: int, to: SeekFrom) -> int {
    match to {
        SeekFrom::Start(n) => clamp(n as int, size),
        SeekFrom::End(d) => clamp(size + d, size),
        SeekFrom::Current(d) => clamp(pos + d, size),
    }
}

/// A read-only view of one archived file: its name, its metadata, and its
/// payload, read from a position that moves forward as bytes are read.
#[derive(Debug)]
pub struct Entry {
    path: String,
    header: Metadata,
    file_offset: u128,
    data: Vec<u8>,
    pos: usize,
}

impl Entry {
    pub closed spec fn spec_path(&self) -> Seq<char> {
        self.path@
    }

    pub closed spec fn spec_header(&self) -> Metadata {
        self.header
    }

    /// Where the payload starts in the archive's file.
    pub closed spec fn spec_file_offset(&self) -> u128 {
        self.file_offset
    }

    /// The payload's bytes.
    pub closed spec fn payload(&self) -> Seq<u8> {
        self.data@
    }

    /// How many payload bytes lie before the read position.
    pub closed spec fn position(&self) -> int {
        self.pos as int
    }

    pub open spec fn wf(&self) -> bool {
        &&& self.payload().len() == self.spec_header().size
        &&& 0 <= self.position() <= self.payload().len()
    }

    pub(crate) fn new(path: String, header: Metadata, file_offset: u128, data: Vec<u8>) -> (r:
        Self)
        requires
            data@.len() == header.size,
        ensures
            r.wf(),
            r.spec_path() == path@,
            r.spec_header() == header,
            r.spec_file_offset() == file_offset,
            r.payload() == data@,
            r.position() == 0,
    {
        Entry { path, header, file_offset, data, pos: 0 }
    }

    /// The name of the file within the archive.
    pub fn path(&self) -> (r: &str)
        ensures
            r@ == self.spec_path(),
    {
        self.path.as_str()
    }

    /// The metadata of the archived file.
    pub fn header(&self) -> (r: &Metadata)
        ensures
            *r == self.spec_header(),
    {
        &self.header
    }

    /// Where the payload starts in the archive's file.
    pub fn file_offset(&self) -> (r: u128)
        ensures
            r == self.spec_file_offset(),
    {
        self.file_offset
    }

    /// Reads up to `max` bytes from the read position on, and moves past them;
    /// nothing once the payload is used up.
    pub fn read(&mut self, max: usize) -> (r: Vec<u8>)
        requires
            old(self).wf(),
        ensures
            final(self).wf(),
            r@ == old(self).payload().subrange(
                old(self).position(),
                if old(self).payload().len() - old(self).position() < max {
                    old(self).payload().len() as int
                } else {
                    old(self).position() + max
                },
            ),
            final(self).position() == old(self).position() + r@.len(),
            final(self).payload() == old(self).payload(),
            final(self).spec_header() == old(self).spec_header(),
            final(self).spec_path() == old(self).spec_path(),
            final(self).spec_file_offset() == old(self).spec_file_offset(),
    {
        let end = if self.data.len() - self.pos < max {
            self.data.len()
        } else {
            self.pos + max
        };
        let mut r: Vec<u8> = Vec::new();
        let mut i = self.pos;
        while i < end
            invariant
                self.pos <= i <= end <= self.data@.len(),
                r@ == self.data@.subrange(self.pos as int, i as int),
            decreases end - i,
        {
            r.push(self.data[i]);
            assert(r@ =~= self.data@.subrange(self.pos as int, i + 1));
            i = i + 1;
        }
        self.pos = end;
        r
    }

    /// Reads all bytes from the read position to the end of the payload.
    pub fn read_to_end(&mut self) -> (r: Vec<u8>)
        requires
            old(self).wf(),
        ensures
            final(self).wf(),
            r@ == old(self).payload().skip(old(self).position()),
            final(self).position() == old(self).payload().len(),
            final(self).payload() == old(self).payload(),
            final(self).spec_header() == old(self).spec_header(),
            final(self).spec_path() == old(self).spec_path(),
    {
        let n = self.data.len() - self.pos;
        self.read(n)
    }

    /// Moves the read position, kept within the payload, and returns it. Seeking
    /// past the end leaves nothing to read.
    pub fn seek(&mut self, to: SeekFrom) -> (r: u64)
        requires
            old(self).wf(),
            old(self).payload().len() <= u64::MAX,
        ensures
            final(self).wf(),
            final(self).position() == seek_target(
                old(self).payload().len() as int,
                old(self).position(),
                to,
            ),
            r == final(self).position(),
            final(self).payload() == old(self).payload(),
            final(self).spec_header() == old(self).spec_header(),
            final(self).spec_path() == old(self).spec_path(),
            final(self).spec_file_offset() == old(self).spec_file_offset(),
    {
        let size = self.data.len() as i128;
        let target: i128 = match to {
            SeekFrom::Start(n) => n as i128,
            SeekFrom::End(d) => size + d as i128,
            SeekFrom::Current(d) => self.pos as i128 + d as i128,
        };
        let p: i128 = if target < 0 {
            0
        } else if target > size {
            size
        } else {
            target
        };
        self.pos = p as usize;
        p as u64
    }
}

} // verus!
