use vstd::prelude::*;
use crate::codec::{
    decode_u128, encode_u128, le_bytes, lemma_le_bytes_of_value, lemma_u128_round_trip, pow256,
};
use crate::error::{
    DecodeError, ErrorKind, TocEntryNotFoundReason, error_of, is_not_found, is_path_conflict,
    is_unsafe_path,
};
use crate::safepath::{SafePathBuf, is_safe_name};
use crate::entries::Entries;
use crate::entry::Entry;
use crate::header::{
    Metadata, Parsed, decode_metadata, encode_metadata, field, lemma_metadata_round_trip,
    lemma_parse_metadata_prefix, parse_metadata,
};
use crate::toc::{TOC, TocEntry, has_name, lemma_parse_toc_bytes, parse_toc, toc_bytes, toc_wf};

verus! {

/// The number in the first sixteen bytes of every archive.
pub const MAGIC_NUMBER: u128 = 0x169f57e6bbb98f2d139ee9a294f9cd3c;

/// Where the member records begin: after the magic number and the table offset.
pub const DATA_START: u128 = 32;

/// The first thirty-two bytes of an archive whose table starts at `toc_offset`.
pub open spec fn header_bytes(toc_offset: u128) -> Seq<u8> {
    le_bytes(MAGIC_NUMBER as nat, 16) + le_bytes(toc_offset as nat, 16)
}

/// The member record read from the file's bytes at `o`.
#[verifier::opaque]
pub open spec fn record_at(d: Seq<u8>, o: int) -> Parsed<Metadata> {
    parse_metadata(d.skip(o))
}

/// A member record starts at `o`: its metadata, then `size` payload bytes, all
/// after the header and before `end`.
pub open spec fn member_ok(d: Seq<u8>, o: int, end: int) -> bool {
    32 <= o <= d.len() && match record_at(d, o) {
        Parsed::Done(m, k) => o + k + m.size <= end,
        _ => false,
    }
}

/// Every entry of the table names a member record that ends before `end`.
pub open spec fn members_ok(d: Seq<u8>, es: Seq<TocEntry>, end: int) -> bool {
    forall|i: int| 0 <= i < es.len() ==> member_ok(d, #[trigger] es[i].1 as int, end)
}

/// The metadata record and the payload of the member whose record starts at `o`.
pub open spec fn member_at(d: Seq<u8>, o: int) -> (Metadata, Seq<u8>)
    recommends
        member_ok(d, o, d.len() as int),
{
    match record_at(d, o) {
        Parsed::Done(m, k) => (m, d.subrange(o + k, o + k + m.size)),
        _ => arbitrary(),
    }
}

/// What opening an archive whose file holds `d` gives: its table and the table
/// offset, or the kind of error.
pub open spec fn open_outcome(d: Seq<u8>) -> Result<(Seq<TocEntry>, u128), ErrorKind> {
    if d.len() < 16 {
        Err(ErrorKind::Decode(DecodeError::UnexpectedEof))
    } else if field(d, 0, 16) != MAGIC_NUMBER {
        Err(ErrorKind::BadMagicNumber(field(d, 0, 16) as u128))
    } else if d.len() < 32 {
        Err(ErrorKind::Decode(DecodeError::UnexpectedEof))
    } else if field(d, 16, 16) >= d.len() {
        Err(
            ErrorKind::TocEntryNotFound(
                TocEntryNotFoundReason::TocOffsetPastEOF(
                    field(d, 16, 16) as u128,
                    d.len() as u128,
                ),
            ),
        )
    } else {
        let off = field(d, 16, 16);
        match parse_toc(d.skip(off)) {
            Parsed::Short => Err(
                ErrorKind::TocEntryNotFound(
                    TocEntryNotFoundReason::CouldNotDeserialiseToc(DecodeError::UnexpectedEof),
                ),
            ),
            Parsed::Invalid => Err(
                ErrorKind::TocEntryNotFound(
                    TocEntryNotFoundReason::CouldNotDeserialiseToc(DecodeError::InvalidData),
                ),
            ),
            Parsed::Done(es, k) => if off + k < d.len() {
                Err(ErrorKind::DataPastToc((off + k) as u128, d.len() as u128))
            } else if off < 32 || !members_ok(d, es, off) {
                Err(ErrorKind::Decode(DecodeError::InvalidData))
            } else {
                Ok((es, off as u128))
            },
        }
    }
}

/// A record read from bytes takes at least its fixed part.
proof fn lemma_record_len(d: Seq<u8>, o: int)
    requires
        0 <= o <= d.len(),
    ensures
        record_at(d, o) matches Parsed::Done(m, k) ==> k >= 21 && o + k <= d.len(),
{
    reveal(record_at);
    if parse_metadata(d.skip(o)) is Done {
        crate::header::lemma_parse_metadata_bytes(d.skip(o));
    }
}

/// A member record is read the same way from any file with the same bytes
/// between the end of the header and `end`.
pub proof fn lemma_member_frame(d1: Seq<u8>, d2: Seq<u8>, o: int, end: int)
    requires
        member_ok(d1, o, end),
        end <= d1.len(),
        end <= d2.len(),
        d1.subrange(32, end) == d2.subrange(32, end),
    ensures
        member_ok(d2, o, end),
        member_at(d1, o) == member_at(d2, o),
{
    reveal(record_at);
    lemma_record_len(d1, o);
    if let Parsed::Done(m, k) = parse_metadata(d1.skip(o)) {
        assert(d1.skip(o).subrange(0, end - o) =~= d1.subrange(32, end).subrange(o - 32, end - 32));
        assert(d2.skip(o).subrange(0, end - o) =~= d2.subrange(32, end).subrange(o - 32, end - 32));
        lemma_parse_metadata_prefix(d1.skip(o), d2.skip(o), end - o);
        assert(d1.subrange(o + k, o + k + m.size) =~= d1.subrange(32, end).subrange(
            o + k - 32,
            o + k + m.size - 32,
        ));
        assert(d2.subrange(o + k, o + k + m.size) =~= d2.subrange(32, end).subrange(
            o + k - 32,
            o + k + m.size - 32,
        ));
    }
}

#[via_fn]
proof fn lemma_walk_decreases(d: Seq<u8>, pos: int) {
    if 0 <= pos <= d.len() {
        lemma_record_len(d, pos);
    }
}

/// The offsets of the member records found by reading them one after another
/// from `pos`: reading stops where the bytes end inside a record or a record's
/// payload runs past the end of the file, and fails where a record is invalid.
pub open spec fn walk_from(d: Seq<u8>, pos: int) -> Result<Seq<u128>, DecodeError>
    decreases d.len() - pos,
    via lemma_walk_decreases
{
    if pos < 0 || pos > d.len() {
        Ok(seq![])
    } else {
        match record_at(d, pos) {
            Parsed::Short => Ok(seq![]),
            Parsed::Invalid => Err(DecodeError::InvalidData),
            Parsed::Done(m, k) => if pos + k + m.size > d.len() {
                Ok(seq![])
            } else {
                match walk_from(d, pos + k + m.size) {
                    Ok(rest) => Ok(seq![pos as u128] + rest),
                    Err(e) => Err(e),
                }
            },
        }
    }
}

/// `found` followed by what a walk gives.
pub open spec fn walk_after(found: Seq<u128>, w: Result<Seq<u128>, DecodeError>) -> Result<
    Seq<u128>,
    DecodeError,
> {
    match w {
        Ok(rest) => Ok(found + rest),
        Err(e) => Err(e),
    }
}

/// Tells whether a member record starts at `o` and ends before `end`.
fn check_member(d: &Vec<u8>, o: u128, end: usize) -> (r: bool)
    requires
        end <= d@.len(),
    ensures
        r == member_ok(d@, o as int, end as int),
{
    reveal(record_at);
    if o < DATA_START || o > d.len() as u128 {
        return false;
    }
    match decode_metadata(d, o as usize) {
        Ok((m, p)) => p <= end && m.size <= (end - p) as u128,
        Err(_) => false,
    }
}

/// The member record at `o`, known to be there, and where its payload starts.
fn read_record(d: &Vec<u8>, o: usize, end: usize) -> (r: (Metadata, usize))
    requires
        member_ok(d@, o as int, end as int),
        end <= d@.len(),
    ensures
        record_at(d@, o as int) == Parsed::Done(r.0, (r.1 - o) as nat),
        o < r.1,
        r.1 + r.0.size <= end,
{
    reveal(record_at);
    let res = decode_metadata(d, o);
    match res {
        Ok(x) => x,
        Err(_) => {
            proof {
                assert(false);
            }
            (
                Metadata {
                    file_type: crate::header::FileType::File,
                    size: 0,
                    permissions: 0,
                    modified: None,
                    accessed: None,
                    created: None,
                },
                end,
            )
        },
    }
}

/// The offsets of the member records in the file bytes `d`, found by reading
/// them one after another from the end of the header, whatever the table says
/// or whether there is one: reading stops where the bytes end inside a record
/// or a record's payload runs past the end, and fails on an invalid record.
pub fn walk_image(d: &Vec<u8>) -> (r: crate::error::Result<Vec<u128>>)
    ensures
        (match walk_from(d@, 32) {
            Ok(s) => r matches Ok(v) && v@ == s,
            Err(de) => r matches Err(e) && e.kind == ErrorKind::Decode(de),
        }),
{
    let len = d.len();
    let mut offsets: Vec<u128> = Vec::new();
    if len < 32 {
        assert(offsets@ =~= seq![]);
        return Ok(offsets);
    }
    let mut pos: usize = 32;
    loop
        invariant
            32 <= pos <= len,
            len == d@.len(),
            walk_from(d@, 32) == walk_after(offsets@, walk_from(d@, pos as int)),
        decreases len - pos,
    {
        proof {
            lemma_record_len(d@, pos as int);
            reveal(record_at);
        }
        match decode_metadata(d, pos) {
            Ok((m, p)) => {
                if m.size > (len - p) as u128 {
                    assert(offsets@ + seq![] =~= offsets@);
                    return Ok(offsets);
                }
                let ghost before = offsets@;
                offsets.push(pos as u128);
                pos = p + m.size as usize;
                proof {
                    if let Ok(rest) = walk_from(d@, pos as int) {
                        assert(before + (seq![offsets@.last()] + rest) =~= offsets@ + rest);
                    }
                }
            },
            Err(DecodeError::UnexpectedEof) => {
                assert(offsets@ + seq![] =~= offsets@);
                return Ok(offsets);
            },
            Err(DecodeError::InvalidData) => {
                return Err(
                    error_of(ErrorKind::Decode(DecodeError::InvalidData), "invalid member record"),
                );
            },
        }
    }
}

/// Appends the bytes of `b` to `out`.
fn push_all(out: &mut Vec<u8>, b: &Vec<u8>)
    ensures
        final(out)@ == old(out)@ + b@,
{
    let mut i: usize = 0;
    while i < b.len()
        invariant
            out@ == old(out)@ + b@.take(i as int),
            i <= b@.len(),
        decreases b@.len() - i,
    {
        out.push(b[i]);
        assert(out@ =~= old(out)@ + b@.take(i + 1));
        i = i + 1;
    }
    assert(b@.take(i as int) =~= b@);
}

/// Writes the bytes of `b` over those of `d` from `at` on.
fn overwrite(d: &mut Vec<u8>, at: usize, b: &Vec<u8>)
    requires
        at + b@.len() <= old(d)@.len(),
    ensures
        final(d)@ == old(d)@.subrange(0, at as int) + b@ + old(d)@.skip(at + b@.len()),
{
    let mut j: usize = 0;
    while j < b.len()
        invariant
            d@.len() == old(d)@.len(),
            at + b@.len() <= d@.len(),
            d@ =~= old(d)@.subrange(0, at as int) + b@.take(j as int) + old(d)@.skip(at + j),
            j <= b@.len(),
        decreases b@.len() - j,
    {
        let n = d.len();
        assert(at + j < n);
        d.set(at + j, b[j]);
        assert(d@ =~= old(d)@.subrange(0, at as int) + b@.take(j + 1) + old(d)@.skip(at + j + 1));
        j = j + 1;
    }
    assert(b@.take(j as int) =~= b@);
}

/// A copy of `d[a..b]`.
fn copy_range(d: &Vec<u8>, a: usize, b: usize) -> (r: Vec<u8>)
    requires
        a <= b <= d@.len(),
    ensures
        r@ == d@.subrange(a as int, b as int),
{
    let mut r: Vec<u8> = Vec::new();
    let mut i = a;
    while i < b
        invariant
            a <= i <= b <= d@.len(),
            r@ == d@.subrange(a as int, i as int),
        decreases b - i,
    {
        r.push(d[i]);
        assert(r@ =~= d@.subrange(a as int, i + 1));
        i = i + 1;
    }
    r
}

/// An archive: the bytes of its file, with the table of contents read from them.
///
/// The file holds the magic number, the table offset, the member records, and
/// the table at that offset, running to the end of the file.
#[derive(Debug)]
pub struct Archive {
    path: String,
    toc: TOC,
    toc_offset: u128,
    data: Vec<u8>,
}

impl Archive {
    /// The table of contents as entries in order.
    pub closed spec fn entries(&self) -> Seq<TocEntry> {
        self.toc@
    }

    /// Where the archive's file is.
    pub closed spec fn spec_path(&self) -> Seq<char> {
        self.path@
    }

    pub closed spec fn spec_toc_offset(&self) -> u128 {
        self.toc_offset
    }

    /// The bytes of the archive's file.
    pub closed spec fn image(&self) -> Seq<u8> {
        self.data@
    }

    /// The file is laid out as the type describes, and the table's entries name
    /// member records before the table.
    pub open spec fn wf(&self) -> bool {
        let d = self.image();
        let off = self.spec_toc_offset();
        &&& 32 <= off <= d.len()
        &&& d.subrange(0, 32) == header_bytes(off)
        &&& d.skip(off as int) == toc_bytes(self.entries())
        &&& toc_wf(self.entries())
        &&& members_ok(d, self.entries(), off as int)
    }

    /// Makes an empty archive for the file at `path`. Writing its bytes replaces
    /// whatever the file held.
    pub fn create(path: String) -> (r: Self)
        ensures
            r.wf(),
            r.spec_path() == path@,
            r.entries() == Seq::<TocEntry>::empty(),
            r.spec_toc_offset() == 32,
            r.image() == header_bytes(32) + toc_bytes(Seq::<TocEntry>::empty()),
    {
        let toc = TOC::new();
        let mut data = encode_u128(MAGIC_NUMBER);
        let mut off = encode_u128(DATA_START);
        data.append(&mut off);
        toc.encode(&mut data);
        proof {
            lemma_u128_round_trip(MAGIC_NUMBER);
            lemma_u128_round_trip(DATA_START);
            assert(data@.subrange(0, 32) =~= header_bytes(32));
            assert(data@.skip(32) =~= toc_bytes(toc@));
        }
        Archive { path, toc, toc_offset: DATA_START, data }
    }

    /// Where the archive's file is.
    pub fn path(&self) -> (r: &str)
        ensures
            r@ == self.spec_path(),
    {
        self.path.as_str()
    }

    /// The table offset.
    pub fn toc_offset(&self) -> (r: u128)
        ensures
            r == self.spec_toc_offset(),
    {
        self.toc_offset
    }

    /// The bytes of the archive's file.
    pub fn bytes(&self) -> (r: &Vec<u8>)
        ensures
            r@ == self.image(),
    {
        &self.data
    }

    /// Reads the archive whose file at `path` holds `data`: fails with
    /// `BadMagicNumber` where the first sixteen bytes are not the magic number,
    /// with `TocEntryNotFound` where the table offset is past the end or the
    /// bytes there are no table, with `DataPastToc` where bytes follow the table,
    /// and with `Decode` where the file is too short or an entry names no member
    /// record before the table.
    pub fn open(path: String, data: Vec<u8>) -> (r: crate::error::Result<Archive>)
        ensures
            match open_outcome(data@) {
                Ok((es, off)) => r matches Ok(a) && a.wf() && a.entries() == es
                    && a.spec_toc_offset() == off && a.image() == data@ && a.spec_path()
                    == path@,
                Err(k) => r matches Err(e) && e.kind == k,
            },
    {
        let len = data.len();
        let magic = match decode_u128(&data, 0) {
            Some(m) => m,
            None => {
                return Err(
                    error_of(
                        ErrorKind::Decode(DecodeError::UnexpectedEof),
                        "file shorter than an archive header",
                    ),
                );
            },
        };
        if magic != MAGIC_NUMBER {
            return Err(error_of(ErrorKind::BadMagicNumber(magic), "bad magic number"));
        }
        let off = match decode_u128(&data, 16) {
            Some(o) => o,
            None => {
                return Err(
                    error_of(
                        ErrorKind::Decode(DecodeError::UnexpectedEof),
                        "file shorter than an archive header",
                    ),
                );
            },
        };
        if off >= len as u128 {
            return Err(
                error_of(
                    ErrorKind::TocEntryNotFound(
                        TocEntryNotFoundReason::TocOffsetPastEOF(off, len as u128),
                    ),
                    "table offset past the end of the file",
                ),
            );
        }
        let o = off as usize;
        let (toc, end) = match TOC::decode(&data, o) {
            Ok(x) => x,
            Err(e) => {
                return Err(
                    error_of(
                        ErrorKind::TocEntryNotFound(
                            TocEntryNotFoundReason::CouldNotDeserialiseToc(e),
                        ),
                        "could not read the table of contents",
                    ),
                );
            },
        };
        assert(parse_toc(data@.skip(o as int)) == Parsed::Done(toc@, (end - o) as nat));
        if end < len {
            return Err(
                error_of(
                    ErrorKind::DataPastToc(end as u128, len as u128),
                    "data past the end of the table of contents",
                ),
            );
        }
        if off < DATA_START {
            return Err(
                error_of(
                    ErrorKind::Decode(DecodeError::InvalidData),
                    "table offset inside the header",
                ),
            );
        }
        let mut i: usize = 0;
        while i < toc.len()
            invariant
                forall|j: int| 0 <= j < i ==> member_ok(data@, #[trigger] toc@[j].1 as int, o as int),
                i <= toc@.len(),
                o <= data@.len(),
                o as int == off as int,
                32 <= off,
                len == data@.len(),
                field(data@, 16, 16) == off as int,
                field(data@, 0, 16) == MAGIC_NUMBER,
                parse_toc(data@.skip(o as int)) == Parsed::Done(toc@, (end - o) as nat),
                o <= end,
                len <= end,
                toc.wf(),
            decreases toc@.len() - i,
        {
            let (_, mo) = toc.entry(i);
            if !check_member(&data, mo, o) {
                assert(!members_ok(data@, toc@, o as int));
                return Err(
                    error_of(
                        ErrorKind::Decode(DecodeError::InvalidData),
                        "table entry names no member record",
                    ),
                );
            }
            i = i + 1;
        }
        proof {
            let d = data@;
            lemma_parse_toc_bytes(d.skip(o as int));
            lemma_le_bytes_of_value(d.subrange(0, 16));
            lemma_le_bytes_of_value(d.subrange(16, 32));
            assert(d.subrange(0, 32) =~= d.subrange(0, 16) + d.subrange(16, 32));
            assert(d.skip(o as int) =~= d.skip(o as int).subrange(0, (end - o) as int));
        }
        Ok(Archive { path, toc, toc_offset: off, data })
    }

    /// The entry for the member record at `o`, under the name `name`.
    fn member(&self, name: &str, o: u128) -> (r: Entry)
        requires
            self.wf(),
            member_ok(self.image(), o as int, self.spec_toc_offset() as int),
        ensures
            r.wf(),
            r.spec_path() == name@,
            r.position() == 0,
            (r.spec_header(), r.payload()) == member_at(self.image(), o as int),
    {
        let n = self.data.len();
        assert(o <= n && self.toc_offset <= n);
        let (m, p) = read_record(&self.data, o as usize, self.toc_offset as usize);
        let payload = copy_range(&self.data, p, p + m.size as usize);
        Entry::new(name.to_string(), m, p as u128, payload)
    }

    /// The archived file named `name`; `NotFound` where the table has no such
    /// name.
    pub fn get(&self, name: &str) -> (r: crate::error::Result<Entry>)
        requires
            self.wf(),
        ensures
            r is Ok <==> has_name(self.entries(), name@),
            r matches Ok(e) ==> e.wf() && e.spec_path() == name@ && e.position() == 0 && exists|
                i: int,
            |
                0 <= i < self.entries().len() && self.entries()[i].0 == name@ && (
                e.spec_header(),
                e.payload(),
            ) == member_at(self.image(), self.entries()[i].1 as int),
            r matches Err(e) ==> is_not_found(e.kind, name@),
    {
        match self.toc.find(name) {
            Some(i) => {
                let (_, o) = self.toc.entry(i);
                Ok(self.member(name, o))
            },
            None => Err(error_of(ErrorKind::NotFound(name.to_string()), "no such name in the archive")),
        }
    }

    /// Takes `name` out of the table and rewrites the table after the member
    /// records. The member's bytes stay in the file; `NotFound`, with nothing
    /// changed, where the table has no such name.
    pub fn remove(&mut self, name: &str) -> (r: crate::error::Result<()>)
        requires
            old(self).wf(),
        ensures
            final(self).wf(),
            r is Ok <==> has_name(old(self).entries(), name@),
            r is Ok ==> exists|i: int|
                0 <= i < old(self).entries().len() && old(self).entries()[i].0 == name@
                    && final(self).entries() == old(self).entries().remove(i),
            r is Ok ==> final(self).image() == old(self).image().subrange(
                0,
                old(self).spec_toc_offset() as int,
            ) + toc_bytes(final(self).entries()),
            r is Ok ==> final(self).spec_toc_offset() == old(self).spec_toc_offset(),
            r is Ok ==> final(self).spec_path() == old(self).spec_path(),
            r is Err ==> *final(self) == *old(self),
            r matches Err(e) ==> is_not_found(e.kind, name@),
    {
        let i = match self.toc.find(name) {
            Some(i) => i,
            None => {
                return Err(error_of(ErrorKind::NotFound(name.to_string()), "no such name in the archive"));
            },
        };
        let ghost d0 = self.data@;
        let ghost es0 = self.toc@;
        let o = self.toc_offset as usize;
        self.data.truncate(o);
        self.toc.remove_at(i);
        self.toc.encode(&mut self.data);
        proof {
            let d = self.data@;
            assert(d.subrange(0, o as int) =~= d0.subrange(0, o as int));
            assert(d.subrange(32, o as int) =~= d0.subrange(32, o as int));
            assert(d.subrange(0, 32) =~= d0.subrange(0, 32));
            assert(d.skip(o as int) =~= toc_bytes(self.toc@));
            assert forall|j: int| 0 <= j < self.toc@.len() implies member_ok(
                d,
                #[trigger] self.toc@[j].1 as int,
                o as int,
            ) by {
                let j2 = if j < i { j } else { j + 1 };
                assert(self.toc@[j] == es0[j2]);
                lemma_member_frame(d0, d, es0[j2].1 as int, o as int);
            }
        }
        Ok(())
    }

    /// Reclaiming the space of removed members is not designed yet: this leaves
    /// the archive as it is.
    pub fn defrag() {
    }

    /// The offsets of the member records, found by reading them one after another
    /// from the end of the header, without the table. Past the last record the
    /// table's own bytes are read as a record too, so the walk may end in an
    /// error or report an offset inside the table.
    pub fn walk(&self) -> (r: crate::error::Result<Vec<u128>>)
        ensures
            (match walk_from(self.image(), 32) {
                Ok(s) => r matches Ok(v) && v@ == s,
                Err(de) => r matches Err(e) && e.kind == ErrorKind::Decode(de),
            }),
    {
        walk_image(&self.data)
    }

    /// The archived files, one after another in the table's order.
    pub fn iter(&self) -> (r: Entries)
        requires
            self.wf(),
        ensures
            r.wf(),
            r.spec_archive() == self,
            r.spec_index() == 0,
    {
        Entries::new(self)
    }

    /// The table of contents.
    pub fn table(&self) -> (r: &TOC)
        ensures
            r@ == self.entries(),
            r.wf() == toc_wf(self.entries()),
    {
        &self.toc
    }
}

impl Archive {
    /// Opens an append session: the table's bytes are cut off the end of the
    /// file, and are written anew, after the appended records, by
    /// [`Builder::finalise`].
    pub fn builder(self) -> (r: Builder)
        requires
            self.wf(),
        ensures
            r.wf(),
            r.archive().entries() == self.entries(),
            r.archive().spec_toc_offset() == self.spec_toc_offset(),
            r.archive().image() == self.image().subrange(0, self.spec_toc_offset() as int),
            r.archive().spec_path() == self.spec_path(),
    {
        let mut a = self;
        let ghost d0 = a.data@;
        a.data.truncate(a.toc_offset as usize);
        proof {
            let d = a.data@;
            assert(d.subrange(0, 32) =~= d0.subrange(0, 32));
            assert(d.subrange(32, d.len() as int) =~= d0.subrange(32, d.len() as int));
            assert forall|j: int| 0 <= j < a.toc@.len() implies member_ok(
                d,
                #[trigger] a.toc@[j].1 as int,
                d.len() as int,
            ) by {
                lemma_member_frame(d0, d, a.toc@[j].1 as int, d.len() as int);
            }
        }
        Builder { archive: a }
    }
}

/// An append session on an archive: it owns the archive, so nothing else reads
/// or changes it until [`Builder::finalise`] hands it back.
#[derive(Debug)]
pub struct Builder {
    archive: Archive,
}

impl Builder {
    /// The archive as the session holds it: its file's bytes lack the table.
    pub closed spec fn archive(&self) -> Archive {
        self.archive
    }

    /// The header names the table offset the session began with, and every
    /// entry names a member record in the file.
    pub open spec fn wf(&self) -> bool {
        let a = self.archive();
        let d = a.image();
        &&& 32 <= d.len()
        &&& d.subrange(0, 32) == header_bytes(a.spec_toc_offset())
        &&& toc_wf(a.entries())
        &&& members_ok(d, a.entries(), d.len() as int)
    }

    /// The number of entries in the session's table.
    pub fn entry_count(&self) -> (r: usize)
        ensures
            r == self.archive().entries().len(),
    {
        self.archive.toc.len()
    }

    /// Appends a file, whose metadata is `header` and whose bytes are `content`,
    /// under the name `name`: fails with `UnsafePath` where the name holds a `..`
    /// component, and with `PathConflict` where the table has it already, in
    /// both cases changing nothing. Otherwise the record and the bytes go at the
    /// end of the file, and the name with the record's offset into the table.
    pub fn append(&mut self, name: &str, header: Metadata, content: &Vec<u8>) -> (r:
        crate::error::Result<()>)
        requires
            old(self).wf(),
            content@.len() == header.size,
            old(self).archive().entries().len() + 1 < pow256(8),
        ensures
            final(self).wf(),
            r is Ok <==> is_safe_name(name@) && !has_name(old(self).archive().entries(), name@),
            r is Err ==> *final(self) == *old(self),
            r matches Err(e) ==> if is_safe_name(name@) {
                is_path_conflict(e.kind, name@)
            } else {
                is_unsafe_path(e.kind, name@)
            },
            r is Ok ==> final(self).archive().entries() == old(self).archive().entries().push(
                (name@, old(self).archive().image().len() as u128),
            ),
            r is Ok ==> final(self).archive().image() == old(self).archive().image()
                + header.spec_bytes() + content@,
            r is Ok ==> member_at(
                final(self).archive().image(),
                old(self).archive().image().len() as int,
            ) == (header, content@),
            final(self).archive().spec_toc_offset() == old(self).archive().spec_toc_offset(),
            final(self).archive().spec_path() == old(self).archive().spec_path(),
    {
        let safe = match SafePathBuf::try_from(name) {
            Ok(p) => p,
            Err(e) => {
                return Err(e);
            },
        };
        if self.archive.toc.find(name).is_some() {
            return Err(
                error_of(
                    ErrorKind::PathConflict(name.to_string()),
                    "name already in the table of contents",
                ),
            );
        }
        let ghost d0 = self.archive.data@;
        let position = self.archive.data.len();
        encode_metadata(&header, &mut self.archive.data);
        push_all(&mut self.archive.data, content);
        let ghost es0 = self.archive.toc@;
        self.archive.toc.insert(safe, position as u128);
        proof {
            let d = self.archive.data@;
            assert(d.subrange(0, 32) =~= d0.subrange(0, 32));
            assert(d.subrange(32, d0.len() as int) =~= d0.subrange(32, d0.len() as int));
            reveal(record_at);
            assert(d.skip(position as int) =~= header.spec_bytes() + content@);
            lemma_metadata_round_trip(header, content@);
            assert(header.spec_bytes() + content@ =~= header.spec_bytes() + content@ + Seq::<
                u8,
            >::empty());
            assert(d.subrange(
                position + header.spec_bytes().len(),
                position + header.spec_bytes().len() + header.size,
            ) =~= content@);
            assert forall|j: int| 0 <= j < self.archive.toc@.len() implies member_ok(
                d,
                #[trigger] self.archive.toc@[j].1 as int,
                d.len() as int,
            ) by {
                if j < es0.len() {
                    assert(self.archive.toc@[j] == es0[j]);
                    lemma_member_frame(d0, d, es0[j].1 as int, d0.len() as int);
                }
            }
        }
        Ok(())
    }

    /// Ends the session: writes the table after the records, then points the
    /// header at it, and hands back the archive.
    pub fn finalise(self) -> (r: Archive)
        requires
            self.wf(),
        ensures
            r.wf(),
            r.entries() == self.archive().entries(),
            r.spec_toc_offset() == self.archive().image().len(),
            r.image() == header_bytes(self.archive().image().len() as u128)
                + self.archive().image().skip(32) + toc_bytes(self.archive().entries()),
            r.spec_path() == self.archive().spec_path(),
    {
        let mut a = self.archive;
        let ghost d0 = a.data@;
        let ghost old_off = a.toc_offset;
        let position = a.data.len();
        a.toc.encode(&mut a.data);
        let ghost d1 = a.data@;
        let b = encode_u128(position as u128);
        proof {
            lemma_u128_round_trip(position as u128);
        }
        overwrite(&mut a.data, 16, &b);
        a.toc_offset = position as u128;
        proof {
            let d = a.data@;
            lemma_u128_round_trip(position as u128);
            lemma_u128_round_trip(MAGIC_NUMBER);
            assert(d0.subrange(0, 16) =~= d0.subrange(0, 32).subrange(0, 16));
            assert(header_bytes(old_off).subrange(0, 16) =~= le_bytes(MAGIC_NUMBER as nat, 16));
            assert(d.subrange(0, 32) =~= header_bytes(position as u128));
            assert(d.skip(position as int) =~= toc_bytes(a.toc@));
            assert(d =~= header_bytes(position as u128) + d0.skip(32) + toc_bytes(a.toc@));
            assert(d.subrange(32, position as int) =~= d0.subrange(32, position as int));
            assert forall|i: int| 0 <= i < a.toc@.len() implies member_ok(
                d,
                #[trigger] a.toc@[i].1 as int,
                position as int,
            ) by {
                lemma_member_frame(d0, d, a.toc@[i].1 as int, position as int);
            }
        }
        a
    }
}

} // verus!
