use vstd::prelude::*;
use crate::codec::{
    decode_u128, decode_u32, decode_u64, encode_u128, encode_u32, encode_u64, le_bytes, le_value,
    lemma_u128_round_trip, lemma_u32_round_trip, lemma_u64_round_trip, lemma_le_bytes_of_value,
    lemma_le_value_bound, lemma_pow256_fixed,
};
use crate::error::DecodeError;

verus! {

/// The kind of an archived file.
#[derive(Debug, Clone, Copy, PartialEq, Eq)]
pub enum FileType {
    /// A directory.
    Dir,
    /// A regular file.
    File,
    /// A symbolic link.
    SystemLink,
}

/// A point in time, as seconds and nanoseconds since the Unix epoch.
#[derive(Debug, Clone, Copy, PartialEq, Eq)]
pub struct Timestamp {
    pub secs_since_epoch: u64,
    pub nanos_since_epoch: u32,
}

/// The metadata record stored in front of each archived file's bytes.
#[derive(Debug, Clone, Copy, PartialEq, Eq)]
pub struct Metadata {
    pub file_type: FileType,
    /// The number of payload bytes that follow the record.
    pub size: u128,
    /// `1` where the file is read-only, else `0`.
    pub permissions: u8,
    pub modified: Option<Timestamp>,
    pub accessed: Option<Timestamp>,
    pub created: Option<Timestamp>,
}

/// The outcome of reading a value from the front of some bytes.
pub enum Parsed<T> {
    /// The value, and how many bytes it took.
    Done(T, nat),
    /// The bytes end before the value does.
    Short,
    /// The bytes hold no such value.
    Invalid,
}

/// An executable read agrees with a spec reading of the bytes from `pos` on.
pub open spec fn agrees<T>(p: Parsed<T>, r: Result<(T, usize), DecodeError>, pos: int) -> bool {
    match p {
        Parsed::Done(v, k) => r matches Ok((w, end)) && w == v && end == pos + k,
        Parsed::Short => r == Err::<(T, usize), DecodeError>(DecodeError::UnexpectedEof),
        Parsed::Invalid => r == Err::<(T, usize), DecodeError>(DecodeError::InvalidData),
    }
}

/// The little-endian number in `s[at .. at + n]`.
pub open spec fn field(s: Seq<u8>, at: int, n: int) -> int {
    le_value(s.subrange(at, at + n)) as int
}

pub open spec fn file_type_tag(t: FileType) -> nat {
    match t {
        FileType::Dir => 0,
        FileType::File => 1,
        FileType::SystemLink => 2,
    }
}

pub open spec fn file_type_of_tag(n: int) -> FileType {
    if n == 0 {
        FileType::Dir
    } else if n == 1 {
        FileType::File
    } else {
        FileType::SystemLink
    }
}

/// An optional timestamp: a `0` byte, or a `1` byte, the seconds (eight bytes)
/// and the nanoseconds (four bytes).
pub open spec fn timestamp_bytes(o: Option<Timestamp>) -> Seq<u8> {
    match o {
        None => seq![0u8],
        Some(t) => seq![1u8] + le_bytes(t.secs_since_epoch as nat, 8) + le_bytes(
            t.nanos_since_epoch as nat,
            4,
        ),
    }
}

pub open spec fn parse_timestamp(s: Seq<u8>) -> Parsed<Option<Timestamp>> {
    if s.len() < 1 {
        Parsed::Short
    } else if s[0] == 0 {
        Parsed::Done(None, 1)
    } else if s[0] != 1 {
        Parsed::Invalid
    } else if s.len() < 13 {
        Parsed::Short
    } else {
        Parsed::Done(
            Some(
                Timestamp {
                    secs_since_epoch: field(s, 1, 8) as u64,
                    nanos_since_epoch: field(s, 9, 4) as u32,
                },
            ),
            13,
        )
    }
}

impl Metadata {
    /// The record's bytes: the kind's tag (four bytes), the size (sixteen), the
    /// permissions byte, then the three optional timestamps.
    pub open spec fn spec_bytes(self) -> Seq<u8> {
        le_bytes(file_type_tag(self.file_type), 4) + le_bytes(self.size as nat, 16) + seq![
            self.permissions,
        ] + timestamp_bytes(self.modified) + timestamp_bytes(self.accessed) + timestamp_bytes(
            self.created,
        )
    }

    /// Length of the data in the file.
    pub fn len(&self) -> (r: u128)
        ensures
            r == self.size,
    {
        self.size
    }
}

/// Reads a metadata record from the front of `s`.
pub open spec fn parse_metadata(s: Seq<u8>) -> Parsed<Metadata> {
    if s.len() < 4 {
        Parsed::Short
    } else if field(s, 0, 4) > 2 {
        Parsed::Invalid
    } else if s.len() < 21 {
        Parsed::Short
    } else {
        match parse_timestamp(s.skip(21)) {
            Parsed::Done(m, k1) => match parse_timestamp(s.skip(21 + k1 as int)) {
                Parsed::Done(a, k2) => match parse_timestamp(s.skip(21 + k1 + k2 as int)) {
                    Parsed::Done(c, k3) => Parsed::Done(
                        Metadata {
                            file_type: file_type_of_tag(field(s, 0, 4)),
                            size: field(s, 4, 16) as u128,
                            permissions: s[20],
                            modified: m,
                            accessed: a,
                            created: c,
                        },
                        21 + k1 + k2 + k3,
                    ),
                    Parsed::Short => Parsed::Short,
                    Parsed::Invalid => Parsed::Invalid,
                },
                Parsed::Short => Parsed::Short,
                Parsed::Invalid => Parsed::Invalid,
            },
            Parsed::Short => Parsed::Short,
            Parsed::Invalid => Parsed::Invalid,
        }
    }
}

proof fn lemma_timestamp_round_trip(o: Option<Timestamp>, rest: Seq<u8>)
    ensures
        parse_timestamp(timestamp_bytes(o) + rest) == Parsed::Done(o, timestamp_bytes(o).len()),
{
    let s = timestamp_bytes(o) + rest;
    if let Some(t) = o {
        lemma_u64_round_trip(t.secs_since_epoch);
        lemma_u32_round_trip(t.nanos_since_epoch);
        assert(s.subrange(1, 9) =~= le_bytes(t.secs_since_epoch as nat, 8));
        assert(s.subrange(9, 13) =~= le_bytes(t.nanos_since_epoch as nat, 4));
    }
}

/// Reading a record back from its bytes, whatever follows them, gives the record
/// and its length.
#[verifier::rlimit(40)]
pub proof fn lemma_metadata_round_trip(m: Metadata, rest: Seq<u8>)
    ensures
        parse_metadata(m.spec_bytes() + rest) == Parsed::Done(m, m.spec_bytes().len()),
{
    let s = m.spec_bytes() + rest;
    lemma_u32_round_trip(file_type_tag(m.file_type) as u32);
    lemma_u128_round_trip(m.size);
    let t1 = timestamp_bytes(m.modified);
    let t2 = timestamp_bytes(m.accessed);
    let t3 = timestamp_bytes(m.created);
    assert(s.subrange(0, 4) =~= le_bytes(file_type_tag(m.file_type), 4));
    assert(s.subrange(4, 20) =~= le_bytes(m.size as nat, 16));
    assert(s[20] == m.permissions);
    assert(s.skip(21) =~= t1 + (t2 + t3 + rest));
    lemma_timestamp_round_trip(m.modified, t2 + t3 + rest);
    assert(s.skip(21 + t1.len() as int) =~= t2 + (t3 + rest));
    lemma_timestamp_round_trip(m.accessed, t3 + rest);
    assert(s.skip(21 + t1.len() + t2.len() as int) =~= t3 + rest);
    lemma_timestamp_round_trip(m.created, rest);
    assert(file_type_of_tag(file_type_tag(m.file_type) as int) == m.file_type);
}

proof fn lemma_parse_timestamp_bytes(s: Seq<u8>)
    requires
        parse_timestamp(s) is Done,
    ensures
        parse_timestamp(s) matches Parsed::Done(o, k) && k <= s.len() && s.subrange(0, k as int)
            == timestamp_bytes(o),
{
    if s[0] == 1 {
        lemma_le_bytes_of_value(s.subrange(1, 9));
        lemma_le_bytes_of_value(s.subrange(9, 13));
        lemma_le_value_bound(s.subrange(1, 9));
        lemma_le_value_bound(s.subrange(9, 13));
        lemma_pow256_fixed();
        assert(s.subrange(0, 13) =~= seq![1u8] + s.subrange(1, 9) + s.subrange(9, 13));
    } else {
        assert(s.subrange(0, 1) =~= seq![0u8]);
    }
}

/// A record read from bytes is written back as the same bytes.
pub proof fn lemma_parse_metadata_bytes(s: Seq<u8>)
    requires
        parse_metadata(s) is Done,
    ensures
        parse_metadata(s) matches Parsed::Done(m, k) && k <= s.len() && s.subrange(0, k as int)
            == m.spec_bytes(),
{
    if let Parsed::Done(m, k) = parse_metadata(s) {
        lemma_le_bytes_of_value(s.subrange(0, 4));
        lemma_le_bytes_of_value(s.subrange(4, 20));
        lemma_le_value_bound(s.subrange(4, 20));
        lemma_pow256_fixed();
        let s1 = s.skip(21);
        lemma_parse_timestamp_bytes(s1);
        if let Parsed::Done(_, k1) = parse_timestamp(s1) {
            let s2 = s.skip(21 + k1 as int);
            lemma_parse_timestamp_bytes(s2);
            if let Parsed::Done(_, k2) = parse_timestamp(s2) {
                let s3 = s.skip(21 + k1 + k2 as int);
                lemma_parse_timestamp_bytes(s3);
                if let Parsed::Done(_, k3) = parse_timestamp(s3) {
                    assert(file_type_tag(m.file_type) == field(s, 0, 4));
                    assert(s.subrange(0, k as int) =~= s.subrange(0, 4) + s.subrange(4, 20) + seq![
                        s[20],
                    ] + s1.subrange(0, k1 as int) + s2.subrange(0, k2 as int) + s3.subrange(
                        0,
                        k3 as int,
                    ));
                }
            }
        }
    }
}

/// Reading a record depends only on its own bytes.
pub proof fn lemma_parse_metadata_prefix(s: Seq<u8>, t: Seq<u8>, j: int)
    requires
        parse_metadata(s) matches Parsed::Done(m, k) && k <= j,
        j <= s.len(),
        j <= t.len(),
        s.subrange(0, j) == t.subrange(0, j),
    ensures
        parse_metadata(t) == parse_metadata(s),
{
    lemma_parse_metadata_bytes(s);
    if let Parsed::Done(m, k) = parse_metadata(s) {
        assert(t =~= t.subrange(0, k as int) + t.skip(k as int));
        assert(t.subrange(0, k as int) =~= s.subrange(0, j).subrange(0, k as int));
        assert(s.subrange(0, k as int) =~= s.subrange(0, j).subrange(0, k as int));
        lemma_metadata_round_trip(m, t.skip(k as int));
    }
}

/// The bytes of an optional timestamp.
fn encode_timestamp(o: Option<Timestamp>, out: &mut Vec<u8>)
    ensures
        final(out)@ == old(out)@ + timestamp_bytes(o),
{
    match o {
        None => {
            out.push(0u8);
        },
        Some(t) => {
            out.push(1u8);
            let mut s = encode_u64(t.secs_since_epoch);
            let mut n = encode_u32(t.nanos_since_epoch);
            out.append(&mut s);
            out.append(&mut n);
        },
    }
}

/// Appends the record's bytes to `out`.
pub fn encode_metadata(m: &Metadata, out: &mut Vec<u8>)
    ensures
        final(out)@ == old(out)@ + m.spec_bytes(),
{
    let tag: u32 = match m.file_type {
        FileType::Dir => 0,
        FileType::File => 1,
        FileType::SystemLink => 2,
    };
    let mut t = encode_u32(tag);
    let mut z = encode_u128(m.size);
    out.append(&mut t);
    out.append(&mut z);
    out.push(m.permissions);
    encode_timestamp(m.modified, out);
    encode_timestamp(m.accessed, out);
    encode_timestamp(m.created, out);
    assert(final(out)@ =~= old(out)@ + m.spec_bytes());
}

fn decode_timestamp(b: &Vec<u8>, pos: usize) -> (r: Result<(Option<Timestamp>, usize), DecodeError>)
    requires
        pos <= b.len(),
    ensures
        agrees(parse_timestamp(b@.skip(pos as int)), r, pos as int),
{
    let s = Ghost(b@.skip(pos as int));
    if pos == b.len() {
        return Err(DecodeError::UnexpectedEof);
    }
    let flag = b[pos];
    if flag == 0 {
        return Ok((None, pos + 1));
    }
    if flag != 1 {
        return Err(DecodeError::InvalidData);
    }
    if b.len() - pos < 13 {
        return Err(DecodeError::UnexpectedEof);
    }
    let secs = decode_u64(b, pos + 1);
    let nanos = decode_u32(b, pos + 9);
    match (secs, nanos) {
        (Some(secs), Some(nanos)) => {
            assert(s@.subrange(1, 9) =~= b@.subrange(pos + 1, pos + 9));
            assert(s@.subrange(9, 13) =~= b@.subrange(pos + 9, pos + 13));
            Ok((Some(Timestamp { secs_since_epoch: secs, nanos_since_epoch: nanos }), pos + 13))
        },
        _ => Err(DecodeError::UnexpectedEof),
    }
}

/// Reads a metadata record from `b` at `pos`: the record and the position just
/// past it, `UnexpectedEof` where the bytes end inside it, `InvalidData` where a
/// tag or a flag is out of range.
pub fn decode_metadata(b: &Vec<u8>, pos: usize) -> (r: Result<(Metadata, usize), DecodeError>)
    requires
        pos <= b.len(),
    ensures
        agrees(parse_metadata(b@.skip(pos as int)), r, pos as int),
{
    let s = Ghost(b@.skip(pos as int));
    let tag = match decode_u32(b, pos) {
        Some(t) => t,
        None => {
            return Err(DecodeError::UnexpectedEof);
        },
    };
    assert(s@.subrange(0, 4) =~= b@.subrange(pos as int, pos + 4));
    if tag > 2 {
        return Err(DecodeError::InvalidData);
    }
    if b.len() - pos < 21 {
        return Err(DecodeError::UnexpectedEof);
    }
    let size = match decode_u128(b, pos + 4) {
        Some(z) => z,
        None => {
            return Err(DecodeError::UnexpectedEof);
        },
    };
    assert(s@.subrange(4, 20) =~= b@.subrange(pos + 4, pos + 20));
    let permissions = b[pos + 20];
    let file_type = if tag == 0 {
        FileType::Dir
    } else if tag == 1 {
        FileType::File
    } else {
        FileType::SystemLink
    };
    assert(b@.skip(pos + 21) =~= s@.skip(21));
    let (modified, at_accessed) = match decode_timestamp(b, pos + 21) {
        Ok(x) => x,
        Err(e) => {
            return Err(e);
        },
    };
    assert(b@.skip(at_accessed as int) =~= s@.skip(at_accessed - pos));
    let (accessed, at_created) = match decode_timestamp(b, at_accessed) {
        Ok(x) => x,
        Err(e) => {
            return Err(e);
        },
    };
    assert(b@.skip(at_created as int) =~= s@.skip(at_created - pos));
    let (created, end) = match decode_timestamp(b, at_created) {
        Ok(x) => x,
        Err(e) => {
            return Err(e);
        },
    };
    Ok((Metadata { file_type, size, permissions, modified, accessed, created }, end))
}

} // verus!
