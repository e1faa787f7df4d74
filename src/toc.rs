use vstd::prelude::*;
use vstd::utf8::*;
use crate::codec::{
    decode_string, decode_u128, decode_u64, encode_str, encode_u128, encode_u64, le_bytes,
    lemma_le_value_bound, lemma_pow256_fixed, lemma_u128_round_trip,
    lemma_u64_round_trip, lemma_le_bytes_of_value, pow256, str_bytes,
};
use crate::error::DecodeError;
use crate::header::{Parsed, agrees, field};
use crate::safepath::{SafePathBuf, is_safe_name};

verus! {

broadcast use encode_utf8_decode_utf8;

/// One entry of a table: a name and the offset of its member's record.
pub type TocEntry = (Seq<char>, u128);

/// Some entry of `es` has the name `k`.
pub open spec fn has_name(es: Seq<TocEntry>, k: Seq<char>) -> bool {
    exists|i: int| 0 <= i < es.len() && #[trigger] es[i].0 == k
}

/// The names are safe, fit a length prefix, and are pairwise distinct.
pub open spec fn toc_wf(es: Seq<TocEntry>) -> bool {
    &&& es.len() < pow256(8)
    &&& forall|i: int|
        0 <= i < es.len() ==> is_safe_name(#[trigger] es[i].0) && encode_utf8(es[i].0).len()
            < pow256(8)
    &&& forall|i: int, j: int| 0 <= i < es.len() && 0 <= j < es.len() && i != j ==> es[i].0 != es[j].0
}

/// One entry: its name as a length-prefixed string, then its offset (sixteen bytes).
pub open spec fn entry_bytes(e: TocEntry) -> Seq<u8> {
    str_bytes(e.0) + le_bytes(e.1 as nat, 16)
}

pub open spec fn entries_bytes(es: Seq<TocEntry>) -> Seq<u8>
    decreases es.len(),
{
    if es.len() == 0 {
        seq![]
    } else {
        entries_bytes(es.drop_last()) + entry_bytes(es.last())
    }
}

/// A table: the number of entries (eight bytes), then the entries in order.
pub open spec fn toc_bytes(es: Seq<TocEntry>) -> Seq<u8> {
    le_bytes(es.len(), 8) + entries_bytes(es)
}

/// Reads one entry from the front of `s`.
pub open spec fn parse_entry(s: Seq<u8>) -> Parsed<TocEntry> {
    if s.len() < 8 {
        Parsed::Short
    } else if s.len() - 8 < field(s, 0, 8) {
        Parsed::Short
    } else if !valid_utf8(s.subrange(8, 8 + field(s, 0, 8))) {
        Parsed::Invalid
    } else if s.len() - 8 - field(s, 0, 8) < 16 {
        Parsed::Short
    } else {
        Parsed::Done(
            (
                decode_utf8(s.subrange(8, 8 + field(s, 0, 8))),
                field(s, 8 + field(s, 0, 8), 16) as u128,
            ),
            (24 + field(s, 0, 8)) as nat,
        )
    }
}

/// Reads `n` entries one after another from the front of `s`; an unsafe or
/// repeated name makes the entries invalid.
pub open spec fn parse_entries(s: Seq<u8>, n: nat) -> Parsed<Seq<TocEntry>>
    decreases n,
{
    if n == 0 {
        Parsed::Done(seq![], 0)
    } else {
        match parse_entries(s, (n - 1) as nat) {
            Parsed::Done(es, k) => match parse_entry(s.skip(k as int)) {
                Parsed::Done(e, k2) => if is_safe_name(e.0) && !has_name(es, e.0) {
                    Parsed::Done(es.push(e), k + k2)
                } else {
                    Parsed::Invalid
                },
                Parsed::Short => Parsed::Short,
                Parsed::Invalid => Parsed::Invalid,
            },
            Parsed::Short => Parsed::Short,
            Parsed::Invalid => Parsed::Invalid,
        }
    }
}

/// Reads a table from the front of `s`.
pub open spec fn parse_toc(s: Seq<u8>) -> Parsed<Seq<TocEntry>> {
    if s.len() < 8 {
        Parsed::Short
    } else {
        match parse_entries(s.skip(8), field(s, 0, 8) as nat) {
            Parsed::Done(es, k) => Parsed::Done(es, k + 8),
            Parsed::Short => Parsed::Short,
            Parsed::Invalid => Parsed::Invalid,
        }
    }
}

proof fn lemma_entry_round_trip(e: TocEntry, rest: Seq<u8>)
    requires
        encode_utf8(e.0).len() < pow256(8),
    ensures
        parse_entry(entry_bytes(e) + rest) == Parsed::Done(e, entry_bytes(e).len()),
{
    let u = encode_utf8(e.0);
    let s = entry_bytes(e) + rest;
    lemma_pow256_fixed();
    lemma_u64_round_trip(u.len() as u64);
    lemma_u128_round_trip(e.1);
    encode_utf8_valid_utf8(e.0);
    assert(s.subrange(0, 8) =~= le_bytes(u.len(), 8));
    assert(s.subrange(8, 8 + u.len() as int) =~= u);
    assert(s.subrange(8 + u.len() as int, 8 + u.len() + 16 as int) =~= le_bytes(e.1 as nat, 16));
}

proof fn lemma_entries_round_trip(es: Seq<TocEntry>, rest: Seq<u8>)
    requires
        toc_wf(es),
    ensures
        parse_entries(entries_bytes(es) + rest, es.len()) == Parsed::Done(
            es,
            entries_bytes(es).len(),
        ),
    decreases es.len(),
{
    if es.len() > 0 {
        let init = es.drop_last();
        let e = es.last();
        assert(entries_bytes(es) + rest =~= entries_bytes(init) + (entry_bytes(e) + rest));
        assert(toc_wf(init)) by {
            assert forall|i: int| 0 <= i < init.len() implies is_safe_name(#[trigger] init[i].0)
                && encode_utf8(init[i].0).len() < pow256(8) by {
                assert(init[i] == es[i]);
            }
            assert forall|i: int, j: int|
                0 <= i < init.len() && 0 <= j < init.len() && i != j implies init[i].0
                != init[j].0 by {
                assert(init[i] == es[i] && init[j] == es[j]);
            }
        }
        lemma_entries_round_trip(init, entry_bytes(e) + rest);
        lemma_entry_round_trip(e, rest);
        assert(init.len() == (es.len() - 1) as nat);
        assert(es[es.len() - 1] == e);
        assert(entries_bytes(es).len() == entries_bytes(init).len() + entry_bytes(e).len());
        let s = entries_bytes(es) + rest;
        let k = entries_bytes(init).len();
        assert(parse_entries(s, init.len()) == Parsed::Done(init, k));
        assert(s.skip(k as int) =~= entry_bytes(e) + rest);
        assert(parse_entry(s.skip(k as int)) == Parsed::Done(e, entry_bytes(e).len()));
        assert(is_safe_name(e.0));
        assert(parse_entries(s, es.len()) == Parsed::Done(
            init.push(e),
            k + entry_bytes(e).len(),
        ));
        assert(!has_name(init, e.0)) by {
            if has_name(init, e.0) {
                let i = choose|i: int| 0 <= i < init.len() && #[trigger] init[i].0 == e.0;
                assert(es[i] == init[i]);
                assert(es[es.len() - 1] == e);
            }
        }
        assert((entries_bytes(es) + rest).skip(entries_bytes(init).len() as int) =~= entry_bytes(e)
            + rest);
        assert(init.push(e) =~= es);
    } else {
        assert(es =~= seq![]);
    }
}

/// Reading a well-formed table back from its bytes, whatever follows them, gives
/// the table and its length.
/// Entries read from bytes form a well-formed table.
proof fn lemma_parsed_entries_wf(s: Seq<u8>, n: nat)
    requires
        n < pow256(8),
        parse_entries(s, n) is Done,
    ensures
        parse_entries(s, n) matches Parsed::Done(es, _) && toc_wf(es) && es.len() == n,
    decreases n,
{
    if n > 0 {
        lemma_parsed_entries_wf(s, (n - 1) as nat);
        if let Parsed::Done(es, k) = parse_entries(s, (n - 1) as nat) {
            if let Parsed::Done(e, k2) = parse_entry(s.skip(k as int)) {
                let t = s.skip(k as int);
                lemma_le_value_bound(t.subrange(0, 8));
                encode_utf8_decode_utf8(e.0);
                decode_utf8_encode_utf8(t.subrange(8, 8 + field(t, 0, 8)));
                let es2 = es.push(e);
                assert forall|i: int| 0 <= i < es2.len() implies is_safe_name(#[trigger] es2[i].0)
                    && encode_utf8(es2[i].0).len() < pow256(8) by {
                    if i < es.len() {
                        assert(es2[i] == es[i]);
                    }
                }
                assert forall|i: int, j: int|
                    0 <= i < es2.len() && 0 <= j < es2.len() && i != j implies es2[i].0
                    != es2[j].0 by {
                    if i < es.len() && j < es.len() {
                        assert(es2[i] == es[i] && es2[j] == es[j]);
                    } else if i < es.len() {
                        assert(es2[i] == es[i]);
                    } else {
                        assert(es2[j] == es[j]);
                    }
                }
            }
        }
    }
}

proof fn lemma_parse_entry_bytes(s: Seq<u8>)
    requires
        parse_entry(s) is Done,
    ensures
        parse_entry(s) matches Parsed::Done(e, k) && k <= s.len() && s.subrange(0, k as int)
            == entry_bytes(e),
{
    if let Parsed::Done(e, k) = parse_entry(s) {
        let n = field(s, 0, 8);
        let u = s.subrange(8, 8 + n);
        decode_utf8_encode_utf8(u);
        lemma_le_bytes_of_value(s.subrange(0, 8));
        lemma_le_bytes_of_value(s.subrange(8 + n, 8 + n + 16));
        lemma_le_value_bound(s.subrange(8 + n, 8 + n + 16));
        lemma_pow256_fixed();
        assert(encode_utf8(e.0) == u);
        assert(u.len() == n);
        assert(e.1 as nat == field(s, 8 + n, 16));
        assert(s.subrange(0, k as int) =~= s.subrange(0, 8) + u + s.subrange(8 + n, 8 + n + 16));
    }
}

/// Entries read from bytes are written back as the same bytes.
proof fn lemma_parse_entries_bytes(s: Seq<u8>, n: nat)
    requires
        parse_entries(s, n) is Done,
    ensures
        parse_entries(s, n) matches Parsed::Done(es, k) && k <= s.len() && s.subrange(0, k as int)
            == entries_bytes(es),
    decreases n,
{
    if n > 0 {
        lemma_parse_entries_bytes(s, (n - 1) as nat);
        if let Parsed::Done(es, k) = parse_entries(s, (n - 1) as nat) {
            let t = s.skip(k as int);
            lemma_parse_entry_bytes(t);
            if let Parsed::Done(e, k2) = parse_entry(t) {
                let es2 = es.push(e);
                assert(es2.drop_last() =~= es);
                assert(s.subrange(0, k + k2 as int) =~= s.subrange(0, k as int) + t.subrange(0, k2 as int));
            }
        }
    } else {
        assert(s.subrange(0, 0) =~= entries_bytes(seq![]));
    }
}

/// A table read from bytes is written back as the same bytes.
pub proof fn lemma_parse_toc_bytes(s: Seq<u8>)
    requires
        parse_toc(s) is Done,
    ensures
        parse_toc(s) matches Parsed::Done(es, k) && k <= s.len() && s.subrange(0, k as int)
            == toc_bytes(es) && toc_wf(es),
{
    let n = field(s, 0, 8);
    lemma_le_value_bound(s.subrange(0, 8));
    lemma_parse_entries_bytes(s.skip(8), n as nat);
    lemma_parsed_entries_wf(s.skip(8), n as nat);
    lemma_le_bytes_of_value(s.subrange(0, 8));
    if let Parsed::Done(es, k) = parse_toc(s) {
        assert(s.subrange(0, k as int) =~= s.subrange(0, 8) + s.skip(8).subrange(0, k - 8));
    }
}

/// Once reading entries has failed, reading more of them fails the same way.
proof fn lemma_parse_entries_stuck(s: Seq<u8>, m: nat, n: nat)
    requires
        m <= n,
        !(parse_entries(s, m) is Done),
    ensures
        parse_entries(s, n) == parse_entries(s, m),
    decreases n - m,
{
    if m < n {
        lemma_parse_entries_stuck(s, m, (n - 1) as nat);
    }
}

pub proof fn lemma_toc_round_trip(es: Seq<TocEntry>, rest: Seq<u8>)
    requires
        toc_wf(es),
    ensures
        parse_toc(toc_bytes(es) + rest) == Parsed::Done(es, toc_bytes(es).len()),
{
    let s = toc_bytes(es) + rest;
    lemma_pow256_fixed();
    lemma_u64_round_trip(es.len() as u64);
    assert(s.subrange(0, 8) =~= le_bytes(es.len(), 8));
    assert(s.skip(8) =~= entries_bytes(es) + rest);
    lemma_entries_round_trip(es, rest);
}


/// Reads one entry from `b` at `pos`: its name, its offset and the position
/// just past it.
fn decode_entry(b: &Vec<u8>, pos: usize) -> (r: Result<(String, u128, usize), DecodeError>)
    requires
        pos <= b.len(),
    ensures
        match parse_entry(b@.skip(pos as int)) {
            Parsed::Done(e, k) => r matches Ok((name, off, end)) && name@ == e.0 && off == e.1
                && end == pos + k,
            Parsed::Short => r == Err::<(String, u128, usize), DecodeError>(
                DecodeError::UnexpectedEof,
            ),
            Parsed::Invalid => r == Err::<(String, u128, usize), DecodeError>(
                DecodeError::InvalidData,
            ),
        },
{
    let ghost t = b@.skip(pos as int);
    let n = match decode_u64(b, pos) {
        Some(n) => n,
        None => {
            return Err(DecodeError::UnexpectedEof);
        },
    };
    assert(t.subrange(0, 8) =~= b@.subrange(pos as int, pos + 8));
    if ((b.len() - pos - 8) as u64) < n {
        return Err(DecodeError::UnexpectedEof);
    }
    assert(t.subrange(8, 8 + n) =~= b@.subrange(pos + 8, pos + 8 + n));
    let name = match decode_string(b, pos) {
        Some(x) => x,
        None => {
            return Err(DecodeError::InvalidData);
        },
    };
    proof {
        decode_utf8_encode_utf8(t.subrange(8, 8 + n));
    }
    let p = pos + 8 + n as usize;
    if b.len() - p < 16 {
        return Err(DecodeError::UnexpectedEof);
    }
    let offset = match decode_u128(b, p) {
        Some(v) => v,
        None => {
            return Err(DecodeError::UnexpectedEof);
        },
    };
    assert(t.subrange(8 + n, 8 + n + 16) =~= b@.subrange(p as int, p + 16));
    Ok((name, offset, p + 16))
}

/// Byte-wise equality of two strings.
fn same_name(a: &str, b: &str) -> (r: bool)
    ensures
        r == (a@ == b@),
{
    let x = a.as_bytes();
    let y = b.as_bytes();
    if x.len() != y.len() {
        assert(encode_utf8(a@) != encode_utf8(b@));
        return false;
    }
    let mut i: usize = 0;
    while i < x.len()
        invariant
            x@ == encode_utf8(a@),
            y@ == encode_utf8(b@),
            x@.len() == y@.len(),
            forall|j: int| 0 <= j < i ==> x@[j] == y@[j],
        decreases x@.len() - i,
    {
        if x[i] != y[i] {
            assert(encode_utf8(a@) != encode_utf8(b@));
            return false;
        }
        i = i + 1;
    }
    assert(x@ =~= y@);
    assert(decode_utf8(encode_utf8(a@)) == a@);
    assert(decode_utf8(encode_utf8(b@)) == b@);
    true
}

/// The table of contents: each archived name with the offset of its record.
/// Names are unique; the order is the order in which they were added.
#[derive(Debug)]
pub struct TOC {
    _table: Vec<(SafePathBuf, u128)>,
}

impl View for TOC {
    type V = Seq<TocEntry>;

    closed spec fn view(&self) -> Seq<TocEntry> {
        self._table@.map_values(|e: (SafePathBuf, u128)| (e.0@, e.1))
    }
}

impl TOC {
    pub open spec fn wf(&self) -> bool {
        toc_wf(self@)
    }

    /// An empty table.
    pub fn new() -> (r: Self)
        ensures
            r@ == Seq::<TocEntry>::empty(),
            r.wf(),
    {
        let r = TOC { _table: Vec::new() };
        assert(r@ =~= Seq::<TocEntry>::empty());
        proof {
            lemma_pow256_fixed();
        }
        r
    }

    /// The number of entries.
    pub fn len(&self) -> (r: usize)
        ensures
            r == self@.len(),
    {
        self._table.len()
    }

    /// The name and offset of entry `i`.
    pub fn entry(&self, i: usize) -> (r: (&str, u128))
        requires
            i < self@.len(),
        ensures
            r.0@ == self@[i as int].0,
            r.1 == self@[i as int].1,
    {
        let e = &self._table[i];
        (e.0.as_path(), e.1)
    }

    /// The position of the entry named `name`, if any.
    pub fn find(&self, name: &str) -> (r: Option<usize>)
        ensures
            r matches Some(i) ==> i < self@.len() && self@[i as int].0 == name@,
            r is None <==> !has_name(self@, name@),
    {
        let mut i: usize = 0;
        while i < self._table.len()
            invariant
                forall|j: int| 0 <= j < i ==> self@[j].0 != name@,
                i <= self@.len(),
            decreases self@.len() - i,
        {
            if same_name(self._table[i].0.as_path(), name) {
                assert(self@[i as int].0 == name@);
                return Some(i);
            }
            i = i + 1;
        }
        None
    }

    /// The offset stored under `name`, if any.
    pub fn get(&self, name: &str) -> (r: Option<u128>)
        requires
            self.wf(),
        ensures
            r is Some <==> has_name(self@, name@),
            r matches Some(v) ==> exists|i: int|
                0 <= i < self@.len() && self@[i].0 == name@ && self@[i].1 == v,
    {
        match self.find(name) {
            Some(i) => Some(self._table[i].1),
            None => None,
        }
    }

    /// Adds an entry under a name that is not yet in the table.
    pub fn insert(&mut self, name: SafePathBuf, offset: u128)
        requires
            old(self).wf(),
            !has_name(old(self)@, name@),
            name.wf(),
            old(self)@.len() + 1 < pow256(8),
        ensures
            final(self)@ == old(self)@.push((name@, offset)),
            final(self).wf(),
    {
        let n = name.as_path().as_bytes().len();
        assert(encode_utf8(name@).len() == n);
        proof { lemma_pow256_fixed(); }
        self._table.push((name, offset));
        assert(self@ =~= old(self)@.push((name@, offset)));
    }

    /// Removes entry `i`.
    pub fn remove_at(&mut self, i: usize)
        requires
            old(self).wf(),
            i < old(self)@.len(),
        ensures
            final(self)@ == old(self)@.remove(i as int),
            final(self).wf(),
    {
        self._table.remove(i);
        assert(self@ =~= old(self)@.remove(i as int));
        assert forall|a: int, b: int|
            0 <= a < self@.len() && 0 <= b < self@.len() && a != b implies self@[a].0
            != self@[b].0 by {
            let a2 = if a < i { a } else { a + 1 };
            let b2 = if b < i { b } else { b + 1 };
            assert(self@[a] == old(self)@[a2]);
            assert(self@[b] == old(self)@[b2]);
        }
        assert forall|a: int| 0 <= a < self@.len() implies is_safe_name(#[trigger] self@[a].0)
            && encode_utf8(self@[a].0).len() < pow256(8) by {
            let a2 = if a < i { a } else { a + 1 };
            assert(self@[a] == old(self)@[a2]);
        }
    }

    /// Appends the table's bytes to `out`.
    pub fn encode(&self, out: &mut Vec<u8>)
        ensures
            final(out)@ == old(out)@ + toc_bytes(self@),
    {
        let mut c = encode_u64(self._table.len() as u64);
        out.append(&mut c);
        let ghost start = out@;
        let mut i: usize = 0;
        while i < self._table.len()
            invariant
                start == old(out)@ + le_bytes(self@.len(), 8),
                out@ == start + entries_bytes(self@.take(i as int)),
                i <= self@.len(),
            decreases self@.len() - i,
        {
            let mut k = encode_str(self._table[i].0.as_path());
            let mut v = encode_u128(self._table[i].1);
            out.append(&mut k);
            out.append(&mut v);
            assert(self@.take(i + 1).drop_last() =~= self@.take(i as int));
            assert(out@ =~= start + entries_bytes(self@.take(i + 1)));
            i = i + 1;
        }
        assert(self@.take(i as int) =~= self@);
        assert(out@ =~= old(out)@ + toc_bytes(self@));
    }

    /// Reads a table from `b` at `pos`: the table and the position just past it,
    /// `UnexpectedEof` where the bytes end inside it, `InvalidData` where a name
    /// is not UTF-8, unsafe or repeated.
    pub fn decode(b: &Vec<u8>, pos: usize) -> (r: Result<(TOC, usize), DecodeError>)
        requires
            pos <= b.len(),
        ensures
            agrees(
                parse_toc(b@.skip(pos as int)),
                match r {
                    Ok((t, end)) => Ok((t@, end)),
                    Err(e) => Err(e),
                },
                pos as int,
            ),
            r matches Ok((t, _)) ==> t.wf(),
    {
        let ghost s = b@.skip(pos as int);
        let count = match decode_u64(b, pos) {
            Some(c) => c,
            None => {
                return Err(DecodeError::UnexpectedEof);
            },
        };
        assert(s.subrange(0, 8) =~= b@.subrange(pos as int, pos + 8));
        let ghost body = s.skip(8);
        let mut toc = TOC::new();
        let mut cur: usize = pos + 8;
        let mut i: u64 = 0;
        proof {
            lemma_le_value_bound(s.subrange(0, 8));
            lemma_pow256_fixed();
        }
        while i < count
            invariant
                pos + 8 <= cur <= b@.len(),
                i <= count,
                count < pow256(8),
                body == b@.skip(pos + 8),
                body == s.skip(8),
                s == b@.skip(pos as int),
                s.len() >= 8,
                count == field(s, 0, 8),
                parse_entries(body, i as nat) == Parsed::Done(toc@, (cur - pos - 8) as nat),
                toc.wf(),
                toc@.len() == i,
            decreases count - i,
        {
            assert(body.skip(cur - pos - 8) =~= b@.skip(cur as int));
            let (name, offset, next) = match decode_entry(b, cur) {
                Ok(x) => x,
                Err(e) => {
                    proof {
                        assert(!(parse_entries(body, (i + 1) as nat) is Done));
                        lemma_parse_entries_stuck(body, (i + 1) as nat, count as nat);
                    }
                    return Err(e);
                },
            };
            let sp = match SafePathBuf::try_from(name.as_str()) {
                Ok(sp) => sp,
                Err(_) => {
                    proof {
                        assert(!is_safe_name(name@));
                        assert(!(parse_entries(body, (i + 1) as nat) is Done));
                        lemma_parse_entries_stuck(body, (i + 1) as nat, count as nat);
                    }
                    return Err(DecodeError::InvalidData);
                },
            };
            if toc.find(name.as_str()).is_some() {
                proof {
                    assert(has_name(toc@, name@));
                    assert(!(parse_entries(body, (i + 1) as nat) is Done));
                    lemma_parse_entries_stuck(body, (i + 1) as nat, count as nat);
                }
                return Err(DecodeError::InvalidData);
            }
            proof {
                lemma_parsed_entries_wf(body, (i + 1) as nat);
            }
            toc.insert(sp, offset);
            cur = next;
            i = i + 1;
        }
        Ok((toc, cur))
    }
}

} // verus!
