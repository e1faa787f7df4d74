use vstd::prelude::*;
use vstd::utf8::encode_utf8;
use crate::archive::{
    Archive, MAGIC_NUMBER, header_bytes, member_at, member_ok, members_ok, open_outcome, record_at,
    walk_from,
};
use crate::codec::{le_bytes, lemma_u128_round_trip, lemma_pow256_fixed, pow256};
use crate::error::{DecodeError, ErrorKind};
use crate::header::{Metadata, Parsed, field, lemma_metadata_round_trip};
use crate::safepath::is_safe_name;
use crate::toc::{TocEntry, has_name, lemma_toc_round_trip, toc_bytes, toc_wf};

verus! {

/// A file to archive: its name, its metadata and its bytes.
pub type Item = (Seq<char>, Metadata, Seq<u8>);

/// An item's member record: its metadata record, then its bytes.
pub open spec fn item_bytes(it: Item) -> Seq<u8> {
    it.1.spec_bytes() + it.2
}

/// The member records of `items`, one after another.
pub open spec fn records_bytes(items: Seq<Item>) -> Seq<u8>
    decreases items.len(),
{
    if items.len() == 0 {
        seq![]
    } else {
        records_bytes(items.drop_last()) + item_bytes(items.last())
    }
}

/// Where item `i`'s record starts when `items` are appended to an empty archive.
pub open spec fn item_offset(items: Seq<Item>, i: int) -> int {
    32 + records_bytes(items.take(i)).len() as int
}

/// The table that appending `items` to an empty archive builds.
pub open spec fn built_entries(items: Seq<Item>) -> Seq<TocEntry> {
    Seq::new(items.len(), |i: int| (items[i].0, item_offset(items, i) as u128))
}

/// The file that creating an archive, appending `items` and finalising gives.
pub open spec fn built_image(items: Seq<Item>) -> Seq<u8> {
    header_bytes(item_offset(items, items.len() as int) as u128) + records_bytes(items) + toc_bytes(
        built_entries(items),
    )
}

/// Items that can all be appended: safe, distinct names, each with as many bytes
/// as its metadata says, and a file whose offsets fit.
pub open spec fn items_ok(items: Seq<Item>) -> bool {
    &&& forall|i: int|
        0 <= i < items.len() ==> (#[trigger] items[i]).2.len() == items[i].1.size && is_safe_name(
            items[i].0,
        ) && encode_utf8(items[i].0).len() < pow256(8)
    &&& forall|i: int, j: int|
        0 <= i < items.len() && 0 <= j < items.len() && i != j ==> items[i].0 != items[j].0
    &&& items.len() < pow256(8)
    &&& item_offset(items, items.len() as int) < pow256(16)
}

/// An archive file that is well laid out opens, and opening it gives back its
/// table and table offset.
pub proof fn lemma_open_image(d: Seq<u8>, es: Seq<TocEntry>, off: int)
    requires
        32 <= off <= d.len(),
        off < pow256(16),
        d.subrange(0, 32) == header_bytes(off as u128),
        d.skip(off) == toc_bytes(es),
        toc_wf(es),
        members_ok(d, es, off),
    ensures
        open_outcome(d) == Ok::<(Seq<TocEntry>, u128), ErrorKind>((es, off as u128)),
{
    lemma_pow256_fixed();
    lemma_u128_round_trip(MAGIC_NUMBER);
    lemma_u128_round_trip(off as u128);
    assert(d.subrange(0, 16) =~= d.subrange(0, 32).subrange(0, 16));
    assert(d.subrange(16, 32) =~= d.subrange(0, 32).subrange(16, 32));
    assert(header_bytes(off as u128).subrange(0, 16) =~= le_bytes(MAGIC_NUMBER as nat, 16));
    assert(header_bytes(off as u128).subrange(16, 32) =~= le_bytes(off as nat, 16));
    crate::codec::lemma_le_bytes_len(es.len(), 8);
    lemma_toc_round_trip(es, seq![]);
    assert(toc_bytes(es) + seq![] =~= toc_bytes(es));
}

/// Reopening: the file of any archive opens as that very archive.
pub proof fn lemma_reopen(a: &Archive)
    requires
        a.wf(),
    ensures
        open_outcome(a.image()) == Ok::<(Seq<TocEntry>, u128), ErrorKind>(
            (a.entries(), a.spec_toc_offset()),
        ),
{
    lemma_pow256_fixed();
    lemma_open_image(a.image(), a.entries(), a.spec_toc_offset() as int);
}

/// Opening fails with `BadMagicNumber`, holding the number found, whenever the
/// first sixteen bytes are not the magic number.
pub proof fn lemma_bad_magic(d: Seq<u8>)
    requires
        d.len() >= 16,
        field(d, 0, 16) != MAGIC_NUMBER,
    ensures
        open_outcome(d) == Err::<(Seq<TocEntry>, u128), ErrorKind>(
            ErrorKind::BadMagicNumber(field(d, 0, 16) as u128),
        ),
{
}

/// After a name is removed from an archive, the name is gone from the table, the
/// other entries stay, and the removed member's record is still in the file:
/// the bytes before the table, which a walk reads, are those of before.
pub proof fn lemma_removed(a: &Archive, b: &Archive, i: int)
    requires
        a.wf(),
        0 <= i < a.entries().len(),
        b.entries() == a.entries().remove(i),
        b.spec_toc_offset() == a.spec_toc_offset(),
        b.image() == a.image().subrange(0, a.spec_toc_offset() as int) + toc_bytes(b.entries()),
    ensures
        !has_name(b.entries(), a.entries()[i].0),
        b.image().subrange(0, b.spec_toc_offset() as int) == a.image().subrange(
            0,
            a.spec_toc_offset() as int,
        ),
        forall|j: int|
            0 <= j < a.entries().len() && j != i ==> has_name(
                b.entries(),
                #[trigger] a.entries()[j].0,
            ),
        member_ok(b.image(), a.entries()[i].1 as int, b.spec_toc_offset() as int),
        member_at(b.image(), a.entries()[i].1 as int) == member_at(
            a.image(),
            a.entries()[i].1 as int,
        ),
{
    let es = a.entries();
    let off = a.spec_toc_offset() as int;
    if has_name(b.entries(), es[i].0) {
        let j = choose|j: int| 0 <= j < b.entries().len() && #[trigger] b.entries()[j].0 == es[i].0;
        let j2 = if j < i { j } else { j + 1 };
        assert(b.entries()[j] == es[j2]);
    }
    assert forall|j: int| 0 <= j < es.len() && j != i implies has_name(
        b.entries(),
        #[trigger] es[j].0,
    ) by {
        let j2 = if j < i { j } else { j - 1 };
        assert(b.entries()[j2] == es[j]);
    }
    assert(b.image().subrange(32, off) =~= a.image().subrange(32, off));
    assert(b.image().subrange(0, off) =~= a.image().subrange(0, off));
    crate::archive::lemma_member_frame(a.image(), b.image(), es[i].1 as int, off);
}

proof fn lemma_records_take(items: Seq<Item>, j: int)
    requires
        0 <= j <= items.len(),
    ensures
        records_bytes(items) == records_bytes(items.take(j)) + records_bytes(items.skip(j)),
    decreases items.len(),
{
    if items.len() > 0 && j < items.len() {
        let init = items.drop_last();
        lemma_records_take(init, j);
        assert(init.take(j) =~= items.take(j));
        assert(items.skip(j).drop_last() =~= init.skip(j));
        assert(items.skip(j).last() == items.last());
        assert(records_bytes(items) =~= records_bytes(items.take(j)) + records_bytes(
            items.skip(j),
        ));
    } else if j == items.len() {
        assert(items.take(j) =~= items);
        assert(items.skip(j) =~= Seq::<Item>::empty());
        assert(records_bytes(items.take(j)) + records_bytes(items.skip(j)) =~= records_bytes(
            items,
        ));
    }
}

/// In any file that holds `items`' records after a 32-byte header, each item's
/// record is where `item_offset` says, and reads back as the item.
proof fn lemma_records_members(items: Seq<Item>, hdr: Seq<u8>, rest: Seq<u8>)
    requires
        hdr.len() == 32,
        forall|i: int| 0 <= i < items.len() ==> (#[trigger] items[i]).2.len() == items[i].1.size,
    ensures
        forall|i: int|
            0 <= i < items.len() ==> member_ok(
                hdr + records_bytes(items) + rest,
                #[trigger] item_offset(items, i),
                item_offset(items, items.len() as int),
            ) && member_at(hdr + records_bytes(items) + rest, item_offset(items, i)) == (
                items[i].1,
                items[i].2,
            ),
    decreases items.len(),
{
    if items.len() > 0 {
        let n = items.len() - 1;
        let init = items.drop_last();
        let it = items.last();
        let d = hdr + records_bytes(items) + rest;
        let rest2 = item_bytes(it) + rest;
        assert(d =~= hdr + records_bytes(init) + rest2);
        assert forall|i: int| 0 <= i < init.len() implies (#[trigger] init[i]).2.len()
            == init[i].1.size by {
            assert(init[i] == items[i]);
        }
        lemma_records_members(init, hdr, rest2);
        assert(items.take(n) =~= init);
        assert(items.take(items.len() as int) =~= items);
        assert forall|i: int| 0 <= i < items.len() implies member_ok(
            d,
            #[trigger] item_offset(items, i),
            item_offset(items, items.len() as int),
        ) && member_at(d, item_offset(items, i)) == (items[i].1, items[i].2) by {
            if i < n {
                assert(items.take(i) =~= init.take(i));
                assert(init[i] == items[i]);
                assert(item_offset(items, i) == item_offset(init, i));
                assert(init.take(init.len() as int) =~= init);
            } else {
                reveal(record_at);
                let o = item_offset(items, i);
                assert(o == 32 + records_bytes(init).len());
                assert(d.skip(o) =~= it.1.spec_bytes() + (it.2 + rest));
                lemma_metadata_round_trip(it.1, it.2 + rest);
                assert(items[i] == it);
                let k = it.1.spec_bytes().len();
                assert(d.subrange(o + k, o + k + it.1.size) =~= it.2);
            }
        }
    }
}

/// Round trip: creating an archive, appending `items` and finalising gives
/// `built_image(items)` (each step's contract states its part), and that file
/// opens with a table that holds every item's name, whose entry reads back as
/// the item's metadata and bytes.
pub proof fn lemma_round_trip(items: Seq<Item>)
    requires
        items_ok(items),
    ensures
        open_outcome(built_image(items)) == Ok::<(Seq<TocEntry>, u128), ErrorKind>(
            (built_entries(items), item_offset(items, items.len() as int) as u128),
        ),
        forall|i: int|
            0 <= i < items.len() ==> member_at(
                built_image(items),
                #[trigger] built_entries(items)[i].1 as int,
            ) == (items[i].1, items[i].2),
{
    let es = built_entries(items);
    let off = item_offset(items, items.len() as int);
    let hdr = header_bytes(off as u128);
    let d = built_image(items);
    lemma_pow256_fixed();
    lemma_u128_round_trip(MAGIC_NUMBER);
    lemma_u128_round_trip(off as u128);
    assert forall|i: int| 0 <= i < items.len() implies (#[trigger] items[i]).2.len()
        == items[i].1.size by {
    }
    lemma_records_members(items, hdr, toc_bytes(es));
    assert(items.take(items.len() as int) =~= items);
    assert forall|i: int| 0 <= i < items.len() implies item_offset(items, i) < pow256(16) by {
        lemma_records_take(items, i);
    }
    assert(toc_wf(es)) by {
        assert forall|i: int| 0 <= i < es.len() implies is_safe_name(#[trigger] es[i].0)
            && encode_utf8(es[i].0).len() < pow256(8) by {
            assert(items[i].0 == es[i].0);
        }
    }
    assert(members_ok(d, es, off)) by {
        assert forall|i: int| 0 <= i < es.len() implies member_ok(d, #[trigger] es[i].1 as int, off) by {
            assert(es[i].1 as int == item_offset(items, i));
        }
    }
    assert(d.subrange(0, 32) =~= hdr);
    assert(d.skip(off) =~= toc_bytes(es));
    lemma_open_image(d, es, off);
    assert forall|i: int| 0 <= i < items.len() implies member_at(
        d,
        #[trigger] es[i].1 as int,
    ) == (items[i].1, items[i].2) by {
        assert(es[i].1 as int == item_offset(items, i));
    }
}

/// The offsets of the member records of `items`, in file order.
pub open spec fn item_offsets(items: Seq<Item>) -> Seq<u128> {
    Seq::new(items.len(), |i: int| item_offset(items, i) as u128)
}

/// Recovery: in a file that holds a 32-byte header and then the records of
/// `items`, and no table, the walk finds every record's offset in file order.
pub proof fn lemma_walk_records(hdr: Seq<u8>, items: Seq<Item>)
    requires
        hdr.len() == 32,
        forall|i: int| 0 <= i < items.len() ==> (#[trigger] items[i]).2.len() == items[i].1.size,
        item_offset(items, items.len() as int) < pow256(16),
    ensures
        walk_from(hdr + records_bytes(items), 32) == Ok::<Seq<u128>, DecodeError>(
            item_offsets(items),
        ),
{
    lemma_walk_from_item(hdr, items, 0);
    assert(items.take(0) =~= Seq::<Item>::empty());
    assert(item_offset(items, 0) == 32);
    assert(item_offsets(items).skip(0) =~= item_offsets(items));
}

/// The record at `pos` reads as `m` where the bytes from there on are `m`'s
/// record and anything after it.
proof fn lemma_record_at_bytes(d: Seq<u8>, pos: int, m: Metadata, rest: Seq<u8>)
    requires
        0 <= pos <= d.len(),
        d.skip(pos) == m.spec_bytes() + rest,
    ensures
        record_at(d, pos) == Parsed::Done(m, m.spec_bytes().len()),
{
    reveal(record_at);
    lemma_metadata_round_trip(m, rest);
}

proof fn lemma_walk_from_item(hdr: Seq<u8>, items: Seq<Item>, j: int)
    requires
        hdr.len() == 32,
        0 <= j <= items.len(),
        forall|i: int| 0 <= i < items.len() ==> (#[trigger] items[i]).2.len() == items[i].1.size,
        item_offset(items, items.len() as int) < pow256(16),
    ensures
        walk_from(hdr + records_bytes(items), item_offset(items, j)) == Ok::<
            Seq<u128>,
            DecodeError,
        >(item_offsets(items).skip(j)),
    decreases items.len() - j,
{
    let d = hdr + records_bytes(items);
    let pos = item_offset(items, j);
    lemma_records_take(items, j);
    if j == items.len() {
        assert(items.take(j) =~= items);
        assert(d.skip(pos) =~= Seq::<u8>::empty());
        assert(record_at(d, pos) == Parsed::<Metadata>::Short) by {
            reveal(record_at);
        }
        assert(item_offsets(items).skip(j) =~= Seq::<u128>::empty());
    } else {
        let it = items[j];
        let tail = items.skip(j + 1);
        lemma_records_take(items, j + 1);
        assert(items.take(j + 1).drop_last() =~= items.take(j));
        assert(items.take(j + 1).last() == it);
        assert(d.skip(pos) =~= it.1.spec_bytes() + (it.2 + records_bytes(tail)));
        lemma_record_at_bytes(d, pos, it.1, it.2 + records_bytes(tail));
        let next = item_offset(items, j + 1);
        assert(next == pos + it.1.spec_bytes().len() + it.1.size);
        lemma_walk_from_item(hdr, items, j + 1);
        lemma_records_take(items, items.len() as int);
        assert(items.take(items.len() as int) =~= items);
        assert(item_offset(items, j) <= item_offset(items, items.len() as int)) by {
            lemma_records_take(items.take(items.len() as int), j);
        }
        assert(item_offsets(items).skip(j) =~= seq![pos as u128] + item_offsets(items).skip(j + 1));
    }
}

} // verus!
