//! Flushing a memtable into a table file, and point lookups in table files:
//! footer, then index block, then data blocks.

use vstd::bytes::*;
use vstd::prelude::*;

use crate::checksum::{crc32c, crc32c_of};
use crate::coding::{
    append_bytes, decode_fixed64, lemma_varint64_round_trip, lemma_varint_length_bounds,
    lemma_varint_decoding_length, put_fixed32, put_fixed64, varint_encoding,
    varint32_decoding,
};
use crate::memtable::{
    bytes_lt, compare_bytes, lemma_bytes_lt_irreflexive, lemma_bytes_lt_transitive,
    is_sorted_listing, MemTable,
};
use crate::table::{
    block_bytes, block_handle_decoding, entry_decoding, entry_header, entry_offset,
    lemma_entries_prefix, lemma_entries_take,
    entries_bytes, footer_decoding, lemma_block_round_trip, previous_key,
    restart_array_start, stored_block, unpack_block, Block, BlockBuilder, BlockHandle,
    FOOTER_ENCODED_LENGTH, NO_COMPRESSION, TABLE_MAGIC_NUMBER,
};
use crate::{Status, ValueItem};

verus! {

/// The restart interval of the blocks a flush writes.
pub const TABLE_RESTART_INTERVAL: usize = 16;

/// The largest size estimate of a memtable that a flush accepts.
pub const FLUSH_LIMIT: u64 = 0x0fff_ffff;

/// The value type code of an item.
pub open spec fn type_code(item: ValueItem<Seq<u8>>) -> u8 {
    match item {
        ValueItem::Deletion => 0,
        ValueItem::Value(_) => 1,
    }
}

/// The internal key an entry is stored under: the user key and the trailer
/// of sequence zero with the item's type.
pub open spec fn stored_key(e: (Seq<u8>, ValueItem<Seq<u8>>)) -> Seq<u8> {
    e.0 + spec_u64_to_le_bytes(type_code(e.1) as u64)
}

/// The value an entry is stored with: the value, or nothing for a tombstone.
pub open spec fn stored_value(item: ValueItem<Seq<u8>>) -> Seq<u8> {
    match item {
        ValueItem::Deletion => Seq::empty(),
        ValueItem::Value(v) => v,
    }
}

/// The data block entries of a flushed listing.
pub open spec fn data_entries(es: Seq<(Seq<u8>, ValueItem<Seq<u8>>)>) -> Seq<(Seq<u8>, Seq<u8>)> {
    es.map_values(|e: (Seq<u8>, ValueItem<Seq<u8>>)| (stored_key(e), stored_value(e.1)))
}

/// A block as stored: the block, compression code zero, and the checksum of both.
pub open spec fn stored(block: Seq<u8>) -> Seq<u8> {
    block + seq![NO_COMPRESSION] + spec_u32_to_le_bytes(crc32c_of(block + seq![NO_COMPRESSION]))
}

/// The bytes of a block handle.
pub open spec fn handle_bytes(offset: nat, size: nat) -> Seq<u8> {
    varint_encoding(offset) + varint_encoding(size)
}

/// A footer: the two handles, zeros up to forty bytes, and the magic number.
pub open spec fn footer_bytes(mo: nat, ms: nat, io: nat, is: nat) -> Seq<u8> {
    let h = handle_bytes(mo, ms) + handle_bytes(io, is);
    h + Seq::new((40 - h.len()) as nat, |i: int| 0u8) + spec_u64_to_le_bytes(TABLE_MAGIC_NUMBER)
}

/// The key of the index entry: the last stored key, or none for an empty table.
pub open spec fn last_stored_key(es: Seq<(Seq<u8>, ValueItem<Seq<u8>>)>) -> Seq<u8> {
    if es.len() == 0 {
        Seq::empty()
    } else {
        stored_key(es.last())
    }
}

/// A table around data block `data` whose last key is `last`: the data
/// block, an empty metaindex block, an index block with one entry pointing to
/// the data block, each stored with its trailer, and the footer.
pub open spec fn table_of(data: Seq<u8>, last: Seq<u8>) -> Seq<u8> {
    let meta = block_bytes(Seq::empty(), TABLE_RESTART_INTERVAL as nat);
    let index = block_bytes(
        seq![(last, handle_bytes(0, data.len()))],
        TABLE_RESTART_INTERVAL as nat,
    );
    let mo = data.len() + 5;
    let io = mo + meta.len() + 5;
    stored(data) + stored(meta) + stored(index) + footer_bytes(mo, meta.len(), io, index.len())
}

/// The table a flush writes for `es`: one data block holding the entries.
pub open spec fn table_bytes(es: Seq<(Seq<u8>, ValueItem<Seq<u8>>)>) -> Seq<u8> {
    table_of(block_bytes(data_entries(es), TABLE_RESTART_INTERVAL as nat), last_stored_key(es))
}

/// A size bound on what flushing `es` writes.
pub open spec fn flush_estimate(es: Seq<(Seq<u8>, ValueItem<Seq<u8>>)>) -> nat
    decreases es.len(),
{
    if es.len() == 0 {
        0
    } else {
        flush_estimate(es.drop_last()) + es.last().0.len() + stored_value(es.last().1).len() + 32
    }
}

/// Whether stored key `k` belongs to user key `key`.
pub open spec fn key_matches(k: Seq<u8>, key: Seq<u8>) -> bool {
    k.len() >= 8 && k.subrange(0, k.len() - 8) == key
}

/// The first entry of a block from `pos` on whose key belongs to `key`.
pub open spec fn block_find(b: Seq<u8>, pos: int, limit: int, prev: Seq<u8>, key: Seq<u8>) -> Option<
    (Seq<u8>, Seq<u8>),
>
    decreases limit - pos,
{
    if pos < 0 || pos >= limit || limit > b.len() {
        None
    } else {
        proof {
            lemma_entry_length(b.subrange(pos, limit), prev);
        }
        match entry_decoding(b.subrange(pos, limit), prev) {
            Some((k, v, n)) => if key_matches(k, key) {
                Some((k, v))
            } else {
                block_find(b, pos + n, limit, k, key)
            },
            None => None,
        }
    }
}

/// A search of one block: `Corruption` where its restart array is malformed.
pub open spec fn block_search(b: Seq<u8>, key: Seq<u8>) -> Result<Option<(Seq<u8>, Seq<u8>)>, Status> {
    match restart_array_start(b) {
        Some(r) => Ok(block_find(b, 0, r as int, Seq::empty(), key)),
        None => Err(Status::Corruption),
    }
}

/// The stored block at `offset` with `size` bytes before its trailer.
pub open spec fn stored_at(t: Seq<u8>, offset: u64, size: u64) -> Result<Seq<u8>, Status> {
    if offset + size + 5 > t.len() {
        Err(Status::Corruption)
    } else {
        stored_block(t.subrange(offset as int, offset + size + 5))
    }
}

/// The search of the data block that handle bytes `v` point to.
pub open spec fn handle_search(t: Seq<u8>, v: Seq<u8>, key: Seq<u8>) -> Result<
    Option<(Seq<u8>, Seq<u8>)>,
    Status,
> {
    match block_handle_decoding(v) {
        Some((o, s, _)) => match stored_at(t, o, s) {
            Ok(db) => block_search(db, key),
            Err(e) => Err(e),
        },
        None => Err(Status::Corruption),
    }
}

/// The user key of a stored key: all but its eight-byte trailer.
pub open spec fn user_part(k: Seq<u8>) -> Seq<u8> {
    if k.len() >= 8 {
        k.subrange(0, k.len() - 8)
    } else {
        k
    }
}

/// The seek through the index: the first entry whose key's user part does
/// not sort before `key` names the one data block searched. from `pos` on
pub open spec fn index_scan(
    t: Seq<u8>,
    ib: Seq<u8>,
    pos: int,
    limit: int,
    prev: Seq<u8>,
    key: Seq<u8>,
) -> Result<Option<(Seq<u8>, Seq<u8>)>, Status>
    decreases limit - pos,
{
    if pos < 0 || pos >= limit || limit > ib.len() {
        Ok(None)
    } else {
        proof {
            lemma_entry_length(ib.subrange(pos, limit), prev);
        }
        match entry_decoding(ib.subrange(pos, limit), prev) {
            Some((k, v, n)) => if bytes_lt(user_part(k), key) {
                index_scan(t, ib, pos + n, limit, k, key)
            } else {
                handle_search(t, v, key)
            },
            None => Ok(None),
        }
    }
}

/// The item a stored entry holds: its key's type code says value or tombstone.
pub open spec fn stored_item(k: Seq<u8>, v: Seq<u8>) -> Result<Option<ValueItem<Seq<u8>>>, Status> {
    let code = spec_u64_from_le_bytes(k.subrange(k.len() - 8, k.len() as int)) % 256;
    if code == 1 {
        Ok(Some(ValueItem::Value(v)))
    } else if code == 0 {
        Ok(Some(ValueItem::Deletion))
    } else {
        Err(Status::Corruption)
    }
}

/// A point lookup in table `t`: through the footer to the index block, then
/// to the data block of the first index entry whose key does not sort before
/// `key`, and there the first entry of `key`.
pub open spec fn table_lookup(t: Seq<u8>, key: Seq<u8>) -> Result<Option<ValueItem<Seq<u8>>>, Status> {
    if t.len() < FOOTER_ENCODED_LENGTH {
        Err(Status::Corruption)
    } else {
        match footer_decoding(t.subrange(t.len() - FOOTER_ENCODED_LENGTH, t.len() as int)) {
            Some((mo, ms, io, is)) => match stored_at(t, io, is) {
                Ok(ib) => match restart_array_start(ib) {
                    Some(r) => match index_scan(t, ib, 0, r as int, Seq::empty(), key) {
                        Ok(Some((k, v))) => stored_item(k, v),
                        Ok(None) => Ok(None),
                        Err(e) => Err(e),
                    },
                    None => Err(Status::Corruption),
                },
                Err(e) => Err(e),
            },
            None => Err(Status::Corruption),
        }
    }
}

/// A block entry takes at least one byte and no more than there are.
pub proof fn lemma_entry_length(s: Seq<u8>, prev: Seq<u8>)
    ensures
        entry_decoding(s, prev) matches Some((k, v, n)) ==> 1 <= n <= s.len(),
{
    lemma_varint_decoding_length(s, 5);
    if let Some((a, n1)) = varint32_decoding(s) {
        lemma_varint_decoding_length(s.skip(n1 as int), 5);
        if let Some((b, n2)) = varint32_decoding(s.skip(n1 as int)) {
            lemma_varint_decoding_length(s.skip((n1 + n2) as int), 5);
        }
    }
}

/// The stored block at `offset` with `size` bytes before its trailer, checked.
fn read_stored(t: &[u8], offset: u64, size: u64) -> (r: Result<&[u8], Status>)
    ensures
        match stored_at(t@, offset, size) {
            Ok(b) => r matches Ok(x) && x@ == b,
            Err(e) => r == Err::<&[u8], Status>(e),
        },
{
    let len = t.len();
    if offset > len as u64 || size > len as u64 - offset || len as u64 - offset - size < 5 {
        return Err(Status::Corruption);
    }
    let start = offset as usize;
    let end = (offset + size + 5) as usize;
    unpack_block(vstd::slice::slice_subrange(t, start, end))
}

/// Whether stored key `k` belongs to user key `key`.
fn matches_key(k: &[u8], key: &[u8]) -> (r: bool)
    ensures
        r == key_matches(k@, key@),
{
    if k.len() < 8 {
        return false;
    }
    crate::memtable::compare_bytes(vstd::slice::slice_subrange(k, 0, k.len() - 8), key) == 0
}

/// Searches one block for the first entry of `key`.
pub fn find_in_block<'a>(b: &'a [u8], key: &[u8]) -> (r: Result<Option<(Vec<u8>, &'a [u8])>, Status>)
    ensures
        match block_search(b@, key@) {
            Ok(Some((k, v))) => r matches Ok(Some((x, y))) && x@ == k && y@ == v,
            Ok(None) => r matches Ok(None),
            Err(e) => r == Err::<Option<(Vec<u8>, &'a [u8])>, Status>(e),
        },
        r matches Ok(Some((x, y))) ==> key_matches(x@, key@),
{
    let block = match Block::new(b) {
        Some(block) => block,
        None => return Err(Status::Corruption),
    };
    let ghost limit = block.restart_offset() as int;
    let mut iter = block.iter();
    loop
        invariant
            iter.wf(),
            iter.data() == b@,
            iter.limit() == limit,
            restart_array_start(b@) == Some(limit as nat),
            block_search(b@, key@) == Ok::<Option<(Seq<u8>, Seq<u8>)>, Status>(
                block_find(b@, iter.position() as int, limit, iter.key(), key@),
            ),
        decreases limit - iter.position(),
    {
        let ghost pos = iter.position() as int;
        let ghost prev = iter.key();
        proof {
            lemma_entry_length(b@.subrange(pos, limit), prev);
        }
        match iter.next() {
            None => {
                return Ok(None);
            },
            Some((k, v)) => {
                if matches_key(k.as_slice(), key) {
                    return Ok(Some((k, v)));
                }
            },
        }
    }
}

/// Searches the data block that handle bytes `v` point to.
fn search_handle<'a>(t: &'a [u8], v: &[u8], key: &[u8]) -> (r: Result<
    Option<(Vec<u8>, &'a [u8])>,
    Status,
>)
    ensures
        match handle_search(t@, v@, key@) {
            Ok(Some((k, x))) => r matches Ok(Some((a, b))) && a@ == k && b@ == x,
            Ok(None) => r matches Ok(None),
            Err(e) => r == Err::<Option<(Vec<u8>, &'a [u8])>, Status>(e),
        },
        r matches Ok(Some((a, b))) ==> key_matches(a@, key@),
{
    let (handle, _) = match BlockHandle::decode_from(v) {
        Ok(h) => h,
        Err(e) => return Err(e),
    };
    let data = match read_stored(t, handle.offset, handle.size) {
        Ok(b) => b,
        Err(e) => return Err(e),
    };
    find_in_block(data, key)
}

/// Looks `key` up in table `t`: the footer leads to the index block, whose
/// first entry at or after `key` names the data block searched. The result is the
/// value, a tombstone, or `None` where no entry belongs to `key`;
/// `Corruption` or `NotSupported` where a block or the footer cannot be read.
pub fn table_get(t: &[u8], key: &[u8]) -> (r: Result<Option<ValueItem<Vec<u8>>>, Status>)
    ensures
        match table_lookup(t@, key@) {
            Ok(Some(ValueItem::Value(v))) => r matches Ok(Some(ValueItem::Value(x))) && x@ == v,
            Ok(Some(ValueItem::Deletion)) => r matches Ok(Some(ValueItem::Deletion)),
            Ok(None) => r matches Ok(None),
            Err(e) => r == Err::<Option<ValueItem<Vec<u8>>>, Status>(e),
        },
{
    if t.len() < FOOTER_ENCODED_LENGTH {
        return Err(Status::Corruption);
    }
    let footer_at = t.len() - FOOTER_ENCODED_LENGTH;
    let footer = match crate::table::Footer::decode_from(
        vstd::slice::slice_subrange(t, footer_at, t.len()),
    ) {
        Ok(f) => f,
        Err(e) => return Err(e),
    };
    let index = match read_stored(t, footer.index_handle.offset, footer.index_handle.size) {
        Ok(b) => b,
        Err(e) => return Err(e),
    };
    let block = match Block::new(index) {
        Some(block) => block,
        None => return Err(Status::Corruption),
    };
    let ghost limit = block.restart_offset() as int;
    let mut iter = block.iter();
    loop
        invariant
            iter.wf(),
            iter.data() == index@,
            iter.limit() == limit,
            restart_array_start(index@) == Some(limit as nat),
            table_lookup(t@, key@) == match index_scan(
                t@,
                index@,
                iter.position() as int,
                limit,
                iter.key(),
                key@,
            ) {
                Ok(Some((k, v))) => stored_item(k, v),
                Ok(None) => Ok(None),
                Err(e) => Err(e),
            },
        decreases limit - iter.position(),
    {
        let ghost pos = iter.position() as int;
        let ghost prev = iter.key();
        proof {
            lemma_entry_length(index@.subrange(pos, limit), prev);
        }
        match iter.next() {
            None => {
                return Ok(None);
            },
            Some((k, v)) => {
                let user = if k.len() >= 8 {
                    vstd::slice::slice_subrange(k.as_slice(), 0, k.len() - 8)
                } else {
                    k.as_slice()
                };
                if compare_bytes(user, key) != -1 {
                    return match search_handle(t, v, key) {
                        Ok(Some((found, value))) => item_of(found.as_slice(), value),
                        Ok(None) => Ok(None),
                        Err(e) => Err(e),
                    };
                }
            },
        }
    }
}

/// The item a stored entry holds, by its key's type code.
fn item_of(k: &[u8], v: &[u8]) -> (r: Result<Option<ValueItem<Vec<u8>>>, Status>)
    requires
        k@.len() >= 8,
    ensures
        match stored_item(k@, v@) {
            Ok(Some(ValueItem::Value(x))) => r matches Ok(Some(ValueItem::Value(y))) && y@ == x,
            Ok(Some(ValueItem::Deletion)) => r matches Ok(Some(ValueItem::Deletion)),
            Ok(None) => r matches Ok(None),
            Err(e) => r == Err::<Option<ValueItem<Vec<u8>>>, Status>(e),
        },
{
    let tail = vstd::slice::slice_subrange(k, k.len() - 8, k.len());
    assert(tail@.subrange(0, 8) =~= tail@);
    let code = decode_fixed64(tail) % 256;
    if code == 1 {
        Ok(Some(ValueItem::Value(vstd::slice::slice_to_vec(v))))
    } else if code == 0 {
        Ok(Some(ValueItem::Deletion))
    } else {
        Err(Status::Corruption)
    }
}

/// Appends `block` as stored: the block, compression code zero and the checksum.
fn put_stored(buf: &mut Vec<u8>, block: &[u8])
    ensures
        final(buf)@ == old(buf)@ + stored(block@),
{
    let mut covered: Vec<u8> = Vec::new();
    append_bytes(&mut covered, block);
    covered.push(NO_COMPRESSION);
    assert(covered@ =~= block@ + seq![NO_COMPRESSION]);
    let checksum = crc32c(covered.as_slice());
    append_bytes(buf, covered.as_slice());
    put_fixed32(buf, checksum);
}

proof fn lemma_estimate_grows(es: Seq<(Seq<u8>, ValueItem<Seq<u8>>)>, i: int)
    requires
        0 <= i <= es.len(),
    ensures
        flush_estimate(es.take(i)) <= flush_estimate(es),
    decreases es.len() - i,
{
    if i < es.len() {
        lemma_estimate_grows(es, i + 1);
        assert(es.take(i + 1).drop_last() =~= es.take(i));
    } else {
        assert(es.take(i) =~= es);
    }
}

proof fn lemma_estimate_covers(es: Seq<(Seq<u8>, ValueItem<Seq<u8>>)>)
    ensures
        forall|j: int|
            0 <= j < es.len() ==> (#[trigger] es[j]).0.len() + stored_value(es[j].1).len() + 32
                <= flush_estimate(es),
    decreases es.len(),
{
    if es.len() > 0 {
        lemma_estimate_covers(es.drop_last());
        assert forall|j: int| 0 <= j < es.len() implies (#[trigger] es[j]).0.len() + stored_value(
            es[j].1,
        ).len() + 32 <= flush_estimate(es) by {
            if j < es.len() - 1 {
                assert(es[j] == es.drop_last()[j]);
            }
        }
    }
}

proof fn lemma_estimate_floor(es: Seq<(Seq<u8>, ValueItem<Seq<u8>>)>)
    ensures
        flush_estimate(es) >= 32 * es.len(),
    decreases es.len(),
{
    if es.len() > 0 {
        lemma_estimate_floor(es.drop_last());
    }
}

/// Whether the size estimate of the listed entries is within the limit.
fn within_flush_limit(entries: &Vec<(&[u8], ValueItem<&[u8]>)>) -> (r: bool)
    ensures
        r == (flush_estimate(crate::memtable::listing_view(entries@)) <= FLUSH_LIMIT),
{
    let ghost es = crate::memtable::listing_view(entries@);
    let mut total: u64 = 0;
    let mut i: usize = 0;
    assert(es.take(0) =~= Seq::<(Seq<u8>, ValueItem<Seq<u8>>)>::empty());
    while i < entries.len()
        invariant
            i <= entries@.len(),
            es == crate::memtable::listing_view(entries@),
            total == flush_estimate(es.take(i as int)),
            total <= FLUSH_LIMIT,
        decreases entries@.len() - i,
    {
        let (key, item) = &entries[i];
        let vlen = match item {
            ValueItem::Deletion => 0,
            ValueItem::Value(v) => v.len(),
        };
        assert(es.take(i + 1).drop_last() =~= es.take(i as int));
        assert(es[i as int].0 == key@);
        proof {
            lemma_estimate_grows(es, i + 1);
        }
        if key.len() as u64 > FLUSH_LIMIT || vlen as u64 > FLUSH_LIMIT || total + key.len() as u64
            + vlen as u64 + 32 > FLUSH_LIMIT {
            return false;
        }
        total = total + key.len() as u64 + vlen as u64 + 32;
        i = i + 1;
    }
    assert(es.take(i as int) =~= es);
    true
}

/// The data block of the listed entries, and the last stored key.
fn build_data_block(entries: &Vec<(&[u8], ValueItem<&[u8]>)>) -> (r: (Vec<u8>, Vec<u8>))
    requires
        flush_estimate(crate::memtable::listing_view(entries@)) <= FLUSH_LIMIT,
    ensures
        r.0@ == block_bytes(
            data_entries(crate::memtable::listing_view(entries@)),
            TABLE_RESTART_INTERVAL as nat,
        ),
        r.1@ == last_stored_key(crate::memtable::listing_view(entries@)),
        r.1@.len() <= FLUSH_LIMIT + 8,
        r.0@.len() <= 0x7fff_ffff,
{
    let ghost es = crate::memtable::listing_view(entries@);
    let mut builder = BlockBuilder::new(TABLE_RESTART_INTERVAL);
    let mut last: Vec<u8> = Vec::new();
    let ghost des = data_entries(es);
    let mut i: usize = 0;
    assert(des.take(0) =~= Seq::<(Seq<u8>, Seq<u8>)>::empty());
    while i < entries.len()
        invariant
            i <= entries@.len(),
            es == crate::memtable::listing_view(entries@),
            des == data_entries(es),
            flush_estimate(es) <= FLUSH_LIMIT,
            builder.wf(),
            builder.interval() == TABLE_RESTART_INTERVAL,
            builder.entries() == des.take(i as int),
            builder.size() <= flush_estimate(es.take(i as int)),
            last@ == last_stored_key(es.take(i as int)),
        decreases entries@.len() - i,
    {
        let (key, item) = &entries[i];
        let mut stored_k: Vec<u8> = Vec::new();
        append_bytes(&mut stored_k, key);
        let value: &[u8] = match item {
            ValueItem::Deletion => {
                put_fixed64(&mut stored_k, 0);
                &[]
            },
            ValueItem::Value(v) => {
                put_fixed64(&mut stored_k, 1);
                v
            },
        };
        proof {
            lemma_auto_spec_u64_to_from_le_bytes();
            lemma_estimate_grows(es, i + 1);
            assert(es.take(i + 1).drop_last() =~= es.take(i as int));
            assert(es[i as int].0 == key@);
            assert(stored_k@ == stored_key(es[i as int]));
            assert(value@ =~= stored_value(es[i as int].1));
            assert(des[i as int] == (stored_k@, value@));
            assert(des.take(i + 1) =~= des.take(i as int).push((stored_k@, value@)));
            assert(es.take(i + 1).last() == es[i as int]);
        }
        builder.add(stored_k.as_slice(), value);
        last = stored_k;
        i = i + 1;
    }
    assert(des.take(i as int) =~= des);
    assert(es.take(i as int) =~= es);
    proof {
        lemma_estimate_floor(es);
    }
    assert(last@.len() <= FLUSH_LIMIT + 8) by {
        if es.len() > 0 {
            lemma_auto_spec_u64_to_from_le_bytes();
            assert(flush_estimate(es) >= es.last().0.len());
        }
    }
    let data = builder.finish();
    (data, last)
}

/// Appends the table around data block `data` whose last key is `last`.
#[verifier::rlimit(60)]
fn put_table(buf: &mut Vec<u8>, data: &[u8], last: &[u8])
    requires
        data@.len() <= 0x7fff_ffff,
        last@.len() <= FLUSH_LIMIT + 8,
    ensures
        final(buf)@ == old(buf)@ + table_of(data@, last@),
        table_of(data@, last@).len() <= data@.len() + last@.len() + 200,
{
    proof {
        lemma_auto_spec_u32_to_from_le_bytes();
        lemma_auto_spec_u64_to_from_le_bytes();
    }
    let meta = BlockBuilder::new(TABLE_RESTART_INTERVAL).finish();
    let mut handle: Vec<u8> = Vec::new();
    BlockHandle { offset: 0, size: data.len() as u64 }.encode_to(&mut handle);
    proof {
        lemma_varint_length_bounds(data@.len() as nat);
        lemma_varint_length_bounds(0);
    }
    let mut index_builder = BlockBuilder::new(TABLE_RESTART_INTERVAL);
    index_builder.add(last, handle.as_slice());
    assert(index_builder.entries() =~= seq![(last@, handle_bytes(0, data@.len()))]);
    let index = index_builder.finish();
    put_stored(buf, data);
    put_stored(buf, meta.as_slice());
    put_stored(buf, index.as_slice());
    let meta_offset = data.len() as u64 + 5;
    let index_offset = meta_offset + meta.len() as u64 + 5;
    let mut footer: Vec<u8> = Vec::new();
    BlockHandle { offset: meta_offset, size: meta.len() as u64 }.encode_to(&mut footer);
    BlockHandle { offset: index_offset, size: index.len() as u64 }.encode_to(&mut footer);
    proof {
        lemma_varint_length_bounds(meta_offset as nat);
        lemma_varint_length_bounds(meta@.len() as nat);
        lemma_varint_length_bounds(index_offset as nat);
        lemma_varint_length_bounds(index@.len() as nat);
    }
    let ghost handles = footer@;
    let pad = 40 - footer.len();
    let mut j: usize = 0;
    while j < pad
        invariant
            j <= pad,
            footer@ == handles + Seq::new(j as nat, |k: int| 0u8),
        decreases pad - j,
    {
        footer.push(0u8);
        j = j + 1;
        assert(footer@ =~= handles + Seq::new(j as nat, |k: int| 0u8));
    }
    put_fixed64(&mut footer, TABLE_MAGIC_NUMBER);
    assert(footer@.len() == 48);
    append_bytes(buf, footer.as_slice());
    assert(buf@ =~= old(buf)@ + table_of(data@, last@));
    assert(table_of(data@, last@).len() == data@.len() + meta@.len() + index@.len() + 63);
}

/// Writes the memtable as a table: one data block holding every entry in key
/// order (each under its user key with a trailer of sequence zero and its
/// type, with its value, or nothing for a tombstone), an empty metaindex
/// block, an index block whose one entry points to the data block, and the
/// footer. `InvalidArgument`, with nothing written, where the memtable's
/// size estimate is over the limit.
pub fn serialize_to_sstable(buf: &mut Vec<u8>, memtable: MemTable) -> (r: Result<(), Status>)
    requires
        memtable.wf(),
    ensures
        exists|es: Seq<(Seq<u8>, ValueItem<Seq<u8>>)>|
            #![trigger table_bytes(es)]
            {
                &&& is_sorted_listing(memtable@, es)
                &&& (r is Ok <==> flush_estimate(es) <= FLUSH_LIMIT)
                &&& r is Ok ==> final(buf)@ == old(buf)@ + table_bytes(es)
                &&& r is Ok ==> table_bytes(es).len() <= u32::MAX
                &&& r is Ok ==> forall|j: int|
                    0 <= j < es.len() ==> (#[trigger] es[j]).0.len() + 8 <= u32::MAX
                        && stored_value(es[j].1).len() <= u32::MAX
                &&& r is Err ==> r == Err::<(), Status>(Status::InvalidArgument) && final(buf)@
                    == old(buf)@
            },
{
    let entries = memtable.iter();
    let ghost es = crate::memtable::listing_view(entries@);
    assert(table_bytes(es) == table_bytes(es));
    if !within_flush_limit(&entries) {
        return Err(Status::InvalidArgument);
    }
    let (data, last) = build_data_block(&entries);
    put_table(buf, data.as_slice(), last.as_slice());
    proof {
        lemma_estimate_covers(es);
    }
    Ok(())
}

/// The first of the entries from `i` on whose key belongs to `key`.
pub open spec fn first_match(des: Seq<(Seq<u8>, Seq<u8>)>, i: int, key: Seq<u8>) -> Option<
    (Seq<u8>, Seq<u8>),
>
    decreases des.len() - i,
{
    if i < 0 || i >= des.len() {
        None
    } else if key_matches(des[i].0, key) {
        Some(des[i])
    } else {
        first_match(des, i + 1, key)
    }
}

proof fn lemma_stored_round_trip(b: Seq<u8>)
    ensures
        stored_block(stored(b)) == Ok::<Seq<u8>, Status>(b),
{
    lemma_auto_spec_u32_to_from_le_bytes();
    let raw = stored(b);
    let size = b.len() as int;
    assert(raw.subrange(size + 1, size + 5) =~= spec_u32_to_le_bytes(
        crc32c_of(b + seq![NO_COMPRESSION]),
    ));
    assert(raw.subrange(0, size + 1) =~= b + seq![NO_COMPRESSION]);
    assert(raw.subrange(0, size) =~= b);
}

proof fn lemma_handle_round_trip(o: nat, s: nat, rest: Seq<u8>)
    requires
        o <= u64::MAX,
        s <= u64::MAX,
    ensures
        block_handle_decoding(handle_bytes(o, s) + rest) == Some(
            (o as u64, s as u64, handle_bytes(o, s).len()),
        ),
        handle_bytes(o, s).len() <= 20,
{
    let a = varint_encoding(o);
    let b = varint_encoding(s);
    assert(handle_bytes(o, s) + rest =~= a + (b + rest));
    lemma_varint64_round_trip(o as u64, b + rest);
    assert((a + (b + rest)).skip(a.len() as int) =~= b + rest);
    lemma_varint64_round_trip(s as u64, rest);
}

proof fn lemma_footer_round_trip(mo: nat, ms: nat, io: nat, is: nat)
    requires
        mo <= u64::MAX,
        ms <= u64::MAX,
        io <= u64::MAX,
        is <= u64::MAX,
    ensures
        footer_bytes(mo, ms, io, is).len() == FOOTER_ENCODED_LENGTH,
        footer_decoding(footer_bytes(mo, ms, io, is)) == Some(
            (mo as u64, ms as u64, io as u64, is as u64),
        ),
{
    lemma_auto_spec_u64_to_from_le_bytes();
    let h1 = handle_bytes(mo, ms);
    let h2 = handle_bytes(io, is);
    let h = h1 + h2;
    let zeros = Seq::new((40 - h.len()) as nat, |i: int| 0u8);
    let f = footer_bytes(mo, ms, io, is);
    lemma_handle_round_trip(mo, ms, h2 + zeros);
    lemma_handle_round_trip(io, is, zeros);
    assert(f.subrange(40, 48) =~= spec_u64_to_le_bytes(TABLE_MAGIC_NUMBER));
    let rep = f.subrange(0, 40);
    assert(rep =~= h1 + (h2 + zeros));
    assert(rep.skip(h1.len() as int) =~= h2 + zeros);
}

proof fn lemma_find_in_entries(des: Seq<(Seq<u8>, Seq<u8>)>, key: Seq<u8>, i: int)
    requires
        block_bytes(des, TABLE_RESTART_INTERVAL as nat).len() <= u32::MAX,
        forall|j: int|
            0 <= j < des.len() ==> (#[trigger] des[j]).0.len() <= u32::MAX && des[j].1.len()
                <= u32::MAX,
        0 <= i <= des.len(),
    ensures
        block_find(
            block_bytes(des, TABLE_RESTART_INTERVAL as nat),
            entry_offset(des, TABLE_RESTART_INTERVAL as nat, i) as int,
            entries_bytes(des, TABLE_RESTART_INTERVAL as nat).len() as int,
            previous_key(des, i),
            key,
        ) == first_match(des, i, key),
    decreases des.len() - i,
{
    let r = TABLE_RESTART_INTERVAL as nat;
    let data = block_bytes(des, r);
    let e = entries_bytes(des, r).len() as int;
    lemma_block_round_trip(des, r);
    lemma_entries_prefix(des, r, i);
    let off = entry_offset(des, r, i) as int;
    assert(data.len() >= e);
    if i == des.len() {
        assert(off == e);
    } else {
        assert(entry_decoding(data.subrange(off, e), previous_key(des, i)) == Some(
            (des[i].0, des[i].1, (entry_offset(des, r, i + 1) - entry_offset(des, r, i)) as nat),
        ));
        if off == e {
            assert(data.subrange(off, e) =~= Seq::<u8>::empty());
            assert(false);
        }
        lemma_find_in_entries(des, key, i + 1);
        lemma_entries_take(des, r, i);
        assert(entry_offset(des, r, i + 1) >= off);
        assert(previous_key(des, i + 1) == des[i].0);
        lemma_entry_length(data.subrange(off, e), previous_key(des, i));
        assert(block_find(data, off, e, previous_key(des, i), key) == if key_matches(
            des[i].0,
            key,
        ) {
            Some((des[i].0, des[i].1))
        } else {
            block_find(data, entry_offset(des, r, i + 1) as int, e, des[i].0, key)
        });
    }
}

proof fn lemma_first_match_listing(es: Seq<(Seq<u8>, ValueItem<Seq<u8>>)>, key: Seq<u8>, i: int)
    requires
        0 <= i <= es.len(),
    ensures
        match first_match(data_entries(es), i, key) {
            Some(found) => exists|j: int|
                i <= j < es.len() && es[j].0 == key && found == data_entries(es)[j],
            None => forall|j: int| i <= j < es.len() ==> es[j].0 != key,
        },
    decreases es.len() - i,
{
    lemma_auto_spec_u64_to_from_le_bytes();
    if i < es.len() {
        let k = stored_key(es[i]);
        assert(data_entries(es)[i] == (k, stored_value(es[i].1)));
        assert(k.subrange(0, k.len() - 8) =~= es[i].0);
        lemma_first_match_listing(es, key, i + 1);
    }
}

/// The index and footer of a written table lead to its data block.
proof fn lemma_table_layout(data: Seq<u8>, last: Seq<u8>, key: Seq<u8>)
    requires
        table_of(data, last).len() <= u32::MAX,
        last.len() <= u32::MAX,
    ensures
        ({
            let t = table_of(data, last);
            let r = TABLE_RESTART_INTERVAL as nat;
            let hb = handle_bytes(0, data.len());
            let index = block_bytes(seq![(last, hb)], r);
            let ie = entries_bytes(seq![(last, hb)], r).len() as int;
            let meta = block_bytes(Seq::empty(), r);
            let io = data.len() + 5 + meta.len() + 5;
            &&& t.len() >= FOOTER_ENCODED_LENGTH
            &&& footer_decoding(t.subrange(t.len() - FOOTER_ENCODED_LENGTH, t.len() as int))
                == Some(((data.len() + 5) as u64, meta.len() as u64, io as u64, index.len() as u64))
            &&& stored_at(t, io as u64, index.len() as u64) == Ok::<Seq<u8>, Status>(index)
            &&& restart_array_start(index) == Some(ie as nat)
            &&& entry_decoding(index.subrange(0, ie), Seq::empty()) == Some((last, hb, ie as nat))
            &&& handle_search(t, hb, key) == block_search(data, key)
        }),
{
    lemma_auto_spec_u32_to_from_le_bytes();
    lemma_auto_spec_u64_to_from_le_bytes();
    let r = TABLE_RESTART_INTERVAL as nat;
    let meta = block_bytes(Seq::empty(), r);
    let hb = handle_bytes(0, data.len());
    let ies = seq![(last, hb)];
    let index = block_bytes(ies, r);
    let mo = data.len() + 5;
    let io = mo + meta.len() + 5;
    let footer = footer_bytes(mo, meta.len(), io, index.len());
    let t = table_of(data, last);
    assert(t == stored(data) + stored(meta) + stored(index) + footer);
    lemma_footer_round_trip(mo, meta.len(), io, index.len());
    let n = t.len() as int;
    assert(stored(index).len() == index.len() + 5);
    assert(stored(data).len() == data.len() + 5);
    assert(stored(meta).len() == meta.len() + 5);
    assert(t.subrange(n - 48, n) =~= footer);
    assert(t.subrange(io as int, (io + index.len() + 5) as int) =~= stored(index));
    lemma_stored_round_trip(index);
    lemma_handle_round_trip(0, data.len(), Seq::empty());
    lemma_block_round_trip(ies, r);
    let ie = entries_bytes(ies, r).len() as int;
    assert(entry_offset(ies, r, 0) == 0) by {
        assert(ies.take(0) =~= Seq::<(Seq<u8>, Seq<u8>)>::empty());
    }
    assert(ies[0] == (last, hb));
    assert(previous_key(ies, 0) == Seq::<u8>::empty());
    assert(hb + Seq::<u8>::empty() =~= hb);
    assert(t.subrange(0, (data.len() + 5) as int) =~= stored(data));
    lemma_stored_round_trip(data);
}

/// A lookup in a written table is the search of its data block, unless the
/// key sorts after every key in it.
proof fn lemma_table_lookup_is_block_search(data: Seq<u8>, last: Seq<u8>, key: Seq<u8>)
    requires
        table_of(data, last).len() <= u32::MAX,
        last.len() <= u32::MAX,
    ensures
        table_lookup(table_of(data, last), key) == if bytes_lt(user_part(last), key) {
            Ok(None)
        } else {
            match block_search(data, key) {
                Ok(Some((k, v))) => stored_item(k, v),
                Ok(None) => Ok(None),
                Err(e) => Err(e),
            }
        },
{
    lemma_table_layout(data, last, key);
    let r = TABLE_RESTART_INTERVAL as nat;
    let t = table_of(data, last);
    let hb = handle_bytes(0, data.len());
    let index = block_bytes(seq![(last, hb)], r);
    let ie = entries_bytes(seq![(last, hb)], r).len() as int;
    lemma_entry_length(index.subrange(0, ie), Seq::empty());
    assert(index_scan(t, index, ie, ie, last, key) == Ok::<Option<(Seq<u8>, Seq<u8>)>, Status>(
        None,
    ));
}

proof fn lemma_data_search(es: Seq<(Seq<u8>, ValueItem<Seq<u8>>)>, key: Seq<u8>)
    requires
        block_bytes(data_entries(es), TABLE_RESTART_INTERVAL as nat).len() <= u32::MAX,
        forall|j: int|
            0 <= j < es.len() ==> (#[trigger] es[j]).0.len() + 8 <= u32::MAX && stored_value(
                es[j].1,
            ).len() <= u32::MAX,
    ensures
        block_search(block_bytes(data_entries(es), TABLE_RESTART_INTERVAL as nat), key) == Ok::<
            Option<(Seq<u8>, Seq<u8>)>,
            Status,
        >(first_match(data_entries(es), 0, key)),
{
    lemma_auto_spec_u64_to_from_le_bytes();
    let r = TABLE_RESTART_INTERVAL as nat;
    let des = data_entries(es);
    assert forall|j: int| 0 <= j < des.len() implies (#[trigger] des[j]).0.len() <= u32::MAX
        && des[j].1.len() <= u32::MAX by {
        assert(des[j] == (stored_key(es[j]), stored_value(es[j].1)));
    }
    lemma_block_round_trip(des, r);
    lemma_find_in_entries(des, key, 0);
    assert(entry_offset(des, r, 0) == 0) by {
        assert(des.take(0) =~= Seq::<(Seq<u8>, Seq<u8>)>::empty());
    }
}

proof fn lemma_stored_item(e: (Seq<u8>, ValueItem<Seq<u8>>))
    ensures
        stored_item(stored_key(e), stored_value(e.1)) == Ok::<
            Option<ValueItem<Seq<u8>>>,
            Status,
        >(Some(e.1)),
{
    lemma_auto_spec_u64_to_from_le_bytes();
    let k = stored_key(e);
    assert(k.subrange(k.len() - 8, k.len() as int) =~= spec_u64_to_le_bytes(
        type_code(e.1) as u64,
    ));
}

/// A flushed table answers lookups as the memtable did: looking up any key in
/// the table written for a listing of `m` gives `m`'s item for that key (a
/// value, or the tombstone of a deletion), and nothing for a key `m` lacks.
pub proof fn lemma_table_round_trip(
    m: Map<Seq<u8>, ValueItem<Seq<u8>>>,
    es: Seq<(Seq<u8>, ValueItem<Seq<u8>>)>,
    key: Seq<u8>,
)
    requires
        is_sorted_listing(m, es),
        table_bytes(es).len() <= u32::MAX,
        forall|j: int|
            0 <= j < es.len() ==> (#[trigger] es[j]).0.len() + 8 <= u32::MAX && stored_value(
                es[j].1,
            ).len() <= u32::MAX,
    ensures
        table_lookup(table_bytes(es), key) == Ok::<Option<ValueItem<Seq<u8>>>, Status>(
            if m.contains_key(key) {
                Some(m[key])
            } else {
                None
            },
        ),
{
    let r = TABLE_RESTART_INTERVAL as nat;
    let des = data_entries(es);
    let data = block_bytes(des, r);
    let last = last_stored_key(es);
    assert(last.len() <= u32::MAX) by {
        if es.len() > 0 {
            assert(es.last() == es[es.len() - 1]);
        }
    }
    assert(table_bytes(es) == table_of(data, last));
    assert(data.len() <= table_bytes(es).len()) by {
        lemma_stored_round_trip(data);
    }
    lemma_table_lookup_is_block_search(data, last, key);
    lemma_data_search(es, key);
    lemma_first_match_listing(es, key, 0);
    match first_match(des, 0, key) {
        Some(found) => {
            let j = choose|j: int| 0 <= j < es.len() && es[j].0 == key && found == des[j];
            assert(des[j] == (stored_key(es[j]), stored_value(es[j].1)));
            lemma_stored_item(es[j]);
            assert(m.contains_key(key) && m[key] == es[j].1);
            let n = es.len() - 1;
            assert(user_part(last) == es[n].0) by {
                lemma_auto_spec_u64_to_from_le_bytes();
                assert(es.last() == es[n]);
                assert(last.subrange(0, last.len() - 8) =~= es[n].0);
            }
            assert(!bytes_lt(user_part(last), key)) by {
                lemma_bytes_lt_irreflexive(key);
                if j < n {
                    assert(bytes_lt(es[j].0, es[n].0));
                    if bytes_lt(es[n].0, key) {
                        lemma_bytes_lt_transitive(key, es[n].0, key);
                    }
                }
            }
        },
        None => {
            if m.contains_key(key) {
                let j = choose|j: int| 0 <= j < es.len() && es[j].0 == key;
            }
        },
    }
}

} // verus!
