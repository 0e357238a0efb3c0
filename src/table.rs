//! The sorted table format: prefix-compressed blocks with restart points,
//! block handles, the footer, and the trailer that guards each stored block.

use vstd::bytes::*;
use vstd::prelude::*;

use crate::checksum::{crc32c, crc32c_of};
use crate::coding::{
    append_bytes, decode_fixed32, decode_fixed64, decode_varint32, decode_varint64,
    lemma_varint32_round_trip, lemma_varint_decoding_length, lemma_varint_length_bounds,
    put_fixed32, put_varint32,
    put_varint64, varint32_decoding, varint64_decoding, varint_encoding,
};
use crate::Status;

verus! {

/// The most bytes a block handle takes: two 64-bit varints.
pub const BLOCK_HANDLE_MAX_ENCODED_LENGTH: usize = 20;

/// The bytes that follow each stored block: the compression code and a checksum.
pub const BLOCK_TRAILER_SIZE: usize = 5;

/// The size of the footer: two block handles padded to forty bytes, and the magic number.
pub const FOOTER_ENCODED_LENGTH: usize = 48;

/// The number that ends every table.
pub const TABLE_MAGIC_NUMBER: u64 = 0xdb4775248b80fb57;

/// The compression code of a block stored as it is.
pub const NO_COMPRESSION: u8 = 0;

/// The compression code of a Snappy-compressed block.
pub const SNAPPY_COMPRESSION: u8 = 1;

/// The length of the longest common prefix of `a` and `b`.
pub open spec fn common_prefix_len(a: Seq<u8>, b: Seq<u8>) -> nat
    decreases a.len(),
{
    if a.len() == 0 || b.len() == 0 || a[0] != b[0] {
        0
    } else {
        1 + common_prefix_len(a.drop_first(), b.drop_first())
    }
}

proof fn lemma_common_prefix(a: Seq<u8>, b: Seq<u8>)
    ensures
        common_prefix_len(a, b) <= a.len(),
        common_prefix_len(a, b) <= b.len(),
        a.take(common_prefix_len(a, b) as int) == b.take(common_prefix_len(a, b) as int),
    decreases a.len(),
{
    if !(a.len() == 0 || b.len() == 0 || a[0] != b[0]) {
        lemma_common_prefix(a.drop_first(), b.drop_first());
        let n = common_prefix_len(a.drop_first(), b.drop_first()) as int;
        assert(a.take(n + 1) =~= seq![a[0]] + a.drop_first().take(n));
        assert(b.take(n + 1) =~= seq![b[0]] + b.drop_first().take(n));
    } else {
        assert(a.take(0) =~= b.take(0));
    }
}

proof fn lemma_common_prefix_skip(a: Seq<u8>, b: Seq<u8>, i: int)
    requires
        0 <= i < a.len(),
        i < b.len(),
        a[i] == b[i],
    ensures
        common_prefix_len(a.skip(i), b.skip(i)) == 1 + common_prefix_len(a.skip(i + 1), b.skip(i + 1)),
{
    assert(a.skip(i).drop_first() =~= a.skip(i + 1));
    assert(b.skip(i).drop_first() =~= b.skip(i + 1));
}

proof fn lemma_mod_step(n: int, r: int)
    requires
        n >= 0,
        r >= 1,
    ensures
        n % r + 1 < r ==> (n + 1) % r == n % r + 1,
        n % r + 1 == r ==> (n + 1) % r == 0,
{
    vstd::arithmetic::div_mod::lemma_fundamental_div_mod(n, r);
    let q = n / r;
    let m = n % r;
    assert(n == q * r + m) by (nonlinear_arith)
        requires
            n == r * (n / r) + (n % r),
            q == n / r,
            m == n % r,
    ;
    if m + 1 < r {
        vstd::arithmetic::div_mod::lemma_fundamental_div_mod_converse(n + 1, r, q, m + 1);
    } else if m + 1 == r {
        assert(n + 1 == (q + 1) * r + 0) by (nonlinear_arith)
            requires
                n == q * r + m,
                m + 1 == r,
        ;
        vstd::arithmetic::div_mod::lemma_fundamental_div_mod_converse(n + 1, r, q + 1, 0);
    }
}

/// The bytes of one block entry: the varints of the shared prefix length, the
/// unshared length and the value length, then the unshared key bytes and the value.
pub open spec fn block_entry(shared: nat, key: Seq<u8>, value: Seq<u8>) -> Seq<u8> {
    varint_encoding(shared) + varint_encoding((key.len() - shared) as nat) + varint_encoding(
        value.len(),
    ) + key.skip(shared as int) + value
}

/// How many key bytes entry `i` shares with the one before: none at a restart
/// point, every `interval` entries, else their common prefix.
pub open spec fn shared_len(entries: Seq<(Seq<u8>, Seq<u8>)>, i: int, interval: nat) -> nat {
    if i % (interval as int) == 0 {
        0
    } else {
        common_prefix_len(entries[i].0, entries[i - 1].0)
    }
}

/// The entry bytes of a block holding `entries`.
pub open spec fn entries_bytes(entries: Seq<(Seq<u8>, Seq<u8>)>, interval: nat) -> Seq<u8>
    decreases entries.len(),
{
    if entries.len() == 0 {
        Seq::empty()
    } else {
        let i = entries.len() - 1;
        entries_bytes(entries.drop_last(), interval) + block_entry(
            shared_len(entries, i, interval),
            entries[i].0,
            entries[i].1,
        )
    }
}

/// Where the restart entries of a block holding `entries` begin.
pub open spec fn restart_offsets(entries: Seq<(Seq<u8>, Seq<u8>)>, interval: nat) -> Seq<nat>
    decreases entries.len(),
{
    if entries.len() <= 1 {
        seq![0nat]
    } else {
        let i = entries.len() - 1;
        let before = restart_offsets(entries.drop_last(), interval);
        if i % (interval as int) == 0 {
            before.push(entries_bytes(entries.drop_last(), interval).len())
        } else {
            before
        }
    }
}

/// Four little-endian bytes for each offset.
pub open spec fn offsets_bytes(offsets: Seq<nat>) -> Seq<u8>
    decreases offsets.len(),
{
    if offsets.len() == 0 {
        Seq::empty()
    } else {
        offsets_bytes(offsets.drop_last()) + spec_u32_to_le_bytes(offsets.last() as u32)
    }
}

/// A finished block: its entries, the restart offsets and their number.
pub open spec fn block_bytes(entries: Seq<(Seq<u8>, Seq<u8>)>, interval: nat) -> Seq<u8> {
    let offsets = restart_offsets(entries, interval);
    entries_bytes(entries, interval) + offsets_bytes(offsets) + spec_u32_to_le_bytes(
        offsets.len() as u32,
    )
}

proof fn lemma_restart_count(entries: Seq<(Seq<u8>, Seq<u8>)>, interval: nat)
    ensures
        1 <= restart_offsets(entries, interval).len() <= entries.len() + 1,
    decreases entries.len(),
{
    if entries.len() > 1 {
        lemma_restart_count(entries.drop_last(), interval);
    }
}

/// Builds a block from key/value pairs added in order.
pub struct BlockBuilder {
    buf: Vec<u8>,
    restarts: Vec<u32>,
    last_key: Vec<u8>,
    counter: usize,
    block_restart_interval: usize,
    entries: Ghost<Seq<(Seq<u8>, Seq<u8>)>>,
}

impl BlockBuilder {
    /// The pairs added so far.
    pub closed spec fn entries(&self) -> Seq<(Seq<u8>, Seq<u8>)> {
        self.entries@
    }

    /// Every how many entries the full key is written again.
    pub closed spec fn interval(&self) -> nat {
        self.block_restart_interval as nat
    }

    /// The number of entry bytes written so far.
    pub closed spec fn size(&self) -> nat {
        self.buf@.len()
    }

    pub closed spec fn wf(&self) -> bool {
        &&& self.block_restart_interval >= 1
        &&& self.buf@ == entries_bytes(self.entries@, self.interval())
        &&& self.restarts@.map_values(|r: u32| r as nat) == restart_offsets(
            self.entries@,
            self.interval(),
        )
        &&& self.entries@.len() == 0 ==> self.last_key@ == Seq::<u8>::empty() && self.counter == 0
        &&& self.entries@.len() > 0 ==> self.last_key@ == self.entries@.last().0 && self.counter
            == (self.entries@.len() - 1) % (self.interval() as int) + 1
        &&& self.buf@.len() <= u32::MAX
    }

    /// An empty builder that restarts prefix compression every
    /// `block_restart_interval` entries.
    pub fn new(block_restart_interval: usize) -> (r: BlockBuilder)
        requires
            block_restart_interval >= 1,
        ensures
            r.wf(),
            r.entries() == Seq::<(Seq<u8>, Seq<u8>)>::empty(),
            r.interval() == block_restart_interval,
            r.size() == 0,
    {
        let r = BlockBuilder {
            buf: Vec::new(),
            restarts: vec![0u32],
            last_key: Vec::new(),
            counter: 0,
            block_restart_interval,
            entries: Ghost(Seq::empty()),
        };
        assert(r.restarts@.map_values(|r: u32| r as nat) =~= seq![0nat]);
        r
    }

    /// Adds `key` with `value` after the entries so far.
    #[verifier::rlimit(50)]
    pub fn add(&mut self, key: &[u8], value: &[u8])
        requires
            old(self).wf(),
            old(self).size() + 15 + key@.len() + value@.len() <= u32::MAX,
        ensures
            final(self).wf(),
            final(self).entries() == old(self).entries().push((key@, value@)),
            final(self).interval() == old(self).interval(),
            final(self).size() <= old(self).size() + 15 + key@.len() + value@.len(),
    {
        let ghost old_entries = self.entries@;
        let ghost entries = old_entries.push((key@, value@));
        let ghost i = old_entries.len() as int;
        let ghost interval = self.interval();
        let mut shared: usize = 0;
        if self.counter < self.block_restart_interval {
            let min_length = if key.len() < self.last_key.len() {
                key.len()
            } else {
                self.last_key.len()
            };
            let ghost a = key@;
            let ghost b = self.last_key@;
            assert(a.skip(0) =~= a && b.skip(0) =~= b);
            while shared < min_length && key[shared] == self.last_key[shared]
                invariant
                    shared <= min_length,
                    min_length <= a.len(),
                    min_length <= b.len(),
                    a == key@,
                    b == self.last_key@,
                    common_prefix_len(a, b) == shared + common_prefix_len(
                        a.skip(shared as int),
                        b.skip(shared as int),
                    ),
                decreases min_length - shared,
            {
                proof {
                    lemma_common_prefix_skip(a, b, shared as int);
                }
                shared = shared + 1;
            }
            assert(common_prefix_len(a.skip(shared as int), b.skip(shared as int)) == 0) by {
                if shared < min_length {
                    assert(a.skip(shared as int)[0] == a[shared as int]);
                    assert(b.skip(shared as int)[0] == b[shared as int]);
                }
            }
            assert(shared == common_prefix_len(a, b));
            proof {
                lemma_common_prefix(a, b);
                if i > 0 {
                    assert(b == entries[i - 1].0);
                    assert(a == entries[i].0);
                    lemma_mod_step(i - 1, interval as int);
                    assert(i % (interval as int) != 0);
                } else {
                    assert(b.len() == 0);
                    vstd::arithmetic::div_mod::lemma_small_mod(0, interval);
                }
                assert(shared == shared_len(entries, i, interval));
            }
        } else {
            proof {
                if i > 0 {
                    lemma_mod_step(i - 1, interval as int);
                }
                assert(i % (interval as int) == 0);
            }
            self.restarts.push(self.buf.len() as u32);
            self.counter = 0;
        }
        assert(shared == shared_len(entries, i, interval));
        let ghost before = self.buf@;
        let non_shared = key.len() - shared;
        proof {
            lemma_varint_length_bounds(shared as nat);
            lemma_varint_length_bounds(non_shared as nat);
            lemma_varint_length_bounds(value@.len());
        }
        put_varint32(&mut self.buf, shared as u32);
        put_varint32(&mut self.buf, non_shared as u32);
        put_varint32(&mut self.buf, value.len() as u32);
        append_bytes(&mut self.buf, vstd::slice::slice_subrange(key, shared, key.len()));
        append_bytes(&mut self.buf, value);
        self.last_key = vstd::slice::slice_to_vec(key);
        self.counter = self.counter + 1;
        self.entries = Ghost(entries);
        proof {
            assert(entries.drop_last() =~= old_entries);
            assert(self.buf@ =~= before + block_entry(shared as nat, key@, value@));
            assert(self.restarts@.map_values(|r: u32| r as nat) =~= restart_offsets(
                entries,
                interval,
            ));
        }
    }

    /// The finished block: the entries, then each restart offset and their
    /// number, four little-endian bytes each.
    pub fn finish(self) -> (r: Vec<u8>)
        requires
            self.wf(),
            self.size() + 4 * self.entries().len() + 8 <= usize::MAX,
        ensures
            r@ == block_bytes(self.entries(), self.interval()),
            r@.len() <= self.size() + 4 * self.entries().len() + 8,
    {
        let mut buf = self.buf;
        let ghost offsets = restart_offsets(self.entries@, self.interval());
        let ghost entry_bytes = buf@;
        let mut i: usize = 0;
        assert(offsets.take(0) =~= Seq::<nat>::empty());
        while i < self.restarts.len()
            invariant
                i <= self.restarts@.len(),
                self.restarts@.map_values(|r: u32| r as nat) == offsets,
                buf@ == entry_bytes + offsets_bytes(offsets.take(i as int)),
            decreases self.restarts@.len() - i,
        {
            put_fixed32(&mut buf, self.restarts[i]);
            assert(offsets.take(i + 1).drop_last() =~= offsets.take(i as int));
            assert(offsets[i as int] == self.restarts@[i as int] as nat);
            i = i + 1;
        }
        assert(offsets.take(i as int) =~= offsets);
        proof {
            lemma_restart_count(self.entries@, self.interval());
            lemma_offsets_bytes_len(offsets);
        }
        put_fixed32(&mut buf, self.restarts.len() as u32);
        proof {
            lemma_auto_spec_u32_to_from_le_bytes();
        }
        buf
    }
}

/// The restart count in the last four bytes of a block.
pub open spec fn stored_restart_count(data: Seq<u8>) -> u32 {
    spec_u32_from_le_bytes(data.subrange(data.len() - 4, data.len() as int))
}

/// Where a block's restart array begins: `None` where the block is too short
/// for its trailer or counts more restarts than fit.
pub open spec fn restart_array_start(data: Seq<u8>) -> Option<nat> {
    if data.len() < 4 {
        None
    } else if stored_restart_count(data) > (data.len() - 4) / 4 {
        None
    } else {
        Some((data.len() - (1 + stored_restart_count(data)) * 4) as nat)
    }
}

/// The three lengths at the start of a block entry: where its key bytes begin,
/// the shared and unshared key lengths and the value length, where the entry
/// fits in `s`.
pub open spec fn entry_header(s: Seq<u8>) -> Option<(nat, u32, u32, u32)> {
    match varint32_decoding(s) {
        Some((shared, n1)) => match varint32_decoding(s.skip(n1 as int)) {
            Some((non_shared, n2)) => match varint32_decoding(s.skip((n1 + n2) as int)) {
                Some((value_length, n3)) => if n1 + n2 + n3 + non_shared + value_length <= s.len() {
                    Some(((n1 + n2 + n3) as nat, shared, non_shared, value_length))
                } else {
                    None
                },
                None => None,
            },
            None => None,
        },
        None => None,
    }
}

/// The entry at the start of `s` after an entry with key `prev_key`: its key,
/// its value and its length in bytes.
pub open spec fn entry_decoding(s: Seq<u8>, prev_key: Seq<u8>) -> Option<(Seq<u8>, Seq<u8>, nat)> {
    match entry_header(s) {
        Some((h, shared, non_shared, value_length)) => if shared <= prev_key.len() {
            Some(
                (
                    prev_key.take(shared as int) + s.subrange(h as int, h + non_shared),
                    s.subrange(h + non_shared, h + non_shared + value_length),
                    (h + non_shared + value_length) as nat,
                ),
            )
        } else {
            None
        },
        None => None,
    }
}

/// Reads the three lengths at the start of a block entry: where the key bytes
/// begin, the shared and unshared key lengths and the value length; `None`
/// where they are malformed or the entry runs past `data`.
pub fn decode_entry(data: &[u8]) -> (r: Option<(usize, u32, u32, u32)>)
    ensures
        match entry_header(data@) {
            Some((h, a, b, c)) => r == Some((h as usize, a, b, c)),
            None => r is None,
        },
{
    proof {
        lemma_varint_decoding_length(data@, 5);
    }
    if data.len() < 3 {
        proof {
            if let Some((a, n1)) = varint32_decoding(data@) {
                lemma_varint_decoding_length(data@.skip(n1 as int), 5);
            }
        }
        return None;
    }
    let key_offset: usize;
    let shared: u32;
    let non_shared: u32;
    let value_length: u32;
    if data[0] < 128 && data[1] < 128 && data[2] < 128 {
        shared = data[0] as u32;
        non_shared = data[1] as u32;
        value_length = data[2] as u32;
        key_offset = 3;
        proof {
            assert(varint32_decoding(data@) == Some((shared, 1nat)));
            assert(data@.skip(1)[0] == data@[1]);
            assert(varint32_decoding(data@.skip(1)) == Some((non_shared, 1nat)));
            assert(data@.skip(2)[0] == data@[2]);
            assert(varint32_decoding(data@.skip(2)) == Some((value_length, 1nat)));
        }
    } else {
        let (a, n1) = match decode_varint32(data) {
            Some(p) => p,
            None => return None,
        };
        let rest1 = vstd::slice::slice_subrange(data, n1, data.len());
        assert(rest1@ =~= data@.skip(n1 as int));
        proof {
            lemma_varint_decoding_length(rest1@, 5);
        }
        let (b, n2) = match decode_varint32(rest1) {
            Some(p) => p,
            None => return None,
        };
        let rest2 = vstd::slice::slice_subrange(data, n1 + n2, data.len());
        assert(rest2@ =~= data@.skip((n1 + n2) as int));
        proof {
            lemma_varint_decoding_length(rest2@, 5);
        }
        let (c, n3) = match decode_varint32(rest2) {
            Some(p) => p,
            None => return None,
        };
        shared = a;
        non_shared = b;
        value_length = c;
        key_offset = n1 + n2 + n3;
    }
    if ((data.len() - key_offset) as u64) < non_shared as u64 + value_length as u64 {
        return None;
    }
    Some((key_offset, shared, non_shared, value_length))
}

/// A block read from a table: entries followed by the restart array.
pub struct Block<'a> {
    data: &'a [u8],
    restart_offset: usize,
}

impl<'a> Block<'a> {
    /// The block's bytes.
    pub closed spec fn data(&self) -> Seq<u8> {
        self.data@
    }

    /// Where the restart array begins.
    pub closed spec fn restart_offset(&self) -> nat {
        self.restart_offset as nat
    }

    /// The block over `data`: `None` where it is too short for its trailer or
    /// counts more restarts than fit.
    pub fn new(data: &'a [u8]) -> (r: Option<Block<'a>>)
        ensures
            match restart_array_start(data@) {
                Some(start) => r matches Some(b) && b.data() == data@ && b.restart_offset() == start,
                None => r is None,
            },
    {
        if data.len() < 4 {
            return None;
        }
        let max_restarts_allowed = (data.len() - 4) / 4;
        let count_bytes = vstd::slice::slice_subrange(data, data.len() - 4, data.len());
        assert(count_bytes@.subrange(0, 4) =~= data@.subrange(data@.len() - 4, data@.len() as int));
        let num_restarts = decode_fixed32(count_bytes);
        if num_restarts as usize > max_restarts_allowed {
            return None;
        }
        let restart_offset = data.len() - (1 + num_restarts as usize) * 4;
        Some(Block { data, restart_offset })
    }

    /// An iterator over the block's entries, from the first.
    pub fn iter(self) -> (r: BlockIterator<'a>)
        requires
            restart_array_start(self.data()) == Some(self.restart_offset()),
        ensures
            r.data() == self.data(),
            r.limit() == self.restart_offset(),
            r.position() == 0,
            r.key() == Seq::<u8>::empty(),
            r.wf(),
    {
        let count_bytes = vstd::slice::slice_subrange(self.data, self.data.len() - 4, self.data.len());
        assert(count_bytes@.subrange(0, 4) =~= self.data@.subrange(
            self.data@.len() - 4,
            self.data@.len() as int,
        ));
        let num_restarts = decode_fixed32(count_bytes);
        BlockIterator {
            block: self.data,
            restart_offset: self.restart_offset,
            num_restarts: num_restarts as usize,
            next_offset: 0,
            key: Vec::new(),
        }
    }
}

/// Walks the entries of a block in order, rebuilding each key from its shared prefix.
pub struct BlockIterator<'a> {
    block: &'a [u8],
    restart_offset: usize,
    num_restarts: usize,
    next_offset: usize,
    key: Vec<u8>,
}

impl<'a> BlockIterator<'a> {
    /// The block's bytes.
    pub closed spec fn data(&self) -> Seq<u8> {
        self.block@
    }

    /// Where the entries end and the restart array begins.
    pub closed spec fn limit(&self) -> nat {
        self.restart_offset as nat
    }

    /// Where the next entry begins.
    pub closed spec fn position(&self) -> nat {
        self.next_offset as nat
    }

    /// The key of the entry read last.
    pub closed spec fn key(&self) -> Seq<u8> {
        self.key@
    }

    /// The number of restart points.
    pub closed spec fn restart_count(&self) -> nat {
        self.num_restarts as nat
    }

    pub closed spec fn wf(&self) -> bool {
        &&& self.next_offset <= self.restart_offset
        &&& self.restart_offset + 4 * self.num_restarts <= self.block@.len()
    }

    /// An iterator over the entries of `data` before `restart_offset`, with
    /// `num_restarts` restart points after them; `None` where those do not fit.
    pub fn new(data: &'a [u8], restart_offset: u32, num_restarts: u32) -> (r: Option<
        BlockIterator<'a>,
    >)
        ensures
            restart_offset + 4 * num_restarts <= data@.len() ==> (r matches Some(it) && it.wf()
                && it.data() == data@ && it.limit() == restart_offset && it.position() == 0
                && it.key() == Seq::<u8>::empty() && it.restart_count() == num_restarts),
            restart_offset + 4 * num_restarts > data@.len() ==> r is None,
    {
        if restart_offset as usize > data.len() || (data.len() - restart_offset as usize) / 4
            < num_restarts as usize {
            return None;
        }
        Some(
            BlockIterator {
                block: data,
                restart_offset: restart_offset as usize,
                num_restarts: num_restarts as usize,
                next_offset: 0,
                key: Vec::new(),
            },
        )
    }

    /// Where the entry after the current one begins.
    fn next_entry_offset(&self) -> (r: usize)
        ensures
            r == self.position(),
    {
        self.next_offset
    }

    /// The offset of restart point `idx`, from the restart array.
    pub fn get_restart_point(&self, idx: usize) -> (r: usize)
        requires
            self.wf(),
            idx < self.restart_count(),
        ensures
            r == spec_u32_from_le_bytes(
                self.data().subrange(self.limit() + 4 * idx, self.limit() + 4 * idx + 4),
            ),
    {
        let len = self.block.len();
        let start = self.restart_offset + idx * 4;
        let rest = vstd::slice::slice_subrange(self.block, start, len);
        assert(rest@.subrange(0, 4) =~= self.data().subrange(
            self.limit() + 4 * idx,
            self.limit() + 4 * idx + 4,
        ));
        decode_fixed32(rest) as usize
    }

    /// The next entry's key and value; `None` after the last entry or at an
    /// entry that is malformed, runs into the restart array or shares more
    /// bytes than the key before it has.
    pub fn next(&mut self) -> (r: Option<(Vec<u8>, &'a [u8])>)
        requires
            old(self).wf(),
        ensures
            final(self).wf(),
            final(self).data() == old(self).data(),
            final(self).limit() == old(self).limit(),
            final(self).restart_count() == old(self).restart_count(),
            old(self).position() >= old(self).limit() ==> r is None && final(self).position() == old(self).position() && final(self).key() == old(self).key(),
            old(self).position() < old(self).limit() ==> match entry_decoding(
                old(self).data().subrange(old(self).position() as int, old(self).limit() as int),
                old(self).key(),
            ) {
                Some((k, v, n)) => {
                    &&& r matches Some((rk, rv)) && rk@ == k && rv@ == v
                    &&& final(self).position() == old(self).position() + n
                    &&& final(self).key() == k
                },
                None => r is None && final(self).position() == old(self).position()
                    && final(self).key() == old(self).key(),
            },
    {
        let current = self.next_entry_offset();
        if current >= self.restart_offset {
            return None;
        }
        let entry = vstd::slice::slice_subrange(self.block, current, self.restart_offset);
        let (key_offset, shared, non_shared, value_length) = match decode_entry(entry) {
            Some(h) => h,
            None => return None,
        };
        if shared as usize > self.key.len() {
            return None;
        }
        let ghost prev = self.key@;
        self.key.truncate(shared as usize);
        let key_start = current + key_offset;
        let key_end = key_start + non_shared as usize;
        let delta = vstd::slice::slice_subrange(self.block, key_start, key_end);
        append_bytes(&mut self.key, delta);
        let value_end = key_end + value_length as usize;
        let value = vstd::slice::slice_subrange(self.block, key_end, value_end);
        proof {
            assert(delta@ =~= entry@.subrange(key_offset as int, key_offset + non_shared));
            assert(value@ =~= entry@.subrange(
                key_offset + non_shared,
                key_offset + non_shared + value_length,
            ));
        }
        self.next_offset = value_end;
        Some((vstd::slice::slice_to_vec(self.key.as_slice()), value))
    }
}

/// A block handle at the start of `s`: its offset, its size and the number of
/// bytes it takes.
pub open spec fn block_handle_decoding(s: Seq<u8>) -> Option<(u64, u64, nat)> {
    match varint64_decoding(s) {
        Some((offset, n)) => match varint64_decoding(s.skip(n as int)) {
            Some((size, m)) => Some((offset, size, n + m)),
            None => None,
        },
        None => None,
    }
}

/// A block handle takes one to twenty bytes, none past the end of `s`.
pub proof fn lemma_block_handle_length(s: Seq<u8>)
    ensures
        block_handle_decoding(s) matches Some((o, z, n)) ==> 2 <= n <= s.len() && n
            <= BLOCK_HANDLE_MAX_ENCODED_LENGTH,
{
    lemma_varint_decoding_length(s, 10);
    if let Some((o, n)) = varint64_decoding(s) {
        lemma_varint_decoding_length(s.skip(n as int), 10);
    }
}

/// Where a block lies in a table file, not counting its trailer.
#[derive(Debug, Clone, Copy, PartialEq, Eq, Structural)]
pub struct BlockHandle {
    pub offset: u64,
    pub size: u64,
}

impl BlockHandle {
    /// Reads the handle at the start of `src`, with the number of bytes it
    /// takes; `Corruption` where either varint is malformed.
    pub fn decode_from(src: &[u8]) -> (r: Result<(BlockHandle, usize), Status>)
        ensures
            match block_handle_decoding(src@) {
                Some((offset, size, n)) => r == Ok::<(BlockHandle, usize), Status>(
                    (BlockHandle { offset, size }, n as usize),
                ),
                None => r == Err::<(BlockHandle, usize), Status>(Status::Corruption),
            },
            r matches Ok((h, n)) ==> n <= src@.len(),
    {
        proof {
            lemma_varint_decoding_length(src@, 10);
        }
        let (offset, offset_bytes) = match decode_varint64(src) {
            Some(p) => p,
            None => return Err(Status::Corruption),
        };
        let rest = vstd::slice::slice_subrange(src, offset_bytes, src.len());
        assert(rest@ =~= src@.skip(offset_bytes as int));
        proof {
            lemma_varint_decoding_length(rest@, 10);
        }
        let (size, size_bytes) = match decode_varint64(rest) {
            Some(p) => p,
            None => return Err(Status::Corruption),
        };
        Ok((BlockHandle { offset, size }, offset_bytes + size_bytes))
    }

    /// Appends the handle to `dst`: the varints of its offset and size.
    pub fn encode_to(&self, dst: &mut Vec<u8>)
        ensures
            final(dst)@ == old(dst)@ + varint_encoding(self.offset as nat) + varint_encoding(
                self.size as nat,
            ),
    {
        put_varint64(dst, self.offset);
        put_varint64(dst, self.size);
    }
}

/// The handles in a footer: the metaindex handle and the index handle, where
/// `s` is exactly a footer's length, ends in the magic number and holds both.
pub open spec fn footer_decoding(s: Seq<u8>) -> Option<(u64, u64, u64, u64)> {
    if s.len() != FOOTER_ENCODED_LENGTH {
        None
    } else if spec_u64_from_le_bytes(s.subrange(40, 48)) != TABLE_MAGIC_NUMBER {
        None
    } else {
        let rep = s.subrange(0, 40);
        match block_handle_decoding(rep) {
            Some((o1, s1, n)) => match block_handle_decoding(rep.skip(n as int)) {
                Some((o2, s2, m)) => Some((o1, s1, o2, s2)),
                None => None,
            },
            None => None,
        }
    }
}

/// The fixed-size tail of a table: where its metaindex and index blocks lie.
#[derive(Debug, Clone, Copy, PartialEq, Eq, Structural)]
pub struct Footer {
    pub metaindex_handle: BlockHandle,
    pub index_handle: BlockHandle,
}

impl Footer {
    /// Reads a footer from exactly its 48 bytes; `Corruption` where the length
    /// or the magic number is wrong or a handle is malformed.
    pub fn decode_from(src: &[u8]) -> (r: Result<Footer, Status>)
        ensures
            match footer_decoding(src@) {
                Some((o1, s1, o2, s2)) => r == Ok::<Footer, Status>(
                    Footer {
                        metaindex_handle: BlockHandle { offset: o1, size: s1 },
                        index_handle: BlockHandle { offset: o2, size: s2 },
                    },
                ),
                None => r == Err::<Footer, Status>(Status::Corruption),
            },
    {
        if src.len() != FOOTER_ENCODED_LENGTH {
            return Err(Status::Corruption);
        }
        let magic_bytes = vstd::slice::slice_subrange(src, 40, 48);
        assert(magic_bytes@.subrange(0, 8) =~= src@.subrange(40, 48));
        if decode_fixed64(magic_bytes) != TABLE_MAGIC_NUMBER {
            return Err(Status::Corruption);
        }
        let rep = vstd::slice::slice_subrange(src, 0, 40);
        let (metaindex_handle, offset) = match BlockHandle::decode_from(rep) {
            Ok(p) => p,
            Err(e) => return Err(e),
        };
        proof {
            lemma_block_handle_length(rep@);
        }
        let rest = vstd::slice::slice_subrange(rep, offset, rep.len());
        assert(rest@ =~= rep@.skip(offset as int));
        let (index_handle, _) = match BlockHandle::decode_from(rest) {
            Ok(p) => p,
            Err(e) => return Err(e),
        };
        Ok(Footer { metaindex_handle, index_handle })
    }
}

/// What a stored block holds: the block itself where the checksum over it and
/// its compression code matches and the code says it is stored as it is;
/// `NotSupported` for Snappy and `Corruption` otherwise.
pub open spec fn stored_block(raw: Seq<u8>) -> Result<Seq<u8>, Status> {
    if raw.len() < BLOCK_TRAILER_SIZE {
        Err(Status::Corruption)
    } else {
        let size = raw.len() - BLOCK_TRAILER_SIZE;
        let code = raw[size];
        let stored = spec_u32_from_le_bytes(raw.subrange(size + 1, size + 5));
        if stored != crc32c_of(raw.subrange(0, size + 1)) {
            Err(Status::Corruption)
        } else if code == NO_COMPRESSION {
            Ok(raw.subrange(0, size))
        } else if code == SNAPPY_COMPRESSION {
            Err(Status::NotSupported)
        } else {
            Err(Status::Corruption)
        }
    }
}

/// Checks a block read with its five-byte trailer and returns the block.
pub fn unpack_block(raw: &[u8]) -> (r: Result<&[u8], Status>)
    ensures
        match stored_block(raw@) {
            Ok(b) => r matches Ok(v) && v@ == b,
            Err(e) => r == Err::<&[u8], Status>(e),
        },
{
    if raw.len() < BLOCK_TRAILER_SIZE {
        return Err(Status::Corruption);
    }
    let size = raw.len() - BLOCK_TRAILER_SIZE;
    let covered = vstd::slice::slice_subrange(raw, 0, size + 1);
    let stored_bytes = vstd::slice::slice_subrange(raw, size + 1, size + 5);
    assert(stored_bytes@.subrange(0, 4) =~= stored_bytes@);
    if decode_fixed32(stored_bytes) != crc32c(covered) {
        return Err(Status::Corruption);
    }
    let code = raw[size];
    if code == NO_COMPRESSION {
        Ok(vstd::slice::slice_subrange(raw, 0, size))
    } else if code == SNAPPY_COMPRESSION {
        Err(Status::NotSupported)
    } else {
        Err(Status::Corruption)
    }
}

proof fn lemma_entry_round_trip(
    shared: nat,
    key: Seq<u8>,
    value: Seq<u8>,
    prev: Seq<u8>,
    rest: Seq<u8>,
)
    requires
        shared <= key.len(),
        shared <= prev.len(),
        prev.take(shared as int) == key.take(shared as int),
        key.len() <= u32::MAX,
        value.len() <= u32::MAX,
    ensures
        entry_decoding(block_entry(shared, key, value) + rest, prev) == Some(
            (key, value, block_entry(shared, key, value).len()),
        ),
{
    let e1 = varint_encoding(shared);
    let e2 = varint_encoding((key.len() - shared) as nat);
    let e3 = varint_encoding(value.len());
    let body = key.skip(shared as int) + value + rest;
    let s = block_entry(shared, key, value) + rest;
    assert(s =~= e1 + (e2 + (e3 + body)));
    lemma_varint32_round_trip(shared as u32, e2 + (e3 + body));
    assert(s.skip(e1.len() as int) =~= e2 + (e3 + body));
    lemma_varint32_round_trip((key.len() - shared) as u32, e3 + body);
    assert(s.skip((e1.len() + e2.len()) as int) =~= e3 + body);
    lemma_varint32_round_trip(value.len() as u32, body);
    let h = e1.len() + e2.len() + e3.len();
    let ns = key.len() - shared;
    assert(s.subrange(h as int, h + ns) =~= key.skip(shared as int));
    assert(s.subrange(h + ns, h + ns + value.len()) =~= value);
    assert(prev.take(shared as int) + key.skip(shared as int) =~= key);
}

/// The entries up to entry `i` are those before it and entry `i`.
pub proof fn lemma_entries_take(entries: Seq<(Seq<u8>, Seq<u8>)>, interval: nat, i: int)
    requires
        0 <= i < entries.len(),
        interval >= 1,
    ensures
        entries_bytes(entries.take(i + 1), interval) == entries_bytes(entries.take(i), interval)
            + block_entry(shared_len(entries, i, interval), entries[i].0, entries[i].1),
{
    let t = entries.take(i + 1);
    assert(t.drop_last() =~= entries.take(i));
    assert(t[i] == entries[i]);
    if i > 0 {
        assert(t[i - 1] == entries[i - 1]);
    } else {
        vstd::arithmetic::div_mod::lemma_small_mod(0, interval);
    }
    assert(shared_len(t, i, interval) == shared_len(entries, i, interval));
    assert(t.len() - 1 == i);
    assert(entries_bytes(t, interval) == entries_bytes(t.drop_last(), interval) + block_entry(
        shared_len(t, i, interval),
        t[i].0,
        t[i].1,
    ));
}

/// The entries before entry `i` are a prefix of the block's entries.
pub proof fn lemma_entries_prefix(entries: Seq<(Seq<u8>, Seq<u8>)>, interval: nat, i: int)
    requires
        0 <= i <= entries.len(),
        interval >= 1,
    ensures
        entries_bytes(entries.take(i), interval).len() <= entries_bytes(entries, interval).len(),
        entries_bytes(entries, interval).subrange(
            0,
            entries_bytes(entries.take(i), interval).len() as int,
        ) == entries_bytes(entries.take(i), interval),
    decreases entries.len() - i,
{
    if i == entries.len() {
        assert(entries.take(i) =~= entries);
    } else {
        lemma_entries_prefix(entries, interval, i + 1);
        lemma_entries_take(entries, interval, i);
        let a = entries_bytes(entries.take(i), interval);
        let b = entries_bytes(entries.take(i + 1), interval);
        assert(b.subrange(0, a.len() as int) =~= a);
        assert(entries_bytes(entries, interval).subrange(0, a.len() as int) =~= b.subrange(
            0,
            a.len() as int,
        ));
    }
}

proof fn lemma_offsets_bytes_len(offsets: Seq<nat>)
    ensures
        offsets_bytes(offsets).len() == 4 * offsets.len(),
    decreases offsets.len(),
{
    lemma_auto_spec_u32_to_from_le_bytes();
    if offsets.len() > 0 {
        lemma_offsets_bytes_len(offsets.drop_last());
    }
}

/// The key of the entry before entry `i`; none before the first.
pub open spec fn previous_key(entries: Seq<(Seq<u8>, Seq<u8>)>, i: int) -> Seq<u8> {
    if i == 0 {
        Seq::empty()
    } else {
        entries[i - 1].0
    }
}

/// Where entry `i` of a block holding `entries` begins.
pub open spec fn entry_offset(entries: Seq<(Seq<u8>, Seq<u8>)>, interval: nat, i: int) -> nat {
    entries_bytes(entries.take(i), interval).len()
}

/// A block built from any key/value pairs, at any restart interval, reads back
/// as those pairs in order: its restart array begins right after the entries,
/// each entry read from where the one before ended, with the key before it,
/// gives the next pair, and the entries end where the restart array begins.
pub proof fn lemma_block_round_trip(entries: Seq<(Seq<u8>, Seq<u8>)>, interval: nat)
    requires
        interval >= 1,
        block_bytes(entries, interval).len() <= u32::MAX,
        forall|i: int|
            0 <= i < entries.len() ==> (#[trigger] entries[i]).0.len() <= u32::MAX
                && entries[i].1.len() <= u32::MAX,
    ensures
        restart_array_start(block_bytes(entries, interval)) == Some(
            entries_bytes(entries, interval).len(),
        ),
        forall|i: int|
            0 <= i < entries.len() ==> #[trigger] entry_decoding(
                block_bytes(entries, interval).subrange(
                    entry_offset(entries, interval, i) as int,
                    entries_bytes(entries, interval).len() as int,
                ),
                previous_key(entries, i),
            ) == Some(
                (
                    entries[i].0,
                    entries[i].1,
                    (entry_offset(entries, interval, i + 1) - entry_offset(entries, interval, i)) as nat,
                ),
            ),
        entry_offset(entries, interval, entries.len() as int) == entries_bytes(entries, interval).len(),
{
    lemma_auto_spec_u32_to_from_le_bytes();
    let data = block_bytes(entries, interval);
    let body = entries_bytes(entries, interval);
    let offsets = restart_offsets(entries, interval);
    lemma_offsets_bytes_len(offsets);
    let k = offsets.len();
    assert(data.subrange(data.len() - 4, data.len() as int) =~= spec_u32_to_le_bytes(k as u32));
    assert(stored_restart_count(data) == k);
    assert(entries.take(entries.len() as int) =~= entries);
    assert forall|i: int| 0 <= i < entries.len() implies #[trigger] entry_decoding(
        data.subrange(entry_offset(entries, interval, i) as int, body.len() as int),
        previous_key(entries, i),
    ) == Some(
        (
            entries[i].0,
            entries[i].1,
            (entry_offset(entries, interval, i + 1) - entry_offset(entries, interval, i)) as nat,
        ),
    ) by {
        lemma_entries_take(entries, interval, i);
        lemma_entries_prefix(entries, interval, i + 1);
        let a = entries_bytes(entries.take(i), interval);
        let sh = shared_len(entries, i, interval);
        let e = block_entry(sh, entries[i].0, entries[i].1);
        let start = a.len() as int;
        let rest = body.subrange(start + e.len(), body.len() as int);
        assert(data.subrange(start, body.len() as int) =~= e + rest) by {
            assert(body.subrange(0, start + e.len()) == a + e);
            assert(data.subrange(start, body.len() as int) =~= body.subrange(start, body.len() as int));
            assert(body.subrange(start, start + e.len()) =~= (a + e).subrange(start, start + e.len()));
            assert((a + e).subrange(start, start + e.len()) =~= e);
        }
        let prev = previous_key(entries, i);
        if i % (interval as int) == 0 {
            assert(prev.take(0) =~= entries[i].0.take(0));
        } else {
            assert(i != 0) by {
                vstd::arithmetic::div_mod::lemma_small_mod(0, interval);
            }
            lemma_common_prefix(entries[i].0, entries[i - 1].0);
        }
        lemma_entry_round_trip(sh, entries[i].0, entries[i].1, prev, rest);
    }
}

} // verus!
