//! Write batches: a sequence number, an operation count and an ordered list of
//! puts and deletes, stored in the layout that the log carries.

use vstd::bytes::*;
use vstd::prelude::*;

use crate::coding::{
    decode_fixed32, decode_fixed64, decode_length_prefixed_slice, encode_fixed32, encode_fixed64,
    lemma_length_prefixed_round_trip, lemma_varint_decoding_extends, lemma_varint_decoding_length,
    length_prefixed, length_prefixed_decoding, put_fixed32, put_fixed64, put_length_prefixed_slice,
    varint32_decoding, varint_encoding,
};
use crate::memtable::{entries_size, entry_cost, is_sorted_listing, item_len, size_after, MemTable};
use crate::{Status, ValueItem, ValueType};

verus! {

/// The bytes before the first operation: an eight-byte sequence number and a
/// four-byte count.
pub const WRITE_BATCH_HEADER_SIZE: usize = 12;

/// The tag of a deletion.
pub const TAG_DELETION: u8 = 0;

/// The tag of a put.
pub const TAG_VALUE: u8 = 1;

/// One operation as plain values: the key, and the value or a tombstone.
pub type Operation = (Seq<u8>, ValueItem<Seq<u8>>);

/// The operation that a borrowed `ValueType` stands for.
pub open spec fn operation_of(v: ValueType) -> Operation {
    match v {
        ValueType::Deletion(k) => (k@, ValueItem::Deletion),
        ValueType::Value(k, val) => (k@, ValueItem::Value(val@)),
    }
}

/// The bytes of one operation: its tag, the length-prefixed key and, for a put,
/// the length-prefixed value.
pub open spec fn operation_encoding(op: Operation) -> Seq<u8> {
    match op.1 {
        ValueItem::Deletion => seq![TAG_DELETION] + length_prefixed(op.0),
        ValueItem::Value(v) => seq![TAG_VALUE] + length_prefixed(op.0) + length_prefixed(v),
    }
}

/// The bytes of a list of operations, one after the other.
pub open spec fn operations_encoding(ops: Seq<Operation>) -> Seq<u8>
    decreases ops.len(),
{
    if ops.len() == 0 {
        Seq::empty()
    } else {
        operation_encoding(ops[0]) + operations_encoding(ops.drop_first())
    }
}

/// The operation at the start of `s` and the number of bytes it takes.
pub open spec fn operation_decoding(s: Seq<u8>) -> Option<(Operation, nat)> {
    if s.len() == 0 {
        None
    } else if s[0] == TAG_DELETION {
        match length_prefixed_decoding(s.drop_first()) {
            Some((k, n)) => Some(((k, ValueItem::Deletion), n + 1)),
            None => None,
        }
    } else if s[0] == TAG_VALUE {
        match length_prefixed_decoding(s.drop_first()) {
            Some((k, n)) => match length_prefixed_decoding(s.skip((n + 1) as int)) {
                Some((v, m)) => Some(((k, ValueItem::Value(v)), n + m + 1)),
                None => None,
            },
            None => None,
        }
    } else {
        None
    }
}

/// Exactly `count` operations that take all of `s`.
pub open spec fn operations_decoding(s: Seq<u8>, count: nat) -> Option<Seq<Operation>>
    decreases count,
{
    if count == 0 {
        if s.len() == 0 {
            Some(Seq::empty())
        } else {
            None
        }
    } else {
        match operation_decoding(s) {
            Some((op, n)) => match operations_decoding(s.skip(n as int), (count - 1) as nat) {
                Some(rest) => Some(seq![op] + rest),
                None => None,
            },
            None => None,
        }
    }
}

/// The sequence number in a batch's header.
pub open spec fn header_sequence(rep: Seq<u8>) -> u64 {
    spec_u64_from_le_bytes(rep.subrange(0, 8))
}

/// The operation count in a batch's header.
pub open spec fn header_count(rep: Seq<u8>) -> u32 {
    spec_u32_from_le_bytes(rep.subrange(8, 12))
}

/// The operations of a batch's bytes: exactly as many as the header counts,
/// taking every byte after it.
pub open spec fn batch_operations(rep: Seq<u8>) -> Option<Seq<Operation>> {
    operations_decoding(rep.skip(WRITE_BATCH_HEADER_SIZE as int), header_count(rep) as nat)
}

/// A memtable's contents after applying `ops` in order.
pub open spec fn apply_operations(
    m: Map<Seq<u8>, ValueItem<Seq<u8>>>,
    ops: Seq<Operation>,
) -> Map<Seq<u8>, ValueItem<Seq<u8>>>
    decreases ops.len(),
{
    if ops.len() == 0 {
        m
    } else {
        apply_operations(m, ops.drop_last()).insert(ops.last().0, ops.last().1)
    }
}

proof fn lemma_length_prefixed_decoding_extends(s: Seq<u8>, t: Seq<u8>)
    requires
        length_prefixed_decoding(s) is Some,
    ensures
        length_prefixed_decoding(s + t) == length_prefixed_decoding(s),
{
    lemma_varint_decoding_extends(s, t, 5);
    let (len, n) = varint32_decoding(s)->0;
    assert((s + t).subrange(n as int, n + len) =~= s.subrange(n as int, n + len));
}

/// Decoding an operation reads only its own bytes.
pub proof fn lemma_operation_decoding_extends(s: Seq<u8>, t: Seq<u8>)
    requires
        operation_decoding(s) is Some,
    ensures
        operation_decoding(s + t) == operation_decoding(s),
{
    assert((s + t)[0] == s[0]);
    assert((s + t).drop_first() =~= s.drop_first() + t);
    lemma_length_prefixed_decoding_extends(s.drop_first(), t);
    if s[0] == TAG_VALUE {
        let n = (length_prefixed_decoding(s.drop_first())->0).1;
        assert((s + t).skip((n + 1) as int) =~= s.skip((n + 1) as int) + t);
        lemma_length_prefixed_decoding_extends(s.skip((n + 1) as int), t);
    }
}

/// Decoding the encoding of an operation, whatever follows, gives the operation
/// and the encoding's length.
pub proof fn lemma_operation_round_trip(op: Operation, rest: Seq<u8>)
    requires
        op.0.len() <= u32::MAX,
        op.1 matches ValueItem::Value(v) ==> v.len() <= u32::MAX,
    ensures
        operation_decoding(operation_encoding(op) + rest) == Some(
            (op, operation_encoding(op).len()),
        ),
{
    let s = operation_encoding(op) + rest;
    let k = op.0;
    match op.1 {
        ValueItem::Deletion => {
            assert(s.drop_first() =~= length_prefixed(k) + rest);
            lemma_length_prefixed_round_trip(k, rest);
        },
        ValueItem::Value(v) => {
            assert(s.drop_first() =~= length_prefixed(k) + (length_prefixed(v) + rest));
            lemma_length_prefixed_round_trip(k, length_prefixed(v) + rest);
            let n = varint_encoding(k.len()).len() + k.len();
            assert(s.skip((n + 1) as int) =~= length_prefixed(v) + rest);
            lemma_length_prefixed_round_trip(v, rest);
        },
    }
}

/// Appending one operation's bytes to a well-formed list of `count` operations
/// gives a list of `count + 1` with that operation last.
pub proof fn lemma_operations_push(s: Seq<u8>, count: nat, op: Operation)
    requires
        operations_decoding(s, count) is Some,
        op.0.len() <= u32::MAX,
        op.1 matches ValueItem::Value(v) ==> v.len() <= u32::MAX,
    ensures
        operations_decoding(s + operation_encoding(op), count + 1) == Some(
            operations_decoding(s, count)->0.push(op),
        ),
    decreases count,
{
    let e = operation_encoding(op);
    if count == 0 {
        assert(s + e =~= e);
        lemma_operation_round_trip(op, Seq::empty());
        assert(e + Seq::<u8>::empty() =~= e);
        assert(e.skip(e.len() as int) =~= Seq::<u8>::empty());
        assert(operations_decoding(Seq::<u8>::empty(), 0) == Some(Seq::<Operation>::empty()));
        assert(operation_decoding(e) == Some((op, e.len())));
        assert(seq![op] + Seq::<Operation>::empty() =~= Seq::<Operation>::empty().push(op));
        assert(operations_decoding(s, count) == Some(Seq::<Operation>::empty()));
    } else {
        let (op0, n) = operation_decoding(s)->0;
        lemma_operation_decoding_extends(s, e);
        assert((s + e).skip(n as int) =~= s.skip(n as int) + e);
        lemma_operations_push(s.skip(n as int), (count - 1) as nat, op);
        let rest = operations_decoding(s.skip(n as int), (count - 1) as nat)->0;
        assert(seq![op0] + rest.push(op) =~= (seq![op0] + rest).push(op));
    }
}

/// A list of puts and deletes to be applied together.
#[derive(Debug)]
pub struct WriteBatch {
    rep: Vec<u8>,
}

impl View for WriteBatch {
    type V = Seq<u8>;

    /// The batch's bytes as the log carries them.
    closed spec fn view(&self) -> Seq<u8> {
        self.rep@
    }
}

impl WriteBatch {
    /// The batch holds at least its header.
    pub open spec fn wf(&self) -> bool {
        self@.len() >= WRITE_BATCH_HEADER_SIZE
    }

    /// The batch's operations, where its bytes hold exactly as many as it counts.
    pub open spec fn operations(&self) -> Option<Seq<Operation>> {
        batch_operations(self@)
    }

    /// An empty batch: twelve zero bytes, sequence zero and no operations.
    pub fn new() -> (r: WriteBatch)
        ensures
            r.wf(),
            r@ == empty_batch(),
            header_sequence(r@) == 0,
            header_count(r@) == 0,
            r.operations() == Some(Seq::<Operation>::empty()),
    {
        let mut rep: Vec<u8> = Vec::new();
        put_fixed64(&mut rep, 0);
        put_fixed32(&mut rep, 0);
        proof {
            lemma_empty_header(rep@);
        }
        WriteBatch { rep }
    }

    /// Drops every operation and resets the header to zero.
    pub fn clear(&mut self)
        ensures
            final(self).wf(),
            final(self)@ == empty_batch(),
            header_sequence(final(self)@) == 0,
            header_count(final(self)@) == 0,
            final(self).operations() == Some(Seq::<Operation>::empty()),
    {
        self.rep.clear();
        put_fixed64(&mut self.rep, 0);
        put_fixed32(&mut self.rep, 0);
        proof {
            lemma_empty_header(self.rep@);
        }
    }

    /// Writes `sequence` into the header.
    pub fn set_sequence(&mut self, sequence: u64)
        requires
            old(self).wf(),
        ensures
            final(self).wf(),
            final(self)@ == spec_u64_to_le_bytes(sequence) + old(self)@.skip(8),
            header_sequence(final(self)@) == sequence,
            header_count(final(self)@) == header_count(old(self)@),
            final(self).operations() == old(self).operations(),
    {
        encode_fixed64(&mut self.rep, 0, sequence);
        proof {
            lemma_auto_spec_u64_to_from_le_bytes();
            let old_rep = old(self)@;
            assert(self.rep@ =~= spec_u64_to_le_bytes(sequence) + old_rep.skip(8));
            assert(self.rep@.subrange(0, 8) =~= spec_u64_to_le_bytes(sequence));
            assert(self.rep@.subrange(8, 12) =~= old_rep.subrange(8, 12));
            assert(self.rep@.skip(12) =~= old_rep.skip(12));
        }
    }

    /// Writes `count` into the header.
    pub fn set_count(&mut self, count: u32)
        requires
            old(self).wf(),
        ensures
            final(self).wf(),
            final(self)@ == old(self)@.subrange(0, 8) + spec_u32_to_le_bytes(count) + old(
                self,
            )@.skip(12),
            header_sequence(final(self)@) == header_sequence(old(self)@),
            header_count(final(self)@) == count,
    {
        encode_fixed32(&mut self.rep, 8, count);
        proof {
            lemma_auto_spec_u32_to_from_le_bytes();
            let old_rep = old(self)@;
            assert(self.rep@.skip(12) =~= old_rep.skip(12));
            assert(self.rep@.subrange(8, 12) =~= spec_u32_to_le_bytes(count));
            assert(self.rep@.subrange(0, 8) =~= old_rep.subrange(0, 8));
        }
    }

    /// The sequence number in the header.
    pub fn get_sequence(&self) -> (r: u64)
        requires
            self.wf(),
        ensures
            r == header_sequence(self@),
    {
        decode_fixed64(self.rep.as_slice())
    }

    /// The operation count in the header.
    pub fn get_count(&self) -> (r: u32)
        requires
            self.wf(),
        ensures
            r == header_count(self@),
    {
        let tail = vstd::slice::slice_subrange(self.rep.as_slice(), 8, WRITE_BATCH_HEADER_SIZE);
        assert(tail@.subrange(0, 4) =~= self@.subrange(8, 12));
        decode_fixed32(tail)
    }

    /// The batch's bytes.
    pub fn get_contents(&self) -> (r: &[u8])
        ensures
            r@ == self@,
    {
        self.rep.as_slice()
    }

    /// Appends one operation and counts it.
    fn push_operation(&mut self, key: &[u8], value: Option<&[u8]>)
        requires
            old(self).wf(),
            header_count(old(self)@) < u32::MAX,
            key@.len() <= u32::MAX,
            value matches Some(v) ==> v@.len() <= u32::MAX,
        ensures
            final(self).wf(),
            final(self)@ == old(self)@.subrange(0, 8) + spec_u32_to_le_bytes(
                (header_count(old(self)@) + 1) as u32,
            ) + old(self)@.skip(12) + operation_encoding(
                (
                    key@,
                    match value {
                        Some(v) => ValueItem::Value(v@),
                        None => ValueItem::Deletion,
                    },
                ),
            ),
            header_sequence(final(self)@) == header_sequence(old(self)@),
            header_count(final(self)@) == header_count(old(self)@) + 1,
            old(self).operations() is Some ==> final(self).operations() == Some(
                old(self).operations()->0.push(
                    (
                        key@,
                        match value {
                            Some(v) => ValueItem::Value(v@),
                            None => ValueItem::Deletion,
                        },
                    ),
                ),
            ),
    {
        let ghost op: Operation = (
            key@,
            match value {
                Some(v) => ValueItem::Value(v@),
                None => ValueItem::Deletion,
            },
        );
        let count = self.get_count();
        self.set_count(count + 1);
        proof {
            lemma_auto_spec_u32_to_from_le_bytes();
        }
        let ghost counted = self@;
        match value {
            Some(v) => {
                self.rep.push(TAG_VALUE);
                put_length_prefixed_slice(&mut self.rep, key);
                put_length_prefixed_slice(&mut self.rep, v);
            },
            None => {
                self.rep.push(TAG_DELETION);
                put_length_prefixed_slice(&mut self.rep, key);
            },
        }
        proof {
            lemma_auto_spec_u32_to_from_le_bytes();
            assert(self@ =~= counted + operation_encoding(op));
            let body = old(self)@.skip(12);
            assert(counted.skip(12) =~= body);
            assert(self@.skip(12) =~= body + operation_encoding(op));
            assert(self@.subrange(0, 8) =~= counted.subrange(0, 8));
            assert(self@.subrange(8, 12) =~= counted.subrange(8, 12));
            if old(self).operations() is Some {
                lemma_operations_push(body, header_count(old(self)@) as nat, op);
            }
        }
    }

    /// Appends a put of `value` under `key`.
    pub fn put(&mut self, key: &[u8], value: &[u8])
        requires
            old(self).wf(),
            header_count(old(self)@) < u32::MAX,
            key@.len() <= u32::MAX,
            value@.len() <= u32::MAX,
        ensures
            final(self).wf(),
            final(self)@ == old(self)@.subrange(0, 8) + spec_u32_to_le_bytes(
                (header_count(old(self)@) + 1) as u32,
            ) + old(self)@.skip(12) + operation_encoding((key@, ValueItem::Value(value@))),
            header_sequence(final(self)@) == header_sequence(old(self)@),
            header_count(final(self)@) == header_count(old(self)@) + 1,
            old(self).operations() is Some ==> final(self).operations() == Some(
                old(self).operations()->0.push((key@, ValueItem::Value(value@))),
            ),
    {
        self.push_operation(key, Some(value));
    }

    /// Appends a deletion of `key`.
    pub fn delete(&mut self, key: &[u8])
        requires
            old(self).wf(),
            header_count(old(self)@) < u32::MAX,
            key@.len() <= u32::MAX,
        ensures
            final(self).wf(),
            final(self)@ == old(self)@.subrange(0, 8) + spec_u32_to_le_bytes(
                (header_count(old(self)@) + 1) as u32,
            ) + old(self)@.skip(12) + operation_encoding((key@, ValueItem::Deletion)),
            header_sequence(final(self)@) == header_sequence(old(self)@),
            header_count(final(self)@) == header_count(old(self)@) + 1,
            old(self).operations() is Some ==> final(self).operations() == Some(
                old(self).operations()->0.push((key@, ValueItem::Deletion)),
            ),
    {
        self.push_operation(key, None);
    }

    /// A batch over `rep`; `Corruption` where it is shorter than the header.
    pub fn from(rep: Vec<u8>) -> (r: Result<WriteBatch, Status>)
        ensures
            rep@.len() >= WRITE_BATCH_HEADER_SIZE ==> (r matches Ok(b) && b@ == rep@),
            rep@.len() < WRITE_BATCH_HEADER_SIZE ==> r == Err::<WriteBatch, Status>(
                Status::Corruption,
            ),
    {
        if rep.len() < WRITE_BATCH_HEADER_SIZE {
            return Err(Status::Corruption);
        }
        Ok(WriteBatch { rep })
    }
}

/// The bytes of an empty batch: sequence zero and count zero, both little-endian.
pub open spec fn empty_batch() -> Seq<u8> {
    spec_u64_to_le_bytes(0) + spec_u32_to_le_bytes(0)
}

proof fn lemma_empty_header(rep: Seq<u8>)
    requires
        rep == Seq::<u8>::empty() + spec_u64_to_le_bytes(0) + spec_u32_to_le_bytes(0),
    ensures
        rep == empty_batch(),
        rep.len() == WRITE_BATCH_HEADER_SIZE,
        header_sequence(rep) == 0,
        header_count(rep) == 0,
        batch_operations(rep) == Some(Seq::<Operation>::empty()),
{
    lemma_auto_spec_u64_to_from_le_bytes();
    lemma_auto_spec_u32_to_from_le_bytes();
    assert(rep =~= empty_batch());
    assert(rep.subrange(0, 8) =~= spec_u64_to_le_bytes(0));
    assert(rep.subrange(8, 12) =~= spec_u32_to_le_bytes(0));
    assert(rep.skip(12) =~= Seq::<u8>::empty());
}

/// Reads the operation at the start of `data`: the operation and the number of
/// bytes it takes, or `None` where the tag is unknown or a string is cut short.
pub fn decode_operation<'a>(data: &'a [u8]) -> (r: Option<(ValueType<'a>, usize)>)
    ensures
        match operation_decoding(data@) {
            Some((op, n)) => r matches Some((v, m)) && operation_of(v) == op && m == n,
            None => r is None,
        },
{
    if data.len() == 0 {
        return None;
    }
    let tag = data[0];
    if tag != TAG_DELETION && tag != TAG_VALUE {
        return None;
    }
    let rest = vstd::slice::slice_subrange(data, 1, data.len());
    assert(rest@ =~= data@.drop_first());
    let (key, n) = match decode_length_prefixed_slice(rest) {
        Some(p) => p,
        None => return None,
    };
    proof {
        lemma_varint_decoding_length(rest@, 5);
    }
    if tag == TAG_DELETION {
        return Some((ValueType::Deletion(key), n + 1));
    }
    let tail = vstd::slice::slice_subrange(data, n + 1, data.len());
    assert(tail@ =~= data@.skip((n + 1) as int));
    let (value, m) = match decode_length_prefixed_slice(tail) {
        Some(p) => p,
        None => return None,
    };
    proof {
        lemma_varint_decoding_length(tail@, 5);
    }
    Some((ValueType::Value(key, value), n + m + 1))
}

impl WriteBatch {
    /// An iterator over the batch's operations, in order.
    pub fn iter(&self) -> (r: WriteBatchIter<'_>)
        requires
            self.wf(),
        ensures
            r.wf(),
            r.batch() == self@,
            r.position() == WRITE_BATCH_HEADER_SIZE,
            r.yielded() == 0,
            !r.finished(),
    {
        WriteBatchIter::new(self)
    }

    /// Applies the batch's operations to `mem_table` in order, all of them or,
    /// where the bytes do not hold exactly the counted operations, none.
    pub fn apply_to(&self, mem_table: &mut MemTable) -> (r: Result<(), Status>)
        requires
            self.wf(),
            old(mem_table).wf(),
            old(mem_table).size() + 8 * self@.len() <= usize::MAX,
        ensures
            final(mem_table).wf(),
            match self.operations() {
                Some(ops) => {
                    &&& r is Ok
                    &&& final(mem_table)@ == apply_operations(old(mem_table)@, ops)
                    &&& final(mem_table).size() == size_after_operations(
                        old(mem_table)@,
                        old(mem_table).size(),
                        ops,
                    )
                },
                None => {
                    &&& r == Err::<(), Status>(Status::Corruption)
                    &&& final(mem_table)@ == old(mem_table)@
                    &&& final(mem_table).size() == old(mem_table).size()
                },
            },
    {
        let mut ops: Vec<ValueType> = Vec::new();
        let mut iter = self.iter();
        let ghost count = header_count(self@) as nat;
        assert(self@.skip(iter.offset as int) =~= self@.skip(WRITE_BATCH_HEADER_SIZE as int));
        assert(Seq::<Operation>::empty() + Seq::<Operation>::empty() =~= Seq::<Operation>::empty());
        loop
            invariant_except_break
                !iter.finished(),
                batch_operations(self@) == match operations_decoding(
                    self@.skip(iter.position() as int),
                    (count - iter.yielded()) as nat,
                ) {
                    Some(rest) => Some(ops@.map_values(|v: ValueType| operation_of(v)) + rest),
                    None => None,
                },
            invariant
                iter.wf(),
                iter.batch() == self@,
                iter.yielded() <= count,
                count == header_count(self@),
                mem_table.wf(),
                mem_table@ == old(mem_table)@,
                mem_table.size() == old(mem_table).size(),
                ops@.len() == iter.yielded(),
            ensures
                batch_operations(self@) == Some(ops@.map_values(|v: ValueType| operation_of(v))),
            decreases count - iter.yielded(),
        {
            let ghost before = iter;
            let res = iter.next();
            match res {
                None => {
                    assert(before.yielded() == count);
                    assert(self@.skip(before.position() as int) =~= Seq::<u8>::empty());
                    assert(operations_decoding(Seq::<u8>::empty(), 0) == Some(Seq::<Operation>::empty()));
                    assert(ops@.map_values(|v: ValueType| operation_of(v)) + Seq::<Operation>::empty()
                        =~= ops@.map_values(|v: ValueType| operation_of(v)));
                    break ;
                },
                Some(Err(e)) => {
                    return Err(e);
                },
                Some(Ok(v)) => {
                    assert(before.yielded() < count);
                    assert(iter.yielded() == before.yielded() + 1);
                    proof {
                        let s = self@.skip(before.position() as int);
                        let n = (operation_decoding(s)->0).1;
                        assert(s.skip(n as int) =~= self@.skip(iter.position() as int));
                    }
                    let ghost prev = ops@;
                    ops.push(v);
                    proof {
                        let f = |v: ValueType| operation_of(v);
                        assert(ops@.map_values(f) =~= prev.map_values(f).push(operation_of(v)));
                        let s = self@.skip(before.position() as int);
                        match operations_decoding(s, (count - before.yielded()) as nat) {
                            Some(rest) => {
                                assert(prev.map_values(f) + rest =~= ops@.map_values(f) + rest.drop_first());
                            },
                            None => {},
                        }
                    }
                },
            }
        }
        let ghost all = ops@.map_values(|v: ValueType| operation_of(v));
        proof {
            lemma_operations_cost(
                self@.skip(WRITE_BATCH_HEADER_SIZE as int),
                header_count(self@) as nat,
            );
        }
        let mut i: usize = 0;
        assert(all.take(0) =~= Seq::<Operation>::empty());
        while i < ops.len()
            invariant
                i <= ops@.len(),
                all == ops@.map_values(|v: ValueType| operation_of(v)),
                entries_size(all) <= 8 * self@.len(),
                old(mem_table).size() + 8 * self@.len() <= usize::MAX,
                mem_table.wf(),
                mem_table@ == apply_operations(old(mem_table)@, all.take(i as int)),
                mem_table.size() == size_after_operations(
                    old(mem_table)@,
                    old(mem_table).size(),
                    all.take(i as int),
                ),
                mem_table.size() <= old(mem_table).size() + entries_size(all.take(i as int)),
            decreases ops@.len() - i,
        {
            assert(all.take(i + 1).drop_last() =~= all.take(i as int));
            proof {
                lemma_entries_size_prefix(all, i + 1);
                assert(all.take(i + 1).last() == all[i as int]);
                mem_table.lemma_size_covers(all[i as int].0);
            }
            match ops[i] {
                ValueType::Value(key, value) => mem_table.set(key, value),
                ValueType::Deletion(key) => mem_table.delete(key),
            }
            i = i + 1;
        }
        assert(all.take(i as int) =~= all);
        Ok(())
    }
}

/// Walks a batch's operations, checking them against the counted number.
pub struct WriteBatchIter<'a> {
    wb: &'a WriteBatch,
    offset: usize,
    yielded: u32,
    finished: bool,
}

impl<'a> WriteBatchIter<'a> {
    /// The bytes of the batch walked.
    pub closed spec fn batch(&self) -> Seq<u8> {
        self.wb@
    }

    /// Where the next operation starts.
    pub closed spec fn position(&self) -> nat {
        self.offset as nat
    }

    /// How many operations have been handed out.
    pub closed spec fn yielded(&self) -> nat {
        self.yielded as nat
    }

    /// Whether the walk is over.
    pub closed spec fn finished(&self) -> bool {
        self.finished
    }

    pub closed spec fn wf(&self) -> bool {
        &&& self.wb.wf()
        &&& WRITE_BATCH_HEADER_SIZE <= self.offset <= self.wb@.len()
        &&& self.yielded <= header_count(self.wb@)
    }

    /// An iterator at the first operation of `wb`.
    pub fn new(wb: &'a WriteBatch) -> (r: Self)
        requires
            wb.wf(),
        ensures
            r.wf(),
            r.batch() == wb@,
            r.position() == WRITE_BATCH_HEADER_SIZE,
            r.yielded() == 0,
            !r.finished(),
    {
        WriteBatchIter { wb, offset: WRITE_BATCH_HEADER_SIZE, yielded: 0, finished: false }
    }

    /// The next operation. Once the counted number has been handed out, the
    /// walk ends with `None` where no bytes remain and with `Corruption` where
    /// some do; before that, bytes that hold no operation give `Corruption`.
    /// After `None` or an error, only `None` follows.
    pub fn next(&mut self) -> (r: Option<Result<ValueType<'a>, Status>>)
        requires
            old(self).wf(),
        ensures
            final(self).wf(),
            final(self).batch() == old(self).batch(),
            final(self).yielded() <= header_count(final(self).batch()),
            !(r matches Some(Ok(_))) ==> final(self).position() == old(self).position()
                && final(self).yielded() == old(self).yielded(),
            old(self).finished() ==> r is None && final(self).finished(),
            !old(self).finished() && old(self).yielded() == header_count(old(self).batch()) ==> {
                &&& final(self).finished()
                &&& old(self).position() == old(self).batch().len() ==> r is None
                &&& old(self).position() < old(self).batch().len() ==> r == Some(
                    Err::<ValueType<'a>, Status>(Status::Corruption),
                )
            },
            !old(self).finished() && old(self).yielded() < header_count(old(self).batch()) ==> match operation_decoding(old(self).batch().skip(old(self).position() as int)) {
                Some((op, n)) => {
                    &&& r matches Some(Ok(v)) && operation_of(v) == op
                    &&& final(self).position() == old(self).position() + n
                    &&& final(self).yielded() == old(self).yielded() + 1
                    &&& !final(self).finished()
                },
                None => {
                    &&& r == Some(Err::<ValueType<'a>, Status>(Status::Corruption))
                    &&& final(self).finished()
                },
            },
    {
        if self.finished {
            return None;
        }
        let rep = self.wb.rep.as_slice();
        if self.yielded == self.wb.get_count() {
            self.finished = true;
            if self.offset == rep.len() {
                return None;
            }
            return Some(Err(Status::Corruption));
        }
        let rest = vstd::slice::slice_subrange(rep, self.offset, rep.len());
        assert(rest@ =~= self.wb@.skip(self.offset as int));
        match decode_operation(rest) {
            Some((v, n)) => {
                proof {
                    let (op, m) = operation_decoding(rest@)->0;
                    lemma_operation_length(rest@);
                }
                self.offset = self.offset + n;
                self.yielded = self.yielded + 1;
                Some(Ok(v))
            },
            None => {
                self.finished = true;
                Some(Err(Status::Corruption))
            },
        }
    }
}

/// An operation takes at least one byte and no more than there are.
pub proof fn lemma_operation_length(s: Seq<u8>)
    ensures
        operation_decoding(s) matches Some((op, n)) ==> 1 <= n <= s.len(),
{
    if s.len() > 0 {
        lemma_varint_decoding_length(s.drop_first(), 5);
        match length_prefixed_decoding(s.drop_first()) {
            Some((k, n)) => {
                lemma_varint_decoding_length(s.skip((n + 1) as int), 5);
            },
            None => {},
        }
    }
}

/// A well-formed list of operations holds exactly as many as were counted.
pub proof fn lemma_operations_count(s: Seq<u8>, count: nat)
    requires
        operations_decoding(s, count) is Some,
    ensures
        operations_decoding(s, count)->0.len() == count,
    decreases count,
{
    if count > 0 {
        let (op, n) = operation_decoding(s)->0;
        lemma_operations_count(s.skip(n as int), (count - 1) as nat);
    }
}

/// A batch committed through the log comes back whole: after any earlier
/// records, reading from where its record begins returns exactly the batch's
/// bytes, which hold exactly its counted operations, and the log ends there.
pub proof fn lemma_batch_through_log(earlier: Seq<Seq<u8>>, batch: Seq<u8>)
    requires
        batch_operations(batch) is Some,
    ensures
        ({
            let log = crate::log::log_bytes(earlier.push(batch));
            let start = crate::log::log_bytes(earlier).len() as int;
            &&& crate::log::record_at(log, start) == (
                Ok::<Option<Seq<u8>>, Status>(Some(batch)),
                log.len() as int,
            )
            &&& crate::log::record_at(log, log.len() as int).0 == Ok::<Option<Seq<u8>>, Status>(
                None,
            )
            &&& batch_operations(batch)->0.len() == header_count(batch)
        }),
{
    let all = earlier.push(batch);
    crate::log::lemma_log_round_trip(all);
    let i = earlier.len() as int;
    assert(all.take(i) =~= earlier);
    assert(all.take(i + 1) =~= all);
    assert(crate::log::record_at(
        crate::log::log_bytes(all),
        crate::log::log_bytes(all.take(i)).len() as int,
    ) == (
        Ok::<Option<Seq<u8>>, Status>(Some(all[i])),
        crate::log::log_bytes(all.take(i + 1)).len() as int,
    ));
    lemma_operations_count(batch.skip(WRITE_BATCH_HEADER_SIZE as int), header_count(batch) as nat);
}

/// The item of the last operation on `key` in `ops`, if any.
pub open spec fn newest_write(ops: Seq<Operation>, key: Seq<u8>) -> Option<ValueItem<Seq<u8>>>
    decreases ops.len(),
{
    if ops.len() == 0 {
        None
    } else if ops.last().0 == key {
        Some(ops.last().1)
    } else {
        newest_write(ops.drop_last(), key)
    }
}

/// Applying operations leaves each key with its newest operation's item, and
/// keys that no operation touches as they were.
pub proof fn lemma_apply_keeps_newest(
    m: Map<Seq<u8>, ValueItem<Seq<u8>>>,
    ops: Seq<Operation>,
    key: Seq<u8>,
)
    ensures
        match newest_write(ops, key) {
            Some(item) => apply_operations(m, ops).contains_key(key) && apply_operations(m, ops)[key]
                == item,
            None => apply_operations(m, ops).contains_key(key) == m.contains_key(key) && (
            m.contains_key(key) ==> apply_operations(m, ops)[key] == m[key]),
        },
    decreases ops.len(),
{
    if ops.len() > 0 {
        lemma_apply_keeps_newest(m, ops.drop_last(), key);
    }
}

/// A memtable filled by a sequence of writes and then flushed lists each
/// written key once, with the item of its newest write (a value, or the
/// tombstone that makes a lookup report it not found), and no other key.
pub proof fn lemma_flush_holds_newest(
    ops: Seq<Operation>,
    listing: Seq<(Seq<u8>, ValueItem<Seq<u8>>)>,
    key: Seq<u8>,
)
    requires
        is_sorted_listing(apply_operations(Map::empty(), ops), listing),
    ensures
        newest_write(ops, key) matches Some(item) ==> exists|i: int|
            0 <= i < listing.len() && #[trigger] listing[i] == (key, item),
        newest_write(ops, key) is None ==> forall|i: int|
            0 <= i < listing.len() ==> (#[trigger] listing[i]).0 != key,
{
    let m = apply_operations(Map::empty(), ops);
    lemma_apply_keeps_newest(Map::empty(), ops, key);
    if let Some(item) = newest_write(ops, key) {
        assert(m.contains_key(key));
        let i = choose|i: int| 0 <= i < listing.len() && listing[i].0 == key;
        assert(listing[i] == (key, item));
    } else {
        assert forall|i: int| 0 <= i < listing.len() implies (#[trigger] listing[i]).0 != key by {
            assert(m.contains_key(listing[i].0));
        }
    }
}

/// The memtable's size after applying `ops` in order to contents `m` of size `size`.
pub open spec fn size_after_operations(
    m: Map<Seq<u8>, ValueItem<Seq<u8>>>,
    size: nat,
    ops: Seq<Operation>,
) -> nat
    decreases ops.len(),
{
    if ops.len() == 0 {
        size
    } else {
        size_after(
            apply_operations(m, ops.drop_last()),
            size_after_operations(m, size, ops.drop_last()),
            ops.last().0,
            ops.last().1,
        )
    }
}

proof fn lemma_entries_size_prefix(s: Seq<Operation>, i: int)
    requires
        0 <= i <= s.len(),
    ensures
        entries_size(s.take(i)) <= entries_size(s),
    decreases s.len() - i,
{
    if i < s.len() {
        lemma_entries_size_prefix(s, i + 1);
        assert(s.take(i + 1).drop_last() =~= s.take(i));
    } else {
        assert(s.take(i) =~= s);
    }
}

proof fn lemma_entries_size_prepend(op: Operation, rest: Seq<Operation>)
    ensures
        entries_size(seq![op] + rest) == entry_cost(op) + entries_size(rest),
    decreases rest.len(),
{
    if rest.len() == 0 {
        assert(seq![op] + rest =~= seq![op]);
        assert(seq![op].drop_last() =~= Seq::<Operation>::empty());
        assert(seq![op].last() == op);
        assert(entries_size(Seq::<Operation>::empty()) == 0);
    } else {
        lemma_entries_size_prepend(op, rest.drop_last());
        assert((seq![op] + rest).drop_last() =~= seq![op] + rest.drop_last());
        assert((seq![op] + rest).last() == rest.last());
    }
}

proof fn lemma_length_prefixed_size(s: Seq<u8>)
    ensures
        length_prefixed_decoding(s) matches Some((d, m)) ==> m >= d.len() + 1,
{
    lemma_varint_decoding_length(s, 5);
}

/// Each decoded operation counts at most eight times the bytes it takes.
proof fn lemma_operations_cost(s: Seq<u8>, count: nat)
    ensures
        operations_decoding(s, count) matches Some(ops) ==> entries_size(ops) <= 8 * s.len(),
    decreases count,
{
    if count == 0 {
        if s.len() == 0 {
            assert(entries_size(Seq::<Operation>::empty()) == 0);
        }
    } else if let Some((op, n)) = operation_decoding(s) {
        lemma_operation_length(s);
        lemma_length_prefixed_size(s.drop_first());
        if let Some((k, m)) = length_prefixed_decoding(s.drop_first()) {
            lemma_length_prefixed_size(s.skip((m + 1) as int));
        }
        assert(entry_cost(op) <= 8 * n);
        lemma_operations_cost(s.skip(n as int), (count - 1) as nat);
        if let Some(rest) = operations_decoding(s.skip(n as int), (count - 1) as nat) {
            lemma_entries_size_prepend(op, rest);
        }
    }
}

} // verus!
