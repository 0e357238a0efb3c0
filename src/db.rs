//! The write path: sequence numbers, the log record of each write, and the
//! memtable that reads consult.

use vstd::prelude::*;

use crate::key::MAX_SEQUENCE;
use crate::log::{
    framing, lemma_record_from_advances, no_record_after, record_at, Reader, Writer, BLOCK_SIZE,
};
use crate::memtable::MemTable;
use crate::write_batch::{
    apply_operations, batch_operations, header_count, header_sequence, size_after_operations,
    Operation, WriteBatch,
};
use crate::{Status, ValueItem};

verus! {

/// What the caller does with a staged write before committing it: append
/// `record` to the log file, then make it durable where `sync` asks for it.
#[derive(Debug)]
pub struct LogWrite {
    pub record: Vec<u8>,
    pub sync: bool,
}

/// The store's in-memory state: the memtable, the log writer's position, the
/// last published sequence number and the batch being written.
pub struct DB {
    mem_table: MemTable,
    log_writer: Writer,
    sequence: u64,
    wb: WriteBatch,
    pending: bool,
}

impl DB {
    /// What reads see: the newest operation for each key.
    pub closed spec fn contents(&self) -> Map<Seq<u8>, ValueItem<Seq<u8>>> {
        self.mem_table@
    }

    /// The bytes the memtable holds: each key, its value and an eight-byte trailer.
    pub closed spec fn memtable_size(&self) -> nat {
        self.mem_table.size()
    }

    /// The last published sequence number.
    pub closed spec fn last_sequence(&self) -> u64 {
        self.sequence
    }

    /// Where in its block the log writer stands.
    pub closed spec fn log_offset(&self) -> int {
        self.log_writer.offset()
    }

    /// Whether a staged write waits for its commit.
    pub closed spec fn pending(&self) -> bool {
        self.pending
    }

    /// The bytes of the staged batch.
    pub closed spec fn staged(&self) -> Seq<u8> {
        self.wb@
    }

    pub closed spec fn wf(&self) -> bool {
        &&& self.mem_table.wf()
        &&& self.log_writer.wf()
        &&& self.wb.wf()
        &&& self.wb.operations() is Some
        &&& self.sequence <= MAX_SEQUENCE
        &&& self.pending ==> self.sequence + header_count(self.wb@) <= MAX_SEQUENCE
    }

    /// An empty store at the start of an empty log.
    pub fn new() -> (r: DB)
        ensures
            r.wf(),
            r.contents() == Map::<Seq<u8>, ValueItem<Seq<u8>>>::empty(),
            r.last_sequence() == 0,
            r.log_offset() == 0,
            r.memtable_size() == 0,
            !r.pending(),
    {
        DB {
            mem_table: MemTable::new(),
            log_writer: Writer::new(),
            sequence: 0,
            wb: WriteBatch::new(),
            pending: false,
        }
    }

    /// The bytes the memtable holds: each key, its value and an eight-byte trailer.
    pub fn memtable_bytes(&self) -> (r: usize)
        requires
            self.wf(),
        ensures
            r == self.memtable_size(),
    {
        self.mem_table.total_bytes()
    }

    /// The last published sequence number.
    pub fn sequence(&self) -> (r: u64)
        ensures
            r == self.last_sequence(),
    {
        self.sequence
    }

    /// Whether a staged write waits for its commit.
    pub fn has_pending(&self) -> (r: bool)
        ensures
            r == self.pending(),
    {
        self.pending
    }

    /// The newest value of `key`; `NotFound` where it was never written or
    /// its newest operation is a deletion.
    pub fn get(&self, key: &[u8]) -> (r: Result<Vec<u8>, Status>)
        requires
            self.wf(),
        ensures
            match r {
                Ok(v) => self.contents().contains_key(key@) && self.contents()[key@]
                    == ValueItem::Value(v@),
                Err(e) => e == Status::NotFound && (!self.contents().contains_key(key@)
                    || self.contents()[key@] == ValueItem::<Seq<u8>>::Deletion),
            },
    {
        match self.mem_table.get(key) {
            Some(v) => Ok(vstd::slice::slice_to_vec(v)),
            None => Err(Status::NotFound),
        }
    }

    /// Numbers the staged batch from the next sequence number on and frames it
    /// as one log record.
    fn write(&mut self, sync: bool) -> (r: LogWrite)
        requires
            old(self).wf(),
            old(self).wb.operations() is Some,
            old(self).sequence + header_count(old(self).wb@) <= MAX_SEQUENCE,
        ensures
            final(self).wf(),
            final(self).pending(),
            final(self).contents() == old(self).contents(),
            final(self).memtable_size() == old(self).memtable_size(),
            final(self).last_sequence() == old(self).last_sequence(),
            header_sequence(final(self).staged()) == old(self).last_sequence() + 1,
            header_count(final(self).staged()) == header_count(old(self).wb@),
            batch_operations(final(self).staged()) == batch_operations(old(self).wb@),
            r.sync == sync,
            r.record@ == framing(old(self).log_offset(), final(self).staged(), true).0,
            final(self).log_offset() == framing(old(self).log_offset(), final(self).staged(), true).1,
    {
        self.wb.set_sequence(self.sequence + 1);
        let mut record: Vec<u8> = Vec::new();
        self.log_writer.append(self.wb.get_contents(), &mut record);
        self.pending = true;
        LogWrite { record, sync }
    }

    /// Stages a put of `value` under `key`; the caller appends the returned
    /// record to the log, syncs it where asked, and then commits.
    pub fn put(&mut self, key: &[u8], value: &[u8], sync: bool) -> (r: LogWrite)
        requires
            old(self).wf(),
            old(self).last_sequence() < MAX_SEQUENCE,
            key@.len() <= u32::MAX,
            value@.len() <= u32::MAX,
        ensures
            final(self).wf(),
            final(self).pending(),
            final(self).contents() == old(self).contents(),
            final(self).memtable_size() == old(self).memtable_size(),
            final(self).last_sequence() == old(self).last_sequence(),
            header_sequence(final(self).staged()) == old(self).last_sequence() + 1,
            header_count(final(self).staged()) == 1,
            batch_operations(final(self).staged()) == Some(seq![(key@, ValueItem::Value(value@))]),
            r.sync == sync,
            r.record@ == framing(old(self).log_offset(), final(self).staged(), true).0,
            final(self).log_offset() == framing(old(self).log_offset(), final(self).staged(), true).1,
    {
        self.wb.clear();
        self.wb.put(key, value);
        assert(Seq::<Operation>::empty().push((key@, ValueItem::Value(value@))) =~= seq![
            (key@, ValueItem::Value(value@)),
        ]);
        self.write(sync)
    }

    /// Stages a deletion of `key`; the caller appends the returned record to
    /// the log, syncs it where asked, and then commits.
    pub fn delete(&mut self, key: &[u8], sync: bool) -> (r: LogWrite)
        requires
            old(self).wf(),
            old(self).last_sequence() < MAX_SEQUENCE,
            key@.len() <= u32::MAX,
        ensures
            final(self).wf(),
            final(self).pending(),
            final(self).contents() == old(self).contents(),
            final(self).memtable_size() == old(self).memtable_size(),
            final(self).last_sequence() == old(self).last_sequence(),
            header_sequence(final(self).staged()) == old(self).last_sequence() + 1,
            header_count(final(self).staged()) == 1,
            batch_operations(final(self).staged()) == Some(
                seq![(key@, ValueItem::<Seq<u8>>::Deletion)],
            ),
            r.sync == sync,
            r.record@ == framing(old(self).log_offset(), final(self).staged(), true).0,
            final(self).log_offset() == framing(old(self).log_offset(), final(self).staged(), true).1,
    {
        self.wb.clear();
        self.wb.delete(key);
        assert(Seq::<Operation>::empty().push((key@, ValueItem::<Seq<u8>>::Deletion)) =~= seq![
            (key@, ValueItem::<Seq<u8>>::Deletion),
        ]);
        self.write(sync)
    }

    /// Drops the staged write, where its record could not be written; nothing
    /// it holds becomes visible.
    pub fn discard(&mut self)
        requires
            old(self).wf(),
        ensures
            final(self).wf(),
            !final(self).pending(),
            final(self).contents() == old(self).contents(),
            final(self).memtable_size() == old(self).memtable_size(),
            final(self).last_sequence() == old(self).last_sequence(),
            final(self).log_offset() == old(self).log_offset(),
    {
        self.pending = false;
    }

    /// Applies the staged batch, once its record is in the log, and publishes
    /// its sequence numbers.
    pub fn commit(&mut self) -> (r: Result<(), Status>)
        requires
            old(self).wf(),
            old(self).pending(),
            old(self).memtable_size() + 8 * old(self).staged().len() <= usize::MAX,
        ensures
            final(self).wf(),
            !final(self).pending(),
            r is Ok,
            batch_operations(old(self).staged()) matches Some(ops) && final(self).contents()
                == apply_operations(old(self).contents(), ops) && final(self).memtable_size()
                == size_after_operations(old(self).contents(), old(self).memtable_size(), ops),
            final(self).last_sequence() == old(self).last_sequence() + header_count(
                old(self).staged(),
            ),
            final(self).log_offset() == old(self).log_offset(),
    {
        let count = self.wb.get_count();
        match self.wb.apply_to(&mut self.mem_table) {
            Ok(()) => {},
            Err(e) => return Err(e),
        }
        self.sequence = self.sequence + count as u64;
        self.pending = false;
        Ok(())
    }
}

/// Replaying the log `data` from `pos` over contents `m` of size `size` and
/// sequence number `seq`: each record's batch is applied and advances the
/// sequence by its count; the result also gives where the intact records
/// end. A batch that is malformed, would take the sequence
/// past its range or could take the size past a machine word is corruption; a
/// read error is tolerated where no record follows it.
pub open spec fn replay(
    data: Seq<u8>,
    pos: int,
    m: Map<Seq<u8>, ValueItem<Seq<u8>>>,
    size: nat,
    seq: nat,
) -> Result<(Map<Seq<u8>, ValueItem<Seq<u8>>>, nat, nat, int), Status>
    decreases data.len() - pos,
{
    if pos < 0 || pos > data.len() {
        Ok((m, size, seq, pos))
    } else {
        proof {
            lemma_record_from_advances(data, pos, false, Seq::empty());
        }
        match record_at(data, pos) {
            (Ok(None), _) => Ok((m, size, seq, pos)),
            (Err(e), p) => if no_record_after(data, p) {
                Ok((m, size, seq, pos))
            } else {
                Err(e)
            },
            (Ok(Some(rec)), p) => if rec.len() < 12 {
                Err(Status::Corruption)
            } else if size + 8 * rec.len() > usize::MAX {
                Err(Status::Corruption)
            } else {
                match batch_operations(rec) {
                    Some(ops) => if seq + header_count(rec) > MAX_SEQUENCE {
                        Err(Status::Corruption)
                    } else {
                        replay(
                            data,
                            p,
                            apply_operations(m, ops),
                            size_after_operations(m, size, ops),
                            (seq + header_count(rec)) as nat,
                        )
                    },
                    None => Err(Status::Corruption),
                }
            },
        }
    }
}

impl DB {
    /// Rebuilds the store from the bytes of its log: every batch is applied in
    /// order and the sequence number advanced by each batch's count. Also
    /// returns where the intact records end: the caller cuts the log there,
    /// and the log writer goes on from that point.
    pub fn recover(log: Vec<u8>) -> (r: Result<(DB, usize), Status>)
        ensures
            match replay(log@, 0, Map::empty(), 0, 0) {
                Ok((m, z, s, end)) => r matches Ok((db, e)) && db.wf() && db.contents() == m
                    && db.memtable_size() == z && db.last_sequence() == s && !db.pending()
                    && e == end && db.log_offset() == end % (BLOCK_SIZE as int),
                Err(e) => r matches Err(x) && x == e,
            },
    {
        let ghost data = log@;
        let mut db = DB::new();
        let mut reader = Reader::new(log);
        loop
            invariant
                reader.wf(),
                reader.contents() == data,
                0 <= reader.position() <= data.len(),
                data == log@,
                db.wf(),
                !db.pending(),
                db.log_offset() == 0,
                replay(data, 0, Map::empty(), 0, 0) == replay(
                    data,
                    reader.position(),
                    db.contents(),
                    db.memtable_size(),
                    db.last_sequence() as nat,
                ),
            decreases data.len() - reader.position(),
        {
            let ghost pos = reader.position();
            proof {
                lemma_record_from_advances(data, pos, false, Seq::empty());
            }
            let end = reader.position_now();
            match reader.read() {
                Ok(None) => {
                    db.log_writer = Writer::resume(end % BLOCK_SIZE);
                    return Ok((db, end));
                },
                Err(e) => {
                    let mut db = match DB::check_tail(reader, db, e) {
                        Ok(d) => d,
                        Err(x) => return Err(x),
                    };
                    db.log_writer = Writer::resume(end % BLOCK_SIZE);
                    return Ok((db, end));
                },
                Ok(Some(record)) => {
                    let batch = match WriteBatch::from(record) {
                        Ok(b) => b,
                        Err(e) => return Err(e),
                    };
                    let total = db.mem_table.total_bytes();
                    if batch.get_contents().len() > (usize::MAX - total) / 8 {
                        return Err(Status::Corruption);
                    }
                    let count = batch.get_count();
                    if count as u64 > MAX_SEQUENCE - db.sequence {
                        return Err(Status::Corruption);
                    }
                    match batch.apply_to(&mut db.mem_table) {
                        Ok(()) => {},
                        Err(e) => return Err(e),
                    }
                    db.sequence = db.sequence + count as u64;
                },
            }
        }
    }

    /// After a read error: the store as it stands where no record follows,
    /// else the error.
    fn check_tail(tail: Reader, db: DB, e: Status) -> (r: Result<DB, Status>)
        requires
            tail.wf(),
            0 <= tail.position() <= tail.contents().len(),
        ensures
            no_record_after(tail.contents(), tail.position()) ==> (r matches Ok(d) && d == db),
            !no_record_after(tail.contents(), tail.position()) ==> (r matches Err(x) && x == e),
    {
        let ghost data = tail.contents();
        let ghost start = tail.position();
        let mut reader = tail;
        loop
            invariant
                reader.wf(),
                reader.contents() == data,
                data == tail.contents(),
                start == tail.position(),
                0 <= reader.position() <= data.len(),
                no_record_after(data, start) == no_record_after(data, reader.position()),
            decreases data.len() - reader.position(),
        {
            let ghost pos = reader.position();
            proof {
                lemma_record_from_advances(data, pos, false, Seq::empty());
            }
            match reader.read() {
                Ok(None) => {
                    return Ok(db);
                },
                Ok(Some(_)) => {
                    return Err(e);
                },
                Err(_) => {},
            }
        }
    }
}

} // verus!
