//! The write-ahead log: records framed into fragments over a grid of fixed-size
//! blocks, each fragment guarded by a checksum, and the reader that takes them
//! apart again.

use vstd::bytes::*;
use vstd::prelude::*;

use crate::checksum::{crc32c, crc32c_of};
use crate::coding::{append_bytes, decode_fixed32, put_fixed32};
use crate::Status;

verus! {

/// The size of a log block.
pub const BLOCK_SIZE: usize = 32768;

/// The size of a fragment header: checksum, length and type.
pub const HEADER_SIZE: usize = 7;

/// The type of preallocated, never written space.
pub const RECORD_ZERO: u8 = 0;

/// A record in a single fragment.
pub const RECORD_FULL: u8 = 1;

/// The first fragment of a record.
pub const RECORD_FIRST: u8 = 2;

/// A fragment inside a record.
pub const RECORD_MIDDLE: u8 = 3;

/// The last fragment of a record.
pub const RECORD_LAST: u8 = 4;

/// The bytes of one fragment: the checksum of the type and payload, the payload
/// length as two bytes, the type, and the payload, integers little-endian.
pub open spec fn fragment_bytes(record_type: u8, payload: Seq<u8>) -> Seq<u8> {
    spec_u32_to_le_bytes(crc32c_of(seq![record_type] + payload)) + spec_u16_to_le_bytes(
        payload.len() as u16,
    ) + seq![record_type] + payload
}

/// The type of a fragment that does or does not begin and end its record.
pub open spec fn fragment_type(begin: bool, end: bool) -> u8 {
    if begin && end {
        RECORD_FULL
    } else if begin {
        RECORD_FIRST
    } else if end {
        RECORD_LAST
    } else {
        RECORD_MIDDLE
    }
}

/// Where in its block the next fragment starts when the writer stands at
/// `offset`: a block tail too short for a header is skipped.
pub open spec fn fragment_start(offset: int) -> int {
    if BLOCK_SIZE - offset < HEADER_SIZE {
        0
    } else {
        offset
    }
}

/// The zero bytes that fill a block tail too short for a header.
pub open spec fn block_padding(offset: int) -> Seq<u8> {
    if BLOCK_SIZE - offset < HEADER_SIZE {
        Seq::new((BLOCK_SIZE - offset) as nat, |i: int| 0u8)
    } else {
        Seq::empty()
    }
}

/// The writer's offset after a fragment that ends at `end` in its block: a
/// block filled exactly leaves the writer at the start of the next.
pub open spec fn next_offset(end: int) -> int {
    if end == BLOCK_SIZE {
        0
    } else {
        end
    }
}

/// The bytes that the writer emits for `payload` from block offset `offset`,
/// and the block offset it ends at. `begin` says whether the payload is a
/// whole record or the rest of one already begun.
#[verifier::opaque]
pub open spec fn framing(offset: int, payload: Seq<u8>, begin: bool) -> (Seq<u8>, int)
    decreases payload.len(), (if fragment_start(offset) == BLOCK_SIZE - HEADER_SIZE {
        1int
    } else {
        0int
    }),
{
    let start = fragment_start(offset);
    let avail = BLOCK_SIZE - start - HEADER_SIZE;
    let len = if payload.len() <= avail {
        payload.len() as int
    } else {
        avail
    };
    let end = len == payload.len();
    let bytes = block_padding(offset) + fragment_bytes(fragment_type(begin, end), payload.take(len));
    let next = next_offset(start + HEADER_SIZE + len);
    if end {
        (bytes, next)
    } else {
        let (rest, last) = framing(next, payload.skip(len), false);
        (bytes + rest, last)
    }
}

/// The log that a fresh writer produces for `payloads`, appended in order, and
/// the block offset it ends at.
pub open spec fn log_state(payloads: Seq<Seq<u8>>) -> (Seq<u8>, int)
    decreases payloads.len(),
{
    if payloads.len() == 0 {
        (Seq::empty(), 0)
    } else {
        let (bytes, offset) = log_state(payloads.drop_last());
        let (more, next) = framing(offset, payloads.last(), true);
        (bytes + more, next)
    }
}

/// The bytes of a log that a fresh writer produces for `payloads`.
pub open spec fn log_bytes(payloads: Seq<Seq<u8>>) -> Seq<u8> {
    log_state(payloads).0
}

/// What one physical read finds.
pub enum Physical {
    /// The end of the log, or a fragment cut short by it.
    End,
    /// Bytes that hold no valid fragment.
    Corrupt,
    /// A fragment with its type and payload.
    Fragment(u8, Seq<u8>),
}

/// The next physical fragment at or after `pos` in `data`, and where reading
/// goes on. A block tail too short for a header is skipped; a fragment that
/// runs past its block ends the log in the last, short block and is corrupt
/// elsewhere; zero headers, bad checksums and unknown types are corrupt.
pub open spec fn physical_at(data: Seq<u8>, pos: int) -> (Physical, int)
    decreases data.len() - pos,
{
    if pos < 0 || pos > data.len() {
        (Physical::End, pos)
    } else {
        let next_block = pos - pos % (BLOCK_SIZE as int) + BLOCK_SIZE;
        let limit = if next_block <= data.len() {
            next_block
        } else {
            data.len() as int
        };
        if limit - pos < HEADER_SIZE {
            if next_block >= data.len() {
                (Physical::End, pos)
            } else {
                physical_at(data, next_block)
            }
        } else {
            let length = spec_u16_from_le_bytes(data.subrange(pos + 4, pos + 6)) as int;
            let record_type = data[pos + 6];
            let payload = data.subrange(pos + HEADER_SIZE, pos + HEADER_SIZE + length);
            if pos + HEADER_SIZE + length > limit {
                if next_block > data.len() {
                    (Physical::End, limit)
                } else {
                    (Physical::Corrupt, limit)
                }
            } else if record_type == RECORD_ZERO && length == 0 {
                (Physical::Corrupt, limit)
            } else if spec_u32_from_le_bytes(data.subrange(pos, pos + 4)) != crc32c_of(
                seq![record_type] + payload,
            ) {
                (Physical::Corrupt, limit)
            } else if RECORD_FULL <= record_type <= RECORD_LAST {
                (Physical::Fragment(record_type, payload), pos + HEADER_SIZE + length)
            } else {
                (Physical::Corrupt, pos + HEADER_SIZE + length)
            }
        }
    }
}

/// Reading goes forward, and never past the end.
pub proof fn lemma_physical_at_advances(data: Seq<u8>, pos: int)
    requires
        0 <= pos <= data.len(),
    ensures
        pos <= physical_at(data, pos).1 <= data.len(),
        !(physical_at(data, pos).0 is End) ==> pos < physical_at(data, pos).1,
    decreases data.len() - pos,
{
    let next_block = pos - pos % (BLOCK_SIZE as int) + BLOCK_SIZE;
    let limit = if next_block <= data.len() {
        next_block
    } else {
        data.len() as int
    };
    if limit - pos < HEADER_SIZE && next_block < data.len() {
        lemma_physical_at_advances(data, next_block);
    }
}

/// The logical record read from `pos` on, given whether a record is open and
/// what it holds so far, and where reading goes on.
pub open spec fn record_from(data: Seq<u8>, pos: int, inside: bool, acc: Seq<u8>) -> (
    Result<Option<Seq<u8>>, Status>,
    int,
)
    decreases data.len() - pos,
{
    if pos < 0 || pos > data.len() {
        (Ok(None), pos)
    } else {
        proof {
            lemma_physical_at_advances(data, pos);
        }
        match physical_at(data, pos) {
            (Physical::End, p) => (Ok(None), p),
            (Physical::Corrupt, p) => (Err(Status::Corruption), p),
            (Physical::Fragment(t, f), p) => {
                if t == RECORD_FULL {
                    if inside {
                        (Err(Status::Corruption), p)
                    } else {
                        (Ok(Some(f)), p)
                    }
                } else if t == RECORD_FIRST {
                    if inside {
                        (Err(Status::Corruption), p)
                    } else {
                        record_from(data, p, true, f)
                    }
                } else if t == RECORD_MIDDLE {
                    if !inside {
                        (Err(Status::Corruption), p)
                    } else {
                        record_from(data, p, true, acc + f)
                    }
                } else {
                    if !inside {
                        (Err(Status::Corruption), p)
                    } else {
                        (Ok(Some(acc + f)), p)
                    }
                }
            },
        }
    }
}

/// The logical record read from `pos`, and where reading goes on.
pub open spec fn record_at(data: Seq<u8>, pos: int) -> (Result<Option<Seq<u8>>, Status>, int) {
    record_from(data, pos, false, Seq::empty())
}

proof fn lemma_framing_unfold(offset: int, rest: Seq<u8>, begin: bool, len: int)
    requires
        len == (if rest.len() <= BLOCK_SIZE - fragment_start(offset) - HEADER_SIZE {
            rest.len() as int
        } else {
            BLOCK_SIZE - fragment_start(offset) - HEADER_SIZE
        }),
    ensures
        ({
            let bytes = block_padding(offset) + fragment_bytes(
                fragment_type(begin, len == rest.len()),
                rest.take(len),
            );
            let next = next_offset(fragment_start(offset) + HEADER_SIZE + len);
            if len == rest.len() {
                framing(offset, rest, begin) == (bytes, next)
            } else {
                framing(offset, rest, begin) == (
                    bytes + framing(next, rest.skip(len), false).0,
                    framing(next, rest.skip(len), false).1,
                )
            }
        }),
{
    reveal(framing);
}

/// Appends `n` zero bytes to `dest`.
fn pad_with_zeros(dest: &mut Vec<u8>, n: usize)
    ensures
        final(dest)@ == old(dest)@ + Seq::new(n as nat, |j: int| 0u8),
{
    let mut i: usize = 0;
    while i < n
        invariant
            i <= n,
            dest@ == old(dest)@ + Seq::new(i as nat, |j: int| 0u8),
        decreases n - i,
    {
        dest.push(0u8);
        i = i + 1;
        assert(dest@ =~= old(dest)@ + Seq::new(i as nat, |j: int| 0u8));
    }
}

/// Frames records into log bytes; the caller writes the bytes out.
#[derive(Debug)]
pub struct Writer {
    block_offset: usize,
}

impl Writer {
    /// Where in its block the next byte goes.
    pub closed spec fn offset(&self) -> int {
        self.block_offset as int
    }

    pub closed spec fn wf(&self) -> bool {
        self.block_offset < BLOCK_SIZE
    }

    /// A writer at the start of an empty log.
    pub fn new() -> (r: Writer)
        ensures
            r.wf(),
            r.offset() == 0,
    {
        Writer { block_offset: 0 }
    }

    /// A writer that goes on at `offset` within its block.
    pub fn resume(offset: usize) -> (r: Writer)
        requires
            offset < BLOCK_SIZE,
        ensures
            r.wf(),
            r.offset() == offset,
    {
        Writer { block_offset: offset }
    }

    /// Appends one fragment to `dest`.
    fn emit_fragment(&mut self, record_type: u8, payload: &[u8], dest: &mut Vec<u8>)
        requires
            old(self).offset() + HEADER_SIZE + payload@.len() <= BLOCK_SIZE,
        ensures
            final(self).offset() == next_offset(old(self).offset() + HEADER_SIZE + payload@.len()),
            final(dest)@ == old(dest)@ + fragment_bytes(record_type, payload@),
    {
        let mut covered: Vec<u8> = Vec::new();
        covered.push(record_type);
        append_bytes(&mut covered, payload);
        assert(covered@ =~= seq![record_type] + payload@);
        let checksum = crc32c(covered.as_slice());
        put_fixed32(dest, checksum);
        let length = u16_to_le_bytes(payload.len() as u16);
        append_bytes(dest, length.as_slice());
        dest.push(record_type);
        append_bytes(dest, payload);
        assert(dest@ =~= old(dest)@ + fragment_bytes(record_type, payload@));
        self.block_offset = self.block_offset + HEADER_SIZE + payload.len();
        if self.block_offset == BLOCK_SIZE {
            self.block_offset = 0;
        }
    }

    /// Appends `payload` to `dest` as one record, in as few fragments as the
    /// blocks allow.
    pub fn append(&mut self, payload: &[u8], dest: &mut Vec<u8>)
        requires
            old(self).wf(),
        ensures
            final(self).wf(),
            final(dest)@ == old(dest)@ + framing(old(self).offset(), payload@, true).0,
            final(self).offset() == framing(old(self).offset(), payload@, true).1,
            0 <= final(self).offset() < BLOCK_SIZE,
    {
        let ghost whole = framing(self.offset(), payload@, true);
        let mut done: usize = 0;
        let mut begin = true;
        assert(payload@.skip(0) =~= payload@);
        loop
            invariant_except_break
                dest@ + framing(self.offset(), payload@.skip(done as int), begin).0 == old(dest)@
                    + whole.0,
                framing(self.offset(), payload@.skip(done as int), begin).1 == whole.1,
            invariant
                self.wf(),
                done <= payload@.len(),
                whole == framing(old(self).offset(), payload@, true),
            ensures
                dest@ == old(dest)@ + whole.0,
                self.offset() == whole.1,
            decreases payload@.len() - done, (if fragment_start(self.offset()) == BLOCK_SIZE
                - HEADER_SIZE {
                1int
            } else {
                0int
            }),
        {
            let ghost rest = payload@.skip(done as int);
            let ghost offset = self.offset();
            let ghost before = dest@;
            let leftover = BLOCK_SIZE - self.block_offset;
            if leftover < HEADER_SIZE {
                pad_with_zeros(dest, leftover);
                self.block_offset = 0;
            }
            assert(dest@ =~= before + block_padding(offset));
            let avail = BLOCK_SIZE - self.block_offset - HEADER_SIZE;
            let remaining = payload.len() - done;
            let len = if remaining <= avail {
                remaining
            } else {
                avail
            };
            let end = len == remaining;
            let record_type = if begin && end {
                RECORD_FULL
            } else if begin {
                RECORD_FIRST
            } else if end {
                RECORD_LAST
            } else {
                RECORD_MIDDLE
            };
            let fragment = vstd::slice::slice_subrange(payload, done, done + len);
            assert(fragment@ =~= rest.take(len as int));
            proof {
                lemma_framing_unfold(offset, rest, begin, len as int);
            }
            let ghost padded = dest@;
            self.emit_fragment(record_type, fragment, dest);
            assert(rest.skip(len as int) =~= payload@.skip(done + len));
            done = done + len;
            begin = false;
            if end {
                assert(dest@ =~= old(dest)@ + whole.0);
                break ;
            }
            assert(dest@ + framing(self.offset(), payload@.skip(done as int), begin).0 =~= old(
                dest,
            )@ + whole.0);
        }
    }
}

/// What a physical read returned, as plain values.
pub open spec fn physical_view(r: Result<Option<(u8, &[u8])>, Status>) -> Physical {
    match r {
        Ok(None) => Physical::End,
        Ok(Some((t, payload))) => Physical::Fragment(t, payload@),
        Err(_) => Physical::Corrupt,
    }
}

/// What a logical read returned, as plain values.
pub open spec fn record_view(r: Result<Option<Vec<u8>>, Status>) -> Result<Option<Seq<u8>>, Status> {
    match r {
        Ok(None) => Ok(None),
        Ok(Some(v)) => Ok(Some(v@)),
        Err(e) => Err(e),
    }
}

/// Reads the next physical fragment at or after `pos`: its type and payload
/// (`Ok(None)` at the end of the log, `Corruption` for bytes that hold no valid
/// fragment), and where reading goes on.
pub fn read_physical<'a>(data: &'a [u8], pos: usize) -> (r: (
    Result<Option<(u8, &'a [u8])>, Status>,
    usize,
))
    requires
        pos <= data@.len(),
    ensures
        physical_view(r.0) == physical_at(data@, pos as int).0,
        r.1 as int == physical_at(data@, pos as int).1,
        r.0 matches Err(e) ==> e == Status::Corruption,
{
    let ghost start = pos as int;
    let mut cur = pos;
    loop
        invariant
            cur <= data@.len(),
            start == pos as int,
            physical_at(data@, start) == physical_at(data@, cur as int),
        decreases data@.len() - cur,
    {
        let room = BLOCK_SIZE - cur % BLOCK_SIZE;
        let last_block = data.len() - cur <= room;
        let limit = if last_block {
            data.len()
        } else {
            cur + room
        };
        if limit - cur < HEADER_SIZE {
            if last_block {
                return (Ok(None), cur);
            }
            cur = cur + room;
            continue ;
        }
        let length = u16_from_le_bytes(vstd::slice::slice_subrange(data, cur + 4, cur + 6)) as usize;
        let record_type = data[cur + 6];
        if length > limit - cur - HEADER_SIZE {
            if data.len() - cur < room {
                return (Ok(None), limit);
            }
            return (Err(Status::Corruption), limit);
        }
        if record_type == RECORD_ZERO && length == 0 {
            return (Err(Status::Corruption), limit);
        }
        let end = cur + HEADER_SIZE + length;
        let payload = vstd::slice::slice_subrange(data, cur + HEADER_SIZE, end);
        let mut covered: Vec<u8> = Vec::new();
        covered.push(record_type);
        append_bytes(&mut covered, payload);
        let header = vstd::slice::slice_subrange(data, cur, cur + 4);
        assert(header@.subrange(0, 4) =~= data@.subrange(cur as int, cur + 4));
        assert(covered@ =~= seq![record_type] + payload@);
        if decode_fixed32(header) != crc32c(covered.as_slice()) {
            return (Err(Status::Corruption), limit);
        }
        if RECORD_FULL <= record_type && record_type <= RECORD_LAST {
            return (Ok(Some((record_type, payload))), end);
        }
        return (Err(Status::Corruption), end);
    }
}

/// Reads the log's records back from bytes.
pub struct Reader {
    data: Vec<u8>,
    pos: usize,
}

impl Reader {
    /// The log's bytes.
    pub closed spec fn contents(&self) -> Seq<u8> {
        self.data@
    }

    /// Where the next read starts.
    pub closed spec fn position(&self) -> int {
        self.pos as int
    }

    pub closed spec fn wf(&self) -> bool {
        self.pos <= self.data@.len()
    }

    /// Where the next read starts.
    pub fn position_now(&self) -> (r: usize)
        ensures
            r == self.position(),
    {
        self.pos
    }

    /// A reader at the start of the log `data`.
    pub fn new(data: Vec<u8>) -> (r: Reader)
        ensures
            r.wf(),
            r.contents() == data@,
            r.position() == 0,
    {
        Reader { data, pos: 0 }
    }

    /// The next record: `Ok(None)` at the end of the log (a record cut short
    /// by the end is dropped), `Corruption` for bytes that hold no valid
    /// fragment or fragments out of order.
    pub fn read(&mut self) -> (r: Result<Option<Vec<u8>>, Status>)
        requires
            old(self).wf(),
            0 <= old(self).position() <= old(self).contents().len(),
        ensures
            final(self).wf(),
            final(self).contents() == old(self).contents(),
            0 <= final(self).position() <= final(self).contents().len(),
            (record_view(r), final(self).position()) == record_at(
                old(self).contents(),
                old(self).position(),
            ),
    {
        let ghost data = self.data@;
        let ghost start = self.pos as int;
        let mut inside = false;
        let mut acc: Vec<u8> = Vec::new();
        loop
            invariant
                self.wf(),
                self.data@ == data,
                data == old(self).contents(),
                start == old(self).position(),
                record_at(data, start) == record_from(data, self.pos as int, inside, acc@),
                !inside ==> acc@ == Seq::<u8>::empty(),
            decreases data.len() - self.pos,
        {
            proof {
                lemma_physical_at_advances(data, self.pos as int);
            }
            let (found, next) = read_physical(self.data.as_slice(), self.pos);
            self.pos = next;
            match found {
                Ok(None) => {
                    return Ok(None);
                },
                Err(e) => {
                    return Err(e);
                },
                Ok(Some((record_type, payload))) => {
                    if record_type == RECORD_FULL {
                        if inside {
                            return Err(Status::Corruption);
                        }
                        return Ok(Some(vstd::slice::slice_to_vec(payload)));
                    } else if record_type == RECORD_FIRST {
                        if inside {
                            return Err(Status::Corruption);
                        }
                        inside = true;
                        append_bytes(&mut acc, payload);
                        assert(acc@ =~= payload@);
                    } else if record_type == RECORD_MIDDLE {
                        if !inside {
                            return Err(Status::Corruption);
                        }
                        append_bytes(&mut acc, payload);
                    } else {
                        if !inside {
                            return Err(Status::Corruption);
                        }
                        append_bytes(&mut acc, payload);
                        return Ok(Some(acc));
                    }
                },
            }
        }
    }
}

proof fn lemma_physical_fragment(data: Seq<u8>, q: int, record_type: u8, payload: Seq<u8>)
    requires
        0 <= q,
        q % (BLOCK_SIZE as int) + HEADER_SIZE + payload.len() <= BLOCK_SIZE,
        q + HEADER_SIZE + payload.len() <= data.len(),
        data.subrange(q, q + HEADER_SIZE + payload.len()) == fragment_bytes(record_type, payload),
        RECORD_FULL <= record_type <= RECORD_LAST,
    ensures
        physical_at(data, q) == (
            Physical::Fragment(record_type, payload),
            q + HEADER_SIZE + payload.len(),
        ),
{
    lemma_auto_spec_u16_to_from_le_bytes();
    lemma_auto_spec_u32_to_from_le_bytes();
    let f = fragment_bytes(record_type, payload);
    let len = payload.len() as int;
    assert(f.subrange(0, 4) =~= spec_u32_to_le_bytes(crc32c_of(seq![record_type] + payload)));
    assert(f.subrange(4, 6) =~= spec_u16_to_le_bytes(len as u16));
    assert(data.subrange(q, q + 4) =~= f.subrange(0, 4));
    assert(data.subrange(q + 4, q + 6) =~= f.subrange(4, 6));
    assert(data[q + 6] == f[6]);
    assert(data.subrange(q + HEADER_SIZE, q + HEADER_SIZE + len) =~= f.subrange(
        HEADER_SIZE as int,
        HEADER_SIZE + len,
    ));
    assert(f.subrange(HEADER_SIZE as int, HEADER_SIZE + len) =~= payload);
}

proof fn lemma_framing_end(offset: int, rest: Seq<u8>, begin: bool)
    requires
        0 <= offset <= BLOCK_SIZE,
    ensures
        0 <= framing(offset, rest, begin).1 < BLOCK_SIZE,
        (offset + framing(offset, rest, begin).0.len()) % (BLOCK_SIZE as int) == framing(
            offset,
            rest,
            begin,
        ).1 % (BLOCK_SIZE as int),
    decreases rest.len(), (if fragment_start(offset) == BLOCK_SIZE - HEADER_SIZE {
        1int
    } else {
        0int
    }),
{
    lemma_auto_spec_u16_to_from_le_bytes();
    lemma_auto_spec_u32_to_from_le_bytes();
    let start = fragment_start(offset);
    let avail = BLOCK_SIZE - start - HEADER_SIZE;
    let len = if rest.len() <= avail {
        rest.len() as int
    } else {
        avail
    };
    lemma_framing_unfold(offset, rest, begin, len);
    let t = fragment_type(begin, len == rest.len());
    let bytes = block_padding(offset) + fragment_bytes(t, rest.take(len));
    let raw = start + HEADER_SIZE + len;
    let next = next_offset(raw);
    assert(offset + bytes.len() == if BLOCK_SIZE - offset < HEADER_SIZE {
        BLOCK_SIZE + raw
    } else {
        raw
    });
    if len < rest.len() {
        lemma_framing_end(next, rest.skip(len), false);
        let tail = framing(next, rest.skip(len), false).0;
        assert((offset + bytes.len() + tail.len()) % (BLOCK_SIZE as int) == (next + tail.len()) % (
        BLOCK_SIZE as int)) by (nonlinear_arith)
            requires
                offset + bytes.len() == raw || offset + bytes.len() == BLOCK_SIZE + raw,
                next == raw || (raw == BLOCK_SIZE && next == 0),
        ;
    } else {
        assert((offset + bytes.len()) % (BLOCK_SIZE as int) == next % (BLOCK_SIZE as int)) by (nonlinear_arith)
            requires
                offset + bytes.len() == raw || offset + bytes.len() == BLOCK_SIZE + raw,
                next == raw || (raw == BLOCK_SIZE && next == 0),
        ;
    }
}

/// Reading from where the writer began a record, with the record's bytes in
/// place, gives back the record and ends right after its bytes.
#[verifier::rlimit(60)]
proof fn lemma_read_framed(
    data: Seq<u8>,
    q: int,
    offset: int,
    rest: Seq<u8>,
    begin: bool,
    acc: Seq<u8>,
)
    requires
        0 <= offset <= BLOCK_SIZE,
        0 <= q,
        q % (BLOCK_SIZE as int) == offset % (BLOCK_SIZE as int),
        q + framing(offset, rest, begin).0.len() <= data.len(),
        data.subrange(q, q + framing(offset, rest, begin).0.len()) == framing(offset, rest, begin).0,
        begin ==> acc == Seq::<u8>::empty(),
    ensures
        record_from(data, q, !begin, acc) == (
            Ok::<Option<Seq<u8>>, Status>(Some(acc + rest)),
            q + framing(offset, rest, begin).0.len(),
        ),
    decreases rest.len(), (if fragment_start(offset) == BLOCK_SIZE - HEADER_SIZE {
        1int
    } else {
        0int
    }),
{
    lemma_auto_spec_u16_to_from_le_bytes();
    lemma_auto_spec_u32_to_from_le_bytes();
    let whole = framing(offset, rest, begin).0;
    let start = fragment_start(offset);
    let avail = BLOCK_SIZE - start - HEADER_SIZE;
    let len = if rest.len() <= avail {
        rest.len() as int
    } else {
        avail
    };
    lemma_framing_unfold(offset, rest, begin, len);
    let end = len == rest.len();
    let t = fragment_type(begin, end);
    let frag = rest.take(len);
    let pad = block_padding(offset);
    let fb = fragment_bytes(t, frag);
    let bytes = pad + fb;
    let p = q + bytes.len();
    let q2 = q + pad.len();
    assert(fb.len() == HEADER_SIZE + len);
    assert(whole.subrange(0, bytes.len() as int) =~= bytes);
    assert(data.subrange(q2, q2 + HEADER_SIZE + len) =~= fb) by {
        assert(data.subrange(q2, q2 + HEADER_SIZE + len) =~= whole.subrange(
            pad.len() as int,
            bytes.len() as int,
        ));
    }
    assert(q2 % (BLOCK_SIZE as int) == start) by {
        if BLOCK_SIZE - offset < HEADER_SIZE {
            assert(q2 == q - q % (BLOCK_SIZE as int) + BLOCK_SIZE || offset == BLOCK_SIZE);
            assert((q - q % (BLOCK_SIZE as int) + BLOCK_SIZE) % (BLOCK_SIZE as int) == 0) by (nonlinear_arith)
                requires
                    q >= 0,
            ;
        }
    }
    lemma_physical_fragment(data, q2, t, frag);
    lemma_physical_at_advances(data, q);
    if pad.len() > 0 {
        let next_block = q - q % (BLOCK_SIZE as int) + BLOCK_SIZE;
        assert(next_block == q2);
        assert(physical_at(data, q) == physical_at(data, q2));
    }
    assert(physical_at(data, q) == (Physical::Fragment(t, frag), p));
    if end {
        assert(frag =~= rest);
        assert(acc + rest =~= if begin {
            rest
        } else {
            acc + rest
        });
    } else {
        let next = next_offset(start + HEADER_SIZE + len);
        let tail = rest.skip(len);
        let more = framing(next, tail, false).0;
        assert(whole =~= bytes + more);
        assert(p % (BLOCK_SIZE as int) == next % (BLOCK_SIZE as int)) by (nonlinear_arith)
            requires
                p == q2 + HEADER_SIZE + len,
                q2 % (BLOCK_SIZE as int) == start,
                next == start + HEADER_SIZE + len || (start + HEADER_SIZE + len == BLOCK_SIZE
                    && next == 0),
                q2 >= 0,
        ;
        assert(data.subrange(p, p + more.len()) =~= more) by {
            assert(data.subrange(p, p + more.len()) =~= whole.subrange(
                bytes.len() as int,
                whole.len() as int,
            ));
        }
        let acc2 = if begin {
            frag
        } else {
            acc + frag
        };
        lemma_read_framed(data, p, next, tail, false, acc2);
        assert(acc2 + tail =~= acc + rest);
    }
}

/// The bytes of the first `i` records are a prefix of the whole log's.
proof fn lemma_log_prefix(payloads: Seq<Seq<u8>>, i: int)
    requires
        0 <= i <= payloads.len(),
    ensures
        log_bytes(payloads.take(i)).len() <= log_bytes(payloads).len(),
        log_bytes(payloads).subrange(0, log_bytes(payloads.take(i)).len() as int) == log_bytes(
            payloads.take(i),
        ),
    decreases payloads.len() - i,
{
    if i == payloads.len() {
        assert(payloads.take(i) =~= payloads);
    } else {
        lemma_log_prefix(payloads, i + 1);
        assert(payloads.take(i + 1).drop_last() =~= payloads.take(i));
        let a = log_bytes(payloads.take(i));
        let b = log_bytes(payloads.take(i + 1));
        assert(b.subrange(0, a.len() as int) =~= a);
        assert(log_bytes(payloads).subrange(0, a.len() as int) =~= b.subrange(0, a.len() as int));
    }
}

proof fn lemma_log_offset(payloads: Seq<Seq<u8>>)
    ensures
        0 <= log_state(payloads).1 < BLOCK_SIZE,
        (log_state(payloads).0.len() as int) % (BLOCK_SIZE as int) == log_state(payloads).1 % (
        BLOCK_SIZE as int),
    decreases payloads.len(),
{
    if payloads.len() > 0 {
        let prev = payloads.drop_last();
        lemma_log_offset(prev);
        let (bytes, offset) = log_state(prev);
        lemma_framing_end(offset, payloads.last(), true);
        let more = framing(offset, payloads.last(), true);
        assert(((bytes.len() + more.0.len()) as int) % (BLOCK_SIZE as int) == more.1 % (BLOCK_SIZE as int)) by (nonlinear_arith)
            requires
                (bytes.len() as int) % (BLOCK_SIZE as int) == offset % (BLOCK_SIZE as int),
                (offset + more.0.len()) % (BLOCK_SIZE as int) == more.1 % (BLOCK_SIZE as int),
                bytes.len() >= 0,
                offset >= 0,
        ;
    }
}

/// Reading any bytes that begin with the log a fresh writer produced for
/// `payloads` gives back each record in order: each read, from where the
/// previous one ended, returns the next record.
pub proof fn lemma_log_prefix_reads(payloads: Seq<Seq<u8>>, data: Seq<u8>)
    requires
        log_bytes(payloads).len() <= data.len(),
        data.subrange(0, log_bytes(payloads).len() as int) == log_bytes(payloads),
    ensures
        forall|i: int|
            0 <= i < payloads.len() ==> #[trigger] record_at(
                data,
                log_bytes(payloads.take(i)).len() as int,
            ) == (
                Ok::<Option<Seq<u8>>, Status>(Some(payloads[i])),
                log_bytes(payloads.take(i + 1)).len() as int,
            ),
{
    let whole = log_bytes(payloads);
    assert forall|i: int| 0 <= i < payloads.len() implies #[trigger] record_at(
        data,
        log_bytes(payloads.take(i)).len() as int,
    ) == (
        Ok::<Option<Seq<u8>>, Status>(Some(payloads[i])),
        log_bytes(payloads.take(i + 1)).len() as int,
    ) by {
        let before = payloads.take(i);
        let upto = payloads.take(i + 1);
        assert(upto.drop_last() =~= before);
        assert(upto.last() == payloads[i]);
        let (bytes, offset) = log_state(before);
        let f = framing(offset, payloads[i], true).0;
        assert(log_bytes(upto) == bytes + f);
        lemma_log_offset(before);
        lemma_log_prefix(payloads, i + 1);
        let q = bytes.len() as int;
        assert(data.subrange(q, q + f.len()) =~= whole.subrange(q, q + f.len()));
        assert(whole.subrange(q, q + f.len()) =~= log_bytes(upto).subrange(q, q + f.len()));
        assert(log_bytes(upto).subrange(q, q + f.len()) =~= f);
        lemma_read_framed(data, q, offset, payloads[i], true, Seq::empty());
        assert(Seq::<u8>::empty() + payloads[i] =~= payloads[i]);
    }
}

/// Writing records with a fresh writer and reading them back gives the same
/// records in order: each read, from where the previous one ended, returns
/// the next record, and once all are read the log ends.
pub proof fn lemma_log_round_trip(payloads: Seq<Seq<u8>>)
    ensures
        forall|i: int|
            0 <= i < payloads.len() ==> #[trigger] record_at(
                log_bytes(payloads),
                log_bytes(payloads.take(i)).len() as int,
            ) == (
                Ok::<Option<Seq<u8>>, Status>(Some(payloads[i])),
                log_bytes(payloads.take(i + 1)).len() as int,
            ),
        record_at(log_bytes(payloads), log_bytes(payloads).len() as int) == (
            Ok::<Option<Seq<u8>>, Status>(None),
            log_bytes(payloads).len() as int,
        ),
{
    let data = log_bytes(payloads);
    assert(data.subrange(0, data.len() as int) =~= data);
    lemma_log_prefix_reads(payloads, data);
    let n = data.len() as int;
    assert(physical_at(data, n) == (Physical::End, n));
}

proof fn lemma_zeros_hold_no_fragment(data: Seq<u8>, pos: int)
    requires
        0 <= pos <= data.len(),
        forall|j: int| pos <= j < data.len() ==> data[j] == 0,
    ensures
        !(physical_at(data, pos).0 is Fragment),
    decreases data.len() - pos,
{
    let next_block = pos - pos % (BLOCK_SIZE as int) + BLOCK_SIZE;
    let limit = if next_block <= data.len() {
        next_block
    } else {
        data.len() as int
    };
    if limit - pos < HEADER_SIZE {
        if next_block < data.len() {
            lemma_zeros_hold_no_fragment(data, next_block);
        }
    } else {
        assert(data[pos + 6] == 0);
    }
}

/// Zero bytes after a log never read as a record: the records read as
/// before, and the read after the last one ends the log or reports corruption.
pub proof fn lemma_log_zero_suffix(payloads: Seq<Seq<u8>>, zeros: nat)
    ensures
        ({
            let data = log_bytes(payloads) + Seq::new(zeros, |i: int| 0u8);
            &&& forall|i: int|
                0 <= i < payloads.len() ==> #[trigger] record_at(
                    data,
                    log_bytes(payloads.take(i)).len() as int,
                ) == (
                    Ok::<Option<Seq<u8>>, Status>(Some(payloads[i])),
                    log_bytes(payloads.take(i + 1)).len() as int,
                )
            &&& !(record_at(data, log_bytes(payloads).len() as int).0 matches Ok(Some(_)))
        }),
{
    let log = log_bytes(payloads);
    let data = log + Seq::new(zeros, |i: int| 0u8);
    assert(data.subrange(0, log.len() as int) =~= log);
    lemma_log_prefix_reads(payloads, data);
    lemma_zeros_hold_no_fragment(data, log.len() as int);
}

/// Reading a record whose bytes the end of the data cuts short ends the log.
#[verifier::rlimit(60)]
proof fn lemma_read_truncated(
    data: Seq<u8>,
    q: int,
    offset: int,
    rest: Seq<u8>,
    begin: bool,
    acc: Seq<u8>,
)
    requires
        0 <= offset <= BLOCK_SIZE,
        0 <= q <= data.len(),
        q % (BLOCK_SIZE as int) == offset % (BLOCK_SIZE as int),
        data.len() < q + framing(offset, rest, begin).0.len(),
        data.subrange(q, data.len() as int) == framing(offset, rest, begin).0.take(
            data.len() - q,
        ),
    ensures
        record_from(data, q, !begin, acc).0 == Ok::<Option<Seq<u8>>, Status>(None),
    decreases rest.len(), (if fragment_start(offset) == BLOCK_SIZE - HEADER_SIZE {
        1int
    } else {
        0int
    }),
{
    lemma_auto_spec_u16_to_from_le_bytes();
    lemma_auto_spec_u32_to_from_le_bytes();
    let whole = framing(offset, rest, begin).0;
    let start = fragment_start(offset);
    let avail = BLOCK_SIZE - start - HEADER_SIZE;
    let len = if rest.len() <= avail {
        rest.len() as int
    } else {
        avail
    };
    lemma_framing_unfold(offset, rest, begin, len);
    let end = len == rest.len();
    let t = fragment_type(begin, end);
    let frag = rest.take(len);
    let pad = block_padding(offset);
    let fb = fragment_bytes(t, frag);
    let bytes = pad + fb;
    let p = q + bytes.len();
    let q2 = q + pad.len();
    let n = data.len() as int;
    assert(fb.len() == HEADER_SIZE + len);
    assert(q2 % (BLOCK_SIZE as int) == start) by {
        if BLOCK_SIZE - offset < HEADER_SIZE {
            assert(q2 == q - q % (BLOCK_SIZE as int) + BLOCK_SIZE || offset == BLOCK_SIZE);
            assert((q - q % (BLOCK_SIZE as int) + BLOCK_SIZE) % (BLOCK_SIZE as int) == 0) by (nonlinear_arith)
                requires
                    q >= 0,
            ;
        }
    }
    let block_end = q2 - start + BLOCK_SIZE;
    assert(q2 - q2 % (BLOCK_SIZE as int) + BLOCK_SIZE == block_end);
    assert forall|k: int| 0 <= k < n - q implies data[q + k] == whole[k] by {
        assert(data.subrange(q, n)[k] == data[q + k]);
        assert(whole.take(n - q)[k] == whole[k]);
    }
    lemma_physical_at_advances(data, q);
    if n < q2 + HEADER_SIZE {
        if pad.len() > 0 && n > q2 {
            assert(q - q % (BLOCK_SIZE as int) + BLOCK_SIZE == q2);
            assert(physical_at(data, q) == physical_at(data, q2));
        }
        assert(physical_at(data, q).0 is End);
    } else if n < p {
        assert(data.subrange(q2 + 4, q2 + 6) =~= fb.subrange(4, 6)) by {
            assert(data.subrange(q2 + 4, q2 + 6) =~= whole.subrange(pad.len() + 4int, pad.len() + 6int));
            assert(whole.subrange(0, bytes.len() as int) =~= bytes);
        }
        assert(fb.subrange(4, 6) =~= spec_u16_to_le_bytes(len as u16));
        if pad.len() > 0 {
            assert(q - q % (BLOCK_SIZE as int) + BLOCK_SIZE == q2);
            assert(physical_at(data, q) == physical_at(data, q2));
        }
        assert(physical_at(data, q).0 is End);
    } else {
        assert(data.subrange(q2, q2 + HEADER_SIZE + len) =~= fb) by {
            assert(data.subrange(q2, q2 + HEADER_SIZE + len) =~= whole.subrange(
                pad.len() as int,
                bytes.len() as int,
            ));
            assert(whole.subrange(0, bytes.len() as int) =~= bytes);
        }
        lemma_physical_fragment(data, q2, t, frag);
        if pad.len() > 0 {
            let next_block = q - q % (BLOCK_SIZE as int) + BLOCK_SIZE;
            assert(next_block == q2);
            assert(physical_at(data, q) == physical_at(data, q2));
        }
        assert(physical_at(data, q) == (Physical::Fragment(t, frag), p));
        assert(!end);
        let next = next_offset(start + HEADER_SIZE + len);
        let tail = rest.skip(len);
        let more = framing(next, tail, false).0;
        assert(whole =~= bytes + more);
        assert(p % (BLOCK_SIZE as int) == next % (BLOCK_SIZE as int)) by (nonlinear_arith)
            requires
                p == q2 + HEADER_SIZE + len,
                q2 % (BLOCK_SIZE as int) == start,
                next == start + HEADER_SIZE + len || (start + HEADER_SIZE + len == BLOCK_SIZE
                    && next == 0),
                q2 >= 0,
        ;
        assert(data.subrange(p, n) =~= more.take(n - p)) by {
            assert(data.subrange(p, n) =~= whole.take(n - q).subrange(p - q, n - q));
        }
        let acc2 = if begin {
            frag
        } else {
            acc + frag
        };
        lemma_read_truncated(data, p, next, tail, false, acc2);
    }
}

/// Cutting the log short anywhere in its last record loses that record and
/// nothing else: the records before it read as written, and the read after
/// them ends the log.
pub proof fn lemma_log_truncated(payloads: Seq<Seq<u8>>, cut: nat)
    requires
        payloads.len() > 0,
        log_bytes(payloads.drop_last()).len() <= cut < log_bytes(payloads).len(),
    ensures
        ({
            let data = log_bytes(payloads).take(cut as int);
            let kept = payloads.drop_last();
            &&& forall|i: int|
                0 <= i < kept.len() ==> #[trigger] record_at(
                    data,
                    log_bytes(kept.take(i)).len() as int,
                ) == (
                    Ok::<Option<Seq<u8>>, Status>(Some(kept[i])),
                    log_bytes(kept.take(i + 1)).len() as int,
                )
            &&& record_at(data, log_bytes(kept).len() as int).0 == Ok::<Option<Seq<u8>>, Status>(
                None,
            )
        }),
{
    let kept = payloads.drop_last();
    let whole = log_bytes(payloads);
    let data = whole.take(cut as int);
    let (bytes, offset) = log_state(kept);
    let f = framing(offset, payloads.last(), true).0;
    assert(whole == bytes + f);
    assert(data.subrange(0, bytes.len() as int) =~= bytes);
    lemma_log_prefix_reads(kept, data);
    lemma_log_offset(kept);
    let q = bytes.len() as int;
    assert(data.subrange(q, data.len() as int) =~= f.take(data.len() - q));
    lemma_read_truncated(data, q, offset, payloads.last(), true, Seq::empty());
}

/// A read that does not end the log moves forward, and no read passes the end.
pub proof fn lemma_record_from_advances(data: Seq<u8>, pos: int, inside: bool, acc: Seq<u8>)
    requires
        0 <= pos <= data.len(),
    ensures
        pos <= record_from(data, pos, inside, acc).1 <= data.len(),
        !(record_from(data, pos, inside, acc).0 matches Ok(None)) ==> pos < record_from(
            data,
            pos,
            inside,
            acc,
        ).1,
    decreases data.len() - pos,
{
    lemma_physical_at_advances(data, pos);
    match physical_at(data, pos) {
        (Physical::Fragment(t, f), p) => {
            if t == RECORD_FIRST && !inside {
                lemma_record_from_advances(data, p, true, f);
            } else if t == RECORD_MIDDLE && inside {
                lemma_record_from_advances(data, p, true, acc + f);
            }
        },
        _ => {},
    }
}

/// Whether no record can be read from `pos` on: each read either ends the
/// log or reports corruption.
pub open spec fn no_record_after(data: Seq<u8>, pos: int) -> bool
    decreases data.len() - pos,
{
    if pos < 0 || pos > data.len() {
        true
    } else {
        proof {
            lemma_record_from_advances(data, pos, false, Seq::empty());
        }
        match record_at(data, pos) {
            (Ok(None), _) => true,
            (Ok(Some(_)), _) => false,
            (Err(_), p) => no_record_after(data, p),
        }
    }
}

proof fn lemma_zeros_hold_no_record(data: Seq<u8>, pos: int)
    requires
        0 <= pos <= data.len(),
        forall|j: int| pos <= j < data.len() ==> data[j] == 0,
    ensures
        no_record_after(data, pos),
    decreases data.len() - pos,
{
    lemma_record_from_advances(data, pos, false, Seq::empty());
    lemma_zeros_hold_no_fragment(data, pos);
    lemma_physical_at_advances(data, pos);
    let p = record_at(data, pos).1;
    if record_at(data, pos).0 is Err {
        lemma_zeros_hold_no_record(data, p);
    }
}

/// Every read after a zero-filled tail begins, whatever came before it,
/// ends the log or reports corruption: no record is read from the zeros.
pub proof fn lemma_log_zero_suffix_all_reads(payloads: Seq<Seq<u8>>, zeros: nat)
    ensures
        no_record_after(
            log_bytes(payloads) + Seq::new(zeros, |i: int| 0u8),
            log_bytes(payloads).len() as int,
        ),
{
    let log = log_bytes(payloads);
    let data = log + Seq::new(zeros, |i: int| 0u8);
    lemma_zeros_hold_no_record(data, log.len() as int);
}

/// Once the intact records of a log cut short in its last record are read,
/// no further read returns a record.
pub proof fn lemma_log_truncated_all_reads(payloads: Seq<Seq<u8>>, cut: nat)
    requires
        payloads.len() > 0,
        log_bytes(payloads.drop_last()).len() <= cut < log_bytes(payloads).len(),
    ensures
        no_record_after(
            log_bytes(payloads).take(cut as int),
            log_bytes(payloads.drop_last()).len() as int,
        ),
{
    lemma_log_truncated(payloads, cut);
}

} // verus!
