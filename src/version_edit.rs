//! Version edits: the tagged deltas that a manifest records, one per log record.

use vstd::prelude::*;

use crate::coding::{
    decode_length_prefixed_slice, decode_varint32, decode_varint64,
    lemma_length_prefixed_round_trip, lemma_varint32_round_trip, lemma_varint64_round_trip,
    lemma_varint_decoding_length, length_prefixed, length_prefixed_decoding,
    put_length_prefixed_slice, put_varint32, put_varint64, varint32_decoding, varint64_decoding,
    varint_encoding,
};
use crate::key::InternalKey;
use crate::Status;

verus! {

/// The number of levels.
pub const NUM_LEVELS: usize = 7;

/// The tag of the comparator name.
pub const TAG_COMPARATOR: u32 = 1;

/// The tag of the log number.
pub const TAG_LOG_NUMBER: u32 = 2;

/// The tag of the next file number.
pub const TAG_NEXT_FILE_NUMBER: u32 = 3;

/// The tag of the last sequence number.
pub const TAG_LAST_SEQUENCE: u32 = 4;

/// The tag of a compaction pointer.
pub const TAG_COMPACT_POINTER: u32 = 5;

/// The tag of a deleted file.
pub const TAG_DELETED_FILE: u32 = 6;

/// The tag of a new file.
pub const TAG_NEW_FILE: u32 = 7;

/// The tag of the previous log number.
pub const TAG_PREV_LOG_NUMBER: u32 = 9;

/// One field of a version edit, as plain values.
pub enum EditField {
    Comparator(Seq<u8>),
    LogNumber(u64),
    NextFileNumber(u64),
    LastSequence(u64),
    CompactPointer(nat, Seq<u8>),
    DeletedFile(nat, u64),
    NewFile(nat, u64, u64, Seq<u8>, Seq<u8>),
    PrevLogNumber(u64),
}

/// A version edit as plain values; a new file is its level, number, size and
/// smallest and largest internal keys.
pub struct EditView {
    pub comparator: Option<Seq<u8>>,
    pub log_number: Option<u64>,
    pub prev_log_number: Option<u64>,
    pub next_file_number: Option<u64>,
    pub last_sequence: Option<u64>,
    pub compact_pointers: Seq<(nat, Seq<u8>)>,
    pub deleted_files: Seq<(nat, u64)>,
    pub new_files: Seq<(nat, (u64, u64, Seq<u8>, Seq<u8>))>,
}

/// The edit with no field set.
pub open spec fn empty_edit() -> EditView {
    EditView {
        comparator: None,
        log_number: None,
        prev_log_number: None,
        next_file_number: None,
        last_sequence: None,
        compact_pointers: Seq::empty(),
        deleted_files: Seq::empty(),
        new_files: Seq::empty(),
    }
}

/// `e` with field `f` recorded: a later number or name replaces an earlier
/// one, pointers and new files are listed in order, and a deleted file is
/// listed once.
pub open spec fn apply_field(e: EditView, f: EditField) -> EditView {
    match f {
        EditField::Comparator(c) => EditView { comparator: Some(c), ..e },
        EditField::LogNumber(n) => EditView { log_number: Some(n), ..e },
        EditField::NextFileNumber(n) => EditView { next_file_number: Some(n), ..e },
        EditField::LastSequence(n) => EditView { last_sequence: Some(n), ..e },
        EditField::PrevLogNumber(n) => EditView { prev_log_number: Some(n), ..e },
        EditField::CompactPointer(level, key) => EditView {
            compact_pointers: e.compact_pointers.push((level, key)),
            ..e
        },
        EditField::DeletedFile(level, number) => EditView {
            deleted_files: if e.deleted_files.contains((level, number)) {
                e.deleted_files
            } else {
                e.deleted_files.push((level, number))
            },
            ..e
        },
        EditField::NewFile(level, number, size, smallest, largest) => EditView {
            new_files: e.new_files.push((level, (number, size, smallest, largest))),
            ..e
        },
    }
}

/// A level number at the start of `s`: a 32-bit varint below the number of levels.
pub open spec fn level_decoding(s: Seq<u8>) -> Option<(nat, nat)> {
    match varint32_decoding(s) {
        Some((level, n)) => if level < NUM_LEVELS {
            Some((level as nat, n))
        } else {
            None
        },
        None => None,
    }
}

/// The body of a new file at level `level`, after the level, at the start of
/// `s1`: number, size, smallest and largest keys, and the bytes they take.
pub open spec fn new_file_decoding(level: nat, s1: Seq<u8>) -> Option<(EditField, nat)> {
    match varint64_decoding(s1) {
        Some((number, m1)) => match varint64_decoding(s1.skip(m1 as int)) {
            Some((size, m2)) => match length_prefixed_decoding(s1.skip((m1 + m2) as int)) {
                Some((smallest, m3)) => match length_prefixed_decoding(
                    s1.skip((m1 + m2 + m3) as int),
                ) {
                    Some((largest, m4)) => Some(
                        (
                            EditField::NewFile(level, number, size, smallest, largest),
                            (m1 + m2 + m3 + m4) as nat,
                        ),
                    ),
                    None => None,
                },
                None => None,
            },
            None => None,
        },
        None => None,
    }
}

/// The field after the tag `tag`, at the start of `s`, and the bytes it takes.
pub open spec fn field_body_decoding(tag: u32, s: Seq<u8>) -> Option<(EditField, nat)> {
    if tag == TAG_COMPARATOR {
        match length_prefixed_decoding(s) {
            Some((c, n)) => Some((EditField::Comparator(c), n)),
            None => None,
        }
    } else if tag == TAG_LOG_NUMBER || tag == TAG_NEXT_FILE_NUMBER || tag == TAG_LAST_SEQUENCE
        || tag == TAG_PREV_LOG_NUMBER {
        match varint64_decoding(s) {
            Some((v, n)) => Some(
                (
                    if tag == TAG_LOG_NUMBER {
                        EditField::LogNumber(v)
                    } else if tag == TAG_NEXT_FILE_NUMBER {
                        EditField::NextFileNumber(v)
                    } else if tag == TAG_LAST_SEQUENCE {
                        EditField::LastSequence(v)
                    } else {
                        EditField::PrevLogNumber(v)
                    },
                    n,
                ),
            ),
            None => None,
        }
    } else if tag == TAG_COMPACT_POINTER || tag == TAG_DELETED_FILE || tag == TAG_NEW_FILE {
        match level_decoding(s) {
            Some((level, n)) => {
                let s1 = s.skip(n as int);
                if tag == TAG_COMPACT_POINTER {
                    match length_prefixed_decoding(s1) {
                        Some((k, m)) => Some((EditField::CompactPointer(level, k), n + m)),
                        None => None,
                    }
                } else if tag == TAG_DELETED_FILE {
                    match varint64_decoding(s1) {
                        Some((number, m)) => Some((EditField::DeletedFile(level, number), n + m)),
                        None => None,
                    }
                } else {
                    match new_file_decoding(level, s1) {
                        Some((f, m)) => Some((f, n + m)),
                        None => None,
                    }
                }
            },
            None => None,
        }
    } else {
        None
    }
}

/// The tagged field at the start of `s` and the bytes it takes.
pub open spec fn field_decoding(s: Seq<u8>) -> Option<(EditField, nat)> {
    match varint32_decoding(s) {
        Some((tag, n)) => match field_body_decoding(tag, s.skip(n as int)) {
            Some((f, m)) => Some((f, n + m)),
            None => None,
        },
        None => None,
    }
}

/// A field takes at least one byte and no more than there are.
pub proof fn lemma_field_length(s: Seq<u8>)
    ensures
        field_decoding(s) matches Some((f, n)) ==> 1 <= n <= s.len(),
{
    lemma_varint_decoding_length(s, 5);
    if let Some((tag, n)) = varint32_decoding(s) {
        let b = s.skip(n as int);
        lemma_varint_decoding_length(b, 5);
        lemma_varint_decoding_length(b, 10);
        if let Some((level, k)) = varint32_decoding(b) {
            let s1 = b.skip(k as int);
            lemma_varint_decoding_length(s1, 5);
            lemma_varint_decoding_length(s1, 10);
            if let Some((number, m1)) = varint64_decoding(s1) {
                lemma_varint_decoding_length(s1.skip(m1 as int), 10);
                if let Some((size, m2)) = varint64_decoding(s1.skip(m1 as int)) {
                    assert(s1.skip(m1 as int).skip(m2 as int) =~= s1.skip((m1 + m2) as int));
                    lemma_varint_decoding_length(s1.skip((m1 + m2) as int), 5);
                    if let Some((smallest, m3)) = length_prefixed_decoding(
                        s1.skip((m1 + m2) as int),
                    ) {
                        lemma_varint_decoding_length(s1.skip((m1 + m2 + m3) as int), 5);
                    }
                }
            }
        }
    }
}

/// The edit that the fields in `s` make, recorded over `acc`; `None` where
/// some field is malformed, has an unknown tag or a level out of range.
pub open spec fn edit_decoding(s: Seq<u8>, acc: EditView) -> Option<EditView>
    decreases s.len(),
{
    if s.len() == 0 {
        Some(acc)
    } else {
        proof {
            lemma_field_length(s);
        }
        match field_decoding(s) {
            Some((f, n)) => edit_decoding(s.skip(n as int), apply_field(acc, f)),
            None => None,
        }
    }
}

/// A table file recorded in a version edit.
#[derive(Debug)]
pub struct FileMetaData {
    pub number: u64,
    pub file_size: u64,
    pub smallest: InternalKey,
    pub largest: InternalKey,
}

/// A delta to the set of live tables and the database's counters.
#[derive(Debug)]
pub struct VersionEdit {
    pub comparator: Option<Vec<u8>>,
    pub log_number: Option<u64>,
    pub prev_log_number: Option<u64>,
    pub next_file_number: Option<u64>,
    pub last_sequence: Option<u64>,
    pub compact_pointers: Vec<(usize, InternalKey)>,
    pub deleted_files: Vec<(usize, u64)>,
    pub new_files: Vec<(usize, FileMetaData)>,
}

/// The values in a version edit.
pub open spec fn edit_view(e: VersionEdit) -> EditView {
    EditView {
        comparator: match e.comparator {
            Some(c) => Some(c@),
            None => None,
        },
        log_number: e.log_number,
        prev_log_number: e.prev_log_number,
        next_file_number: e.next_file_number,
        last_sequence: e.last_sequence,
        compact_pointers: e.compact_pointers@.map_values(
            |p: (usize, InternalKey)| (p.0 as nat, p.1@),
        ),
        deleted_files: e.deleted_files@.map_values(|p: (usize, u64)| (p.0 as nat, p.1)),
        new_files: e.new_files@.map_values(
            |p: (usize, FileMetaData)|
                (p.0 as nat, (p.1.number, p.1.file_size, p.1.smallest@, p.1.largest@)),
        ),
    }
}

/// Reads a level number at `pos`, with the bytes it takes; `Corruption` where
/// it is malformed or not below the number of levels.
fn get_level(src: &[u8], pos: usize) -> (r: Result<(usize, usize), Status>)
    requires
        pos <= src@.len(),
    ensures
        match level_decoding(src@.skip(pos as int)) {
            Some((level, n)) => r == Ok::<(usize, usize), Status>((level as usize, n as usize)),
            None => r == Err::<(usize, usize), Status>(Status::Corruption),
        },
        r matches Ok((l, n)) ==> pos + n <= src@.len(),
        src@.len() <= usize::MAX,
{
    let rest = vstd::slice::slice_subrange(src, pos, src.len());
    assert(rest@ =~= src@.skip(pos as int));
    proof {
        lemma_varint_decoding_length(rest@, 5);
    }
    let (level, num_bytes) = match decode_varint32(rest) {
        Some(p) => p,
        None => return Err(Status::Corruption),
    };
    if level >= NUM_LEVELS as u32 {
        return Err(Status::Corruption);
    }
    Ok((level as usize, num_bytes))
}

/// Reads a varint64 at `pos`, with the bytes it takes.
fn varint64_at(src: &[u8], pos: usize) -> (r: Option<(u64, usize)>)
    requires
        pos <= src@.len(),
    ensures
        match varint64_decoding(src@.skip(pos as int)) {
            Some((v, n)) => r == Some((v, n as usize)) && pos + n <= src@.len(),
            None => r is None,
        },
        src@.len() <= usize::MAX,
{
    let rest = vstd::slice::slice_subrange(src, pos, src.len());
    assert(rest@ =~= src@.skip(pos as int));
    proof {
        lemma_varint_decoding_length(rest@, 10);
    }
    decode_varint64(rest)
}

/// Reads a length-prefixed byte string at `pos`, with the bytes it takes.
fn slice_at(src: &[u8], pos: usize) -> (r: Option<(&[u8], usize)>)
    requires
        pos <= src@.len(),
    ensures
        match length_prefixed_decoding(src@.skip(pos as int)) {
            Some((v, n)) => (r matches Some((x, m)) && x@ == v && m == n) && pos + n <= src@.len(),
            None => r is None,
        },
        src@.len() <= usize::MAX,
{
    let rest = vstd::slice::slice_subrange(src, pos, src.len());
    assert(rest@ =~= src@.skip(pos as int));
    proof {
        lemma_varint_decoding_length(rest@, 5);
    }
    decode_length_prefixed_slice(rest)
}

impl VersionEdit {
    /// The edit with no field set.
    pub fn new() -> (r: VersionEdit)
        ensures
            edit_view(r) == empty_edit(),
    {
        let r = VersionEdit {
            comparator: None,
            log_number: None,
            prev_log_number: None,
            next_file_number: None,
            last_sequence: None,
            compact_pointers: Vec::new(),
            deleted_files: Vec::new(),
            new_files: Vec::new(),
        };
        assert(edit_view(r).compact_pointers =~= Seq::<(nat, Seq<u8>)>::empty());
        assert(edit_view(r).deleted_files =~= Seq::<(nat, u64)>::empty());
        assert(edit_view(r).new_files =~= Seq::<(nat, (u64, u64, Seq<u8>, Seq<u8>))>::empty());
        r
    }

    /// Records a deleted file once.
    fn add_deleted_file(&mut self, level: usize, number: u64)
        ensures
            edit_view(*final(self)) == apply_field(
                edit_view(*old(self)),
                EditField::DeletedFile(level as nat, number),
            ),
    {
        let ghost f = |p: (usize, u64)| (p.0 as nat, p.1);
        let mut i: usize = 0;
        while i < self.deleted_files.len()
            invariant
                i <= self.deleted_files@.len(),
                self.deleted_files@ == old(self).deleted_files@,
                *self == *old(self),
                forall|j: int| 0 <= j < i ==> self.deleted_files@[j] != (level, number),
            decreases self.deleted_files@.len() - i,
        {
            let (l, n) = self.deleted_files[i];
            if l == level && n == number {
                assert(edit_view(*self).deleted_files[i as int] == (level as nat, number));
                return;
            }
            i = i + 1;
        }
        let ghost before = edit_view(*self).deleted_files;
        assert(!before.contains((level as nat, number))) by {
            if before.contains((level as nat, number)) {
                let j = choose|j: int| 0 <= j < before.len() && before[j] == (level as nat, number);
                assert(self.deleted_files@[j] == (level, number));
            }
        }
        self.deleted_files.push((level, number));
        assert(edit_view(*self).deleted_files =~= before.push((level as nat, number)));
    }

    /// Reads the field body after tag `tag` at `start` and records it.
    #[verifier::rlimit(40)]
    fn decode_field_body(&mut self, tag: u32, src: &[u8], start: usize) -> (r: Result<usize, Status>)
        requires
            start <= src@.len(),
        ensures
            match field_body_decoding(tag, src@.skip(start as int)) {
                Some((f, n)) => r == Ok::<usize, Status>((start + n) as usize) && edit_view(
                    *final(self),
                ) == apply_field(edit_view(*old(self)), f),
                None => r == Err::<usize, Status>(Status::Corruption),
            },
    {
        let ghost b = src@.skip(start as int);
        if tag == TAG_COMPARATOR {
            let (name, n) = match slice_at(src, start) {
                Some(p) => p,
                None => return Err(Status::Corruption),
            };
            self.comparator = Some(vstd::slice::slice_to_vec(name));
            Ok(start + n)
        } else if tag == TAG_LOG_NUMBER || tag == TAG_NEXT_FILE_NUMBER || tag == TAG_LAST_SEQUENCE
            || tag == TAG_PREV_LOG_NUMBER {
            let (num, n) = match varint64_at(src, start) {
                Some(p) => p,
                None => return Err(Status::Corruption),
            };
            if tag == TAG_LOG_NUMBER {
                self.log_number = Some(num);
            } else if tag == TAG_NEXT_FILE_NUMBER {
                self.next_file_number = Some(num);
            } else if tag == TAG_LAST_SEQUENCE {
                self.last_sequence = Some(num);
            } else {
                self.prev_log_number = Some(num);
            }
            Ok(start + n)
        } else if tag == TAG_COMPACT_POINTER || tag == TAG_DELETED_FILE || tag == TAG_NEW_FILE {
            let (level, n) = match get_level(src, start) {
                Ok(p) => p,
                Err(e) => return Err(e),
            };
            proof {
                lemma_varint_decoding_length(b, 5);
            }
            let body_at = start + n;
            assert(b.skip(n as int) =~= src@.skip(body_at as int));
            if tag == TAG_COMPACT_POINTER {
                self.decode_compact_pointer(level, src, body_at)
            } else if tag == TAG_DELETED_FILE {
                let (num, m) = match varint64_at(src, body_at) {
                    Some(p) => p,
                    None => return Err(Status::Corruption),
                };
                self.add_deleted_file(level, num);
                Ok(body_at + m)
            } else {
                self.decode_new_file(level, src, body_at)
            }
        } else {
            Err(Status::Corruption)
        }
    }

    fn decode_compact_pointer(&mut self, level: usize, src: &[u8], body_at: usize) -> (r: Result<
        usize,
        Status,
    >)
        requires
            body_at <= src@.len(),
        ensures
            match length_prefixed_decoding(src@.skip(body_at as int)) {
                Some((k, m)) => r == Ok::<usize, Status>((body_at + m) as usize) && edit_view(
                    *final(self),
                ) == apply_field(
                    edit_view(*old(self)),
                    EditField::CompactPointer(level as nat, k),
                ),
                None => r == Err::<usize, Status>(Status::Corruption),
            },
    {
        let (key, m) = match slice_at(src, body_at) {
            Some(p) => p,
            None => return Err(Status::Corruption),
        };
        let ghost pointers = edit_view(*self).compact_pointers;
        self.compact_pointers.push((level, InternalKey::decode_from(key)));
        assert(edit_view(*self).compact_pointers =~= pointers.push((level as nat, key@)));
        Ok(body_at + m)
    }

    fn decode_new_file(&mut self, level: usize, src: &[u8], body_at: usize) -> (r: Result<
        usize,
        Status,
    >)
        requires
            body_at <= src@.len(),
        ensures
            match new_file_decoding(level as nat, src@.skip(body_at as int)) {
                Some((f, m)) => r == Ok::<usize, Status>((body_at + m) as usize) && edit_view(
                    *final(self),
                ) == apply_field(edit_view(*old(self)), f),
                None => r == Err::<usize, Status>(Status::Corruption),
            },
    {
        let ghost s1 = src@.skip(body_at as int);
        let (number, m1) = match varint64_at(src, body_at) {
            Some(p) => p,
            None => return Err(Status::Corruption),
        };
        assert(s1.skip(m1 as int) =~= src@.skip(body_at + m1));
        let (file_size, m2) = match varint64_at(src, body_at + m1) {
            Some(p) => p,
            None => return Err(Status::Corruption),
        };
        assert(s1.skip((m1 + m2) as int) =~= src@.skip(body_at + m1 + m2));
        let (smallest, m3) = match slice_at(src, body_at + m1 + m2) {
            Some(p) => p,
            None => return Err(Status::Corruption),
        };
        assert(s1.skip((m1 + m2 + m3) as int) =~= src@.skip(body_at + m1 + m2 + m3));
        let (largest, m4) = match slice_at(src, body_at + m1 + m2 + m3) {
            Some(p) => p,
            None => return Err(Status::Corruption),
        };
        let ghost files = edit_view(*self).new_files;
        self.new_files.push(
            (
                level,
                FileMetaData {
                    number,
                    file_size,
                    smallest: InternalKey::decode_from(smallest),
                    largest: InternalKey::decode_from(largest),
                },
            ),
        );
        assert(edit_view(*self).new_files =~= files.push(
            (level as nat, (number, file_size, smallest@, largest@)),
        ));
        Ok(body_at + m1 + m2 + m3 + m4)
    }

    /// Decodes an edit from its tagged fields; `Corruption` where a field is
    /// malformed, its tag unknown or its level out of range.
    pub fn decode_from(src: &[u8]) -> (r: Result<VersionEdit, Status>)
        ensures
            match edit_decoding(src@, empty_edit()) {
                Some(e) => r matches Ok(v) && edit_view(v) == e,
                None => r == Err::<VersionEdit, Status>(Status::Corruption),
            },
    {
        let mut edit = VersionEdit::new();
        let mut pos: usize = 0;
        assert(src@.skip(0) =~= src@);
        while pos < src.len()
            invariant
                pos <= src@.len(),
                edit_decoding(src@, empty_edit()) == edit_decoding(
                    src@.skip(pos as int),
                    edit_view(edit),
                ),
            decreases src@.len() - pos,
        {
            let ghost s = src@.skip(pos as int);
            proof {
                lemma_field_length(s);
            }
            let rest = vstd::slice::slice_subrange(src, pos, src.len());
            assert(rest@ =~= s);
            proof {
                lemma_varint_decoding_length(s, 5);
            }
            let (tag, bytes) = match decode_varint32(rest) {
                Some(p) => p,
                None => return Err(Status::Corruption),
            };
            let start = pos + bytes;
            assert(s.skip(bytes as int) =~= src@.skip(start as int));
            let end = match edit.decode_field_body(tag, src, start) {
                Ok(e) => e,
                Err(e) => return Err(e),
            };
            proof {
                let (f, n) = field_decoding(s)->0;
                assert(s.skip(n as int) =~= src@.skip(end as int));
            }
            pos = end;
        }
        assert(src@.skip(pos as int) =~= Seq::<u8>::empty());
        Ok(edit)
    }
}

/// The bytes of one tagged field.
pub open spec fn field_encoding(f: EditField) -> Seq<u8> {
    match f {
        EditField::Comparator(c) => varint_encoding(TAG_COMPARATOR as nat) + length_prefixed(c),
        EditField::LogNumber(n) => varint_encoding(TAG_LOG_NUMBER as nat) + varint_encoding(
            n as nat,
        ),
        EditField::NextFileNumber(n) => varint_encoding(TAG_NEXT_FILE_NUMBER as nat)
            + varint_encoding(n as nat),
        EditField::LastSequence(n) => varint_encoding(TAG_LAST_SEQUENCE as nat) + varint_encoding(
            n as nat,
        ),
        EditField::PrevLogNumber(n) => varint_encoding(TAG_PREV_LOG_NUMBER as nat)
            + varint_encoding(n as nat),
        EditField::CompactPointer(level, key) => varint_encoding(TAG_COMPACT_POINTER as nat)
            + varint_encoding(level) + length_prefixed(key),
        EditField::DeletedFile(level, number) => varint_encoding(TAG_DELETED_FILE as nat)
            + varint_encoding(level) + varint_encoding(number as nat),
        EditField::NewFile(level, number, size, smallest, largest) => varint_encoding(
            TAG_NEW_FILE as nat,
        ) + varint_encoding(level) + varint_encoding(number as nat) + varint_encoding(size as nat)
            + length_prefixed(smallest) + length_prefixed(largest),
    }
}

/// Fields, one after the other.
pub open spec fn fields_encoding(fields: Seq<EditField>) -> Seq<u8>
    decreases fields.len(),
{
    if fields.len() == 0 {
        Seq::empty()
    } else {
        field_encoding(fields[0]) + fields_encoding(fields.drop_first())
    }
}

/// A field that can be written and read back: levels in range, byte strings
/// whose length fits 32 bits.
pub open spec fn field_valid(f: EditField) -> bool {
    match f {
        EditField::Comparator(c) => c.len() <= u32::MAX,
        EditField::CompactPointer(level, key) => level < NUM_LEVELS && key.len() <= u32::MAX,
        EditField::DeletedFile(level, number) => level < NUM_LEVELS,
        EditField::NewFile(level, number, size, smallest, largest) => level < NUM_LEVELS
            && smallest.len() <= u32::MAX && largest.len() <= u32::MAX,
        _ => true,
    }
}

/// The fields of the names and numbers that are set, in the order written.
pub open spec fn number_fields(e: EditView) -> Seq<EditField> {
    (match e.comparator {
        Some(c) => seq![EditField::Comparator(c)],
        None => Seq::empty(),
    }) + (match e.log_number {
        Some(n) => seq![EditField::LogNumber(n)],
        None => Seq::empty(),
    }) + (match e.prev_log_number {
        Some(n) => seq![EditField::PrevLogNumber(n)],
        None => Seq::empty(),
    }) + (match e.next_file_number {
        Some(n) => seq![EditField::NextFileNumber(n)],
        None => Seq::empty(),
    }) + (match e.last_sequence {
        Some(n) => seq![EditField::LastSequence(n)],
        None => Seq::empty(),
    })
}

/// The fields of compaction pointers.
pub open spec fn pointer_fields(ps: Seq<(nat, Seq<u8>)>) -> Seq<EditField> {
    ps.map_values(|p: (nat, Seq<u8>)| EditField::CompactPointer(p.0, p.1))
}

/// The fields of deleted files.
pub open spec fn deleted_fields(ds: Seq<(nat, u64)>) -> Seq<EditField> {
    ds.map_values(|p: (nat, u64)| EditField::DeletedFile(p.0, p.1))
}

/// The fields of new files.
pub open spec fn new_file_fields(fs: Seq<(nat, (u64, u64, Seq<u8>, Seq<u8>))>) -> Seq<EditField> {
    fs.map_values(
        |p: (nat, (u64, u64, Seq<u8>, Seq<u8>))| EditField::NewFile(p.0, p.1.0, p.1.1, p.1.2, p.1.3),
    )
}

/// The fields an edit is written as: the names and numbers that are set, then
/// the compaction pointers, deleted files and new files in order.
pub open spec fn edit_fields(e: EditView) -> Seq<EditField> {
    number_fields(e) + pointer_fields(e.compact_pointers) + deleted_fields(e.deleted_files)
        + new_file_fields(e.new_files)
}

/// The bytes an edit is written as.
pub open spec fn edit_encoding(e: EditView) -> Seq<u8> {
    fields_encoding(edit_fields(e))
}

/// An edit that can be written and read back: every field valid, and no
/// deleted file listed twice.
pub open spec fn edit_valid(e: EditView) -> bool {
    &&& forall|i: int| 0 <= i < edit_fields(e).len() ==> field_valid(#[trigger] edit_fields(e)[i])
    &&& forall|i: int, j: int|
        0 <= i < j < e.deleted_files.len() ==> #[trigger] e.deleted_files[i]
            != #[trigger] e.deleted_files[j]
}

proof fn lemma_fields_encoding_push(fields: Seq<EditField>, f: EditField)
    ensures
        fields_encoding(fields.push(f)) == fields_encoding(fields) + field_encoding(f),
    decreases fields.len(),
{
    if fields.len() == 0 {
        assert(fields.push(f).drop_first() =~= Seq::<EditField>::empty());
        assert(fields.push(f)[0] == f);
        assert(fields_encoding(fields.push(f)) == field_encoding(f) + fields_encoding(
            Seq::<EditField>::empty(),
        ));
        assert(field_encoding(f) + Seq::<u8>::empty() =~= Seq::<u8>::empty() + field_encoding(f));
    } else {
        lemma_fields_encoding_push(fields.drop_first(), f);
        assert(fields.push(f).drop_first() =~= fields.drop_first().push(f));
        assert(fields.push(f)[0] == fields[0]);
        assert(field_encoding(fields[0]) + (fields_encoding(fields.drop_first()) + field_encoding(
            f,
        )) =~= field_encoding(fields[0]) + fields_encoding(fields.drop_first()) + field_encoding(
            f,
        ));
    }
}

#[verifier::rlimit(100)]
proof fn lemma_comparator_round_trip(f: EditField, c: Seq<u8>, rest: Seq<u8>)
    requires
        f == EditField::Comparator(c),
        c.len() <= u32::MAX,
    ensures
        field_decoding(field_encoding(f) + rest) == Some((f, field_encoding(f).len())),
{
    let s = field_encoding(f) + rest;
    let t = varint_encoding(TAG_COMPARATOR as nat);
    assert(s =~= t + (length_prefixed(c) + rest));
    lemma_varint32_round_trip(TAG_COMPARATOR, length_prefixed(c) + rest);
    assert(s.skip(t.len() as int) =~= length_prefixed(c) + rest);
    lemma_length_prefixed_round_trip(c, rest);
}

#[verifier::rlimit(100)]
proof fn lemma_pointer_round_trip(f: EditField, level: nat, key: Seq<u8>, rest: Seq<u8>)
    requires
        f == EditField::CompactPointer(level, key),
        level < NUM_LEVELS,
        key.len() <= u32::MAX,
    ensures
        field_decoding(field_encoding(f) + rest) == Some((f, field_encoding(f).len())),
{
    let s = field_encoding(f) + rest;
    let t = varint_encoding(TAG_COMPACT_POINTER as nat);
    let l = varint_encoding(level);
    let body = length_prefixed(key) + rest;
    assert(s =~= t + (l + body));
    lemma_varint32_round_trip(TAG_COMPACT_POINTER, l + body);
    assert(s.skip(t.len() as int) =~= l + body);
    lemma_varint32_round_trip(level as u32, body);
    assert((l + body).skip(l.len() as int) =~= body);
    lemma_length_prefixed_round_trip(key, rest);
}

#[verifier::rlimit(100)]
proof fn lemma_deleted_round_trip(f: EditField, level: nat, number: u64, rest: Seq<u8>)
    requires
        f == EditField::DeletedFile(level, number),
        level < NUM_LEVELS,
    ensures
        field_decoding(field_encoding(f) + rest) == Some((f, field_encoding(f).len())),
{
    let s = field_encoding(f) + rest;
    let t = varint_encoding(TAG_DELETED_FILE as nat);
    let l = varint_encoding(level);
    let n = varint_encoding(number as nat);
    let body = n + rest;
    assert(field_encoding(f) == t + l + n);
    assert(s =~= t + (l + body));
    lemma_varint32_round_trip(TAG_DELETED_FILE, l + body);
    let b = s.skip(t.len() as int);
    assert(b =~= l + body);
    lemma_varint32_round_trip(level as u32, body);
    assert(level_decoding(b) == Some((level, l.len())));
    assert(b.skip(l.len() as int) =~= body);
    lemma_varint64_round_trip(number, rest);
    assert(varint64_decoding(body) == Some((number, n.len())));
    assert(field_body_decoding(TAG_DELETED_FILE, b) == Some((f, l.len() + n.len())));
    assert(varint32_decoding(s) == Some((TAG_DELETED_FILE, t.len())));
}

#[verifier::rlimit(100)]
proof fn lemma_new_file_body_round_trip(
    level: nat,
    number: u64,
    size: u64,
    smallest: Seq<u8>,
    largest: Seq<u8>,
    rest: Seq<u8>,
)
    requires
        smallest.len() <= u32::MAX,
        largest.len() <= u32::MAX,
    ensures
        ({
            let body = varint_encoding(number as nat) + varint_encoding(size as nat)
                + length_prefixed(smallest) + length_prefixed(largest);
            new_file_decoding(level, body + rest) == Some(
                (EditField::NewFile(level, number, size, smallest, largest), body.len()),
            )
        }),
{
    let e1 = varint_encoding(number as nat);
    let e2 = varint_encoding(size as nat);
    let e3 = length_prefixed(smallest);
    let e4 = length_prefixed(largest);
    let s1 = e1 + e2 + e3 + e4 + rest;
    assert(s1 =~= e1 + (e2 + (e3 + (e4 + rest))));
    lemma_varint64_round_trip(number, e2 + (e3 + (e4 + rest)));
    assert(s1.skip(e1.len() as int) =~= e2 + (e3 + (e4 + rest)));
    lemma_varint64_round_trip(size, e3 + (e4 + rest));
    assert(s1.skip((e1.len() + e2.len()) as int) =~= e3 + (e4 + rest));
    lemma_length_prefixed_round_trip(smallest, e4 + rest);
    assert(s1.skip((e1.len() + e2.len() + e3.len()) as int) =~= e4 + rest);
    lemma_length_prefixed_round_trip(largest, rest);
}

#[verifier::rlimit(100)]
proof fn lemma_new_file_round_trip(
    f: EditField,
    level: nat,
    number: u64,
    size: u64,
    smallest: Seq<u8>,
    largest: Seq<u8>,
    rest: Seq<u8>,
)
    requires
        f == EditField::NewFile(level, number, size, smallest, largest),
        level < NUM_LEVELS,
        smallest.len() <= u32::MAX,
        largest.len() <= u32::MAX,
    ensures
        field_decoding(field_encoding(f) + rest) == Some((f, field_encoding(f).len())),
{
    let s = field_encoding(f) + rest;
    let t = varint_encoding(TAG_NEW_FILE as nat);
    let l = varint_encoding(level);
    let body = varint_encoding(number as nat) + varint_encoding(size as nat) + length_prefixed(
        smallest,
    ) + length_prefixed(largest);
    assert(field_encoding(f) =~= t + l + body);
    assert(s =~= t + (l + (body + rest)));
    lemma_varint32_round_trip(TAG_NEW_FILE, l + (body + rest));
    assert(s.skip(t.len() as int) =~= l + (body + rest));
    lemma_varint32_round_trip(level as u32, body + rest);
    assert((l + (body + rest)).skip(l.len() as int) =~= body + rest);
    lemma_new_file_body_round_trip(level, number, size, smallest, largest, rest);
}

/// Decoding a valid field, whatever follows it, gives the field and its length.
pub proof fn lemma_field_round_trip(f: EditField, rest: Seq<u8>)
    requires
        field_valid(f),
    ensures
        field_decoding(field_encoding(f) + rest) == Some((f, field_encoding(f).len())),
{
    match f {
        EditField::Comparator(c) => lemma_comparator_round_trip(f, c, rest),
        EditField::LogNumber(n) => lemma_number_round_trip(TAG_LOG_NUMBER, n, rest),
        EditField::NextFileNumber(n) => lemma_number_round_trip(TAG_NEXT_FILE_NUMBER, n, rest),
        EditField::LastSequence(n) => lemma_number_round_trip(TAG_LAST_SEQUENCE, n, rest),
        EditField::PrevLogNumber(n) => lemma_number_round_trip(TAG_PREV_LOG_NUMBER, n, rest),
        EditField::CompactPointer(level, key) => lemma_pointer_round_trip(f, level, key, rest),
        EditField::DeletedFile(level, number) => lemma_deleted_round_trip(f, level, number, rest),
        EditField::NewFile(level, number, size, smallest, largest) => lemma_new_file_round_trip(
            f,
            level,
            number,
            size,
            smallest,
            largest,
            rest,
        ),
    }
}

#[verifier::rlimit(100)]
proof fn lemma_number_round_trip(tag: u32, n: u64, rest: Seq<u8>)
    requires
        tag == TAG_LOG_NUMBER || tag == TAG_NEXT_FILE_NUMBER || tag == TAG_LAST_SEQUENCE || tag
            == TAG_PREV_LOG_NUMBER,
    ensures
        ({
            let s = varint_encoding(tag as nat) + varint_encoding(n as nat) + rest;
            &&& varint32_decoding(s) == Some((tag, varint_encoding(tag as nat).len()))
            &&& field_body_decoding(tag, s.skip(varint_encoding(tag as nat).len() as int)) matches Some((f, m))
            &&& m == varint_encoding(n as nat).len()
            &&& field_decoding(s) == Some((f, varint_encoding(tag as nat).len() + m))
            &&& (tag == TAG_LOG_NUMBER ==> f == EditField::LogNumber(n))
            &&& (tag == TAG_NEXT_FILE_NUMBER ==> f == EditField::NextFileNumber(n))
            &&& (tag == TAG_LAST_SEQUENCE ==> f == EditField::LastSequence(n))
            &&& (tag == TAG_PREV_LOG_NUMBER ==> f == EditField::PrevLogNumber(n))
        }),
{
    let t = varint_encoding(tag as nat);
    let s = t + varint_encoding(n as nat) + rest;
    assert(s =~= t + (varint_encoding(n as nat) + rest));
    lemma_varint32_round_trip(tag, varint_encoding(n as nat) + rest);
    assert(s.skip(t.len() as int) =~= varint_encoding(n as nat) + rest);
    lemma_varint64_round_trip(n, rest);
}

/// The edit that recording `fields` in order over `acc` makes.
pub open spec fn fold_fields(acc: EditView, fields: Seq<EditField>) -> EditView
    decreases fields.len(),
{
    if fields.len() == 0 {
        acc
    } else {
        fold_fields(apply_field(acc, fields[0]), fields.drop_first())
    }
}

proof fn lemma_fields_decode(fields: Seq<EditField>, acc: EditView)
    requires
        forall|i: int| 0 <= i < fields.len() ==> field_valid(#[trigger] fields[i]),
    ensures
        edit_decoding(fields_encoding(fields), acc) == Some(fold_fields(acc, fields)),
    decreases fields.len(),
{
    if fields.len() > 0 {
        let f = fields[0];
        let rest = fields_encoding(fields.drop_first());
        assert(field_valid(fields[0]));
        lemma_field_round_trip(f, rest);
        let s = fields_encoding(fields);
        let n = field_encoding(f).len();
        assert(n > 0) by {
            lemma_field_length(field_encoding(f) + rest);
        }
        assert(s.skip(n as int) =~= rest);
        assert forall|i: int| 0 <= i < fields.drop_first().len() implies field_valid(
            #[trigger] fields.drop_first()[i],
        ) by {
            assert(fields.drop_first()[i] == fields[i + 1]);
        }
        lemma_fields_decode(fields.drop_first(), apply_field(acc, f));
    }
}

proof fn lemma_fold_push(acc: EditView, fields: Seq<EditField>, f: EditField)
    ensures
        fold_fields(acc, fields.push(f)) == apply_field(fold_fields(acc, fields), f),
    decreases fields.len(),
{
    if fields.len() == 0 {
        assert(fields.push(f).drop_first() =~= Seq::<EditField>::empty());
        assert(fields.push(f)[0] == f);
        assert(fold_fields(apply_field(acc, f), Seq::<EditField>::empty()) == apply_field(acc, f));
    } else {
        assert(fields.push(f)[0] == fields[0]);
        assert(fields.push(f).drop_first() =~= fields.drop_first().push(f));
        lemma_fold_push(apply_field(acc, fields[0]), fields.drop_first(), f);
    }
}

proof fn lemma_fold_append(acc: EditView, a: Seq<EditField>, b: Seq<EditField>)
    ensures
        fold_fields(acc, a + b) == fold_fields(fold_fields(acc, a), b),
    decreases a.len(),
{
    if a.len() == 0 {
        assert(a + b =~= b);
    } else {
        assert((a + b).drop_first() =~= a.drop_first() + b);
        assert((a + b)[0] == a[0]);
        lemma_fold_append(apply_field(acc, a[0]), a.drop_first(), b);
    }
}

proof fn lemma_fold_pointers(acc: EditView, ps: Seq<(nat, Seq<u8>)>)
    ensures
        fold_fields(acc, ps.map_values(|p: (nat, Seq<u8>)| EditField::CompactPointer(p.0, p.1)))
            == (EditView { compact_pointers: acc.compact_pointers + ps, ..acc }),
    decreases ps.len(),
{
    let g = |p: (nat, Seq<u8>)| EditField::CompactPointer(p.0, p.1);
    if ps.len() == 0 {
        assert(ps.map_values(g) =~= Seq::<EditField>::empty());
        assert(acc.compact_pointers + ps =~= acc.compact_pointers);
    } else {
        lemma_fold_pointers(acc, ps.drop_last());
        assert(ps.map_values(g) =~= ps.drop_last().map_values(g).push(g(ps.last())));
        lemma_fold_push(acc, ps.drop_last().map_values(g), g(ps.last()));
        assert(acc.compact_pointers + ps.drop_last() + seq![ps.last()] =~= acc.compact_pointers
            + ps);
        assert((acc.compact_pointers + ps.drop_last()).push(ps.last()) =~= acc.compact_pointers
            + ps);
    }
}

proof fn lemma_fold_deleted(acc: EditView, ds: Seq<(nat, u64)>)
    requires
        acc.deleted_files == Seq::<(nat, u64)>::empty(),
        forall|i: int, j: int| 0 <= i < j < ds.len() ==> #[trigger] ds[i] != #[trigger] ds[j],
    ensures
        fold_fields(acc, ds.map_values(|p: (nat, u64)| EditField::DeletedFile(p.0, p.1))) == (
        EditView { deleted_files: ds, ..acc }),
    decreases ds.len(),
{
    let g = |p: (nat, u64)| EditField::DeletedFile(p.0, p.1);
    if ds.len() == 0 {
        assert(ds.map_values(g) =~= Seq::<EditField>::empty());
        assert(ds =~= acc.deleted_files);
    } else {
        let prev = ds.drop_last();
        assert forall|i: int, j: int| 0 <= i < j < prev.len() implies #[trigger] prev[i]
            != #[trigger] prev[j] by {
            assert(prev[i] == ds[i] && prev[j] == ds[j]);
        }
        lemma_fold_deleted(acc, prev);
        assert(ds.map_values(g) =~= prev.map_values(g).push(g(ds.last())));
        lemma_fold_push(acc, prev.map_values(g), g(ds.last()));
        assert(!prev.contains(ds.last())) by {
            if prev.contains(ds.last()) {
                let i = choose|i: int| 0 <= i < prev.len() && prev[i] == ds.last();
                assert(ds[i] == ds[ds.len() - 1]);
            }
        }
        assert(prev.push(ds.last()) =~= ds);
    }
}

proof fn lemma_fold_new_files(acc: EditView, fs: Seq<(nat, (u64, u64, Seq<u8>, Seq<u8>))>)
    ensures
        fold_fields(
            acc,
            fs.map_values(
                |p: (nat, (u64, u64, Seq<u8>, Seq<u8>))|
                    EditField::NewFile(p.0, p.1.0, p.1.1, p.1.2, p.1.3),
            ),
        ) == (EditView { new_files: acc.new_files + fs, ..acc }),
    decreases fs.len(),
{
    let g = |p: (nat, (u64, u64, Seq<u8>, Seq<u8>))|
        EditField::NewFile(p.0, p.1.0, p.1.1, p.1.2, p.1.3);
    if fs.len() == 0 {
        assert(fs.map_values(g) =~= Seq::<EditField>::empty());
        assert(acc.new_files + fs =~= acc.new_files);
    } else {
        lemma_fold_new_files(acc, fs.drop_last());
        assert(fs.map_values(g) =~= fs.drop_last().map_values(g).push(g(fs.last())));
        lemma_fold_push(acc, fs.drop_last().map_values(g), g(fs.last()));
        assert((acc.new_files + fs.drop_last()).push(fs.last()) =~= acc.new_files + fs);
    }
}

proof fn lemma_fold_option(acc: EditView, f: Option<EditField>)
    ensures
        fold_fields(
            acc,
            match f {
                Some(x) => seq![x],
                None => Seq::<EditField>::empty(),
            },
        ) == match f {
            Some(x) => apply_field(acc, x),
            None => acc,
        },
{
    if let Some(x) = f {
        assert(seq![x].drop_first() =~= Seq::<EditField>::empty());
        assert(seq![x][0] == x);
        assert(fold_fields(apply_field(acc, x), Seq::<EditField>::empty()) == apply_field(acc, x));
    }
}

/// Writing a valid edit and reading it back gives the same edit, field for field.
pub proof fn lemma_edit_round_trip(e: EditView)
    requires
        edit_valid(e),
    ensures
        edit_decoding(edit_encoding(e), empty_edit()) == Some(e),
{
    let fields = edit_fields(e);
    lemma_fields_decode(fields, empty_edit());
    let o1 = match e.comparator {
        Some(c) => Some(EditField::Comparator(c)),
        None => None,
    };
    let o2 = match e.log_number {
        Some(n) => Some(EditField::LogNumber(n)),
        None => None,
    };
    let o3 = match e.prev_log_number {
        Some(n) => Some(EditField::PrevLogNumber(n)),
        None => None,
    };
    let o4 = match e.next_file_number {
        Some(n) => Some(EditField::NextFileNumber(n)),
        None => None,
    };
    let o5 = match e.last_sequence {
        Some(n) => Some(EditField::LastSequence(n)),
        None => None,
    };
    let as_seq = |o: Option<EditField>|
        match o {
            Some(x) => seq![x],
            None => Seq::<EditField>::empty(),
        };
    let ps = e.compact_pointers.map_values(|p: (nat, Seq<u8>)| EditField::CompactPointer(p.0, p.1));
    let ds = e.deleted_files.map_values(|p: (nat, u64)| EditField::DeletedFile(p.0, p.1));
    let ns = e.new_files.map_values(
        |p: (nat, (u64, u64, Seq<u8>, Seq<u8>))| EditField::NewFile(p.0, p.1.0, p.1.1, p.1.2, p.1.3),
    );
    assert(number_fields(e) =~= as_seq(o1) + as_seq(o2) + as_seq(o3) + as_seq(o4) + as_seq(o5));
    assert(fields =~= as_seq(o1) + as_seq(o2) + as_seq(o3) + as_seq(o4) + as_seq(o5) + ps + ds
        + ns);
    let e0 = empty_edit();
    lemma_fold_append(e0, as_seq(o1) + as_seq(o2) + as_seq(o3) + as_seq(o4) + as_seq(o5) + ps + ds, ns);
    lemma_fold_append(e0, as_seq(o1) + as_seq(o2) + as_seq(o3) + as_seq(o4) + as_seq(o5) + ps, ds);
    lemma_fold_append(e0, as_seq(o1) + as_seq(o2) + as_seq(o3) + as_seq(o4) + as_seq(o5), ps);
    lemma_fold_append(e0, as_seq(o1) + as_seq(o2) + as_seq(o3) + as_seq(o4), as_seq(o5));
    lemma_fold_append(e0, as_seq(o1) + as_seq(o2) + as_seq(o3), as_seq(o4));
    lemma_fold_append(e0, as_seq(o1) + as_seq(o2), as_seq(o3));
    lemma_fold_append(e0, as_seq(o1), as_seq(o2));
    lemma_fold_option(e0, o1);
    let e1 = fold_fields(e0, as_seq(o1));
    lemma_fold_option(e1, o2);
    let e2 = fold_fields(e1, as_seq(o2));
    lemma_fold_option(e2, o3);
    let e3 = fold_fields(e2, as_seq(o3));
    lemma_fold_option(e3, o4);
    let e4 = fold_fields(e3, as_seq(o4));
    lemma_fold_option(e4, o5);
    let e5 = fold_fields(e4, as_seq(o5));
    lemma_fold_pointers(e5, e.compact_pointers);
    let e6 = fold_fields(e5, ps);
    lemma_fold_deleted(e6, e.deleted_files);
    let e7 = fold_fields(e6, ds);
    lemma_fold_new_files(e7, e.new_files);
    let e8 = fold_fields(e7, ns);
    assert(Seq::<(nat, Seq<u8>)>::empty() + e.compact_pointers =~= e.compact_pointers);
    assert(Seq::<(nat, (u64, u64, Seq<u8>, Seq<u8>))>::empty() + e.new_files =~= e.new_files);
    assert(e8 == e);
}

/// The byte strings of an edit fit a 32-bit length prefix.
pub open spec fn edit_lengths_fit(e: VersionEdit) -> bool {
    &&& (e.comparator matches Some(c) ==> c@.len() <= u32::MAX)
    &&& forall|i: int|
        0 <= i < e.compact_pointers@.len() ==> (#[trigger] e.compact_pointers@[i]).1@.len()
            <= u32::MAX
    &&& forall|i: int|
        0 <= i < e.new_files@.len() ==> (#[trigger] e.new_files@[i]).1.smallest@.len() <= u32::MAX
            && e.new_files@[i].1.largest@.len() <= u32::MAX
}

/// The fields of an optional field: it alone, or none.
pub open spec fn optional_field(f: Option<EditField>) -> Seq<EditField> {
    match f {
        Some(x) => seq![x],
        None => Seq::empty(),
    }
}

/// The numbered field with tag `tag`, where the number is set.
pub open spec fn number_field(tag: u32, n: Option<u64>) -> Option<EditField> {
    match n {
        Some(v) => Some(
            if tag == TAG_LOG_NUMBER {
                EditField::LogNumber(v)
            } else if tag == TAG_PREV_LOG_NUMBER {
                EditField::PrevLogNumber(v)
            } else if tag == TAG_NEXT_FILE_NUMBER {
                EditField::NextFileNumber(v)
            } else {
                EditField::LastSequence(v)
            },
        ),
        None => None,
    }
}

proof fn lemma_single_field_encoding(f: Option<EditField>)
    ensures
        fields_encoding(optional_field(f)) == match f {
            Some(x) => field_encoding(x),
            None => Seq::<u8>::empty(),
        },
{
    if let Some(x) = f {
        assert(seq![x].drop_first() =~= Seq::<EditField>::empty());
        assert(seq![x][0] == x);
        assert(fields_encoding(Seq::<EditField>::empty()) == Seq::<u8>::empty());
        assert(fields_encoding(seq![x]) == field_encoding(x) + fields_encoding(
            Seq::<EditField>::empty(),
        ));
        assert(field_encoding(x) + Seq::<u8>::empty() =~= field_encoding(x));
    } else {
        assert(fields_encoding(Seq::<EditField>::empty()) == Seq::<u8>::empty());
    }
}

/// Appends the numbered field with tag `tag`, where the number is set.
fn encode_number(dst: &mut Vec<u8>, tag: u32, n: Option<u64>)
    requires
        tag == TAG_LOG_NUMBER || tag == TAG_PREV_LOG_NUMBER || tag == TAG_NEXT_FILE_NUMBER || tag
            == TAG_LAST_SEQUENCE,
    ensures
        final(dst)@ == old(dst)@ + fields_encoding(optional_field(number_field(tag, n))),
{
    if let Some(v) = n {
        put_varint32(dst, tag);
        put_varint64(dst, v);
    }
    proof {
        lemma_single_field_encoding(number_field(tag, n));
        assert(old(dst)@ + Seq::<u8>::empty() =~= old(dst)@);
    }
}

proof fn lemma_fields_encoding_append(a: Seq<EditField>, b: Seq<EditField>)
    ensures
        fields_encoding(a + b) == fields_encoding(a) + fields_encoding(b),
    decreases a.len(),
{
    if a.len() == 0 {
        assert(a + b =~= b);
        assert(fields_encoding(a) + fields_encoding(b) =~= fields_encoding(b));
    } else {
        assert((a + b).drop_first() =~= a.drop_first() + b);
        assert((a + b)[0] == a[0]);
        lemma_fields_encoding_append(a.drop_first(), b);
        assert(field_encoding(a[0]) + (fields_encoding(a.drop_first()) + fields_encoding(b))
            =~= field_encoding(a[0]) + fields_encoding(a.drop_first()) + fields_encoding(b));
    }
}

impl VersionEdit {
    #[verifier::rlimit(60)]
    fn encode_numbers(&self, dst: &mut Vec<u8>)
        requires
            self.comparator matches Some(c) ==> c@.len() <= u32::MAX,
        ensures
            final(dst)@ == old(dst)@ + fields_encoding(number_fields(edit_view(*self))),
    {
        let ghost e = edit_view(*self);
        let ghost f1 = optional_field(
            match e.comparator {
                Some(c) => Some(EditField::Comparator(c)),
                None => None,
            },
        );
        let ghost f2 = optional_field(number_field(TAG_LOG_NUMBER, e.log_number));
        let ghost f3 = optional_field(number_field(TAG_PREV_LOG_NUMBER, e.prev_log_number));
        let ghost f4 = optional_field(number_field(TAG_NEXT_FILE_NUMBER, e.next_file_number));
        let ghost f5 = optional_field(number_field(TAG_LAST_SEQUENCE, e.last_sequence));
        if let Some(c) = &self.comparator {
            put_varint32(dst, TAG_COMPARATOR);
            put_length_prefixed_slice(dst, c.as_slice());
        }
        proof {
            lemma_single_field_encoding(
                match e.comparator {
                    Some(c) => Some(EditField::Comparator(c)),
                    None => None,
                },
            );
        }
        encode_number(dst, TAG_LOG_NUMBER, self.log_number);
        encode_number(dst, TAG_PREV_LOG_NUMBER, self.prev_log_number);
        encode_number(dst, TAG_NEXT_FILE_NUMBER, self.next_file_number);
        encode_number(dst, TAG_LAST_SEQUENCE, self.last_sequence);
        proof {
            assert(number_fields(e) =~= f1 + f2 + f3 + f4 + f5);
            lemma_fields_encoding_append(f1 + f2 + f3 + f4, f5);
            lemma_fields_encoding_append(f1 + f2 + f3, f4);
            lemma_fields_encoding_append(f1 + f2, f3);
            lemma_fields_encoding_append(f1, f2);
            assert(old(dst)@ + fields_encoding(f1) + fields_encoding(f2) + fields_encoding(f3)
                + fields_encoding(f4) + fields_encoding(f5) =~= old(dst)@ + fields_encoding(
                number_fields(e),
            ));
        }
    }

    fn encode_pointers(&self, dst: &mut Vec<u8>)
        requires
            forall|i: int|
                0 <= i < self.compact_pointers@.len() ==> (#[trigger] self.compact_pointers@[i]).1@.len()
                    <= u32::MAX,
        ensures
            final(dst)@ == old(dst)@ + fields_encoding(pointer_fields(edit_view(*self).compact_pointers)),
    {
        let ghost ps = pointer_fields(edit_view(*self).compact_pointers);
        let mut i: usize = 0;
        assert(old(dst)@ + fields_encoding(ps.take(0)) =~= old(dst)@);
        while i < self.compact_pointers.len()
            invariant
                i <= self.compact_pointers@.len(),
                forall|i: int|
                    0 <= i < self.compact_pointers@.len() ==> (#[trigger] self.compact_pointers@[i]).1@.len()
                        <= u32::MAX,
                ps == pointer_fields(edit_view(*self).compact_pointers),
                dst@ == old(dst)@ + fields_encoding(ps.take(i as int)),
            decreases self.compact_pointers@.len() - i,
        {
            let (level, key) = &self.compact_pointers[i];
            put_varint32(dst, TAG_COMPACT_POINTER);
            put_varint64(dst, *level as u64);
            put_length_prefixed_slice(dst, key.get_contents());
            proof {
                let f = EditField::CompactPointer(*level as nat, key@);
                assert(ps[i as int] == f);
                lemma_fields_encoding_push(ps.take(i as int), f);
                assert(ps.take(i as int).push(f) =~= ps.take(i + 1));
            }
            i = i + 1;
        }
        assert(ps.take(i as int) =~= ps);
    }

    fn encode_deleted(&self, dst: &mut Vec<u8>)
        ensures
            final(dst)@ == old(dst)@ + fields_encoding(deleted_fields(edit_view(*self).deleted_files)),
    {
        let ghost ds = deleted_fields(edit_view(*self).deleted_files);
        let mut i: usize = 0;
        assert(old(dst)@ + fields_encoding(ds.take(0)) =~= old(dst)@);
        while i < self.deleted_files.len()
            invariant
                i <= self.deleted_files@.len(),
                ds == deleted_fields(edit_view(*self).deleted_files),
                dst@ == old(dst)@ + fields_encoding(ds.take(i as int)),
            decreases self.deleted_files@.len() - i,
        {
            let (level, number) = self.deleted_files[i];
            put_varint32(dst, TAG_DELETED_FILE);
            put_varint64(dst, level as u64);
            put_varint64(dst, number);
            proof {
                let f = EditField::DeletedFile(level as nat, number);
                assert(ds[i as int] == f);
                lemma_fields_encoding_push(ds.take(i as int), f);
                assert(ds.take(i as int).push(f) =~= ds.take(i + 1));
            }
            i = i + 1;
        }
        assert(ds.take(i as int) =~= ds);
    }

    fn encode_new_files(&self, dst: &mut Vec<u8>)
        requires
            forall|i: int|
                0 <= i < self.new_files@.len() ==> (#[trigger] self.new_files@[i]).1.smallest@.len()
                    <= u32::MAX && self.new_files@[i].1.largest@.len() <= u32::MAX,
        ensures
            final(dst)@ == old(dst)@ + fields_encoding(new_file_fields(edit_view(*self).new_files)),
    {
        let ghost ns = new_file_fields(edit_view(*self).new_files);
        let mut i: usize = 0;
        assert(old(dst)@ + fields_encoding(ns.take(0)) =~= old(dst)@);
        while i < self.new_files.len()
            invariant
                i <= self.new_files@.len(),
                forall|i: int|
                    0 <= i < self.new_files@.len() ==> (#[trigger] self.new_files@[i]).1.smallest@.len()
                        <= u32::MAX && self.new_files@[i].1.largest@.len() <= u32::MAX,
                ns == new_file_fields(edit_view(*self).new_files),
                dst@ == old(dst)@ + fields_encoding(ns.take(i as int)),
            decreases self.new_files@.len() - i,
        {
            let (level, file) = &self.new_files[i];
            put_varint32(dst, TAG_NEW_FILE);
            put_varint64(dst, *level as u64);
            put_varint64(dst, file.number);
            put_varint64(dst, file.file_size);
            put_length_prefixed_slice(dst, file.smallest.get_contents());
            put_length_prefixed_slice(dst, file.largest.get_contents());
            proof {
                let f = EditField::NewFile(
                    *level as nat,
                    file.number,
                    file.file_size,
                    file.smallest@,
                    file.largest@,
                );
                assert(ns[i as int] == f);
                lemma_fields_encoding_push(ns.take(i as int), f);
                assert(ns.take(i as int).push(f) =~= ns.take(i + 1));
            }
            i = i + 1;
        }
        assert(ns.take(i as int) =~= ns);
    }

    /// Appends the edit's fields to `dst`: the names and numbers that are set,
    /// then the compaction pointers, deleted files and new files in order.
    pub fn encode_to(&self, dst: &mut Vec<u8>)
        requires
            edit_lengths_fit(*self),
        ensures
            final(dst)@ == old(dst)@ + edit_encoding(edit_view(*self)),
    {
        let ghost e = edit_view(*self);
        self.encode_numbers(dst);
        self.encode_pointers(dst);
        self.encode_deleted(dst);
        self.encode_new_files(dst);
        proof {
            let a = number_fields(e);
            let b = pointer_fields(e.compact_pointers);
            let c = deleted_fields(e.deleted_files);
            let d = new_file_fields(e.new_files);
            lemma_fields_encoding_append(a + b + c, d);
            lemma_fields_encoding_append(a + b, c);
            lemma_fields_encoding_append(a, b);
            assert(old(dst)@ + fields_encoding(a) + fields_encoding(b) + fields_encoding(c)
                + fields_encoding(d) =~= old(dst)@ + edit_encoding(e));
        }
    }
}

/// A manifest written as a log of edits reads back as the same edits: after
/// any earlier records, each record read from where the previous one ended
/// holds an edit's bytes, and decoding them gives that edit field for field.
pub proof fn lemma_manifest_replay(edits: Seq<EditView>)
    requires
        forall|i: int| 0 <= i < edits.len() ==> edit_valid(#[trigger] edits[i]),
    ensures
        ({
            let records = edits.map_values(|e: EditView| edit_encoding(e));
            let log = crate::log::log_bytes(records);
            &&& forall|i: int|
                0 <= i < edits.len() ==> {
                    &&& #[trigger] crate::log::record_at(
                        log,
                        crate::log::log_bytes(records.take(i)).len() as int,
                    ) == (
                        Ok::<Option<Seq<u8>>, Status>(Some(records[i])),
                        crate::log::log_bytes(records.take(i + 1)).len() as int,
                    )
                    &&& edit_decoding(records[i], empty_edit()) == Some(edits[i])
                }
            &&& crate::log::record_at(log, log.len() as int).0 == Ok::<Option<Seq<u8>>, Status>(
                None,
            )
        }),
{
    let records = edits.map_values(|e: EditView| edit_encoding(e));
    crate::log::lemma_log_round_trip(records);
    assert forall|i: int| 0 <= i < edits.len() implies edit_decoding(
        records[i],
        empty_edit(),
    ) == Some(edits[i]) by {
        lemma_edit_round_trip(edits[i]);
    }
}

} // verus!
