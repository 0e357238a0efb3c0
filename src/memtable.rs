//! The memtable: the newest operation for each user key, kept in key order.

use vstd::prelude::*;

use crate::ValueItem;

verus! {

/// Bytewise lexicographic order: `a` sorts strictly before `b`.
pub open spec fn bytes_lt(a: Seq<u8>, b: Seq<u8>) -> bool
    decreases a.len(),
{
    if a.len() == 0 {
        b.len() > 0
    } else if b.len() == 0 {
        false
    } else if a[0] != b[0] {
        a[0] < b[0]
    } else {
        bytes_lt(a.drop_first(), b.drop_first())
    }
}

/// No byte string sorts before itself.
pub proof fn lemma_bytes_lt_irreflexive(a: Seq<u8>)
    ensures
        !bytes_lt(a, a),
    decreases a.len(),
{
    if a.len() > 0 {
        lemma_bytes_lt_irreflexive(a.drop_first());
    }
}

/// The bytewise order is transitive.
pub proof fn lemma_bytes_lt_transitive(a: Seq<u8>, b: Seq<u8>, c: Seq<u8>)
    requires
        bytes_lt(a, b),
        bytes_lt(b, c),
    ensures
        bytes_lt(a, c),
    decreases a.len(),
{
    if a.len() > 0 && a[0] == b[0] && b[0] == c[0] {
        lemma_bytes_lt_transitive(a.drop_first(), b.drop_first(), c.drop_first());
    }
}

/// Of two different byte strings, one sorts before the other.
pub proof fn lemma_bytes_lt_total(a: Seq<u8>, b: Seq<u8>)
    ensures
        a == b || bytes_lt(a, b) || bytes_lt(b, a),
    decreases a.len(),
{
    if a.len() > 0 && b.len() > 0 && a[0] == b[0] {
        lemma_bytes_lt_total(a.drop_first(), b.drop_first());
        if a.drop_first() == b.drop_first() {
            assert(a =~= seq![a[0]] + a.drop_first());
            assert(b =~= seq![b[0]] + b.drop_first());
        }
    } else if a.len() == 0 && b.len() == 0 {
        assert(a =~= b);
    }
}

proof fn lemma_bytes_lt_skip(a: Seq<u8>, b: Seq<u8>, i: int)
    requires
        0 <= i < a.len(),
        i < b.len(),
        a[i] == b[i],
    ensures
        bytes_lt(a.skip(i), b.skip(i)) == bytes_lt(a.skip(i + 1), b.skip(i + 1)),
        (a.skip(i) == b.skip(i)) == (a.skip(i + 1) == b.skip(i + 1)),
{
    assert(a.skip(i).drop_first() =~= a.skip(i + 1));
    assert(b.skip(i).drop_first() =~= b.skip(i + 1));
    assert(a.skip(i) =~= seq![a[i]] + a.skip(i + 1));
    assert(b.skip(i) =~= seq![b[i]] + b.skip(i + 1));
}

/// Compares two byte strings in bytewise order: `-1`, `0` or `1` as `a` sorts
/// before, equal to or after `b`.
pub fn compare_bytes(a: &[u8], b: &[u8]) -> (r: i8)
    ensures
        r == -1 <==> bytes_lt(a@, b@),
        r == 0 <==> a@ == b@,
        r == 1 <==> bytes_lt(b@, a@),
        r == -1 || r == 0 || r == 1,
{
    let mut i: usize = 0;
    assert(a@.skip(0) =~= a@);
    assert(b@.skip(0) =~= b@);
    while i < a.len() && i < b.len() && a[i] == b[i]
        invariant
            i <= a@.len(),
            i <= b@.len(),
            bytes_lt(a@, b@) == bytes_lt(a@.skip(i as int), b@.skip(i as int)),
            bytes_lt(b@, a@) == bytes_lt(b@.skip(i as int), a@.skip(i as int)),
            (a@ == b@) == (a@.skip(i as int) == b@.skip(i as int)),
        decreases a@.len() - i,
    {
        proof {
            lemma_bytes_lt_skip(a@, b@, i as int);
            lemma_bytes_lt_skip(b@, a@, i as int);
        }
        i = i + 1;
    }
    let ghost sa = a@.skip(i as int);
    let ghost sb = b@.skip(i as int);
    proof {
        lemma_bytes_lt_irreflexive(sa);
        lemma_bytes_lt_total(sa, sb);
    }
    if i == a.len() && i == b.len() {
        assert(sa =~= sb);
        0
    } else if i == a.len() {
        assert(sa.len() == 0);
        -1
    } else if i == b.len() {
        1
    } else if a[i] < b[i] {
        assert(sa[0] == a@[i as int] && sb[0] == b@[i as int]);
        -1
    } else {
        assert(sa[0] == a@[i as int] && sb[0] == b@[i as int]);
        1
    }
}

/// What a stored item holds, as byte sequences.
pub open spec fn item_view(item: ValueItem<Vec<u8>>) -> ValueItem<Seq<u8>> {
    match item {
        ValueItem::Deletion => ValueItem::Deletion,
        ValueItem::Value(v) => ValueItem::Value(v@),
    }
}

/// What a borrowed item holds, as byte sequences.
pub open spec fn item_ref_view(item: ValueItem<&[u8]>) -> ValueItem<Seq<u8>> {
    match item {
        ValueItem::Deletion => ValueItem::Deletion,
        ValueItem::Value(v) => ValueItem::Value(v@),
    }
}

/// `es` lists the pairs of `m`, each once, in strictly ascending order of key.
pub open spec fn is_sorted_listing(
    m: Map<Seq<u8>, ValueItem<Seq<u8>>>,
    es: Seq<(Seq<u8>, ValueItem<Seq<u8>>)>,
) -> bool {
    &&& es.len() == m.dom().len()
    &&& forall|i: int, j: int| 0 <= i < j < es.len() ==> bytes_lt(#[trigger] es[i].0, #[trigger] es[j].0)
    &&& forall|i: int| 0 <= i < es.len() ==> m.contains_key(#[trigger] es[i].0) && m[es[i].0] == es[i].1
    &&& forall|k: Seq<u8>| #[trigger] m.contains_key(k) ==> exists|i: int| 0 <= i < es.len() && es[i].0 == k
}

/// The pairs that `iter` hands out, as byte sequences.
pub open spec fn listing_view(r: Seq<(&[u8], ValueItem<&[u8]>)>) -> Seq<(Seq<u8>, ValueItem<Seq<u8>>)> {
    r.map_values(|e: (&[u8], ValueItem<&[u8]>)| (e.0@, item_ref_view(e.1)))
}

/// The bytes of an item's value: none for a tombstone.
pub open spec fn item_len(item: ValueItem<Seq<u8>>) -> nat {
    match item {
        ValueItem::Deletion => 0,
        ValueItem::Value(v) => v.len(),
    }
}

/// What an entry counts toward the memtable's size: its key, its value and
/// the eight-byte trailer it takes in a table.
pub open spec fn entry_cost(e: (Seq<u8>, ValueItem<Seq<u8>>)) -> nat {
    e.0.len() + item_len(e.1) + 8
}

/// The summed cost of entries.
pub open spec fn entries_size(s: Seq<(Seq<u8>, ValueItem<Seq<u8>>)>) -> nat
    decreases s.len(),
{
    if s.len() == 0 {
        0
    } else {
        entries_size(s.drop_last()) + entry_cost(s.last())
    }
}

/// The memtable's size after recording `item` for `key` in contents `m` of size `size`.
pub open spec fn size_after(
    m: Map<Seq<u8>, ValueItem<Seq<u8>>>,
    size: nat,
    key: Seq<u8>,
    item: ValueItem<Seq<u8>>,
) -> nat {
    if m.contains_key(key) {
        (size - item_len(m[key]) + item_len(item)) as nat
    } else {
        size + key.len() + item_len(item) + 8
    }
}

proof fn lemma_size_update(
    s: Seq<(Seq<u8>, ValueItem<Seq<u8>>)>,
    i: int,
    e: (Seq<u8>, ValueItem<Seq<u8>>),
)
    requires
        0 <= i < s.len(),
    ensures
        entries_size(s.update(i, e)) + entry_cost(s[i]) == entries_size(s) + entry_cost(e),
        entry_cost(s[i]) <= entries_size(s),
    decreases s.len(),
{
    let u = s.update(i, e);
    if i == s.len() - 1 {
        assert(u.drop_last() =~= s.drop_last());
    } else {
        assert(u.drop_last() =~= s.drop_last().update(i, e));
        lemma_size_update(s.drop_last(), i, e);
    }
}

proof fn lemma_size_insert(
    s: Seq<(Seq<u8>, ValueItem<Seq<u8>>)>,
    i: int,
    e: (Seq<u8>, ValueItem<Seq<u8>>),
)
    requires
        0 <= i <= s.len(),
    ensures
        entries_size(s.insert(i, e)) == entries_size(s) + entry_cost(e),
    decreases s.len(),
{
    let u = s.insert(i, e);
    if i == s.len() {
        assert(u.drop_last() =~= s);
    } else {
        assert(u.drop_last() =~= s.drop_last().insert(i, e));
        lemma_size_insert(s.drop_last(), i, e);
    }
}

/// An ordered map from user key to the newest value or tombstone written for
/// it, with a count of the bytes it holds.
pub struct MemTable {
    entries: Vec<(Vec<u8>, ValueItem<Vec<u8>>)>,
    total_bytes: usize,
    contents: Ghost<Map<Seq<u8>, ValueItem<Seq<u8>>>>,
}

impl View for MemTable {
    type V = Map<Seq<u8>, ValueItem<Seq<u8>>>;

    closed spec fn view(&self) -> Map<Seq<u8>, ValueItem<Seq<u8>>> {
        self.contents@
    }
}

impl MemTable {
    spec fn key_at(&self, i: int) -> Seq<u8> {
        self.entries@[i].0@
    }

    spec fn item_at(&self, i: int) -> ValueItem<Seq<u8>> {
        item_view(self.entries@[i].1)
    }

    spec fn entries_seq(&self) -> Seq<(Seq<u8>, ValueItem<Seq<u8>>)> {
        Seq::new(self.entries@.len(), |i: int| (self.key_at(i), self.item_at(i)))
    }

    /// The bytes held: for each key, the key, its value (none for a tombstone)
    /// and an eight-byte trailer.
    pub closed spec fn size(&self) -> nat {
        self.total_bytes as nat
    }

    /// The entries are sorted strictly by key and hold exactly the view's
    /// pairs; the size is their summed cost.
    pub closed spec fn wf(&self) -> bool {
        &&& self.total_bytes == entries_size(self.entries_seq())
        &&& self.contents@.dom().finite()
        &&& self.entries@.len() == self.contents@.dom().len()
        &&& forall|i: int|
            0 <= i < self.entries@.len() ==> {
                &&& self.contents@.contains_key(#[trigger] self.key_at(i))
                &&& self.contents@[self.key_at(i)] == self.item_at(i)
            }
        &&& forall|k: Seq<u8>|
            #[trigger] self.contents@.contains_key(k) ==> exists|i: int|
                0 <= i < self.entries@.len() && self.key_at(i) == k
        &&& forall|i: int, j: int|
            0 <= i < j < self.entries@.len() ==> bytes_lt(
                #[trigger] self.key_at(i),
                #[trigger] self.key_at(j),
            )
    }

    /// An empty memtable.
    pub fn new() -> (r: MemTable)
        ensures
            r.wf(),
            r@ == Map::<Seq<u8>, ValueItem<Seq<u8>>>::empty(),
            r.size() == 0,
    {
        let r = MemTable { entries: Vec::new(), total_bytes: 0, contents: Ghost(Map::empty()) };
        assert(r.entries_seq() =~= Seq::<(Seq<u8>, ValueItem<Seq<u8>>)>::empty());
        r
    }

    /// Each key's own cost is part of the size.
    pub proof fn lemma_size_covers(&self, key: Seq<u8>)
        requires
            self.wf(),
        ensures
            self@.contains_key(key) ==> key.len() + item_len(self@[key]) + 8 <= self.size(),
    {
        if self@.contains_key(key) {
            let i = choose|i: int| 0 <= i < self.entries@.len() && self.key_at(i) == key;
            lemma_size_update(self.entries_seq(), i, self.entries_seq()[i]);
        }
    }

    /// The bytes held: for each key, the key, its value (none for a
    /// tombstone) and an eight-byte trailer.
    pub fn total_bytes(&self) -> (r: usize)
        ensures
            r == self.size(),
    {
        self.total_bytes
    }

    /// The position of the first entry whose key does not sort before `key`,
    /// and whether that entry's key is `key`.
    fn find(&self, key: &[u8]) -> (r: (usize, bool))
        requires
            self.wf(),
        ensures
            r.0 <= self.entries@.len(),
            forall|j: int| 0 <= j < r.0 ==> bytes_lt(#[trigger] self.key_at(j), key@),
            r.1 ==> r.0 < self.entries@.len() && self.key_at(r.0 as int) == key@,
            !r.1 ==> forall|j: int|
                r.0 <= j < self.entries@.len() ==> bytes_lt(key@, #[trigger] self.key_at(j)),
    {
        let mut lo: usize = 0;
        let mut hi: usize = self.entries.len();
        while lo < hi
            invariant
                self.wf(),
                lo <= hi <= self.entries@.len(),
                forall|j: int| 0 <= j < lo ==> bytes_lt(#[trigger] self.key_at(j), key@),
                forall|j: int|
                    hi <= j < self.entries@.len() ==> bytes_lt(key@, #[trigger] self.key_at(j))
                        || key@ == self.key_at(j),
            decreases hi - lo,
        {
            let mid = lo + (hi - lo) / 2;
            let c = compare_bytes(self.entries[mid].0.as_slice(), key);
            if c == -1 {
                assert forall|j: int| 0 <= j < mid + 1 implies bytes_lt(
                    #[trigger] self.key_at(j),
                    key@,
                ) by {
                    if j < mid {
                        lemma_bytes_lt_transitive(self.key_at(j), self.key_at(mid as int), key@);
                    }
                }
                lo = mid + 1;
            } else {
                assert forall|j: int| mid <= j < self.entries@.len() implies bytes_lt(
                    key@,
                    #[trigger] self.key_at(j),
                ) || key@ == self.key_at(j) by {
                    if j > mid && key@ != self.key_at(mid as int) {
                        lemma_bytes_lt_transitive(key@, self.key_at(mid as int), self.key_at(j));
                    }
                }
                hi = mid;
            }
        }
        if lo < self.entries.len() {
            let c = compare_bytes(self.entries[lo].0.as_slice(), key);
            if c == 0 {
                return (lo, true);
            }
            assert forall|j: int| lo <= j < self.entries@.len() implies bytes_lt(
                key@,
                #[trigger] self.key_at(j),
            ) by {
                if j > lo {
                    lemma_bytes_lt_transitive(key@, self.key_at(lo as int), self.key_at(j));
                }
            }
        }
        (lo, false)
    }

    /// Records `item` as the newest operation for `key`.
    fn insert_item(&mut self, key: &[u8], item: ValueItem<Vec<u8>>)
        requires
            old(self).wf(),
            old(self).size() + key@.len() + item_len(item_view(item)) + 8 <= usize::MAX,
        ensures
            final(self).wf(),
            final(self)@ == old(self)@.insert(key@, item_view(item)),
            final(self).size() == size_after(old(self)@, old(self).size(), key@, item_view(item)),
    {
        let ghost item_v = item_view(item);
        let new_len = match &item {
            ValueItem::Deletion => 0,
            ValueItem::Value(v) => v.len(),
        };
        let (pos, found) = self.find(key);
        let ghost prev = *self;
        if found {
            let old_len = match &self.entries[pos].1 {
                ValueItem::Deletion => 0,
                ValueItem::Value(v) => v.len(),
            };
            proof {
                lemma_size_update(prev.entries_seq(), pos as int, (key@, item_v));
                assert(prev.entries_seq()[pos as int] == (key@, prev.item_at(pos as int)));
                assert(item_len(prev.item_at(pos as int)) == old_len);
                assert(item_len(item_v) == new_len);
            }
            self.total_bytes = self.total_bytes - old_len + new_len;
            self.entries.set(pos, (vstd::slice::slice_to_vec(key), item));
            assert(self.entries_seq() =~= prev.entries_seq().update(pos as int, (key@, item_v)));
            assert(self.total_bytes == entries_size(self.entries_seq()));
            let ghost sized = self.entries_seq();
            self.contents = Ghost(self.contents@.insert(key@, item_v));
            assert(self.contents@.dom() =~= prev.contents@.dom());
            assert forall|i: int| 0 <= i < self.entries@.len() implies {
                &&& self.contents@.contains_key(#[trigger] self.key_at(i))
                &&& self.contents@[self.key_at(i)] == self.item_at(i)
            } by {
                assert(prev.key_at(i) == self.key_at(i));
                if i != pos {
                    if i < pos {
                        lemma_bytes_lt_irreflexive(key@);
                        assert(bytes_lt(prev.key_at(i), prev.key_at(pos as int)));
                    } else {
                        assert(bytes_lt(prev.key_at(pos as int), prev.key_at(i)));
                        lemma_bytes_lt_irreflexive(key@);
                    }
                }
            }
            assert forall|k: Seq<u8>| #[trigger] self.contents@.contains_key(k) implies exists|
                i: int,
            | 0 <= i < self.entries@.len() && self.key_at(i) == k by {
                if k != key@ {
                    let i = choose|i: int| 0 <= i < prev.entries@.len() && prev.key_at(i) == k;
                    assert(self.key_at(i) == k);
                } else {
                    assert(self.key_at(pos as int) == k);
                }
            }
            assert forall|i: int, j: int| 0 <= i < j < self.entries@.len() implies bytes_lt(
                #[trigger] self.key_at(i),
                #[trigger] self.key_at(j),
            ) by {
                assert(prev.key_at(i) == self.key_at(i));
                assert(prev.key_at(j) == self.key_at(j));
            }
            assert(self.entries_seq() =~= sized);
            assert(self.wf());
        } else {
            proof {
                lemma_size_insert(prev.entries_seq(), pos as int, (key@, item_v));
            }
            self.total_bytes = self.total_bytes + key.len() + new_len + 8;
            self.entries.insert(pos, (vstd::slice::slice_to_vec(key), item));
            assert(self.entries_seq() =~= prev.entries_seq().insert(pos as int, (key@, item_v)));
            assert(item_len(item_v) == new_len);
            assert(self.total_bytes == entries_size(self.entries_seq()));
            let ghost sized = self.entries_seq();
            self.contents = Ghost(self.contents@.insert(key@, item_v));
            assert(!prev.contents@.contains_key(key@)) by {
                if prev.contents@.contains_key(key@) {
                    let i = choose|i: int| 0 <= i < prev.entries@.len() && prev.key_at(i) == key@;
                    if i < pos {
                        lemma_bytes_lt_irreflexive(key@);
                    } else {
                        lemma_bytes_lt_irreflexive(key@);
                    }
                }
            }
            assert forall|i: int| 0 <= i < self.entries@.len() implies {
                &&& self.contents@.contains_key(#[trigger] self.key_at(i))
                &&& self.contents@[self.key_at(i)] == self.item_at(i)
            } by {
                if i < pos {
                    assert(self.key_at(i) == prev.key_at(i));
                    lemma_bytes_lt_irreflexive(key@);
                } else if i > pos {
                    assert(self.key_at(i) == prev.key_at(i - 1));
                    lemma_bytes_lt_irreflexive(key@);
                }
            }
            assert forall|k: Seq<u8>| #[trigger] self.contents@.contains_key(k) implies exists|
                i: int,
            | 0 <= i < self.entries@.len() && self.key_at(i) == k by {
                if k != key@ {
                    let i = choose|i: int| 0 <= i < prev.entries@.len() && prev.key_at(i) == k;
                    if i < pos {
                        assert(self.key_at(i) == k);
                    } else {
                        assert(self.key_at(i + 1) == k);
                    }
                } else {
                    assert(self.key_at(pos as int) == k);
                }
            }
            assert forall|i: int, j: int| 0 <= i < j < self.entries@.len() implies bytes_lt(
                #[trigger] self.key_at(i),
                #[trigger] self.key_at(j),
            ) by {
                if j < pos {
                    assert(prev.key_at(i) == self.key_at(i));
                    assert(prev.key_at(j) == self.key_at(j));
                } else if j == pos {
                    assert(prev.key_at(i) == self.key_at(i));
                } else if i < pos {
                    assert(prev.key_at(i) == self.key_at(i));
                    assert(prev.key_at(j - 1) == self.key_at(j));
                    if j - 1 > i {
                        assert(bytes_lt(prev.key_at(i), prev.key_at(j - 1)));
                    }
                } else if i == pos {
                    assert(prev.key_at(j - 1) == self.key_at(j));
                } else {
                    assert(prev.key_at(i - 1) == self.key_at(i));
                    assert(prev.key_at(j - 1) == self.key_at(j));
                }
            }
            assert(self.contents@.dom() =~= prev.contents@.dom().insert(key@));
            assert(self.entries@.len() == self.contents@.dom().len());
            assert(self.entries_seq() =~= sized);
            assert(self.wf());
        }
    }

    /// Records `value` as the newest value of `key`.
    pub fn set(&mut self, key: &[u8], value: &[u8])
        requires
            old(self).wf(),
            old(self).size() + key@.len() + value@.len() + 8 <= usize::MAX,
        ensures
            final(self).wf(),
            final(self)@ == old(self)@.insert(key@, ValueItem::Value(value@)),
            final(self).size() == size_after(
                old(self)@,
                old(self).size(),
                key@,
                ValueItem::Value(value@),
            ),
    {
        self.insert_item(key, ValueItem::Value(vstd::slice::slice_to_vec(value)));
    }

    /// Records a tombstone as the newest operation for `key`.
    pub fn delete(&mut self, key: &[u8])
        requires
            old(self).wf(),
            old(self).size() + key@.len() + 8 <= usize::MAX,
        ensures
            final(self).wf(),
            final(self)@ == old(self)@.insert(key@, ValueItem::Deletion),
            final(self).size() == size_after(
                old(self)@,
                old(self).size(),
                key@,
                ValueItem::Deletion,
            ),
    {
        self.insert_item(key, ValueItem::Deletion);
    }

    /// The newest value of `key`; `None` where the key is absent or its newest
    /// operation is a deletion.
    pub fn get(&self, key: &[u8]) -> (r: Option<&[u8]>)
        requires
            self.wf(),
        ensures
            match r {
                Some(v) => self@.contains_key(key@) && self@[key@] == ValueItem::Value(v@),
                None => !self@.contains_key(key@) || self@[key@] == ValueItem::<Seq<u8>>::Deletion,
            },
    {
        let (pos, found) = self.find(key);
        if !found {
            assert(!self@.contains_key(key@)) by {
                if self.contents@.contains_key(key@) {
                    let i = choose|i: int| 0 <= i < self.entries@.len() && self.key_at(i) == key@;
                    lemma_bytes_lt_irreflexive(key@);
                }
            }
            return None;
        }
        match &self.entries[pos].1 {
            ValueItem::Deletion => None,
            ValueItem::Value(v) => Some(v.as_slice()),
        }
    }

    /// The newest operation for `key`: its value, a tombstone, or `None`
    /// where the key was never written.
    pub fn lookup(&self, key: &[u8]) -> (r: Option<ValueItem<&[u8]>>)
        requires
            self.wf(),
        ensures
            match r {
                Some(item) => self@.contains_key(key@) && self@[key@] == item_ref_view(item),
                None => !self@.contains_key(key@),
            },
    {
        let (pos, found) = self.find(key);
        if !found {
            assert(!self@.contains_key(key@)) by {
                if self.contents@.contains_key(key@) {
                    let i = choose|i: int| 0 <= i < self.entries@.len() && self.key_at(i) == key@;
                    lemma_bytes_lt_irreflexive(key@);
                }
            }
            return None;
        }
        match &self.entries[pos].1 {
            ValueItem::Deletion => Some(ValueItem::Deletion),
            ValueItem::Value(v) => Some(ValueItem::Value(v.as_slice())),
        }
    }

    /// The number of distinct user keys held, tombstones included.
    pub fn entry_count(&self) -> (r: usize)
        requires
            self.wf(),
        ensures
            r == self@.dom().len(),
    {
        self.entries.len()
    }

    /// Every entry, in strictly ascending bytewise order of key.
    pub fn iter(&self) -> (r: Vec<(&[u8], ValueItem<&[u8]>)>)
        requires
            self.wf(),
        ensures
            is_sorted_listing(self@, listing_view(r@)),
    {
        let mut r: Vec<(&[u8], ValueItem<&[u8]>)> = Vec::new();
        let mut i: usize = 0;
        while i < self.entries.len()
            invariant
                self.wf(),
                i <= self.entries@.len(),
                r@.len() == i,
                forall|j: int|
                    0 <= j < i ==> (#[trigger] r@[j]).0@ == self.key_at(j) && item_ref_view(r@[j].1)
                        == self.item_at(j),
            decreases self.entries@.len() - i,
        {
            let entry = &self.entries[i];
            let item = match &entry.1 {
                ValueItem::Deletion => ValueItem::Deletion,
                ValueItem::Value(v) => ValueItem::Value(v.as_slice()),
            };
            r.push((entry.0.as_slice(), item));
            i = i + 1;
        }
        let ghost es = listing_view(r@);
        assert forall|i: int| 0 <= i < es.len() implies es[i].0 == self.key_at(i) && es[i].1
            == self.item_at(i) by {
            assert(r@[i].0@ == self.key_at(i));
        }
        assert forall|i: int, j: int| 0 <= i < j < es.len() implies bytes_lt(
            #[trigger] es[i].0,
            #[trigger] es[j].0,
        ) by {
            assert(es[i].0 == self.key_at(i));
            assert(es[j].0 == self.key_at(j));
        }
        assert forall|i: int| 0 <= i < es.len() implies self@.contains_key(#[trigger] es[i].0)
            && self@[es[i].0] == es[i].1 by {
            assert(es[i].0 == self.key_at(i));
        }
        assert forall|k: Seq<u8>| #[trigger] self@.contains_key(k) implies exists|i: int|
            0 <= i < es.len() && es[i].0 == k by {
            let i = choose|i: int| 0 <= i < self.entries@.len() && self.key_at(i) == k;
            assert(es[i].0 == k);
        }
        r
    }
}

impl Default for MemTable {
    fn default() -> (r: MemTable)
        ensures
            r.wf(),
            r@ == Map::<Seq<u8>, ValueItem<Seq<u8>>>::empty(),
            r.size() == 0,
    {
        MemTable::new()
    }
}

} // verus!
