//! Per-file records and the result mapping that a walk fills, keyed by the
//! composite `name-size` key.

use vstd::prelude::*;

use crate::keys::key_spec;

verus! {

/// One discovered file: base name, full path as traversed, byte size, and
/// an optional content digest (empty unless explicitly computed).
pub struct FileRecord {
    pub name: String,
    pub path: String,
    pub size: u64,
    pub digest: String,
}

/// The mathematical value of a `FileRecord`.
pub ghost struct RecordModel {
    pub name: Seq<char>,
    pub path: Seq<char>,
    pub size: u64,
    pub digest: Seq<char>,
}

impl View for FileRecord {
    type V = RecordModel;

    open spec fn view(&self) -> RecordModel {
        RecordModel {
            name: self.name@,
            path: self.path@,
            size: self.size,
            digest: self.digest@,
        }
    }
}

impl RecordModel {
    /// The composite key this record is stored under.
    pub open spec fn key(self) -> Seq<char> {
        key_spec(self.name, self.size)
    }
}

impl FileRecord {
    /// The composite key this record is stored under.
    pub open spec fn key(&self) -> Seq<char> {
        key_spec(self.name@, self.size)
    }
}

/// The mapping that `map_of` folds a record sequence into: records are
/// inserted left to right, so a later record with the same key replaces an
/// earlier one.
pub open spec fn map_of(s: Seq<FileRecord>) -> Map<Seq<char>, RecordModel>
    decreases s.len(),
{
    if s.len() == 0 {
        Map::empty()
    } else {
        map_of(s.drop_last()).insert(s.last().key(), s.last()@)
    }
}

/// The result mapping of a walk: a vector of records whose composite keys
/// are pairwise distinct, seen as a map from key to record.
pub struct FileMap {
    pub records: Vec<FileRecord>,
}

impl View for FileMap {
    type V = Map<Seq<char>, RecordModel>;

    open spec fn view(&self) -> Map<Seq<char>, RecordModel> {
        map_of(self.records@)
    }
}

/// Every key of `map_of(s)` is the key of some record of `s`.
proof fn lemma_map_of_dom(s: Seq<FileRecord>, k: Seq<char>)
    requires
        map_of(s).contains_key(k),
    ensures
        exists|i: int| 0 <= i < s.len() && #[trigger] s[i].key() == k,
    decreases s.len(),
{
    if s.len() > 0 {
        if s.last().key() == k {
            assert(s[s.len() - 1].key() == k);
        } else {
            lemma_map_of_dom(s.drop_last(), k);
            let i = choose|i: int|
                0 <= i < s.drop_last().len() && #[trigger] s.drop_last()[i].key() == k;
            assert(s[i].key() == k);
        }
    }
}

/// The key of every record of `s` is in `map_of(s)`.
proof fn lemma_map_of_contains(s: Seq<FileRecord>, i: int)
    requires
        0 <= i < s.len(),
    ensures
        map_of(s).contains_key(s[i].key()),
    decreases s.len(),
{
    if i < s.len() - 1 {
        lemma_map_of_contains(s.drop_last(), i);
        assert(s.drop_last()[i] == s[i]);
    }
}

/// When the keys of `s` are pairwise distinct, updating the record at a
/// position whose key is `k` acts on `map_of` as inserting at `k`.
proof fn lemma_map_of_update(s: Seq<FileRecord>, i: int, r: FileRecord)
    requires
        0 <= i < s.len(),
        s[i].key() == r.key(),
        forall|p: int, q: int|
            0 <= p < q < s.len() ==> #[trigger] s[p].key() != #[trigger] s[q].key(),
    ensures
        map_of(s.update(i, r)) == map_of(s).insert(r.key(), r@),
    decreases s.len(),
{
    let u = s.update(i, r);
    if i == s.len() - 1 {
        assert(u.drop_last() =~= s.drop_last());
        assert(u.last() == r);
        assert(map_of(u) =~= map_of(s).insert(r.key(), r@));
    } else {
        assert(u.drop_last() =~= s.drop_last().update(i, r));
        lemma_map_of_update(s.drop_last(), i, r);
        assert(u.last() == s.last());
        assert(s[i].key() != s.last().key());
        assert(map_of(u) =~= map_of(s).insert(r.key(), r@));
    }
}

impl FileMap {
    /// Pairwise-distinct composite keys: the representation invariant.
    pub open spec fn wf(&self) -> bool {
        forall|p: int, q: int|
            0 <= p < q < self.records@.len()
                ==> #[trigger] self.records@[p].key() != #[trigger] self.records@[q].key()
    }

    /// An empty mapping.
    pub fn new() -> (r: FileMap)
        ensures
            r.wf(),
            r@ == Map::<Seq<char>, RecordModel>::empty(),
    {
        FileMap { records: Vec::new() }
    }

    /// Inserts `rec` under `key`, replacing any record already stored under
    /// the same key: the later record wins.
    pub fn insert(&mut self, key: String, rec: FileRecord)
        requires
            old(self).wf(),
            key@ == rec.key(),
        ensures
            final(self).wf(),
            final(self)@ == old(self)@.insert(rec@.key(), rec@),
    {
        let ghost s0 = self.records@;
        let mut i: usize = 0;
        while i < self.records.len()
            invariant
                self.records@ == s0,
                s0 == old(self).records@,
                0 <= i <= s0.len(),
                key@ == rec.key(),
                forall|p: int, q: int|
                    0 <= p < q < s0.len() ==> #[trigger] s0[p].key() != #[trigger] s0[q].key(),
                forall|p: int| 0 <= p < i ==> #[trigger] s0[p].key() != rec.key(),
            decreases s0.len() - i,
        {
            let candidate = composite_key_of(&self.records[i]);
            if candidate == key {
                proof {
                    assert(s0[i as int].key() == rec.key());
                }
                self.records.set(i, rec);
                proof {
                    lemma_map_of_update(s0, i as int, rec);
                    assert forall|p: int, q: int|
                        0 <= p < q < self.records@.len() implies #[trigger] self.records@[p].key()
                        != #[trigger] self.records@[q].key() by {
                        assert(s0[p].key() == self.records@[p].key() || p == i);
                        assert(s0[q].key() == self.records@[q].key() || q == i);
                    }
                }
                return ;
            }
            i += 1;
        }
        self.records.push(rec);
        proof {
            assert(self.records@.drop_last() =~= s0);
            assert(self@ =~= old(self)@.insert(rec@.key(), rec@));
            assert forall|p: int, q: int|
                0 <= p < q < self.records@.len() implies #[trigger] self.records@[p].key()
                != #[trigger] self.records@[q].key() by {
                if q == s0.len() as int {
                    assert(s0[p].key() != rec.key());
                }
            }
        }
    }

    /// How many records are stored.
    pub fn len(&self) -> (n: usize)
        requires
            self.wf(),
        ensures
            n == self@.dom().len(),
            n == self.records@.len(),
    {
        proof {
            lemma_map_of_len(self.records@);
        }
        self.records.len()
    }

    /// The record stored under `key`, if any.
    pub fn get(&self, key: &String) -> (r: Option<&FileRecord>)
        requires
            self.wf(),
        ensures
            match r {
                Some(rec) => self@.contains_key(key@) && rec@ == self@[key@],
                None => !self@.contains_key(key@),
            },
    {
        let ghost s0 = self.records@;
        let mut i: usize = 0;
        while i < self.records.len()
            invariant
                self.wf(),
                self.records@ == s0,
                0 <= i <= s0.len(),
                forall|p: int| 0 <= p < i ==> #[trigger] s0[p].key() != key@,
            decreases s0.len() - i,
        {
            let candidate = composite_key_of(&self.records[i]);
            if candidate == *key {
                proof {
                    lemma_map_of_contains(s0, i as int);
                    lemma_map_of_index(s0, i as int);
                }
                return Some(&self.records[i]);
            }
            i += 1;
        }
        proof {
            if self@.contains_key(key@) {
                lemma_map_of_dom(s0, key@);
            }
        }
        None
    }

    /// The stored records, in insertion order.
    pub fn records(&self) -> (r: &Vec<FileRecord>)
        ensures
            r@ == self.records@,
            map_of(r@) == self@,
    {
        &self.records
    }
}

/// When the keys of `s` are pairwise distinct, `map_of(s)` maps the key of
/// each record to that record.
proof fn lemma_map_of_index(s: Seq<FileRecord>, i: int)
    requires
        0 <= i < s.len(),
        forall|p: int, q: int|
            0 <= p < q < s.len() ==> #[trigger] s[p].key() != #[trigger] s[q].key(),
    ensures
        map_of(s).contains_key(s[i].key()),
        map_of(s)[s[i].key()] == s[i]@,
    decreases s.len(),
{
    lemma_map_of_contains(s, i);
    if i < s.len() - 1 {
        lemma_map_of_index(s.drop_last(), i);
        assert(s.drop_last()[i] == s[i]);
        assert(s[i].key() != s.last().key());
    }
}

/// When the keys of `s` are pairwise distinct, the map has exactly one entry
/// per record.
proof fn lemma_map_of_len(s: Seq<FileRecord>)
    requires
        forall|p: int, q: int|
            0 <= p < q < s.len() ==> #[trigger] s[p].key() != #[trigger] s[q].key(),
    ensures
        map_of(s).dom().finite(),
        map_of(s).dom().len() == s.len(),
    decreases s.len(),
{
    if s.len() == 0 {
    } else {
        lemma_map_of_len(s.drop_last());
        if map_of(s.drop_last()).contains_key(s.last().key()) {
            lemma_map_of_dom(s.drop_last(), s.last().key());
            let i = choose|i: int|
                0 <= i < s.drop_last().len() && #[trigger] s.drop_last()[i].key()
                    == s.last().key();
            assert(s[i].key() == s.last().key());
            assert(false);
        }
    }
}

/// The composite key of `rec`, built from its name and size.
pub fn composite_key_of(rec: &FileRecord) -> (r: String)
    ensures
        r@ == rec.key(),
{
    crate::keys::composite_key(&rec.name, rec.size)
}

} // verus!
