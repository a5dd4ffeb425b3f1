//! The recursive directory walk over an in-memory picture of a file tree.
//!
//! The caller (outside this library) lists directories and fetches metadata;
//! what it saw is handed in as an `FsDir` tree. The walk itself — visiting
//! entries in order, recording files under their composite key, recursing
//! into subdirectories, and the asymmetric error handling — is verified here
//! against the recursive specification `walk_dir_spec`.

use vstd::prelude::*;

use crate::keys::{composite_key, key_spec};
use crate::record::{FileMap, FileRecord, RecordModel};

verus! {

/// One directory as the walk sees it: whether listing it succeeded, and its
/// entries in the order the filesystem reported them.
pub struct FsDir {
    pub readable: bool,
    pub entries: Vec<FsEntry>,
}

/// One directory entry, already classified by its metadata.
pub enum FsEntry {
    /// A regular file with its base name and byte size.
    File { name: String, size: u64 },
    /// A subdirectory with its base name.
    Dir { name: String, dir: FsDir },
    /// Neither a regular file nor a directory (symlink, device, socket):
    /// silently skipped.
    Other,
    /// An entry whose metadata could not be read: the walk of the directory
    /// holding it aborts on the spot.
    Unknown,
}

/// Why a walk call failed.
#[derive(Clone, Copy, Debug, PartialEq, Eq, Structural)]
pub enum WalkError {
    /// The directory itself could not be listed.
    DirUnreadable,
    /// Metadata of one of its entries could not be read.
    MetadataUnavailable,
}

/// The full path of an entry named `name` inside the directory at
/// `dir_path`.
pub open spec fn join(dir_path: Seq<char>, name: Seq<char>) -> Seq<char> {
    dir_path + seq!['/'] + name
}

/// Some direct entry of `s` has unreadable metadata.
pub open spec fn has_unknown(s: Seq<FsEntry>) -> bool {
    exists|i: int| 0 <= i < s.len() && (#[trigger] s[i]) is Unknown
}

/// Walking `d` succeeds: it can be listed and the metadata of each of its
/// direct entries can be read. Failures deeper down are swallowed and do not
/// make the walk of `d` fail.
pub open spec fn walk_dir_ok(d: FsDir) -> bool {
    d.readable && !has_unknown(d.entries@)
}

/// The result mapping after walking directory `d` at path `path`, starting
/// from the accumulated mapping `m`. An unreadable directory contributes
/// nothing.
pub open spec fn walk_dir_spec(
    d: FsDir,
    path: Seq<char>,
    m: Map<Seq<char>, RecordModel>,
) -> Map<Seq<char>, RecordModel>
    decreases d,
{
    if !d.readable {
        m
    } else {
        walk_entries_spec(d.entries@, path, m)
    }
}

/// Processes the entries of a directory at `path` in order, stopping at the
/// first entry whose metadata is unreadable; records inserted before the
/// stop are kept.
pub open spec fn walk_entries_spec(
    s: Seq<FsEntry>,
    path: Seq<char>,
    m: Map<Seq<char>, RecordModel>,
) -> Map<Seq<char>, RecordModel>
    decreases s,
{
    if s.len() == 0 {
        m
    } else if s[0] is Unknown {
        m
    } else {
        walk_entries_spec(s.subrange(1, s.len() as int), path, walk_entry_spec(s[0], path, m))
    }
}

/// The contribution of a single entry: a file is recorded under its
/// composite key (replacing any record with the same key), a subdirectory
/// is walked recursively, anything else contributes nothing.
pub open spec fn walk_entry_spec(
    e: FsEntry,
    path: Seq<char>,
    m: Map<Seq<char>, RecordModel>,
) -> Map<Seq<char>, RecordModel>
    decreases e,
{
    match e {
        FsEntry::File { name, size } => m.insert(
            key_spec(name@, size),
            RecordModel {
                name: name@,
                path: join(path, name@),
                size: size,
                digest: Seq::empty(),
            },
        ),
        FsEntry::Dir { name, dir } => walk_dir_spec(dir, join(path, name@), m),
        FsEntry::Other => m,
        FsEntry::Unknown => m,
    }
}

/// Every record of `m` is stored under its own composite key.
pub open spec fn entries_match_keys(m: Map<Seq<char>, RecordModel>) -> bool {
    forall|k: Seq<char>| m.contains_key(k) ==> (#[trigger] m[k]).key() == k
}

/// Walking only adds records, and every record it adds is stored under its
/// own composite key.
pub proof fn lemma_walk_dir_grows(d: FsDir, path: Seq<char>, m: Map<Seq<char>, RecordModel>)
    ensures
        forall|k: Seq<char>| #[trigger]
            m.contains_key(k) ==> walk_dir_spec(d, path, m).contains_key(k),
        entries_match_keys(m) ==> entries_match_keys(walk_dir_spec(d, path, m)),
    decreases d,
{
    if d.readable {
        lemma_walk_entries_grows(d.entries@, path, m);
    }
}

proof fn lemma_walk_entries_grows(s: Seq<FsEntry>, path: Seq<char>, m: Map<Seq<char>, RecordModel>)
    ensures
        forall|k: Seq<char>| #[trigger]
            m.contains_key(k) ==> walk_entries_spec(s, path, m).contains_key(k),
        entries_match_keys(m) ==> entries_match_keys(walk_entries_spec(s, path, m)),
    decreases s,
{
    if s.len() == 0 || s[0] is Unknown {
    } else {
        lemma_walk_entry_grows(s[0], path, m);
        lemma_walk_entries_grows(
            s.subrange(1, s.len() as int),
            path,
            walk_entry_spec(s[0], path, m),
        );
    }
}

proof fn lemma_walk_entry_grows(e: FsEntry, path: Seq<char>, m: Map<Seq<char>, RecordModel>)
    ensures
        forall|k: Seq<char>| #[trigger]
            m.contains_key(k) ==> walk_entry_spec(e, path, m).contains_key(k),
        entries_match_keys(m) ==> entries_match_keys(walk_entry_spec(e, path, m)),
    decreases e,
{
    match e {
        FsEntry::File { name, size } => {
            let rec = RecordModel {
                name: name@,
                path: join(path, name@),
                size: size,
                digest: Seq::empty(),
            };
            assert(rec.key() == key_spec(name@, size));
        },
        FsEntry::Dir { name, dir } => {
            lemma_walk_dir_grows(dir, join(path, name@), m);
        },
        FsEntry::Other => {},
        FsEntry::Unknown => {},
    }
}

/// No entry before position `i` has unreadable metadata, so a walk of a
/// directory with these entries reaches position `i`.
pub open spec fn prefix_clear(s: Seq<FsEntry>, i: int) -> bool {
    forall|j: int| 0 <= j < i ==> !((#[trigger] s[j]) is Unknown)
}

/// A walk of directory `d` records a file named `name` of `size` bytes:
/// the file stands in `d`, or transitively in a readable subdirectory, at a
/// position that no earlier metadata failure in its directory's listing
/// cuts off.
pub open spec fn records_file(d: FsDir, name: Seq<char>, size: u64) -> bool
    decreases d,
{
    d.readable && exists|i: int|
        0 <= i < d.entries@.len() && #[trigger] prefix_clear(d.entries@, i)
            && entry_records_file(d.entries@[i], name, size)
}

/// The entry `e` is a file named `name` of `size` bytes, or a subdirectory
/// whose walk records such a file.
pub open spec fn entry_records_file(e: FsEntry, name: Seq<char>, size: u64) -> bool
    decreases e,
{
    match e {
        FsEntry::File { name: n, size: s } => n@ == name && s == size,
        FsEntry::Dir { name: _, dir } => records_file(dir, name, size),
        FsEntry::Other => false,
        FsEntry::Unknown => false,
    }
}

/// Inclusion: whenever `records_file(d, name, size)` holds, the walk's
/// result contains the composite key of `name` and `size`, whatever was
/// accumulated before.
pub proof fn lemma_recorded_file_included(
    d: FsDir,
    path: Seq<char>,
    m: Map<Seq<char>, RecordModel>,
    name: Seq<char>,
    size: u64,
)
    requires
        records_file(d, name, size),
    ensures
        walk_dir_spec(d, path, m).contains_key(key_spec(name, size)),
    decreases d,
{
    let s = d.entries@;
    let i = choose|i: int|
        0 <= i < s.len() && #[trigger] prefix_clear(s, i) && entry_records_file(s[i], name, size);
    lemma_entries_recorded(s, path, m, name, size, i);
}

proof fn lemma_entries_recorded(
    s: Seq<FsEntry>,
    path: Seq<char>,
    m: Map<Seq<char>, RecordModel>,
    name: Seq<char>,
    size: u64,
    i: int,
)
    requires
        0 <= i < s.len(),
        prefix_clear(s, i),
        entry_records_file(s[i], name, size),
    ensures
        walk_entries_spec(s, path, m).contains_key(key_spec(name, size)),
    decreases s, i,
{
    let rest = s.subrange(1, s.len() as int);
    if i == 0 {
        assert(!(s[0] is Unknown));
        lemma_entry_recorded(s[0], path, m, name, size);
        lemma_walk_entries_grows(rest, path, walk_entry_spec(s[0], path, m));
    } else {
        assert(!(s[0] is Unknown));
        assert(rest[i - 1] == s[i]);
        assert(prefix_clear(rest, i - 1)) by {
            assert forall|j: int| 0 <= j < i - 1 implies !((#[trigger] rest[j]) is Unknown) by {
                assert(rest[j] == s[j + 1]);
            }
        }
        lemma_entries_recorded(rest, path, walk_entry_spec(s[0], path, m), name, size, i - 1);
    }
}

proof fn lemma_entry_recorded(
    e: FsEntry,
    path: Seq<char>,
    m: Map<Seq<char>, RecordModel>,
    name: Seq<char>,
    size: u64,
)
    requires
        entry_records_file(e, name, size),
    ensures
        walk_entry_spec(e, path, m).contains_key(key_spec(name, size)),
    decreases e,
{
    match e {
        FsEntry::File { .. } => {},
        FsEntry::Dir { name: n, dir } => {
            lemma_recorded_file_included(dir, join(path, n@), m, name, size);
        },
        FsEntry::Other => {},
        FsEntry::Unknown => {},
    }
}

/// Every file a walk records is present in the result under its composite
/// key, with exactly the name and size the filesystem reported: this covers
/// files directly in the walked directory and, transitively, files in
/// readable subdirectories.
pub proof fn lemma_recorded_file_matches(d: FsDir, path: Seq<char>, name: Seq<char>, size: u64)
    requires
        records_file(d, name, size),
    ensures
        walk_dir_spec(d, path, Map::empty()).contains_key(key_spec(name, size)),
        walk_dir_spec(d, path, Map::empty())[key_spec(name, size)].name == name,
        walk_dir_spec(d, path, Map::empty())[key_spec(name, size)].size == size,
{
    let m = Map::<Seq<char>, RecordModel>::empty();
    let r = walk_dir_spec(d, path, m);
    let k = key_spec(name, size);
    lemma_recorded_file_included(d, path, m, name, size);
    lemma_walk_dir_grows(d, path, m);
    assert(entries_match_keys(m));
    assert(r[k].key() == k);
    crate::keys::lemma_key_injective(r[k].name, r[k].size, name, size);
}

/// A file standing directly in a directory whose walk succeeds is always
/// recorded, with the name and size the filesystem reported.
pub proof fn lemma_direct_file_recorded(
    d: FsDir,
    path: Seq<char>,
    name: Seq<char>,
    size: u64,
    i: int,
)
    requires
        walk_dir_ok(d),
        0 <= i < d.entries@.len(),
        d.entries@[i] is File,
        entry_records_file(d.entries@[i], name, size),
    ensures
        walk_dir_spec(d, path, Map::empty()).contains_key(key_spec(name, size)),
        walk_dir_spec(d, path, Map::empty())[key_spec(name, size)].name == name,
        walk_dir_spec(d, path, Map::empty())[key_spec(name, size)].size == size,
{
    assert(prefix_clear(d.entries@, i));
    assert(records_file(d, name, size));
    lemma_recorded_file_matches(d, path, name, size);
}

/// An unreadable directory contributes nothing: walking it returns the
/// accumulated mapping unchanged, so nothing under it appears, while
/// entries of sibling directories are unaffected.
pub proof fn lemma_unreadable_dir_omitted(
    d: FsDir,
    path: Seq<char>,
    m: Map<Seq<char>, RecordModel>,
)
    requires
        !d.readable,
    ensures
        walk_dir_spec(d, path, m) == m,
{
}

/// The result of a walk holds at most one record per name and size: records
/// under distinct keys differ in name or in size, so of several files
/// sharing both, exactly one record survives.
pub proof fn lemma_one_record_per_name_size(d: FsDir, path: Seq<char>, k1: Seq<char>, k2: Seq<char>)
    requires
        walk_dir_spec(d, path, Map::empty()).contains_key(k1),
        walk_dir_spec(d, path, Map::empty()).contains_key(k2),
        k1 != k2,
    ensures
        walk_dir_spec(d, path, Map::empty())[k1].name != walk_dir_spec(
            d,
            path,
            Map::empty(),
        )[k2].name || walk_dir_spec(d, path, Map::empty())[k1].size != walk_dir_spec(
            d,
            path,
            Map::empty(),
        )[k2].size,
{
    let m = Map::<Seq<char>, RecordModel>::empty();
    let r = walk_dir_spec(d, path, m);
    lemma_walk_dir_grows(d, path, m);
    assert(entries_match_keys(m));
    assert(r[k1].key() == k1);
    assert(r[k2].key() == k2);
    if r[k1].name == r[k2].name && r[k1].size == r[k2].size {
        assert(false);
    }
}

/// The records of all files a walk of `d` at `path` visits, in processing
/// order.
pub open spec fn visited_records(d: FsDir, path: Seq<char>) -> Seq<RecordModel>
    decreases d,
{
    if !d.readable {
        Seq::empty()
    } else {
        visited_in_entries(d.entries@, path)
    }
}

pub open spec fn visited_in_entries(s: Seq<FsEntry>, path: Seq<char>) -> Seq<RecordModel>
    decreases s,
{
    if s.len() == 0 {
        Seq::empty()
    } else if s[0] is Unknown {
        Seq::empty()
    } else {
        visited_in_entry(s[0], path) + visited_in_entries(s.subrange(1, s.len() as int), path)
    }
}

pub open spec fn visited_in_entry(e: FsEntry, path: Seq<char>) -> Seq<RecordModel>
    decreases e,
{
    match e {
        FsEntry::File { name, size } => seq![
            RecordModel {
                name: name@,
                path: join(path, name@),
                size: size,
                digest: Seq::empty(),
            },
        ],
        FsEntry::Dir { name, dir } => visited_records(dir, join(path, name@)),
        FsEntry::Other => Seq::empty(),
        FsEntry::Unknown => Seq::empty(),
    }
}

/// Inserts the records of `v` into `m` in order, each under its own key.
pub open spec fn fold_records(
    m: Map<Seq<char>, RecordModel>,
    v: Seq<RecordModel>,
) -> Map<Seq<char>, RecordModel>
    decreases v.len(),
{
    if v.len() == 0 {
        m
    } else {
        fold_records(m, v.drop_last()).insert(v.last().key(), v.last())
    }
}

proof fn lemma_fold_append(
    m: Map<Seq<char>, RecordModel>,
    a: Seq<RecordModel>,
    b: Seq<RecordModel>,
)
    ensures
        fold_records(m, a + b) == fold_records(fold_records(m, a), b),
    decreases b.len(),
{
    if b.len() == 0 {
        assert(a + b =~= a);
    } else {
        assert((a + b).drop_last() =~= a + b.drop_last());
        assert((a + b).last() == b.last());
        lemma_fold_append(m, a, b.drop_last());
    }
}

/// The walk is the fold of the visited records over the accumulated
/// mapping: the result is the accumulated mapping with every visited record
/// inserted under its key, in processing order.
pub proof fn lemma_walk_dir_is_fold(d: FsDir, path: Seq<char>, m: Map<Seq<char>, RecordModel>)
    ensures
        walk_dir_spec(d, path, m) == fold_records(m, visited_records(d, path)),
    decreases d,
{
    if d.readable {
        lemma_walk_entries_is_fold(d.entries@, path, m);
    }
}

proof fn lemma_walk_entries_is_fold(
    s: Seq<FsEntry>,
    path: Seq<char>,
    m: Map<Seq<char>, RecordModel>,
)
    ensures
        walk_entries_spec(s, path, m) == fold_records(m, visited_in_entries(s, path)),
    decreases s,
{
    if s.len() == 0 || s[0] is Unknown {
    } else {
        let rest = s.subrange(1, s.len() as int);
        lemma_walk_entry_is_fold(s[0], path, m);
        lemma_walk_entries_is_fold(rest, path, walk_entry_spec(s[0], path, m));
        lemma_fold_append(m, visited_in_entry(s[0], path), visited_in_entries(rest, path));
    }
}

proof fn lemma_walk_entry_is_fold(e: FsEntry, path: Seq<char>, m: Map<Seq<char>, RecordModel>)
    ensures
        walk_entry_spec(e, path, m) == fold_records(m, visited_in_entry(e, path)),
    decreases e,
{
    match e {
        FsEntry::File { name, size } => {
            let rec = RecordModel {
                name: name@,
                path: join(path, name@),
                size: size,
                digest: Seq::empty(),
            };
            assert(visited_in_entry(e, path) == seq![rec]);
            assert(fold_records(m, seq![rec]) == m.insert(rec.key(), rec)) by {
                reveal_with_fuel(fold_records, 2);
                assert(seq![rec].drop_last() =~= Seq::<RecordModel>::empty());
                assert(seq![rec].last() == rec);
            }
            assert(rec.key() == key_spec(name@, size));
            assert(walk_entry_spec(e, path, m) == m.insert(key_spec(name@, size), rec));
        },
        FsEntry::Dir { name, dir } => {
            lemma_walk_dir_is_fold(dir, join(path, name@), m);
        },
        FsEntry::Other => {},
        FsEntry::Unknown => {},
    }
}

/// The position of the last record of `v` stored under key `k`, or `-1` if
/// there is none.
pub open spec fn last_index_with_key(v: Seq<RecordModel>, k: Seq<char>) -> int
    decreases v.len(),
{
    if v.len() == 0 {
        -1
    } else if v.last().key() == k {
        v.len() - 1
    } else {
        last_index_with_key(v.drop_last(), k)
    }
}

proof fn lemma_last_index_in_bounds(v: Seq<RecordModel>, k: Seq<char>)
    ensures
        last_index_with_key(v, k) < v.len(),
    decreases v.len(),
{
    if v.len() > 0 && v.last().key() != k {
        lemma_last_index_in_bounds(v.drop_last(), k);
    }
}

proof fn lemma_fold_last_wins(m: Map<Seq<char>, RecordModel>, v: Seq<RecordModel>, k: Seq<char>)
    requires
        last_index_with_key(v, k) >= 0,
    ensures
        fold_records(m, v).contains_key(k),
        fold_records(m, v)[k] == v[last_index_with_key(v, k)],
    decreases v.len(),
{
    if v.last().key() == k {
    } else {
        lemma_fold_last_wins(m, v.drop_last(), k);
        let li = last_index_with_key(v.drop_last(), k);
        lemma_last_index_in_bounds(v.drop_last(), k);
        assert(v.drop_last()[li] == v[li]);
    }
}

/// Of several visited files stored under one composite key — files sharing
/// name and size — the record the result retains is the one processed last.
pub proof fn lemma_last_processed_wins(d: FsDir, path: Seq<char>, k: Seq<char>)
    requires
        last_index_with_key(visited_records(d, path), k) >= 0,
    ensures
        walk_dir_spec(d, path, Map::empty()).contains_key(k),
        walk_dir_spec(d, path, Map::empty())[k] == visited_records(d, path)[last_index_with_key(
            visited_records(d, path),
            k,
        )],
{
    let m = Map::<Seq<char>, RecordModel>::empty();
    lemma_walk_dir_is_fold(d, path, m);
    lemma_fold_last_wins(m, visited_records(d, path), k);
}

/// The full path of the entry named `name` inside the directory at
/// `dir_path`, with a `/` between the two.
pub fn join_path(dir_path: &String, name: &String) -> (r: String)
    ensures
        r@ == join(dir_path@, name@),
{
    let mut r = dir_path.clone();
    r.append("/");
    r.append(name.as_str());
    proof {
        reveal_strlit("/");
        assert(r@ =~= join(dir_path@, name@));
    }
    r
}

/// Walks the directory `dir` at path `path`, accumulating one record per
/// discovered file into `files`, with the digest left empty.
///
/// Fails exactly when `dir` itself cannot be listed or the metadata of one
/// of its direct entries cannot be read; a failure while walking a
/// subdirectory is swallowed, and the records collected inside that
/// subdirectory before the failure are kept.
pub fn walk_files(dir: &FsDir, path: &String, files: &mut FileMap) -> (r: Result<(), WalkError>)
    requires
        old(files).wf(),
    ensures
        final(files).wf(),
        final(files)@ == walk_dir_spec(*dir, path@, old(files)@),
        r is Ok <==> walk_dir_ok(*dir),
        !dir.readable ==> r == Err::<(), WalkError>(WalkError::DirUnreadable),
        dir.readable && has_unknown(dir.entries@) ==> r == Err::<(), WalkError>(
            WalkError::MetadataUnavailable,
        ),
    decreases *dir,
{
    if !dir.readable {
        return Err(WalkError::DirUnreadable);
    }
    let ghost m0 = files@;
    let ghost s = dir.entries@;
    proof {
        assert(s.subrange(0, s.len() as int) =~= s);
    }
    let mut i: usize = 0;
    while i < dir.entries.len()
        invariant
            files.wf(),
            m0 == old(files)@,
            s == dir.entries@,
            dir.readable,
            0 <= i <= s.len(),
            forall|j: int| 0 <= j < i ==> !((#[trigger] s[j]) is Unknown),
            walk_entries_spec(s.subrange(i as int, s.len() as int), path@, files@)
                == walk_entries_spec(s, path@, m0),
        decreases s.len() - i,
    {
        let ghost rest = s.subrange(i as int, s.len() as int);
        let ghost before = files@;
        proof {
            assert(rest[0] == s[i as int]);
            assert(rest.subrange(1, rest.len() as int) =~= s.subrange(
                (i + 1) as int,
                s.len() as int,
            ));
        }
        match &dir.entries[i] {
            FsEntry::File { name, size } => {
                let rec = FileRecord {
                    name: name.clone(),
                    path: join_path(path, name),
                    size: *size,
                    digest: String::new(),
                };
                let key = composite_key(name, *size);
                files.insert(key, rec);
                proof {
                    assert(files@ == walk_entry_spec(rest[0], path@, before)) by {
                        assert(rec@ =~= RecordModel {
                            name: name@,
                            path: join(path@, name@),
                            size: *size,
                            digest: Seq::empty(),
                        });
                    }
                }
            }
            FsEntry::Dir { name, dir: sub } => {
                let child_path = join_path(path, name);
                proof {
                    assert(decreases_to!(*dir => dir.entries));
                    assert(decreases_to!(dir.entries => dir.entries@));
                    assert(decreases_to!(dir.entries@ => dir.entries@[i as int]));
                    assert(decreases_to!(s[i as int] => *sub));
                }
                let _ = walk_files(sub, &child_path, files);
                proof {
                    assert(files@ == walk_entry_spec(rest[0], path@, before));
                }
            }
            FsEntry::Other => {
                proof {
                    assert(files@ == walk_entry_spec(rest[0], path@, before));
                }
            },
            FsEntry::Unknown => {
                proof {
                    assert(s[i as int] is Unknown);
                    assert(has_unknown(s));
                    assert(walk_entries_spec(rest, path@, files@) == files@);
                }
                return Err(WalkError::MetadataUnavailable);
            },
        }
        proof {
            assert(walk_entries_spec(rest, path@, before) == walk_entries_spec(
                rest.subrange(1, rest.len() as int),
                path@,
                files@,
            ));
        }
        i += 1;
    }
    proof {
        assert(s.subrange(s.len() as int, s.len() as int) =~= Seq::<FsEntry>::empty());
        assert(!has_unknown(s)) by {
            if has_unknown(s) {
                let j = choose|j: int| 0 <= j < s.len() && (#[trigger] s[j]) is Unknown;
                assert(!(s[j] is Unknown));
            }
        }
    }
    Ok(())
}

} // verus!
