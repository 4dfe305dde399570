//! The storage engine's state and its decisions. The engine itself touches
//! no file: for each operation it says what is to be written and where,
//! and takes in what was read. Whoever drives it appends, renames, reads
//! and deletes as told.

use vstd::prelude::*;
use crate::bytes::{append_bytes, find_byte, slice_range};
use crate::entry::{decoded, Entry, EntryView};
use crate::error::{CodecFault, EngineError, ErrorView};
use crate::frame::NEWLINE;
use crate::keydir::{Directory, KeyDir, LogPointer, PointerView};
use crate::log::{line_at, replayed, scan_file};
use crate::names::{
    active_file, active_name, comes_before, is_sealed, names_sealed, precedes, sealed_file,
    sealed_name,
};
use crate::recovery::{disk_of, recover, recovered, LogFile};

verus! {

/// The size that the active file may reach before it is sealed, where
/// nothing else is asked for.
pub const FILE_THRESHOLD: usize = 10240;

/// The size that the directory may reach before it is compacted, where
/// nothing else is asked for.
pub const MAX_SIZE: usize = 51200;

/// The engine's state: the key directory, the directory on disk that it
/// speaks of, and the two thresholds.
pub struct KvStore {
    keydir: KeyDir,
    dir_path: String,
    file_threshold: usize,
    max_size: usize,
}

impl View for KvStore {
    type V = Directory;

    closed spec fn view(&self) -> Directory {
        self.keydir@
    }
}

/// What a set asks of the file system: `record` is to be appended to the
/// active file, which had `offset` bytes, and made durable; then the file
/// is to be sealed if `rotate` says so.
pub struct Write {
    pub record: Vec<u8>,
    pub offset: usize,
    pub rotate: bool,
}

/// The value that the record at the start of `bytes` sets: `None` where no
/// record is there, or one that sets no value.
pub open spec fn value_at(bytes: Seq<u8>) -> Option<Seq<char>> {
    match decoded(line_at(bytes, 0)) {
        Some(EntryView::Put { value, .. }) => Some(value),
        _ => None,
    }
}

/// The entry that sets the key of a pair to its value.
pub open spec fn pair_entry(pair: (Seq<char>, Seq<char>)) -> EntryView {
    EntryView::Put { key: pair.0, value: pair.1 }
}

/// The text of a snapshot: for each pair in turn, the record that sets the
/// key to the value.
pub open spec fn snapshot(pairs: Seq<(Seq<char>, Seq<char>)>) -> Seq<u8>
    decreases pairs.len(),
{
    if pairs.len() == 0 {
        Seq::empty()
    } else {
        snapshot(pairs.drop_last()) + pair_entry(pairs.last()).record()
    }
}

/// Whether every pair can be written into a snapshot.
pub open spec fn all_encodable(pairs: Seq<(Seq<char>, Seq<char>)>) -> bool {
    forall|i: int| 0 <= i < pairs.len() ==> pair_entry(#[trigger] pairs[i]).encodable()
}

/// The pairs of a vector as mathematical values.
pub open spec fn pairs_view(pairs: Seq<(String, String)>) -> Seq<(Seq<char>, Seq<char>)> {
    Seq::new(pairs.len(), |i: int| (pairs[i].0@, pairs[i].1@))
}

impl KvStore {
    /// The invariant of the representation.
    pub closed spec fn wf(&self) -> bool {
        self.keydir.wf()
    }

    /// The directory on disk that the store speaks of.
    pub closed spec fn spec_dir_path(&self) -> Seq<char> {
        self.dir_path@
    }

    /// The size past which the active file is sealed.
    pub closed spec fn spec_file_threshold(&self) -> usize {
        self.file_threshold
    }

    /// The size past which the directory is compacted.
    pub closed spec fn spec_max_size(&self) -> usize {
        self.max_size
    }

    /// The live keys in the order in which a snapshot lists them.
    pub closed spec fn order(&self) -> Seq<Seq<char>> {
        self.keydir.order()
    }

    /// Whether `other` differs from `self` in the key directory at most.
    pub open spec fn same_setup(&self, other: &KvStore) -> bool {
        &&& self.spec_dir_path() == other.spec_dir_path()
        &&& self.spec_file_threshold() == other.spec_file_threshold()
        &&& self.spec_max_size() == other.spec_max_size()
    }

    /// A store for the directory `dir_path` with no live key and the usual
    /// thresholds.
    pub fn new(dir_path: String) -> (r: KvStore)
        ensures
            r.wf(),
            r@ == Map::<Seq<char>, PointerView>::empty(),
            r.spec_dir_path() == dir_path@,
            r.spec_file_threshold() == FILE_THRESHOLD,
            r.spec_max_size() == MAX_SIZE,
    {
        KvStore {
            keydir: KeyDir::new(),
            dir_path,
            file_threshold: FILE_THRESHOLD,
            max_size: MAX_SIZE,
        }
    }

    /// A store for the directory `dir_path` with no live key and the given
    /// thresholds.
    pub fn with_thresholds(dir_path: String, file_threshold: usize, max_size: usize) -> (r:
        KvStore)
        ensures
            r.wf(),
            r@ == Map::<Seq<char>, PointerView>::empty(),
            r.spec_dir_path() == dir_path@,
            r.spec_file_threshold() == file_threshold,
            r.spec_max_size() == max_size,
    {
        KvStore { keydir: KeyDir::new(), dir_path, file_threshold, max_size }
    }

    /// Opens the store of the directory `dir_path`, whose log files are
    /// `files`: the newest snapshot is replayed, then the sealed segments
    /// in the order of their names, then the active file. Fails, with
    /// `Malformed`, exactly where a line of one of them records no entry.
    pub fn open(dir_path: String, files: &Vec<LogFile>) -> (r: Result<KvStore, EngineError>)
        ensures
            match r {
                Ok(store) => {
                    &&& store.wf()
                    &&& recovered(disk_of(files@)).complete
                    &&& store@ == recovered(disk_of(files@)).dir
                    &&& store.spec_dir_path() == dir_path@
                    &&& store.spec_file_threshold() == FILE_THRESHOLD
                    &&& store.spec_max_size() == MAX_SIZE
                },
                Err(e) => !recovered(disk_of(files@)).complete && e@ == ErrorView::Serde(
                    CodecFault::Malformed,
                ),
            },
    {
        let (keydir, outcome) = recover(files);
        match outcome {
            Ok(_) => Ok(
                KvStore { keydir, dir_path, file_threshold: FILE_THRESHOLD, max_size: MAX_SIZE },
            ),
            Err(e) => Err(e),
        }
    }

    /// The directory on disk that the store speaks of.
    pub fn dir_path(&self) -> (r: &String)
        ensures
            r@ == self.spec_dir_path(),
    {
        &self.dir_path
    }

    /// The number of live keys.
    pub fn len(&self) -> (r: usize)
        requires
            self.wf(),
        ensures
            r == self.order().len(),
    {
        self.keydir.len()
    }

    /// The `i`-th live key and the place of its record.
    pub fn entry(&self, i: usize) -> (r: (&String, &LogPointer))
        requires
            self.wf(),
            i < self.order().len(),
        ensures
            r.0@ == self.order()[i as int],
            self@.contains_key(r.0@),
            self@[r.0@] == r.1@,
    {
        self.keydir.entry(i)
    }

    /// The order lists each live key once, and no other.
    pub proof fn lemma_order(&self)
        requires
            self.wf(),
        ensures
            self.order().no_duplicates(),
            forall|k: Seq<char>| self.order().contains(k) <==> self@.contains_key(k),
    {
        self.keydir.lemma_order();
    }

    /// Replays the file `path` into the key directory. On a line that
    /// records no entry the scan stops with `Malformed`; the lines before
    /// it stay applied.
    pub fn scan_file(&mut self, path: &String, contents: &[u8]) -> (r: Result<(), EngineError>)
        requires
            old(self).wf(),
        ensures
            final(self).wf(),
            final(self).same_setup(old(self)),
            final(self)@ == replayed(old(self)@, path@, contents@, 0).dir,
            match r {
                Ok(_) => replayed(old(self)@, path@, contents@, 0).complete,
                Err(e) => !replayed(old(self)@, path@, contents@, 0).complete && e@
                    == ErrorView::Serde(CodecFault::Malformed),
            },
    {
        scan_file(&mut self.keydir, path, contents)
    }

    /// The second half of a rotation, once the active file has the name
    /// `name` and a new active file is there: the sealed file, whose
    /// contents are `contents`, is replayed under its new name. Fails as
    /// `scan_file` does.
    pub fn rotate(&mut self, name: &String, contents: &[u8]) -> (r: Result<(), EngineError>)
        requires
            old(self).wf(),
        ensures
            final(self).wf(),
            final(self).same_setup(old(self)),
            final(self)@ == replayed(old(self)@, name@, contents@, 0).dir,
            match r {
                Ok(_) => replayed(old(self)@, name@, contents@, 0).complete,
                Err(e) => !replayed(old(self)@, name@, contents@, 0).complete && e@
                    == ErrorView::Serde(CodecFault::Malformed),
            },
    {
        scan_file(&mut self.keydir, name, contents)
    }

    /// Whether an active file of `active_len` bytes is over the threshold
    /// once `record_len` more bytes are in it.
    pub fn should_rotate(&self, active_len: usize, record_len: usize) -> (r: bool)
        ensures
            r == (active_len + record_len > self.spec_file_threshold()),
    {
        active_len > self.file_threshold || record_len > self.file_threshold - active_len
    }

    /// Whether a directory that holds `total` bytes is to be compacted.
    pub fn should_compact(&self, total: u64) -> (r: bool)
        ensures
            r == (total > self.spec_max_size()),
    {
        total > self.max_size as u64
    }

    /// The first half of a set: what is to be appended to the active file,
    /// which has `active_len` bytes. Fails, with `Unencodable`, exactly
    /// where the key or the value cannot be written into a record.
    pub fn prepare_set(&self, key: &String, value: &String, active_len: usize) -> (r: Result<
        Write,
        EngineError,
    >)
        ensures
            match r {
                Ok(w) => {
                    let entry = EntryView::Put { key: key@, value: value@ };
                    &&& entry.encodable()
                    &&& w.record@ == entry.record()
                    &&& w.offset == active_len
                    &&& w.rotate == (active_len + entry.record().len()
                        > self.spec_file_threshold())
                },
                Err(e) => !(EntryView::Put { key: key@, value: value@ }).encodable() && e@
                    == ErrorView::Serde(CodecFault::Unencodable),
            },
    {
        let entry = Entry::Put { key: key.clone(), value: value.clone() };
        match entry.record() {
            Ok(record) => {
                let rotate = self.should_rotate(active_len, record.len());
                Ok(Write { record, offset: active_len, rotate })
            },
            Err(e) => Err(e),
        }
    }

    /// The second half of a set, once the record is durable: the key
    /// points at the record, at `offset` of the active file.
    pub fn commit_set(&mut self, key: String, offset: usize)
        requires
            old(self).wf(),
        ensures
            final(self).wf(),
            final(self).same_setup(old(self)),
            final(self)@ == old(self)@.insert(
                key@,
                PointerView { path: active_name(), offset: offset as nat },
            ),
    {
        self.keydir.insert(key, LogPointer::new(active_file(), offset));
    }

    /// The place of the key's record, if the key is live.
    pub fn locate(&self, key: &String) -> (r: Option<&LogPointer>)
        requires
            self.wf(),
        ensures
            match r {
                Some(p) => self@.contains_key(key@) && self@[key@] == p@,
                None => !self@.contains_key(key@),
            },
    {
        self.keydir.get(key)
    }

    /// The value that the record at the start of `bytes` sets. `bytes` is
    /// what a file holds from a pointer's offset on, as far as its line
    /// goes at least. Fails with `Malformed` where no record is there, and
    /// with `NotPut` where the record sets no value.
    pub fn read_value(bytes: &[u8]) -> (r: Result<String, EngineError>)
        ensures
            match r {
                Ok(value) => value_at(bytes@) == Some(value@),
                Err(e) => value_at(bytes@) is None && e@ == ErrorView::Serde(
                    if decoded(line_at(bytes@, 0)) is None {
                        CodecFault::Malformed
                    } else {
                        CodecFault::NotPut
                    },
                ),
            },
    {
        let end = find_byte(bytes, 0, NEWLINE);
        match Entry::decode(slice_range(bytes, 0, end)) {
            Ok(Entry::Put { key: _, value }) => Ok(value),
            Ok(Entry::Remove { key: _ }) => Err(EngineError::Serde(CodecFault::NotPut)),
            Err(e) => Err(e),
        }
    }

    /// The first half of a remove: what is to be appended to the active
    /// file. Fails with `NotFound` exactly where the key is not live, and
    /// otherwise with `Unencodable` where the key cannot be written into a
    /// record.
    pub fn prepare_remove(&self, key: &String) -> (r: Result<Vec<u8>, EngineError>)
        requires
            self.wf(),
        ensures
            match r {
                Ok(record) => {
                    &&& self@.contains_key(key@)
                    &&& (EntryView::Remove { key: key@ }).encodable()
                    &&& record@ == (EntryView::Remove { key: key@ }).record()
                },
                Err(e) => if !self@.contains_key(key@) {
                    e@ == ErrorView::NotFound(key@)
                } else {
                    !(EntryView::Remove { key: key@ }).encodable() && e@ == ErrorView::Serde(
                        CodecFault::Unencodable,
                    )
                },
            },
    {
        if !self.keydir.contains_key(key) {
            return Err(EngineError::NotFound(key.clone()));
        }
        let entry = Entry::Remove { key: key.clone() };
        entry.record()
    }

    /// The second half of a remove, once the record is durable: the key is
    /// live no more.
    pub fn commit_remove(&mut self, key: &String)
        requires
            old(self).wf(),
        ensures
            final(self).wf(),
            final(self).same_setup(old(self)),
            final(self)@ == old(self)@.remove(key@),
    {
        self.keydir.remove(key);
    }

    /// The text of a snapshot that sets each key of `pairs` to its value,
    /// in their order. Fails, with `Unencodable`, exactly where a pair
    /// cannot be written into a record.
    pub fn snapshot(pairs: &Vec<(String, String)>) -> (r: Result<Vec<u8>, EngineError>)
        ensures
            match r {
                Ok(text) => all_encodable(pairs_view(pairs@)) && text@ == snapshot(
                    pairs_view(pairs@),
                ),
                Err(e) => !all_encodable(pairs_view(pairs@)) && e@ == ErrorView::Serde(
                    CodecFault::Unencodable,
                ),
            },
    {
        let ghost all = pairs_view(pairs@);
        let mut text: Vec<u8> = Vec::new();
        let mut i: usize = 0;
        while i < pairs.len()
            invariant
                i <= pairs.len(),
                all == pairs_view(pairs@),
                text@ == snapshot(all.take(i as int)),
                all_encodable(all.take(i as int)),
            decreases pairs.len() - i,
        {
            let entry = Entry::Put { key: pairs[i].0.clone(), value: pairs[i].1.clone() };
            assert(entry@ == pair_entry(all[i as int]));
            match entry.record() {
                Ok(record) => {
                    append_bytes(&mut text, record.as_slice());
                },
                Err(e) => {
                    return Err(e);
                },
            }
            proof {
                assert(all.take(i + 1).drop_last() =~= all.take(i as int));
            }
            i += 1;
        }
        proof {
            assert(all.take(pairs.len() as int) =~= all);
        }
        Ok(text)
    }

    /// The last step of a compaction, once the snapshot `name` is durable
    /// and the stale files and the active file's contents are gone: the
    /// key directory is what a replay of the snapshot gives.
    pub fn adopt_snapshot(&mut self, name: &String, text: &[u8]) -> (r: Result<(), EngineError>)
        ensures
            final(self).wf(),
            final(self).same_setup(old(self)),
            final(self)@ == replayed(Map::empty(), name@, text@, 0).dir,
            match r {
                Ok(_) => replayed(Map::empty(), name@, text@, 0).complete,
                Err(e) => !replayed(Map::empty(), name@, text@, 0).complete && e@
                    == ErrorView::Serde(CodecFault::Malformed),
            },
    {
        self.keydir.clear();
        scan_file(&mut self.keydir, name, text)
    }
}

/// Whether a segment can be sealed under `name` beside the files `names`:
/// no file has the name, and it comes after every sealed segment.
pub open spec fn can_seal(name: Seq<char>, names: Seq<String>) -> bool {
    forall|i: int|
        0 <= i < names.len() ==> (#[trigger] names[i])@ != name && (is_sealed(names[i]@)
            ==> precedes(names[i]@, name))
}

/// The name under which the active file is sealed at `millis`
/// milliseconds, beside the files `names`; `None` where that name is
/// taken or does not come after every sealed segment, so that the
/// rotation has to wait.
pub fn segment_name(millis: u128, names: &Vec<String>) -> (r: Option<String>)
    ensures
        match r {
            Some(name) => name@ == sealed_name(millis as nat) && can_seal(name@, names@),
            None => !can_seal(sealed_name(millis as nat), names@),
        },
{
    let name = sealed_file(millis);
    let mut i: usize = 0;
    while i < names.len()
        invariant
            i <= names.len(),
            name@ == sealed_name(millis as nat),
            can_seal(name@, names@.take(i as int)),
        decreases names.len() - i,
    {
        let other = &names[i];
        if *other == name || (names_sealed(other.as_str()) && !comes_before(
            other.as_str(),
            name.as_str(),
        )) {
            return None;
        }
        i += 1;
    }
    proof {
        assert(names@.take(names.len() as int) =~= names@);
    }
    Some(name)
}

/// The sum of the sizes.
pub open spec fn sum(sizes: Seq<u64>) -> nat
    decreases sizes.len(),
{
    if sizes.len() == 0 {
        0
    } else {
        sum(sizes.drop_last()) + sizes.last() as nat
    }
}

/// The number of bytes that a directory holds, given the sizes of its
/// entries: their sum, or the greatest number that can be told where the
/// sum is over it.
pub fn total_size(sizes: &Vec<u64>) -> (r: u64)
    ensures
        r == if sum(sizes@) <= u64::MAX {
            sum(sizes@)
        } else {
            u64::MAX as nat
        },
{
    let mut total: u64 = 0;
    let mut i: usize = 0;
    while i < sizes.len()
        invariant
            i <= sizes.len(),
            total == if sum(sizes@.take(i as int)) <= u64::MAX {
                sum(sizes@.take(i as int))
            } else {
                u64::MAX as nat
            },
        decreases sizes.len() - i,
    {
        proof {
            assert(sizes@.take(i + 1).drop_last() =~= sizes@.take(i as int));
        }
        total = if sizes[i] > u64::MAX - total {
            u64::MAX
        } else {
            total + sizes[i]
        };
        i += 1;
    }
    proof {
        assert(sizes@.take(sizes.len() as int) =~= sizes@);
    }
    total
}

} // verus!
