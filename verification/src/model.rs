//! The engine and its files as one mathematical value, and the laws of
//! the store stated on it. The directory changes as the engine's functions
//! say; the files change as the engine asks: a record is appended to the
//! active file, the active file is sealed under a new name, a snapshot
//! takes the place of the sealed files.

use vstd::prelude::*;
use crate::bytes::{first_at, lemma_first_at, lemma_first_at_is};
use crate::entry::{decoded, EntryView};
use crate::frame::NEWLINE;
use crate::keydir::{Directory, PointerView};
use crate::log::{applied, line_at, replayed, Replay};
use crate::names::{active_name, is_compact, is_sealed, is_stale};
use crate::replay::{
    lemma_line_appended, lemma_line_within, lemma_replay_append,
    lemma_replay_complete, lemma_replay_touched, lemma_replay_untouched, lemma_touched_append,
    terminated, touched,
};
use crate::store::{all_encodable, pair_entry, snapshot, value_at};

verus! {

/// The files of a store's directory: their contents by their names.
pub type Disk = Map<Seq<char>, Seq<u8>>;

/// What the store holds: a value for each live key.
pub type Contents = Map<Seq<char>, Seq<char>>;

/// The value that the record at `offset` of `file` sets: `None` where no
/// record is there, or one that sets no value.
pub open spec fn record_value(file: Seq<u8>, offset: int) -> Option<Seq<char>> {
    match decoded(line_at(file, offset)) {
        Some(EntryView::Put { value, .. }) => Some(value),
        _ => None,
    }
}

/// Whether the record at `offset` of `file` sets a value for `key`.
pub open spec fn sets_key(file: Seq<u8>, offset: int, key: Seq<char>) -> bool {
    match decoded(line_at(file, offset)) {
        Some(EntryView::Put { key: k, .. }) => k == key,
        _ => false,
    }
}

/// The engine's key directory together with the files it speaks of.
pub struct Model {
    pub dir: Directory,
    pub disk: Disk,
}

impl Model {
    /// The contents of the active file.
    pub open spec fn active(self) -> Seq<u8> {
        self.disk[active_name()]
    }

    /// What following the key's pointer reads: the value of the record it
    /// leads to. `None` where the file is gone or no such record is there.
    pub open spec fn read(self, key: Seq<char>) -> Option<Seq<char>> {
        let p = self.dir[key];
        if self.disk.contains_key(p.path) {
            record_value(self.disk[p.path], p.offset as int)
        } else {
            None
        }
    }

    /// What a get of the key returns, where it returns without an error:
    /// nothing for a key that is not live, else what its pointer reads.
    pub open spec fn get(self, key: Seq<char>) -> Option<Seq<char>> {
        if self.dir.contains_key(key) {
            self.read(key)
        } else {
            None
        }
    }

    /// The value of each live key.
    pub open spec fn contents(self) -> Contents {
        Map::new(|k: Seq<char>| self.dir.contains_key(k), |k: Seq<char>| self.read(k)->0)
    }

    /// What holds of the store between any two operations: the active
    /// file is there and each of its lines is ended; replaying it changes
    /// nothing in the directory; each key's pointer leads into a file
    /// that is there, to a record that sets a value for that key; and a
    /// pointer into the active file belongs to a key that the file has an
    /// entry about.
    pub open spec fn inv(self) -> bool {
        &&& self.disk.contains_key(active_name())
        &&& terminated(self.active())
        &&& replayed(self.dir, active_name(), self.active(), 0) == (Replay {
            dir: self.dir,
            complete: true,
        })
        &&& forall|k: Seq<char>| #[trigger]
            self.dir.contains_key(k) ==> {
                &&& self.disk.contains_key(self.dir[k].path)
                &&& self.dir[k].path == active_name() ==> touched(self.active(), 0, k)
                &&& sets_key(self.disk[self.dir[k].path], self.dir[k].offset as int, k)
            }
    }

    /// The store after the first two steps of a set: the record is
    /// appended to the active file and the key points at it.
    pub open spec fn put(self, key: Seq<char>, value: Seq<char>) -> Model {
        Model {
            dir: self.dir.insert(
                key,
                PointerView { path: active_name(), offset: self.active().len() },
            ),
            disk: self.disk.insert(
                active_name(),
                self.active() + (EntryView::Put { key, value }).record(),
            ),
        }
    }

    /// The store after a remove of a live key: the record is appended to
    /// the active file and the key is live no more.
    pub open spec fn erase(self, key: Seq<char>) -> Model {
        Model {
            dir: self.dir.remove(key),
            disk: self.disk.insert(
                active_name(),
                self.active() + (EntryView::Remove { key }).record(),
            ),
        }
    }

    /// The store after a rotation: the active file has the name `name`,
    /// it was replayed under that name, and a new active file is empty.
    pub open spec fn rotate(self, name: Seq<char>) -> Model {
        Model {
            dir: replayed(self.dir, name, self.active(), 0).dir,
            disk: self.disk.insert(name, self.active()).insert(active_name(), Seq::empty()),
        }
    }

    /// The live keys of `order`, each with its value.
    pub open spec fn live_pairs(self, order: Seq<Seq<char>>) -> Seq<(Seq<char>, Seq<char>)> {
        Seq::new(order.len(), |i: int| (order[i], self.read(order[i])->0))
    }

    /// The store after a compaction that lists the keys in `order`: the
    /// snapshot `name` is written, every other snapshot and every sealed
    /// segment is gone, the active file is empty, and the snapshot was
    /// replayed into an empty directory.
    pub open spec fn compact(self, name: Seq<char>, order: Seq<Seq<char>>) -> Model {
        let text = snapshot(self.live_pairs(order));
        Model {
            dir: replayed(Map::empty(), name, text, 0).dir,
            disk: Map::new(
                |n: Seq<char>|
                    n == name || n == active_name() || (self.disk.contains_key(n) && !is_stale(
                        n,
                        name,
                    )),
                |n: Seq<char>|
                    if n == name {
                        text
                    } else if n == active_name() {
                        Seq::empty()
                    } else {
                        self.disk[n]
                    },
            ),
        }
    }

    /// Whether `order` lists each live key once, and no other.
    pub open spec fn lists(self, order: Seq<Seq<char>>) -> bool {
        &&& order.no_duplicates()
        &&& forall|k: Seq<char>| order.contains(k) <==> self.dir.contains_key(k)
    }
}

/// The name of the active file is neither that of a sealed segment nor
/// that of a snapshot.
pub proof fn lemma_active_is_neither()
    ensures
        !is_sealed(active_name()),
        !is_compact(active_name()),
{
    reveal_strlit("db.log");
    reveal_strlit("data");
    reveal_strlit("compact");
    if is_sealed(active_name()) {
        assert(active_name().subrange(0, 4)[1] == "data"@[1]);
    }
    if is_compact(active_name()) {
        assert(active_name().subrange(0, 7)[0] == "compact"@[0]);
    }
}

/// In a store that the invariant holds of, a pointer into the active file
/// leads to a line that ends inside the file.
proof fn lemma_active_pointer(m: Model, key: Seq<char>)
    requires
        m.inv(),
        m.dir.contains_key(key),
        m.dir[key].path == active_name(),
    ensures
        0 <= m.dir[key].offset < m.active().len(),
{
    lemma_replay_touched(m.dir, active_name(), m.dir, active_name(), m.active(), 0, key);
}

/// A set gives the key its value and leaves every other key as it was.
pub proof fn lemma_put(m: Model, key: Seq<char>, value: Seq<char>)
    requires
        m.inv(),
        (EntryView::Put { key, value }).encodable(),
    ensures
        m.put(key, value).inv(),
        m.put(key, value).contents() == m.contents().insert(key, value),
{
    let entry = EntryView::Put { key, value };
    let file = m.active();
    let after = m.put(key, value);
    let here = PointerView { path: active_name(), offset: file.len() };
    assert(after.active() == file + entry.record());
    lemma_line_appended(file, entry);
    lemma_replay_complete(m.dir, active_name(), after.dir, active_name(), file, 0);
    lemma_replay_append(after.dir, active_name(), file, entry, 0);
    let mid = replayed(after.dir, active_name(), file, 0).dir;
    assert(applied(mid, entry, active_name(), file.len() as int) =~= after.dir) by {
        assert forall|j: Seq<char>| j != key implies (#[trigger] mid.contains_key(j))
            == m.dir.contains_key(j) && (mid.contains_key(j) ==> mid[j] == m.dir[j]) by {
            if touched(file, 0, j) {
                lemma_replay_touched(after.dir, active_name(), m.dir, active_name(), file, 0, j);
            } else {
                lemma_replay_untouched(after.dir, active_name(), file, 0, j);
            }
        }
    }
    lemma_replay_complete(m.dir, active_name(), Map::empty(), Seq::empty(), file, 0);
    assert forall|k: Seq<char>| #[trigger] after.dir.contains_key(k) implies {
        &&& after.disk.contains_key(after.dir[k].path)
        &&& after.dir[k].path == active_name() ==> touched(after.active(), 0, k)
        &&& sets_key(after.disk[after.dir[k].path], after.dir[k].offset as int, k)
        &&& after.read(k) == if k == key {
            Some(value)
        } else {
            m.read(k)
        }
    } by {
        lemma_touched_append(file, entry, 0, k);
        if k != key {
            assert(m.dir.contains_key(k));
            if m.dir[k].path == active_name() {
                lemma_active_pointer(m, k);
                lemma_line_within(file, entry.record(), m.dir[k].offset as int);
            }
        }
    }
    assert(after.contents() =~= m.contents().insert(key, value));
}

/// A remove takes the key's value away and leaves every other key as it
/// was.
pub proof fn lemma_erase(m: Model, key: Seq<char>)
    requires
        m.inv(),
        (EntryView::Remove { key }).encodable(),
    ensures
        m.erase(key).inv(),
        m.erase(key).contents() == m.contents().remove(key),
{
    let entry = EntryView::Remove { key };
    let file = m.active();
    let after = m.erase(key);
    assert(after.active() == file + entry.record());
    lemma_line_appended(file, entry);
    lemma_replay_complete(m.dir, active_name(), after.dir, active_name(), file, 0);
    lemma_replay_append(after.dir, active_name(), file, entry, 0);
    let mid = replayed(after.dir, active_name(), file, 0).dir;
    assert(applied(mid, entry, active_name(), file.len() as int) =~= after.dir) by {
        assert forall|j: Seq<char>| j != key implies (#[trigger] mid.contains_key(j))
            == m.dir.contains_key(j) && (mid.contains_key(j) ==> mid[j] == m.dir[j]) by {
            if touched(file, 0, j) {
                lemma_replay_touched(after.dir, active_name(), m.dir, active_name(), file, 0, j);
            } else {
                lemma_replay_untouched(after.dir, active_name(), file, 0, j);
            }
        }
    }
    lemma_replay_complete(m.dir, active_name(), Map::empty(), Seq::empty(), file, 0);
    assert forall|k: Seq<char>| #[trigger] after.dir.contains_key(k) implies {
        &&& after.disk.contains_key(after.dir[k].path)
        &&& after.dir[k].path == active_name() ==> touched(after.active(), 0, k)
        &&& sets_key(after.disk[after.dir[k].path], after.dir[k].offset as int, k)
        &&& after.read(k) == m.read(k)
    } by {
        lemma_touched_append(file, entry, 0, k);
        assert(m.dir.contains_key(k));
        if m.dir[k].path == active_name() {
            lemma_active_pointer(m, k);
            lemma_line_within(file, entry.record(), m.dir[k].offset as int);
        }
    }
    assert(after.contents() =~= m.contents().remove(key));
}

/// A rotation under a name that no file has changes no key's value.
pub proof fn lemma_rotate(m: Model, name: Seq<char>)
    requires
        m.inv(),
        name != active_name(),
        !m.disk.contains_key(name),
    ensures
        m.rotate(name).inv(),
        m.rotate(name).contents() == m.contents(),
{
    let file = m.active();
    let after = m.rotate(name);
    lemma_replay_complete(m.dir, active_name(), m.dir, name, file, 0);
    assert(after.active() =~= Seq::<u8>::empty());
    assert forall|k: Seq<char>|
        (#[trigger] after.dir.contains_key(k)) == m.dir.contains_key(k) && (after.dir.contains_key(
            k,
        ) ==> {
            &&& after.disk.contains_key(after.dir[k].path)
            &&& after.dir[k].path != active_name()
            &&& sets_key(after.disk[after.dir[k].path], after.dir[k].offset as int, k)
            &&& after.read(k) == m.read(k)
        }) by {
        if touched(file, 0, k) {
            lemma_replay_touched(m.dir, active_name(), m.dir, name, file, 0, k);
        } else {
            lemma_replay_untouched(m.dir, name, file, 0, k);
        }
    }
    assert(after.contents() =~= m.contents());
}

/// Whether no key occurs twice among the pairs.
pub open spec fn distinct_keys(pairs: Seq<(Seq<char>, Seq<char>)>) -> bool {
    forall|i: int, j: int|
        0 <= i < j < pairs.len() ==> (#[trigger] pairs[i]).0 != (#[trigger] pairs[j]).0
}

/// Whether the directory points the key of the pair into the file `name`,
/// whose contents are `text`, at a record that sets the pair's value for
/// the key.
pub open spec fn points_into(
    dir: Directory,
    name: Seq<char>,
    text: Seq<u8>,
    pair: (Seq<char>, Seq<char>),
) -> bool {
    &&& dir.contains_key(pair.0)
    &&& dir[pair.0].path == name
    &&& dir[pair.0].offset < text.len()
    &&& sets_key(text, dir[pair.0].offset as int, pair.0)
    &&& record_value(text, dir[pair.0].offset as int) == Some(pair.1)
}

/// Replaying a snapshot into an empty directory reads the snapshot to its
/// end and gives the directory of its pairs: each key of a pair points to
/// a record of the snapshot that sets the pair's value, and no other key
/// is live.
pub proof fn lemma_snapshot_replayed(name: Seq<char>, pairs: Seq<(Seq<char>, Seq<char>)>)
    requires
        all_encodable(pairs),
        distinct_keys(pairs),
    ensures
        terminated(snapshot(pairs)),
        replayed(Map::empty(), name, snapshot(pairs), 0).complete,
        forall|i: int|
            0 <= i < pairs.len() ==> points_into(
                replayed(Map::empty(), name, snapshot(pairs), 0).dir,
                name,
                snapshot(pairs),
                #[trigger] pairs[i],
            ),
        forall|k: Seq<char>| #[trigger]
            replayed(Map::empty(), name, snapshot(pairs), 0).dir.contains_key(k) ==> exists|
                i: int,
            |
                0 <= i < pairs.len() && (#[trigger] pairs[i]).0 == k,
    decreases pairs.len(),
{
    let text = snapshot(pairs);
    if pairs.len() > 0 {
        let init = pairs.drop_last();
        let last = pairs.last();
        let entry = pair_entry(last);
        let before = snapshot(init);
        assert(all_encodable(init)) by {
            assert forall|i: int| 0 <= i < init.len() implies pair_entry(
                #[trigger] init[i],
            ).encodable() by {
                assert(init[i] == pairs[i]);
            }
        }
        assert(distinct_keys(init)) by {
            assert forall|i: int, j: int| 0 <= i < j < init.len() implies (#[trigger] init[i]).0 != (
            #[trigger] init[j]).0 by {
                assert(init[i] == pairs[i]);
                assert(init[j] == pairs[j]);
            }
        }
        lemma_snapshot_replayed(name, init);
        assert(entry.encodable());
        lemma_replay_append(Map::empty(), name, before, entry, 0);
        lemma_line_appended(before, entry);
        let old_dir = replayed(Map::empty(), name, before, 0).dir;
        let dir = replayed(Map::empty(), name, text, 0).dir;
        let here = PointerView { path: name, offset: before.len() };
        assert(text == before + entry.record());
        assert(dir == old_dir.insert(last.0, here));
        assert(points_into(dir, name, text, last));
        assert forall|i: int| 0 <= i < pairs.len() implies points_into(
            dir,
            name,
            text,
            #[trigger] pairs[i],
        ) by {
            if i < pairs.len() - 1 {
                let pair = pairs[i];
                assert(init[i] == pair);
                assert(pair.0 != pairs[pairs.len() - 1].0);
                assert(points_into(old_dir, name, before, init[i]));
                assert(dir[pair.0] == old_dir[pair.0]);
                lemma_line_within(before, entry.record(), old_dir[pair.0].offset as int);
            }
        }
        assert forall|k: Seq<char>| #[trigger] dir.contains_key(k) implies exists|i: int|
            0 <= i < pairs.len() && (#[trigger] pairs[i]).0 == k by {
            if k == last.0 {
                assert(pairs[pairs.len() - 1].0 == k);
            } else {
                assert(old_dir.contains_key(k));
                let i = choose|i: int| 0 <= i < init.len() && (#[trigger] init[i]).0 == k;
                assert(pairs[i].0 == k);
            }
        }
    }
}

/// A compaction changes no key's value, where it lists each live key once
/// and each pair can be written.
pub proof fn lemma_compact(m: Model, name: Seq<char>, order: Seq<Seq<char>>)
    requires
        m.inv(),
        name != active_name(),
        m.lists(order),
        all_encodable(m.live_pairs(order)),
    ensures
        m.compact(name, order).inv(),
        m.compact(name, order).contents() == m.contents(),
{
    let pairs = m.live_pairs(order);
    let text = snapshot(pairs);
    let after = m.compact(name, order);
    assert(distinct_keys(pairs));
    lemma_snapshot_replayed(name, pairs);
    assert(after.active() =~= Seq::<u8>::empty());
    assert forall|k: Seq<char>|
        (#[trigger] after.dir.contains_key(k)) == m.dir.contains_key(k) && (after.dir.contains_key(
            k,
        ) ==> {
            &&& after.dir[k].path == name
            &&& sets_key(after.disk[name], after.dir[k].offset as int, k)
            &&& after.read(k) == m.read(k)
        }) by {
        if after.dir.contains_key(k) {
            let i = choose|i: int| 0 <= i < pairs.len() && (#[trigger] pairs[i]).0 == k;
            assert(order[i] == k);
            assert(order.contains(k));
        }
        if m.dir.contains_key(k) {
            assert(order.contains(k));
            let i = choose|i: int| 0 <= i < order.len() && order[i] == k;
            assert(pairs[i].0 == k);
        }
    }
    assert(after.contents() =~= m.contents());
}

/// One change of the store.
pub enum Step {
    /// A record that sets a value is appended, and the key points at it.
    Put { key: Seq<char>, value: Seq<char> },
    /// A record that removes a key is appended, and the key is taken out.
    Remove { key: Seq<char> },
    /// The active file is sealed under the name.
    Rotate { name: Seq<char> },
    /// A snapshot of the keys, in the order given, is written under the
    /// name.
    Compact { name: Seq<char>, order: Seq<Seq<char>> },
}

impl Model {
    /// Whether the step succeeds in this state: a record can be written;
    /// a key to remove is live; the name for a sealed file is free; a
    /// snapshot lists each live key once.
    pub open spec fn permits(self, step: Step) -> bool {
        match step {
            Step::Put { key, value } => (EntryView::Put { key, value }).encodable(),
            Step::Remove { key } => self.dir.contains_key(key) && (EntryView::Remove {
                key,
            }).encodable(),
            Step::Rotate { name } => name != active_name() && !self.disk.contains_key(name),
            Step::Compact { name, order } => name != active_name() && self.lists(order)
                && all_encodable(self.live_pairs(order)),
        }
    }

    /// The store after the step.
    pub open spec fn step(self, step: Step) -> Model {
        match step {
            Step::Put { key, value } => self.put(key, value),
            Step::Remove { key } => self.erase(key),
            Step::Rotate { name } => self.rotate(name),
            Step::Compact { name, order } => self.compact(name, order),
        }
    }

    /// Whether each of the steps succeeds in the state that the steps
    /// before it lead to.
    pub open spec fn permits_all(self, steps: Seq<Step>) -> bool
        decreases steps.len(),
    {
        steps.len() == 0 || (self.permits(steps[0]) && self.step(steps[0]).permits_all(
            steps.drop_first(),
        ))
    }

    /// The store after the steps, one after the other.
    pub open spec fn run(self, steps: Seq<Step>) -> Model
        decreases steps.len(),
    {
        if steps.len() == 0 {
            self
        } else {
            self.step(steps[0]).run(steps.drop_first())
        }
    }
}

/// What a step does to the values of the keys: a put gives the key the
/// value, a remove takes the key out, a rotation and a compaction change
/// nothing.
pub open spec fn effect(contents: Contents, step: Step) -> Contents {
    match step {
        Step::Put { key, value } => contents.insert(key, value),
        Step::Remove { key } => contents.remove(key),
        Step::Rotate { .. } => contents,
        Step::Compact { .. } => contents,
    }
}

/// What the steps do to the values of the keys, one after the other.
pub open spec fn effects(contents: Contents, steps: Seq<Step>) -> Contents
    decreases steps.len(),
{
    if steps.len() == 0 {
        contents
    } else {
        effects(effect(contents, steps[0]), steps.drop_first())
    }
}

/// A store with an empty active file and no live key is in order.
pub proof fn lemma_empty_store()
    ensures
        (Model { dir: Map::empty(), disk: Map::empty().insert(active_name(), Seq::empty()) }).inv(),
{
}

/// A get returns the value that the store holds for the key, and nothing
/// for a key that it holds no value for.
pub proof fn lemma_get(m: Model, key: Seq<char>)
    requires
        m.inv(),
    ensures
        m.get(key) == if m.contents().contains_key(key) {
            Some(m.contents()[key])
        } else {
            None
        },
        m.contents().contains_key(key) == m.dir.contains_key(key),
{
}

/// A step that succeeds keeps the store in order and does to the values
/// what `effect` says.
pub proof fn lemma_step(m: Model, step: Step)
    requires
        m.inv(),
        m.permits(step),
    ensures
        m.step(step).inv(),
        m.step(step).contents() == effect(m.contents(), step),
{
    match step {
        Step::Put { key, value } => lemma_put(m, key, value),
        Step::Remove { key } => lemma_erase(m, key),
        Step::Rotate { name } => lemma_rotate(m, name),
        Step::Compact { name, order } => lemma_compact(m, name, order),
    }
}

/// Steps that succeed keep the store in order and do to the values what
/// `effects` says.
pub proof fn lemma_run(m: Model, steps: Seq<Step>)
    requires
        m.inv(),
        m.permits_all(steps),
    ensures
        m.run(steps).inv(),
        m.run(steps).contents() == effects(m.contents(), steps),
    decreases steps.len(),
{
    if steps.len() > 0 {
        lemma_step(m, steps[0]);
        lemma_run(m.step(steps[0]), steps.drop_first());
    }
}

/// Reading a record needs no more of the file than the record's line:
/// bytes of `file` from `offset` on, as far as the line goes at least,
/// hold the value of the record at `offset`.
pub proof fn lemma_read_bytes(file: Seq<u8>, offset: int, end: int)
    requires
        0 <= offset <= file.len(),
        first_at(file, offset, NEWLINE) <= end <= file.len(),
    ensures
        value_at(file.subrange(offset, end)) == record_value(file, offset),
{
    let bytes = file.subrange(offset, end);
    let stop = first_at(file, offset, NEWLINE);
    lemma_first_at(file, offset, NEWLINE);
    assert forall|j: int| 0 <= j < stop - offset implies bytes[j] != NEWLINE by {
        assert(bytes[j] == file[offset + j]);
    }
    lemma_first_at_is(bytes, 0, NEWLINE, stop - offset);
    assert(line_at(bytes, 0) =~= line_at(file, offset));
}

} // verus!
