//! Opening a store again: the key directory that recovery builds from the
//! files is the one that the engine had.

use vstd::prelude::*;
use vstd::set_lib::lemma_set_subset_finite;
use crate::entry::EntryView;
use crate::keydir::Directory;
use crate::log::{applied, replayed, Replay};
use crate::model::{
    distinct_keys, lemma_active_is_neither, lemma_snapshot_replayed, lemma_step, sets_key,
    Model, Step,
};
use crate::names::{active_name, is_compact, is_sealed, precedes};
use crate::order::{
    ascending, greatest, is_greatest, lemma_ascending_members, lemma_ascending_push,
    lemma_greatest_exists, lemma_greatest_unique, lemma_precedes_irreflexive,
};
use crate::recovery::{recovered, recovery_plan, replay_files, segments, snapshots};
use crate::replay::{
    lemma_replay_append, lemma_replay_complete, lemma_replay_points_at_put,
    lemma_replay_touched, lemma_replay_untouched, terminated, touched,
};
use crate::store::{can_seal, snapshot};

verus! {

/// No name is both that of a snapshot and that of a sealed segment.
pub proof fn lemma_compact_not_sealed(name: Seq<char>)
    ensures
        !(is_compact(name) && is_sealed(name)),
{
    reveal_strlit("data");
    reveal_strlit("compact");
    if is_compact(name) && is_sealed(name) {
        assert(name.subrange(0, 4)[0] == "data"@[0]);
        assert(name.subrange(0, 7)[0] == "compact"@[0]);
    }
}

/// The snapshot at the head of the plan.
pub open spec fn snapshot_part(names: Set<Seq<char>>) -> Seq<Seq<char>> {
    if exists|n: Seq<char>| snapshots(names).contains(n) {
        seq![greatest(snapshots(names))]
    } else {
        Seq::empty()
    }
}

/// The plan without the active file: the snapshot and the segments.
pub open spec fn sealed_plan(names: Set<Seq<char>>) -> Seq<Seq<char>> {
    snapshot_part(names) + ascending(segments(names))
}

/// Every file of the plan but the active file is a snapshot or a sealed
/// segment among the names.
pub proof fn lemma_sealed_plan_members(names: Set<Seq<char>>, i: int)
    requires
        names.finite(),
        0 <= i < sealed_plan(names).len(),
    ensures
        names.contains(sealed_plan(names)[i]),
        is_compact(sealed_plan(names)[i]) || is_sealed(sealed_plan(names)[i]),
        sealed_plan(names)[i] != active_name(),
{
    lemma_active_is_neither();
    let head = snapshot_part(names);
    if i < head.len() {
        assert(snapshots(names).subset_of(names));
        lemma_set_subset_finite(names, snapshots(names));
        let w = choose|n: Seq<char>| snapshots(names).contains(n);
        assert(snapshots(names).len() > 0) by {
            if snapshots(names).len() == 0 {
                assert(snapshots(names) =~= Set::empty());
            }
        }
        lemma_greatest_exists(snapshots(names));
    } else {
        lemma_ascending_members(segments(names), i - head.len());
    }
}

/// Replaying files depends on the contents of those files alone.
pub proof fn lemma_replay_files_frame(
    dir: Directory,
    a: Map<Seq<char>, Seq<u8>>,
    b: Map<Seq<char>, Seq<u8>>,
    names: Seq<Seq<char>>,
)
    requires
        forall|i: int| 0 <= i < names.len() ==> a[#[trigger] names[i]] == b[names[i]],
    ensures
        replay_files(dir, a, names) == replay_files(dir, b, names),
    decreases names.len(),
{
    if names.len() > 0 {
        let rest = names.drop_first();
        assert(a[names[0]] == b[names[0]]);
        assert forall|i: int| 0 <= i < rest.len() implies a[#[trigger] rest[i]] == b[rest[i]] by {
            assert(rest[i] == names[i + 1]);
        }
        lemma_replay_files_frame(replayed(dir, names[0], a[names[0]], 0).dir, a, b, rest);
    }
}

/// Replaying files and one more is replaying the files and then that
/// one, where the files could be read to their ends.
pub proof fn lemma_replay_files_push(
    dir: Directory,
    disk: Map<Seq<char>, Seq<u8>>,
    names: Seq<Seq<char>>,
    last: Seq<char>,
)
    ensures
        replay_files(dir, disk, names.push(last)) == {
            let before = replay_files(dir, disk, names);
            if before.complete {
                replayed(before.dir, last, disk[last], 0)
            } else {
                before
            }
        },
    decreases names.len(),
{
    let all = names.push(last);
    if names.len() == 0 {
        assert(all.drop_first() =~= Seq::<Seq<char>>::empty());
        let first = replayed(dir, last, disk[last], 0);
        assert(replay_files(first.dir, disk, Seq::empty()) == Replay {
            dir: first.dir,
            complete: true,
        });
    } else {
        assert(all[0] == names[0]);
        assert(all.drop_first() =~= names.drop_first().push(last));
        lemma_replay_files_push(
            replayed(dir, names[0], disk[names[0]], 0).dir,
            disk,
            names.drop_first(),
            last,
        );
    }
}

impl Model {
    /// Whether opening a store on the files gives the key directory that
    /// the engine has.
    pub open spec fn recovers(self) -> bool {
        self.disk.dom().finite() && recovered(self.disk) == (Replay {
            dir: self.dir,
            complete: true,
        })
    }

    /// Whether the step names its file so that the names tell the ages: a
    /// sealed segment has the name of one and comes after every segment
    /// that is there; a snapshot has the name of one.
    pub open spec fn well_named(self, step: Step) -> bool {
        match step {
            Step::Rotate { name } => is_sealed(name) && forall|n: Seq<char>|
                self.disk.contains_key(n) && is_sealed(n) ==> precedes(n, name),
            Step::Compact { name, .. } => is_compact(name),
            _ => true,
        }
    }

    /// Whether each of the steps succeeds and names its file well, in the
    /// state that the steps before it lead to.
    pub open spec fn admits_all(self, steps: Seq<Step>) -> bool
        decreases steps.len(),
    {
        steps.len() == 0 || (self.permits(steps[0]) && self.well_named(steps[0]) && self.step(
            steps[0],
        ).admits_all(steps.drop_first()))
    }

    /// The store as it is after it was opened again: the files as they
    /// are, and the key directory that recovery builds from them.
    pub open spec fn reopened(self) -> Model {
        Model { dir: recovered(self.disk).dir, disk: self.disk }
    }
}

/// What the plan comes to where the active file is among the names.
proof fn lemma_plan_with_active(names: Set<Seq<char>>)
    requires
        names.contains(active_name()),
    ensures
        recovery_plan(names) == sealed_plan(names).push(active_name()),
{
    assert(recovery_plan(names) =~= sealed_plan(names).push(active_name()));
}

/// A record appended to the active file is recovered as the engine
/// applied it.
proof fn lemma_append_recovers(m: Model, entry: EntryView)
    requires
        m.inv(),
        m.recovers(),
        entry.encodable(),
    ensures
        ({
            let disk = m.disk.insert(active_name(), m.active() + entry.record());
            &&& disk.dom().finite()
            &&& recovered(disk) == Replay {
                dir: applied(m.dir, entry, active_name(), m.active().len() as int),
                complete: true,
            }
        }),
{
    let file = m.active();
    let disk = m.disk.insert(active_name(), file + entry.record());
    let names = m.disk.dom();
    let pre = sealed_plan(names);
    assert(disk.dom() =~= names);
    lemma_plan_with_active(names);
    lemma_replay_files_push(Map::empty(), m.disk, pre, active_name());
    lemma_replay_files_push(Map::empty(), disk, pre, active_name());
    assert forall|i: int| 0 <= i < pre.len() implies m.disk[#[trigger] pre[i]] == disk[pre[i]] by {
        lemma_sealed_plan_members(names, i);
    }
    lemma_replay_files_frame(Map::empty(), m.disk, disk, pre);
    let base = replay_files(Map::empty(), m.disk, pre);
    lemma_replay_append(base.dir, active_name(), file, entry, 0);
}

/// A rotation is recovered as the engine replayed it.
proof fn lemma_rotate_recovers(m: Model, name: Seq<char>)
    requires
        m.inv(),
        m.recovers(),
        m.permits(Step::Rotate { name }),
        m.well_named(Step::Rotate { name }),
    ensures
        m.rotate(name).recovers(),
{
    let file = m.active();
    let after = m.rotate(name);
    let names = m.disk.dom();
    let pre = sealed_plan(names);
    let all = after.disk.dom();
    lemma_compact_not_sealed(name);
    assert(all =~= names.insert(name));
    assert(snapshots(all) =~= snapshots(names));
    assert(segments(all) =~= segments(names).insert(name));
    assert(segments(names).subset_of(names));
    lemma_set_subset_finite(names, segments(names));
    lemma_ascending_push(segments(names), name);
    assert(sealed_plan(all) =~= pre.push(name));
    lemma_plan_with_active(names);
    lemma_plan_with_active(all);
    lemma_replay_files_push(Map::empty(), m.disk, pre, active_name());
    lemma_replay_files_push(Map::empty(), after.disk, pre.push(name), active_name());
    lemma_replay_files_push(Map::empty(), after.disk, pre, name);
    assert forall|i: int| 0 <= i < pre.len() implies m.disk[#[trigger] pre[i]]
        == after.disk[pre[i]] by {
        lemma_sealed_plan_members(names, i);
    }
    lemma_replay_files_frame(Map::empty(), m.disk, after.disk, pre);
    let base = replay_files(Map::empty(), m.disk, pre).dir;
    lemma_replay_complete(base, active_name(), base, name, file, 0);
    lemma_replay_complete(base, active_name(), m.dir, name, file, 0);
    let sealed = replayed(base, name, file, 0);
    assert(after.disk[active_name()] =~= Seq::<u8>::empty());
    assert(replayed(sealed.dir, active_name(), Seq::empty(), 0) == Replay {
        dir: sealed.dir,
        complete: true,
    });
    assert(after.dir =~= sealed.dir) by {
        assert forall|k: Seq<char>|
            (#[trigger] after.dir.contains_key(k)) == sealed.dir.contains_key(k) && (
            after.dir.contains_key(k) ==> after.dir[k] == sealed.dir[k]) by {
            if touched(file, 0, k) {
                lemma_replay_touched(m.dir, name, base, name, file, 0, k);
            } else {
                lemma_replay_untouched(m.dir, name, file, 0, k);
                lemma_replay_untouched(base, name, file, 0, k);
                lemma_replay_untouched(base, active_name(), file, 0, k);
            }
        }
    }
}

/// A compaction is recovered as the engine replayed its snapshot.
proof fn lemma_compact_recovers(m: Model, name: Seq<char>, order: Seq<Seq<char>>)
    requires
        m.inv(),
        m.recovers(),
        m.permits(Step::Compact { name, order }),
        m.well_named(Step::Compact { name, order }),
    ensures
        m.compact(name, order).recovers(),
{
    let after = m.compact(name, order);
    let text = snapshot(m.live_pairs(order));
    let all = after.disk.dom();
    lemma_compact_not_sealed(name);
    lemma_active_is_neither();
    assert(all.subset_of(m.disk.dom().insert(name).insert(active_name())));
    lemma_set_subset_finite(m.disk.dom().insert(name).insert(active_name()), all);
    assert(snapshots(all) =~= Set::<Seq<char>>::empty().insert(name));
    assert(segments(all) =~= Set::<Seq<char>>::empty());
    assert(snapshots(all).contains(name));
    lemma_precedes_irreflexive(name);
    assert(is_greatest(name, snapshots(all)));
    lemma_greatest_exists(snapshots(all));
    lemma_greatest_unique(name, greatest(snapshots(all)), snapshots(all));
    assert(ascending(segments(all)) =~= Seq::<Seq<char>>::empty());
    assert(sealed_plan(all) =~= seq![name]);
    lemma_plan_with_active(all);
    lemma_replay_files_push(Map::empty(), after.disk, seq![name], active_name());
    lemma_replay_files_push(Map::empty(), after.disk, Seq::empty(), name);
    assert(Seq::<Seq<char>>::empty().push(name) =~= seq![name]);
    lemma_step(m, Step::Compact { name, order });
    assert(after.disk[active_name()] =~= Seq::<u8>::empty());
    assert(after.disk[name] == text);
    let first = replayed(Map::empty(), name, text, 0);
    assert(replayed(first.dir, active_name(), Seq::empty(), 0) == Replay {
        dir: first.dir,
        complete: true,
    });
    assert(first.complete) by {
        assert(distinct_keys(m.live_pairs(order)));
        lemma_snapshot_replayed(name, m.live_pairs(order));
    }
}

/// A step that succeeds and names its file well is recovered as the
/// engine took it.
pub proof fn lemma_step_recovers(m: Model, step: Step)
    requires
        m.inv(),
        m.recovers(),
        m.permits(step),
        m.well_named(step),
    ensures
        m.step(step).inv(),
        m.step(step).recovers(),
{
    lemma_step(m, step);
    match step {
        Step::Put { key, value } => {
            lemma_append_recovers(m, EntryView::Put { key, value });
        },
        Step::Remove { key } => {
            lemma_append_recovers(m, EntryView::Remove { key });
        },
        Step::Rotate { name } => lemma_rotate_recovers(m, name),
        Step::Compact { name, order } => lemma_compact_recovers(m, name, order),
    }
}

/// After any steps that succeeded, opening the store again on the same
/// files gives a store that answers every get as the store that was not
/// opened again.
pub proof fn law_persistence(m: Model, steps: Seq<Step>, key: Seq<char>)
    requires
        m.inv(),
        m.recovers(),
        m.admits_all(steps),
    ensures
        m.run(steps).recovers(),
        m.run(steps).reopened() == m.run(steps),
        m.run(steps).reopened().get(key) == m.run(steps).get(key),
    decreases steps.len(),
{
    if steps.len() > 0 {
        lemma_step_recovers(m, steps[0]);
        law_persistence(m.step(steps[0]), steps.drop_first(), key);
    }
}

/// A store that was opened on an empty directory, where the active file
/// was made, is recovered as it is.
pub proof fn lemma_empty_store_recovers()
    ensures
        (Model {
            dir: Map::empty(),
            disk: Map::empty().insert(active_name(), Seq::empty()),
        }).recovers(),
{
    let m = Model { dir: Map::empty(), disk: Map::empty().insert(active_name(), Seq::empty()) };
    let names = m.disk.dom();
    lemma_active_is_neither();
    assert(names =~= Set::<Seq<char>>::empty().insert(active_name()));
    assert(segments(names) =~= Set::<Seq<char>>::empty());
    assert(ascending(segments(names)) =~= Seq::<Seq<char>>::empty());
    assert(!(exists|n: Seq<char>| snapshots(names).contains(n)));
    assert(recovery_plan(names) =~= Seq::<Seq<char>>::empty().push(active_name()));
    lemma_replay_files_push(Map::empty(), m.disk, Seq::empty(), active_name());
    assert(m.disk[active_name()] =~= Seq::<u8>::empty());
}

/// Whether each key's pointer leads into a file that is there and is not
/// the active file, to a record that sets a value for the key.
pub open spec fn settled(dir: Directory, disk: Map<Seq<char>, Seq<u8>>) -> bool {
    forall|k: Seq<char>| #[trigger]
        dir.contains_key(k) ==> {
            &&& disk.contains_key(dir[k].path)
            &&& dir[k].path != active_name()
            &&& sets_key(disk[dir[k].path], dir[k].offset as int, k)
        }
}

/// Replaying files that are there, none of them the active file, into a
/// settled directory leaves it settled.
proof fn lemma_replay_files_settled(
    dir: Directory,
    disk: Map<Seq<char>, Seq<u8>>,
    names: Seq<Seq<char>>,
)
    requires
        settled(dir, disk),
        forall|i: int|
            0 <= i < names.len() ==> disk.contains_key(#[trigger] names[i]) && names[i]
                != active_name(),
    ensures
        settled(replay_files(dir, disk, names).dir, disk),
    decreases names.len(),
{
    if names.len() > 0 {
        let name = names[0];
        let file = disk[name];
        let first = replayed(dir, name, file, 0);
        assert(disk.contains_key(name) && name != active_name());
        assert(settled(first.dir, disk)) by {
            assert forall|k: Seq<char>| #[trigger] first.dir.contains_key(k) implies {
                &&& disk.contains_key(first.dir[k].path)
                &&& first.dir[k].path != active_name()
                &&& sets_key(disk[first.dir[k].path], first.dir[k].offset as int, k)
            } by {
                if touched(file, 0, k) {
                    lemma_replay_touched(dir, name, dir, name, file, 0, k);
                    lemma_replay_points_at_put(dir, name, file, 0, k);
                } else {
                    lemma_replay_untouched(dir, name, file, 0, k);
                    assert(dir.contains_key(k));
                }
            }
        }
        let rest = names.drop_first();
        assert forall|i: int| 0 <= i < rest.len() implies disk.contains_key(#[trigger] rest[i])
            && rest[i] != active_name() by {
            assert(rest[i] == names[i + 1]);
        }
        if first.complete {
            lemma_replay_files_settled(first.dir, disk, rest);
        }
    }
}

/// A store that was opened is in order, and is recovered as it is, where
/// every file could be read to its end and the lines of the active file
/// are all ended.
pub proof fn lemma_opened(disk: Map<Seq<char>, Seq<u8>>)
    requires
        disk.dom().finite(),
        disk.contains_key(active_name()),
        terminated(disk[active_name()]),
        recovered(disk).complete,
    ensures
        (Model { dir: recovered(disk).dir, disk }).inv(),
        (Model { dir: recovered(disk).dir, disk }).recovers(),
{
    let m = Model { dir: recovered(disk).dir, disk };
    let names = disk.dom();
    let pre = sealed_plan(names);
    let file = disk[active_name()];
    lemma_plan_with_active(names);
    lemma_replay_files_push(Map::empty(), disk, pre, active_name());
    let base = replay_files(Map::empty(), disk, pre).dir;
    assert forall|i: int| 0 <= i < pre.len() implies disk.contains_key(#[trigger] pre[i])
        && pre[i] != active_name() by {
        lemma_sealed_plan_members(names, i);
    }
    lemma_replay_files_settled(Map::empty(), disk, pre);
    lemma_replay_complete(base, active_name(), m.dir, active_name(), file, 0);
    let again = replayed(m.dir, active_name(), file, 0);
    assert(again.dir =~= m.dir) by {
        assert forall|k: Seq<char>|
            (#[trigger] again.dir.contains_key(k)) == m.dir.contains_key(k) && (
            again.dir.contains_key(k) ==> again.dir[k] == m.dir[k]) by {
            if touched(file, 0, k) {
                lemma_replay_touched(m.dir, active_name(), base, active_name(), file, 0, k);
            } else {
                lemma_replay_untouched(m.dir, active_name(), file, 0, k);
            }
        }
    }
    assert forall|k: Seq<char>| #[trigger] m.dir.contains_key(k) implies {
        &&& m.disk.contains_key(m.dir[k].path)
        &&& m.dir[k].path == active_name() ==> touched(m.active(), 0, k)
        &&& sets_key(m.disk[m.dir[k].path], m.dir[k].offset as int, k)
    } by {
        if touched(file, 0, k) {
            lemma_replay_touched(base, active_name(), base, active_name(), file, 0, k);
            lemma_replay_points_at_put(base, active_name(), file, 0, k);
        } else {
            lemma_replay_untouched(base, active_name(), file, 0, k);
            assert(base.contains_key(k));
        }
    }
}

/// A name that can be sealed under beside all the files of the directory
/// makes a rotation that succeeds and is well named.
pub proof fn lemma_can_seal(m: Model, name: Seq<char>, names: Seq<String>)
    requires
        is_sealed(name),
        can_seal(name, names),
        m.disk.contains_key(active_name()),
        forall|n: Seq<char>|
            m.disk.contains_key(n) ==> exists|i: int|
                0 <= i < names.len() && (#[trigger] names[i])@ == n,
    ensures
        m.permits(Step::Rotate { name }),
        m.well_named(Step::Rotate { name }),
{
    assert forall|n: Seq<char>| m.disk.contains_key(n) implies n != name && (is_sealed(n)
        ==> precedes(n, name)) by {
        let i = choose|i: int| 0 <= i < names.len() && (#[trigger] names[i])@ == n;
        assert(names[i]@ == n);
    }
}

/// A compaction leaves one snapshot, the new one, no sealed segment, and
/// an empty active file.
pub proof fn law_compaction_leaves_one_snapshot(
    m: Model,
    name: Seq<char>,
    order: Seq<Seq<char>>,
    other: Seq<char>,
)
    requires
        is_compact(name),
    ensures
        m.compact(name, order).disk.contains_key(name),
        m.compact(name, order).active() == Seq::<u8>::empty(),
        m.compact(name, order).disk.contains_key(other) && is_compact(other) ==> other == name,
        m.compact(name, order).disk.contains_key(other) ==> !is_sealed(other),
{
    lemma_compact_not_sealed(name);
    lemma_active_is_neither();
    assert(m.compact(name, order).active() =~= Seq::<u8>::empty());
}

} // verus!
