//! Recovery: which files of a directory are replayed when a store is
//! opened, and in which order.

use vstd::prelude::*;
use vstd::set_lib::lemma_set_subset_finite;
use crate::error::{CodecFault, EngineError, ErrorView};
use crate::keydir::{Directory, KeyDir};
use crate::log::{replayed, scan_file, Replay};
use crate::names::{
    active_file, active_name, comes_before, is_compact, is_sealed, names_compact, names_sealed,
    precedes,
};
use crate::order::{
    ascending, greatest, is_greatest, is_least, least, lemma_greatest_unique, lemma_least_exists,
    lemma_least_unique, lemma_precedes_irreflexive,
    lemma_precedes_total, lemma_precedes_transitive,
};

verus! {

/// A file of a store's directory, read whole.
#[derive(Debug, Clone)]
pub struct LogFile {
    pub name: String,
    pub contents: Vec<u8>,
}

/// The contents of the files by their names. Of two files by one name
/// the later counts.
pub open spec fn disk_of(files: Seq<LogFile>) -> Map<Seq<char>, Seq<u8>>
    decreases files.len(),
{
    if files.len() == 0 {
        Map::empty()
    } else {
        disk_of(files.drop_last()).insert(files.last().name@, files.last().contents@)
    }
}

/// The snapshots among the names.
pub open spec fn snapshots(names: Set<Seq<char>>) -> Set<Seq<char>> {
    Set::new(|n: Seq<char>| names.contains(n) && is_compact(n))
}

/// The sealed segments among the names.
pub open spec fn segments(names: Set<Seq<char>>) -> Set<Seq<char>> {
    Set::new(|n: Seq<char>| names.contains(n) && is_sealed(n))
}

/// The files that are replayed when a store is opened, in their order:
/// the newest snapshot, which is the one whose name is the greatest; then
/// the sealed segments by their names, ascending; then the active file.
pub open spec fn recovery_plan(names: Set<Seq<char>>) -> Seq<Seq<char>> {
    (if exists|n: Seq<char>| snapshots(names).contains(n) {
        seq![greatest(snapshots(names))]
    } else {
        Seq::empty()
    }) + ascending(segments(names)) + (if names.contains(active_name()) {
        seq![active_name()]
    } else {
        Seq::empty()
    })
}

/// Replays the named files one after the other; a file that is not read
/// to its end stops the replay.
pub open spec fn replay_files(
    dir: Directory,
    disk: Map<Seq<char>, Seq<u8>>,
    names: Seq<Seq<char>>,
) -> Replay
    decreases names.len(),
{
    if names.len() == 0 {
        Replay { dir, complete: true }
    } else {
        let first = replayed(dir, names[0], disk[names[0]], 0);
        if first.complete {
            replay_files(first.dir, disk, names.drop_first())
        } else {
            first
        }
    }
}

/// The key directory that opening a store on the files gives, and
/// whether every file could be read to its end.
pub open spec fn recovered(disk: Map<Seq<char>, Seq<u8>>) -> Replay {
    replay_files(Map::empty(), disk, recovery_plan(disk.dom()))
}

/// The files have a finite set of names; a name is among them exactly
/// where a file has it, and its contents are those of the last such file.
pub proof fn lemma_disk_of(files: Seq<LogFile>)
    ensures
        disk_of(files).dom().finite(),
        forall|n: Seq<char>|
            disk_of(files).contains_key(n) <==> exists|i: int|
                0 <= i < files.len() && #[trigger] files[i].name@ == n,
        forall|i: int|
            0 <= i < files.len() && (forall|j: int|
                i < j < files.len() ==> (#[trigger] files[j]).name@ != files[i].name@)
                ==> disk_of(files)[(#[trigger] files[i]).name@] == files[i].contents@,
    decreases files.len(),
{
    if files.len() > 0 {
        let init = files.drop_last();
        lemma_disk_of(init);
        assert forall|n: Seq<char>| disk_of(files).contains_key(n) <==> exists|i: int|
            0 <= i < files.len() && #[trigger] files[i].name@ == n by {
            if disk_of(files).contains_key(n) {
                if n == files.last().name@ {
                    assert(files[files.len() - 1].name@ == n);
                } else {
                    let i = choose|i: int| 0 <= i < init.len() && #[trigger] init[i].name@ == n;
                    assert(files[i].name@ == n);
                }
            }
            if exists|i: int| 0 <= i < files.len() && #[trigger] files[i].name@ == n {
                let i = choose|i: int| 0 <= i < files.len() && #[trigger] files[i].name@ == n;
                if i < init.len() {
                    assert(init[i].name@ == n);
                }
            }
        }
        assert forall|i: int|
            0 <= i < files.len() && (forall|j: int|
                i < j < files.len() ==> (#[trigger] files[j]).name@ != files[i].name@) implies
            disk_of(files)[(#[trigger] files[i]).name@] == files[i].contents@ by {
            if i < init.len() {
                assert(files[files.len() - 1].name@ != files[i].name@);
                assert(init[i] == files[i]);
                assert forall|j: int| i < j < init.len() implies (#[trigger] init[j]).name@
                    != init[i].name@ by {
                    assert(init[j] == files[j]);
                }
            }
        }
    }
}

/// The sealed segments among the names that come after `after`; all of
/// them where `after` is `None`.
pub open spec fn remaining(names: Set<Seq<char>>, after: Option<Seq<char>>) -> Set<Seq<char>> {
    Set::new(
        |n: Seq<char>|
            names.contains(n) && is_sealed(n) && (after is None || precedes(after->0, n)),
    )
}

/// The mathematical value of a name that may be there.
pub open spec fn name_view(name: Option<String>) -> Option<Seq<char>> {
    match name {
        Some(n) => Some(n@),
        None => None,
    }
}

fn find_last(files: &Vec<LogFile>, name: &String) -> (r: Option<usize>)
    ensures
        match r {
            Some(i) => i < files.len() && files[i as int].name@ == name@ && forall|j: int|
                i < j < files.len() ==> (#[trigger] files[j]).name@ != name@,
            None => forall|j: int| 0 <= j < files.len() ==> (#[trigger] files[j]).name@ != name@,
        },
{
    let mut i: usize = files.len();
    while i > 0
        invariant
            i <= files.len(),
            forall|j: int| i <= j < files.len() ==> (#[trigger] files[j]).name@ != name@,
        decreases i,
    {
        i -= 1;
        if files[i].name == *name {
            return Some(i);
        }
    }
    None
}

fn newest_snapshot(files: &Vec<LogFile>) -> (r: Option<usize>)
    ensures
        match r {
            Some(i) => i < files.len() && is_greatest(
                files[i as int].name@,
                snapshots(disk_of(files@).dom()),
            ),
            None => forall|n: Seq<char>| !snapshots(disk_of(files@).dom()).contains(n),
        },
{
    let mut best: Option<usize> = None;
    let mut i: usize = 0;
    while i < files.len()
        invariant
            i <= files.len(),
            match best {
                Some(b) => b < i && is_compact(files[b as int].name@) && forall|j: int|
                    0 <= j < i && is_compact((#[trigger] files[j]).name@) ==> !precedes(
                        files[b as int].name@,
                        files[j].name@,
                    ),
                None => forall|j: int| 0 <= j < i ==> !is_compact((#[trigger] files[j]).name@),
            },
        decreases files.len() - i,
    {
        if names_compact(files[i].name.as_str()) {
            let better = match best {
                Some(b) => comes_before(files[b].name.as_str(), files[i].name.as_str()),
                None => true,
            };
            if better {
                proof {
                    lemma_precedes_irreflexive(files[i as int].name@);
                    if best is Some {
                        let b = best->0 as int;
                        assert forall|j: int|
                            0 <= j < i && is_compact((#[trigger] files[j]).name@) implies !precedes(
                            files[i as int].name@,
                            files[j].name@,
                        ) by {
                            if precedes(files[i as int].name@, files[j].name@) {
                                lemma_precedes_transitive(
                                    files[b].name@,
                                    files[i as int].name@,
                                    files[j].name@,
                                );
                            }
                        }
                    }
                }
                best = Some(i);
            }
        }
        i += 1;
    }
    proof {
        lemma_disk_of(files@);
    }
    best
}

fn next_segment(files: &Vec<LogFile>, after: &Option<String>) -> (r: Option<usize>)
    ensures
        match r {
            Some(i) => i < files.len() && is_least(
                files[i as int].name@,
                remaining(disk_of(files@).dom(), name_view(*after)),
            ),
            None => forall|n: Seq<char>|
                !remaining(disk_of(files@).dom(), name_view(*after)).contains(n),
        },
{
    let ghost names = disk_of(files@).dom();
    let ghost rest = remaining(names, name_view(*after));
    let mut best: Option<usize> = None;
    let mut i: usize = 0;
    proof {
        lemma_disk_of(files@);
    }
    while i < files.len()
        invariant
            i <= files.len(),
            names == disk_of(files@).dom(),
            rest == remaining(names, name_view(*after)),
            forall|j: int| 0 <= j < files.len() ==> names.contains((#[trigger] files[j]).name@),
            match best {
                Some(b) => b < i && rest.contains(files[b as int].name@) && forall|j: int|
                    0 <= j < i && rest.contains((#[trigger] files[j]).name@) ==> !precedes(
                        files[j].name@,
                        files[b as int].name@,
                    ),
                None => forall|j: int| 0 <= j < i ==> !rest.contains((#[trigger] files[j]).name@),
            },
        decreases files.len() - i,
    {
        let name = files[i].name.as_str();
        let later = match after {
            Some(a) => comes_before(a.as_str(), name),
            None => true,
        };
        if later && names_sealed(name) {
            let better = match best {
                Some(b) => comes_before(name, files[b].name.as_str()),
                None => true,
            };
            if better {
                proof {
                    lemma_precedes_irreflexive(files[i as int].name@);
                    if best is Some {
                        let b = best->0 as int;
                        assert forall|j: int|
                            0 <= j < i && rest.contains((#[trigger] files[j]).name@) implies !precedes(
                            files[j].name@,
                            files[i as int].name@,
                        ) by {
                            if precedes(files[j].name@, files[i as int].name@) {
                                lemma_precedes_transitive(
                                    files[j].name@,
                                    files[i as int].name@,
                                    files[b].name@,
                                );
                            }
                        }
                    }
                }
                best = Some(i);
            }
        }
        i += 1;
    }
    best
}

/// The active file's place at the end of the plan.
pub open spec fn active_part(names: Set<Seq<char>>) -> Seq<Seq<char>> {
    if names.contains(active_name()) {
        seq![active_name()]
    } else {
        Seq::empty()
    }
}

/// Taking the least of the remaining segments leaves those that come
/// after it.
proof fn lemma_remaining_step(names: Set<Seq<char>>, after: Option<Seq<char>>, l: Seq<char>)
    requires
        is_least(l, remaining(names, after)),
    ensures
        remaining(names, after).remove(l) == remaining(names, Some(l)),
{
    let rest = remaining(names, after);
    assert forall|n: Seq<char>| rest.remove(l).contains(n) == remaining(names, Some(l)).contains(
        n,
    ) by {
        lemma_precedes_irreflexive(l);
        if rest.contains(n) && n != l {
            lemma_precedes_total(l, n);
        }
        if precedes(l, n) && after is Some {
            lemma_precedes_transitive(after->0, l, n);
        }
    }
    assert(rest.remove(l) =~= remaining(names, Some(l)));
}

/// A replay of files begins with the replay of the first.
proof fn lemma_replay_files_first(
    dir: Directory,
    disk: Map<Seq<char>, Seq<u8>>,
    order: Seq<Seq<char>>,
    rest: Seq<Seq<char>>,
)
    requires
        order.len() > 0,
        order.drop_first() == rest,
    ensures
        replay_files(dir, disk, order) == {
            let first = replayed(dir, order[0], disk[order[0]], 0);
            if first.complete {
                replay_files(first.dir, disk, rest)
            } else {
                first
            }
        },
{
}

fn replay_one(dir: &mut KeyDir, files: &Vec<LogFile>, name: &String) -> (r: Result<
    (),
    EngineError,
>)
    requires
        old(dir).wf(),
        disk_of(files@).contains_key(name@),
    ensures
        final(dir).wf(),
        final(dir)@ == replayed(old(dir)@, name@, disk_of(files@)[name@], 0).dir,
        match r {
            Ok(_) => replayed(old(dir)@, name@, disk_of(files@)[name@], 0).complete,
            Err(e) => !replayed(old(dir)@, name@, disk_of(files@)[name@], 0).complete && e@
                == ErrorView::Serde(CodecFault::Malformed),
        },
{
    proof {
        lemma_disk_of(files@);
    }
    match find_last(files, name) {
        Some(at) => scan_file(dir, name, files[at].contents.as_slice()),
        None => {
            proof {
                let i = choose|i: int| 0 <= i < files.len() && #[trigger] files[i].name@ == name@;
                assert(files[i].name@ == name@);
            }
            Ok(())
        },
    }
}

/// Replays the files of a directory into a new key directory, in the
/// order of the recovery plan. On a line that records no entry the replay
/// stops with `Malformed`; what came before it stays applied.
pub fn recover(files: &Vec<LogFile>) -> (r: (KeyDir, Result<(), EngineError>))
    ensures
        r.0.wf(),
        r.0@ == recovered(disk_of(files@)).dir,
        match r.1 {
            Ok(_) => recovered(disk_of(files@)).complete,
            Err(e) => !recovered(disk_of(files@)).complete && e@ == ErrorView::Serde(
                CodecFault::Malformed,
            ),
        },
{
    let ghost disk = disk_of(files@);
    let ghost names = disk.dom();
    let ghost plan = recovery_plan(names);
    let ghost tail = active_part(names);
    proof {
        lemma_disk_of(files@);
    }
    let mut dir = KeyDir::new();
    match newest_snapshot(files) {
        Some(i) => {
            let name = &files[i].name;
            proof {
                assert(snapshots(names).contains(name@));
                lemma_greatest_unique(name@, greatest(snapshots(names)), snapshots(names));
                assert(plan[0] == name@);
                assert(plan.drop_first() =~= ascending(segments(names)) + tail);
                lemma_replay_files_first(
                    Map::empty(),
                    disk,
                    plan,
                    ascending(segments(names)) + tail,
                );
            }
            match replay_one(&mut dir, files, name) {
                Ok(_) => {},
                Err(e) => {
                    return (dir, Err(e));
                },
            }
        },
        None => {
            proof {
                assert(plan =~= ascending(segments(names)) + tail);
            }
        },
    }
    let mut after: Option<String> = None;
    let mut more: bool = true;
    proof {
        assert(remaining(names, None) =~= segments(names));
    }
    while more
        invariant
            dir.wf(),
            disk == disk_of(files@),
            names == disk.dom(),
            names.finite(),
            tail == active_part(names),
            recovered(disk) == replay_files(
                dir@,
                disk,
                if more {
                    ascending(remaining(names, name_view(after))) + tail
                } else {
                    tail
                },
            ),
        decreases
                remaining(names, name_view(after)).len(),
                if more {
                    1int
                } else {
                    0int
                },
    {
        let ghost rest = remaining(names, name_view(after));
        let ghost before = dir@;
        proof {
            assert(rest.subset_of(names));
            lemma_set_subset_finite(names, rest);
        }
        match next_segment(files, &after) {
            Some(i) => {
                let name = files[i].name.clone();
                proof {
                    lemma_least_exists(rest);
                    lemma_least_unique(name@, least(rest), rest);
                    lemma_remaining_step(names, name_view(after), name@);
                    let order = ascending(rest) + tail;
                    let next = ascending(remaining(names, Some(name@))) + tail;
                    assert(ascending(rest) == seq![name@] + ascending(rest.remove(name@)));
                    assert(order[0] == name@);
                    assert(order.drop_first() =~= next);
                    lemma_replay_files_first(before, disk, order, next);
                }
                match replay_one(&mut dir, files, &name) {
                    Ok(_) => {},
                    Err(e) => {
                        return (dir, Err(e));
                    },
                }
                after = Some(name);
            },
            None => {
                proof {
                    assert(rest =~= Set::<Seq<char>>::empty());
                    assert(ascending(rest) + tail =~= tail);
                }
                more = false;
            },
        }
    }
    let active = active_file();
    if find_last(files, &active).is_some() {
        proof {
            assert(tail[0] == active_name());
            assert(tail.drop_first() =~= Seq::<Seq<char>>::empty());
            lemma_replay_files_first(dir@, disk, tail, Seq::empty());
        }
        match replay_one(&mut dir, files, &active) {
            Ok(_) => (dir, Ok(())),
            Err(e) => (dir, Err(e)),
        }
    } else {
        proof {
            assert(tail =~= Seq::<Seq<char>>::empty());
        }
        (dir, Ok(()))
    }
}

} // verus!
