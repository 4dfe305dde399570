//! What a replay does to a single key, and how a replay goes on when a
//! record is appended to the file.

use vstd::prelude::*;
use crate::bytes::{first_at, lemma_first_at, lemma_first_at_is};
use crate::entry::{decoded, lemma_decode_encoded, EntryView};
use crate::frame::NEWLINE;
use crate::keydir::Directory;
use crate::log::{applied, line_at, replayed, Replay};

verus! {

/// Whether a replay of `file` from `offset` on meets an entry about `key`.
pub open spec fn touched(file: Seq<u8>, offset: int, key: Seq<char>) -> bool
    decreases file.len() - offset,
{
    if offset < 0 || offset >= file.len() {
        false
    } else {
        match decoded(line_at(file, offset)) {
            Some(entry) => {
                let end = first_at(file, offset, NEWLINE);
                entry.key() == key || (offset <= end < file.len() && touched(file, end + 1, key))
            },
            None => false,
        }
    }
}

/// Whether two directories say the same of `key`.
pub open spec fn agree_at(a: Directory, b: Directory, key: Seq<char>) -> bool {
    a.contains_key(key) == b.contains_key(key) && (a.contains_key(key) ==> a[key] == b[key])
}

/// Whether every line of `file` is ended by a line feed.
pub open spec fn terminated(file: Seq<u8>) -> bool {
    file.len() == 0 || file.last() == NEWLINE
}

/// Whether a replay reads the whole file does not depend on the directory
/// it starts from, nor on the name it reads the file under.
pub proof fn lemma_replay_complete(
    d1: Directory,
    p: Seq<char>,
    d2: Directory,
    q: Seq<char>,
    file: Seq<u8>,
    offset: int,
)
    ensures
        replayed(d1, p, file, offset).complete == replayed(d2, q, file, offset).complete,
    decreases file.len() - offset,
{
    if 0 <= offset < file.len() {
        match decoded(line_at(file, offset)) {
            Some(entry) => {
                let end = first_at(file, offset, NEWLINE);
                if offset <= end < file.len() {
                    lemma_replay_complete(
                        applied(d1, entry, p, offset),
                        p,
                        applied(d2, entry, q, offset),
                        q,
                        file,
                        end + 1,
                    );
                }
            },
            None => {},
        }
    }
}

/// A replay leaves a key that it meets no entry about as it was.
pub proof fn lemma_replay_untouched(
    dir: Directory,
    path: Seq<char>,
    file: Seq<u8>,
    offset: int,
    key: Seq<char>,
)
    requires
        !touched(file, offset, key),
    ensures
        agree_at(replayed(dir, path, file, offset).dir, dir, key),
    decreases file.len() - offset,
{
    if 0 <= offset < file.len() {
        match decoded(line_at(file, offset)) {
            Some(entry) => {
                let end = first_at(file, offset, NEWLINE);
                if offset <= end < file.len() {
                    lemma_replay_untouched(
                        applied(dir, entry, path, offset),
                        path,
                        file,
                        end + 1,
                        key,
                    );
                }
            },
            None => {},
        }
    }
}

/// Two replays of one file say the same of a key that they meet an entry
/// about, whatever they started from: both leave the key out, or both
/// point it at the same offset, each in the file as it names it.
pub proof fn lemma_replay_touched(
    d1: Directory,
    p: Seq<char>,
    d2: Directory,
    q: Seq<char>,
    file: Seq<u8>,
    offset: int,
    key: Seq<char>,
)
    requires
        touched(file, offset, key),
    ensures
        replayed(d1, p, file, offset).dir.contains_key(key) == replayed(
            d2,
            q,
            file,
            offset,
        ).dir.contains_key(key),
        replayed(d1, p, file, offset).dir.contains_key(key) ==> {
            let a = replayed(d1, p, file, offset).dir[key];
            let b = replayed(d2, q, file, offset).dir[key];
            a.path == p && b.path == q && a.offset == b.offset && offset <= a.offset < file.len()
        },
    decreases file.len() - offset,
{
    let entry = decoded(line_at(file, offset))->0;
    let end = first_at(file, offset, NEWLINE);
    let e1 = applied(d1, entry, p, offset);
    let e2 = applied(d2, entry, q, offset);
    lemma_first_at(file, offset, NEWLINE);
    if offset <= end < file.len() && touched(file, end + 1, key) {
        lemma_replay_touched(e1, p, e2, q, file, end + 1, key);
    } else if offset <= end < file.len() {
        lemma_replay_untouched(e1, p, file, end + 1, key);
        lemma_replay_untouched(e2, q, file, end + 1, key);
    }
}

/// In a file whose lines are all ended, the line at an offset stays what
/// it is when more is appended to the file.
pub proof fn lemma_line_within(file: Seq<u8>, more: Seq<u8>, offset: int)
    requires
        terminated(file),
        0 <= offset < file.len(),
    ensures
        first_at(file + more, offset, NEWLINE) == first_at(file, offset, NEWLINE),
        offset <= first_at(file, offset, NEWLINE) < file.len(),
        line_at(file + more, offset) == line_at(file, offset),
{
    let end = first_at(file, offset, NEWLINE);
    lemma_first_at(file, offset, NEWLINE);
    assert(end < file.len()) by {
        if end == file.len() {
            assert(file[file.len() - 1] != NEWLINE);
        }
    }
    lemma_first_at_is(file + more, offset, NEWLINE, end);
    assert(line_at(file + more, offset) =~= line_at(file, offset));
}

/// The line of a record that was appended to a file is found where the
/// file ended.
pub proof fn lemma_line_appended(file: Seq<u8>, entry: EntryView)
    requires
        entry.encodable(),
    ensures
        first_at(file + entry.record(), file.len() as int, NEWLINE) == file.len()
            + entry.line().len(),
        line_at(file + entry.record(), file.len() as int) == entry.line(),
        decoded(line_at(file + entry.record(), file.len() as int)) == Some(entry),
{
    let all = file + entry.record();
    let line = entry.line();
    lemma_decode_encoded(entry);
    assert forall|j: int| file.len() <= j < file.len() + line.len() implies all[j]
        != NEWLINE by {
        assert(all[j] == line[j - file.len()]);
    }
    lemma_first_at_is(all, file.len() as int, NEWLINE, (file.len() + line.len()) as int);
    assert(line_at(all, file.len() as int) =~= line);
}

/// Replaying a file with one more record is replaying the file and then
/// applying the record's entry, at the offset where the file ended.
pub proof fn lemma_replay_append(
    dir: Directory,
    path: Seq<char>,
    file: Seq<u8>,
    entry: EntryView,
    offset: int,
)
    requires
        terminated(file),
        0 <= offset <= file.len(),
        entry.encodable(),
        replayed(dir, path, file, offset).complete,
    ensures
        replayed(dir, path, file + entry.record(), offset) == (Replay {
            dir: applied(replayed(dir, path, file, offset).dir, entry, path, file.len() as int),
            complete: true,
        }),
    decreases file.len() - offset,
{
    let all = file + entry.record();
    assert(all.len() == file.len() + entry.line().len() + 1);
    if offset == file.len() {
        lemma_line_appended(file, entry);
        let end = first_at(all, offset, NEWLINE);
        let next = applied(dir, entry, path, offset);
        assert(replayed(next, path, all, end + 1) == Replay { dir: next, complete: true });
        assert(replayed(dir, path, file, offset) == Replay { dir, complete: true });
    } else {
        lemma_line_within(file, entry.record(), offset);
        let e = decoded(line_at(file, offset))->0;
        let end = first_at(file, offset, NEWLINE);
        let next = applied(dir, e, path, offset);
        lemma_replay_append(next, path, file, entry, end + 1);
        assert(replayed(dir, path, file, offset) == replayed(next, path, file, end + 1));
        assert(replayed(dir, path, all, offset) == replayed(next, path, all, end + 1));
    }
}

/// A replay of a file with one more record meets an entry about a key
/// where the replay of the file does, or where the record is about it.
pub proof fn lemma_touched_append(file: Seq<u8>, entry: EntryView, offset: int, key: Seq<char>)
    requires
        terminated(file),
        0 <= offset <= file.len(),
        entry.encodable(),
        replayed(Map::empty(), Seq::empty(), file, offset).complete,
    ensures
        touched(file + entry.record(), offset, key) == (touched(file, offset, key) || entry.key()
            == key),
    decreases file.len() - offset,
{
    let all = file + entry.record();
    assert(all.len() == file.len() + entry.line().len() + 1);
    if offset == file.len() {
        lemma_line_appended(file, entry);
        let end = first_at(all, offset, NEWLINE);
        assert(!touched(all, end + 1, key));
        assert(!touched(file, offset, key));
    } else {
        lemma_line_within(file, entry.record(), offset);
        let e = decoded(line_at(file, offset))->0;
        let end = first_at(file, offset, NEWLINE);
        assert(touched(file, offset, key) == (e.key() == key || touched(file, end + 1, key)));
        assert(touched(all, offset, key) == (e.key() == key || touched(all, end + 1, key)));
        lemma_replay_complete(
            applied(Map::empty(), e, Seq::empty(), offset),
            Seq::empty(),
            Map::empty(),
            Seq::empty(),
            file,
            end + 1,
        );
        lemma_touched_append(file, entry, end + 1, key);
    }
}

/// A key that a replay meets an entry about and leaves live points at a
/// record that sets a value for it.
pub proof fn lemma_replay_points_at_put(
    dir: Directory,
    path: Seq<char>,
    file: Seq<u8>,
    offset: int,
    key: Seq<char>,
)
    requires
        touched(file, offset, key),
        replayed(dir, path, file, offset).dir.contains_key(key),
    ensures
        decoded(line_at(file, replayed(dir, path, file, offset).dir[key].offset as int)) is Some,
        decoded(
            line_at(file, replayed(dir, path, file, offset).dir[key].offset as int),
        )->0 is Put,
        decoded(
            line_at(file, replayed(dir, path, file, offset).dir[key].offset as int),
        )->0.key() == key,
    decreases file.len() - offset,
{
    let entry = decoded(line_at(file, offset))->0;
    let end = first_at(file, offset, NEWLINE);
    let next = applied(dir, entry, path, offset);
    if offset <= end < file.len() && touched(file, end + 1, key) {
        lemma_replay_points_at_put(next, path, file, end + 1, key);
    } else if offset <= end < file.len() {
        lemma_replay_untouched(next, path, file, end + 1, key);
    }
}

} // verus!
