//! Log files: records one per line, each ended by a line feed, and what
//! replaying a file does to a key directory.

use vstd::prelude::*;
use crate::bytes::{find_byte, first_at, lemma_first_at, slice_range};
use crate::entry::{decoded, Entry, EntryView};
use crate::error::{CodecFault, EngineError, ErrorView};
use crate::frame::NEWLINE;
use crate::keydir::{Directory, KeyDir, LogPointer, PointerView};

verus! {

/// The line that starts at `offset` of `file`, without the line feed that
/// ends it: the bytes up to the next line feed, or to the end of the file.
pub open spec fn line_at(file: Seq<u8>, offset: int) -> Seq<u8> {
    file.subrange(offset, first_at(file, offset, NEWLINE))
}

/// What an entry recorded at `offset` of the file `path` does to a
/// directory: a put points its key there, a remove takes its key out.
pub open spec fn applied(dir: Directory, entry: EntryView, path: Seq<char>, offset: int)
    -> Directory {
    match entry {
        EntryView::Put { key, .. } => dir.insert(key, PointerView { path, offset: offset as nat }),
        EntryView::Remove { key } => dir.remove(key),
    }
}

/// How a replay ended: the directory it left, and whether it read the file
/// to its end.
pub struct Replay {
    pub dir: Directory,
    pub complete: bool,
}

/// Replays the file `path` from `offset` on: line by line, each entry is
/// applied with the offset of its line; the first line that records no
/// entry stops the replay, with what came before it applied.
pub open spec fn replayed(dir: Directory, path: Seq<char>, file: Seq<u8>, offset: int) -> Replay
    decreases file.len() - offset,
{
    if offset < 0 || offset >= file.len() {
        Replay { dir, complete: true }
    } else {
        match decoded(line_at(file, offset)) {
            Some(entry) => {
                let end = first_at(file, offset, NEWLINE);
                let dir = applied(dir, entry, path, offset);
                if offset <= end < file.len() {
                    replayed(dir, path, file, end + 1)
                } else {
                    Replay { dir, complete: true }
                }
            },
            None => Replay { dir, complete: false },
        }
    }
}

/// Replays a whole file into the directory. On a line that records no
/// entry the scan stops with `Malformed`; the lines before it stay applied.
pub fn scan_file(dir: &mut KeyDir, path: &String, contents: &[u8]) -> (r: Result<
    (),
    EngineError,
>)
    requires
        old(dir).wf(),
    ensures
        final(dir).wf(),
        final(dir)@ == replayed(old(dir)@, path@, contents@, 0).dir,
        match r {
            Ok(_) => replayed(old(dir)@, path@, contents@, 0).complete,
            Err(e) => !replayed(old(dir)@, path@, contents@, 0).complete && e@ == ErrorView::Serde(
                CodecFault::Malformed,
            ),
        },
{
    let mut offset: usize = 0;
    while offset < contents.len()
        invariant
            dir.wf(),
            offset <= contents.len(),
            replayed(old(dir)@, path@, contents@, 0) == replayed(
                dir@,
                path@,
                contents@,
                offset as int,
            ),
        decreases contents.len() - offset,
    {
        let end = find_byte(contents, offset, NEWLINE);
        proof {
            lemma_first_at(contents@, offset as int, NEWLINE);
        }
        let line = slice_range(contents, offset, end);
        match Entry::decode(line) {
            Ok(entry) => {
                match entry {
                    Entry::Put { key, value: _ } => {
                        dir.insert(key, LogPointer::new(path.clone(), offset));
                    },
                    Entry::Remove { key } => {
                        dir.remove(&key);
                    },
                }
                if end == contents.len() {
                    offset = end;
                } else {
                    offset = end + 1;
                }
            },
            Err(e) => {
                return Err(e);
            },
        }
    }
    Ok(())
}

} // verus!
