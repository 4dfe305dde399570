//! The key directory: for each live key, where its latest record lies.

use vstd::prelude::*;

verus! {

/// The place of a record: the log file that holds it and the offset of its
/// first byte in that file.
#[derive(Debug, Clone)]
pub struct LogPointer {
    path: String,
    offset: usize,
}

/// The mathematical value of a `LogPointer`.
pub struct PointerView {
    pub path: Seq<char>,
    pub offset: nat,
}

impl View for LogPointer {
    type V = PointerView;

    open spec fn view(&self) -> PointerView {
        PointerView { path: self.spec_path()@, offset: self.spec_offset() as nat }
    }
}

impl LogPointer {
    pub closed spec fn spec_path(&self) -> String {
        self.path
    }

    pub closed spec fn spec_offset(&self) -> usize {
        self.offset
    }

    /// The pointer to the record at `offset` of the file `path`.
    pub fn new(path: String, offset: usize) -> (r: LogPointer)
        ensures
            r@ == (PointerView { path: path@, offset: offset as nat }),
    {
        LogPointer { path, offset }
    }

    /// The file that holds the record.
    pub fn path(&self) -> (r: &String)
        ensures
            r@ == self@.path,
    {
        &self.path
    }

    /// The offset of the record's first byte.
    pub fn offset(&self) -> (r: usize)
        ensures
            r == self@.offset,
    {
        self.offset
    }

    /// Whether two pointers name the same place: the same file and the
    /// same offset.
    pub fn same(&self, other: &LogPointer) -> (r: bool)
        ensures
            r == (self@ == other@),
    {
        self.offset == other.offset && self.path == other.path
    }
}

/// The mathematical value of a key directory.
pub type Directory = Map<Seq<char>, PointerView>;

/// The directory, in the order in which its keys first came in.
pub struct KeyDir {
    keys: Vec<String>,
    pointers: Vec<LogPointer>,
    model: Ghost<Directory>,
}

impl View for KeyDir {
    type V = Directory;

    closed spec fn view(&self) -> Directory {
        self.model@
    }
}

impl KeyDir {
    /// The invariant of the representation: the two vectors list the
    /// entries of the directory, each key once.
    pub closed spec fn wf(&self) -> bool {
        &&& self.keys.len() == self.pointers.len()
        &&& forall|i: int|
            0 <= i < self.keys.len() ==> self.model@.contains_key(#[trigger] self.keys[i]@)
                && self.model@[self.keys[i]@] == self.pointers[i]@
        &&& forall|k: Seq<char>|
            self.model@.contains_key(k) ==> exists|i: int|
                0 <= i < self.keys.len() && #[trigger] self.keys[i]@ == k
        &&& forall|i: int, j: int|
            0 <= i < j < self.keys.len() ==> #[trigger] self.keys[i]@ != #[trigger] self.keys[j]@
    }

    /// The keys in the order in which the directory lists them.
    pub closed spec fn order(&self) -> Seq<Seq<char>> {
        Seq::new(self.keys.len() as nat, |i: int| self.keys[i]@)
    }

    /// The empty directory.
    pub fn new() -> (r: KeyDir)
        ensures
            r.wf(),
            r@ == Map::<Seq<char>, PointerView>::empty(),
    {
        KeyDir { keys: Vec::new(), pointers: Vec::new(), model: Ghost(Map::empty()) }
    }

    fn position(&self, key: &String) -> (r: Option<usize>)
        requires
            self.wf(),
        ensures
            match r {
                Some(i) => i < self.keys.len() && self.keys[i as int]@ == key@,
                None => !self@.contains_key(key@),
            },
    {
        let mut i: usize = 0;
        while i < self.keys.len()
            invariant
                i <= self.keys.len(),
                forall|j: int| 0 <= j < i ==> self.keys[j]@ != key@,
            decreases self.keys.len() - i,
        {
            if self.keys[i] == *key {
                return Some(i);
            }
            i += 1;
        }
        None
    }

    /// The number of live keys.
    pub fn len(&self) -> (r: usize)
        requires
            self.wf(),
        ensures
            r == self.order().len(),
    {
        self.keys.len()
    }

    /// Whether the key is live.
    pub fn contains_key(&self, key: &String) -> (r: bool)
        requires
            self.wf(),
        ensures
            r == self@.contains_key(key@),
    {
        self.position(key).is_some()
    }

    /// The place of the key's latest record, if the key is live.
    pub fn get(&self, key: &String) -> (r: Option<&LogPointer>)
        requires
            self.wf(),
        ensures
            match r {
                Some(p) => self@.contains_key(key@) && self@[key@] == p@,
                None => !self@.contains_key(key@),
            },
    {
        match self.position(key) {
            Some(i) => Some(&self.pointers[i]),
            None => None,
        }
    }

    /// Points the key at a record, in place of what it pointed at before.
    pub fn insert(&mut self, key: String, pointer: LogPointer)
        requires
            old(self).wf(),
        ensures
            final(self).wf(),
            final(self)@ == old(self)@.insert(key@, pointer@),
    {
        match self.position(&key) {
            Some(i) => {
                self.pointers[i] = pointer;
                self.model = Ghost(self.model@.insert(key@, pointer@));
            },
            None => {
                self.model = Ghost(self.model@.insert(key@, pointer@));
                self.keys.push(key);
                self.pointers.push(pointer);
                assert forall|k: Seq<char>| self.model@.contains_key(k) implies exists|i: int|
                    0 <= i < self.keys.len() && #[trigger] self.keys[i]@ == k by {
                    if k == key@ {
                        assert(self.keys[self.keys.len() - 1]@ == k);
                    } else {
                        let i = choose|i: int|
                            0 <= i < old(self).keys.len() && #[trigger] old(self).keys[i]@ == k;
                        assert(self.keys[i]@ == k);
                    }
                }
            },
        }
    }

    /// Takes the key out of the directory; says whether it was live.
    pub fn remove(&mut self, key: &String) -> (r: bool)
        requires
            old(self).wf(),
        ensures
            final(self).wf(),
            final(self)@ == old(self)@.remove(key@),
            r == old(self)@.contains_key(key@),
    {
        match self.position(key) {
            Some(i) => {
                self.keys.remove(i);
                self.pointers.remove(i);
                self.model = Ghost(self.model@.remove(key@));
                assert forall|k: Seq<char>| self.model@.contains_key(k) implies exists|j: int|
                    0 <= j < self.keys.len() && #[trigger] self.keys[j]@ == k by {
                    let j = choose|j: int|
                        0 <= j < old(self).keys.len() && #[trigger] old(self).keys[j]@ == k;
                    if j < i {
                        assert(self.keys[j]@ == k);
                    } else {
                        assert(self.keys[j - 1]@ == k);
                    }
                }
                true
            },
            None => {
                assert(self.model@.remove(key@) =~= self.model@);
                false
            },
        }
    }

    /// Empties the directory.
    pub fn clear(&mut self)
        ensures
            final(self).wf(),
            final(self)@ == Map::<Seq<char>, PointerView>::empty(),
    {
        self.keys.clear();
        self.pointers.clear();
        self.model = Ghost(Map::empty());
    }

    /// The `i`-th live key and the place of its latest record.
    pub fn entry(&self, i: usize) -> (r: (&String, &LogPointer))
        requires
            self.wf(),
            i < self.order().len(),
        ensures
            r.0@ == self.order()[i as int],
            self@.contains_key(r.0@),
            self@[r.0@] == r.1@,
    {
        (&self.keys[i], &self.pointers[i])
    }

    /// The order lists each live key once, and no other.
    pub proof fn lemma_order(&self)
        requires
            self.wf(),
        ensures
            self.order().no_duplicates(),
            forall|k: Seq<char>| self.order().contains(k) <==> self@.contains_key(k),
    {
        assert forall|k: Seq<char>| self.order().contains(k) <==> self@.contains_key(k) by {
            if self.order().contains(k) {
                let i = choose|i: int| 0 <= i < self.order().len() && self.order()[i] == k;
                assert(self.keys[i]@ == k);
            }
            if self@.contains_key(k) {
                let i = choose|i: int| 0 <= i < self.keys.len() && #[trigger] self.keys[i]@ == k;
                assert(self.order()[i] == k);
            }
        }
    }
}

} // verus!
