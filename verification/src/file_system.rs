//! The bookkeeping of the file system adapter: inode numbers, metadata
//! sources, and the sizes it answers with.

use vstd::prelude::*;

use crate::text::str_eq;

verus! {

/// One inode: its number and the path it stands for.
#[derive(Debug)]
struct Inode {
    ino: u64,
    path: String,
}

impl Inode {
    spec fn ino(&self) -> u64 {
        self.ino
    }

    spec fn path(&self) -> Seq<char> {
        self.path@
    }
}

/// The inode table: which number stands for which path, both ways.
#[derive(Debug)]
pub struct Inodes {
    counter: u64,
    entries: Vec<Inode>,
}

/// Whether some entry of `entries` has the number `ino`.
spec fn has_ino(entries: Seq<Inode>, ino: u64) -> bool {
    exists|i: int| 0 <= i < entries.len() && #[trigger] entries[i].ino() == ino
}

/// Whether some entry of `entries` has the path `path`.
spec fn has_path(entries: Seq<Inode>, path: Seq<char>) -> bool {
    exists|i: int| 0 <= i < entries.len() && #[trigger] entries[i].path() == path
}

/// The position of the entry with the number `ino`.
spec fn ino_position(entries: Seq<Inode>, ino: u64) -> int {
    choose|i: int| 0 <= i < entries.len() && #[trigger] entries[i].ino() == ino
}

/// The position of the entry with the path `path`.
spec fn path_position(entries: Seq<Inode>, path: Seq<char>) -> int {
    choose|i: int| 0 <= i < entries.len() && #[trigger] entries[i].path() == path
}

impl Inodes {
    /// The next number to hand out.
    pub closed spec fn counter(&self) -> u64 {
        self.counter
    }

    /// The path of each inode.
    pub closed spec fn paths(&self) -> Map<u64, Seq<char>> {
        Map::new(
            |ino: u64| has_ino(self.entries@, ino),
            |ino: u64| self.entries@[ino_position(self.entries@, ino)].path(),
        )
    }

    /// The inode of each path.
    pub closed spec fn numbers(&self) -> Map<Seq<char>, u64> {
        Map::new(
            |path: Seq<char>| has_path(self.entries@, path),
            |path: Seq<char>| self.entries@[path_position(self.entries@, path)].ino(),
        )
    }

    /// The invariant of the table: numbers and paths stand for each other
    /// one to one, and every number in use is below the counter.
    pub closed spec fn wf(&self) -> bool {
        &&& forall|i: int, j: int|
            0 <= i < self.entries@.len() && 0 <= j < self.entries@.len() && i != j ==> (
            #[trigger] self.entries@[i]).ino() != (#[trigger] self.entries@[j]).ino()
                && self.entries@[i].path() != self.entries@[j].path()
        &&& forall|i: int|
            0 <= i < self.entries@.len() ==> (#[trigger] self.entries@[i]).ino() < self.counter
    }

    /// In a well-formed table the two directions agree.
    pub proof fn lemma_two_ways(&self, ino: u64, path: Seq<char>)
        requires
            self.wf(),
        ensures
            (self.paths().dom().contains(ino) && self.paths()[ino] == path) <==> (
            self.numbers().dom().contains(path) && self.numbers()[path] == ino),
            self.paths().dom().contains(ino) ==> ino < self.counter(),
    {
        if self.paths().dom().contains(ino) && self.paths()[ino] == path {
            let i = ino_position(self.entries@, ino);
            assert(self.entries@[i].path() == path);
            let j = path_position(self.entries@, path);
            assert(i == j);
        }
        if self.numbers().dom().contains(path) && self.numbers()[path] == ino {
            let j = path_position(self.entries@, path);
            assert(self.entries@[j].ino() == ino);
            let i = ino_position(self.entries@, ino);
            assert(i == j);
        }
        if self.paths().dom().contains(ino) {
            let i = ino_position(self.entries@, ino);
            assert(self.entries@[i].ino() < self.counter);
        }
    }

    /// The next number is not in use.
    pub proof fn lemma_counter_unused(&self)
        requires
            self.wf(),
        ensures
            !self.paths().dom().contains(self.counter()),
    {
        if self.paths().dom().contains(self.counter()) {
            let i = ino_position(self.entries@, self.counter);
            assert(self.entries@[i].ino() < self.counter);
        }
    }

    /// An empty table whose first number is 1.
    pub fn new() -> (t: Inodes)
        ensures
            t.wf(),
            t.counter() == 1,
            t.paths() == Map::<u64, Seq<char>>::empty(),
            t.numbers() == Map::<Seq<char>, u64>::empty(),
    {
        let t = Inodes { counter: 1, entries: Vec::new() };
        assert(t.paths() =~= Map::<u64, Seq<char>>::empty());
        assert(t.numbers() =~= Map::<Seq<char>, u64>::empty());
        t
    }

    /// Whether a number is left to hand out.
    pub fn has_room(&self) -> (b: bool)
        ensures
            b == (self.counter() < u64::MAX),
    {
        self.counter < u64::MAX
    }

    fn find_path(&self, path: &str) -> (r: Option<usize>)
        ensures
            match r {
                Some(i) => i < self.entries.len() && self.entries[i as int].path() == path@,
                None => !has_path(self.entries@, path@),
            },
    {
        let mut i: usize = 0;
        while i < self.entries.len()
            invariant
                i <= self.entries.len(),
                forall|j: int| 0 <= j < i ==> self.entries[j].path() != path@,
            decreases self.entries.len() - i,
        {
            if str_eq(self.entries[i].path.as_str(), path) {
                return Some(i);
            }
            i = i + 1;
        }
        None
    }

    fn find_ino(&self, ino: u64) -> (r: Option<usize>)
        ensures
            match r {
                Some(i) => i < self.entries.len() && self.entries[i as int].ino() == ino,
                None => !has_ino(self.entries@, ino),
            },
    {
        let mut i: usize = 0;
        while i < self.entries.len()
            invariant
                i <= self.entries.len(),
                forall|j: int| 0 <= j < i ==> self.entries[j].ino() != ino,
            decreases self.entries.len() - i,
        {
            if self.entries[i].ino == ino {
                return Some(i);
            }
            i = i + 1;
        }
        None
    }

    /// Hands out the next number without binding it to a path: a handle
    /// for an open file or directory.
    pub fn next_handle(&mut self) -> (fh: u64)
        requires
            old(self).wf(),
            old(self).counter() < u64::MAX,
        ensures
            final(self).wf(),
            fh == old(self).counter(),
            final(self).counter() == old(self).counter() + 1,
            final(self).paths() == old(self).paths(),
            final(self).numbers() == old(self).numbers(),
    {
        let fh = self.counter;
        self.counter = self.counter + 1;
        fh
    }

    /// The inode of `path`, if it has one.
    pub fn get_inode(&self, path: &str) -> (r: Option<u64>)
        requires
            self.wf(),
        ensures
            match r {
                Some(ino) => self.numbers().dom().contains(path@) && self.numbers()[path@] == ino,
                None => !self.numbers().dom().contains(path@),
            },
    {
        match self.find_path(path) {
            Some(i) => {
                proof {
                    let j = path_position(self.entries@, path@);
                    assert(i == j);
                }
                Some(self.entries[i].ino)
            },
            None => None,
        }
    }

    /// The path of the inode `ino`, if it is in use.
    pub fn get_path(&self, ino: u64) -> (r: Option<&str>)
        requires
            self.wf(),
        ensures
            match r {
                Some(path) => self.paths().dom().contains(ino) && self.paths()[ino] == path@,
                None => !self.paths().dom().contains(ino),
            },
    {
        match self.find_ino(ino) {
            Some(i) => {
                proof {
                    let j = ino_position(self.entries@, ino);
                    assert(i == j);
                }
                Some(self.entries[i].path.as_str())
            },
            None => None,
        }
    }

    /// Binds the unused number `ino` to the unused path `path`.
    fn bind(&mut self, ino: u64, path: &str)
        requires
            old(self).wf(),
            ino < old(self).counter(),
            !old(self).paths().dom().contains(ino),
            !old(self).numbers().dom().contains(path@),
        ensures
            final(self).wf(),
            final(self).counter() == old(self).counter(),
            final(self).numbers() == old(self).numbers().insert(path@, ino),
            final(self).paths() == old(self).paths().insert(ino, path@),
    {
        let ghost before = *self;
        self.entries.push(Inode { ino, path: path.to_owned() });
        proof {
            let after = self.entries@;
            let n = before.entries@.len() as int;
            assert forall|a: int| 0 <= a < n implies #[trigger] after[a] == before.entries@[a] by {}
            assert forall|a: int, b: int|
                0 <= a < after.len() && 0 <= b < after.len() && a != b implies (
            #[trigger] after[a]).ino() != (#[trigger] after[b]).ino() && after[a].path()
                != after[b].path() by {
                if a < n {
                    assert(after[a] == before.entries@[a]);
                }
                if b < n {
                    assert(after[b] == before.entries@[b]);
                }
            }
            assert(self.numbers() =~= before.numbers().insert(path@, ino)) by {
                assert forall|p: Seq<char>|
                    self.numbers().dom().contains(p) <==> before.numbers().insert(
                        path@,
                        ino,
                    ).dom().contains(p) by {
                    if has_path(after, p) {
                        let a = path_position(after, p);
                        if a < n {
                            assert(before.entries@[a].path() == p);
                        }
                    }
                    if has_path(before.entries@, p) {
                        let a = path_position(before.entries@, p);
                        assert(after[a].path() == p);
                    }
                    if p == path@ {
                        assert(after[n].path() == p);
                    }
                }
                assert forall|p: Seq<char>| self.numbers().dom().contains(p) implies self.numbers()[p]
                    == before.numbers().insert(path@, ino)[p] by {
                    let a = path_position(after, p);
                    if a < n {
                        assert(after[a] == before.entries@[a]);
                        let b = path_position(before.entries@, p);
                        assert(a == b);
                    }
                }
            }
            assert(self.paths() =~= before.paths().insert(ino, path@)) by {
                assert forall|m: u64|
                    self.paths().dom().contains(m) <==> before.paths().insert(
                        ino,
                        path@,
                    ).dom().contains(m) by {
                    if has_ino(after, m) {
                        let a = ino_position(after, m);
                        if a < n {
                            assert(before.entries@[a].ino() == m);
                        }
                    }
                    if has_ino(before.entries@, m) {
                        let a = ino_position(before.entries@, m);
                        assert(after[a].ino() == m);
                    }
                    if m == ino {
                        assert(after[n].ino() == m);
                    }
                }
                assert forall|m: u64| self.paths().dom().contains(m) implies self.paths()[m]
                    == before.paths().insert(ino, path@)[m] by {
                    let a = ino_position(after, m);
                    if a < n {
                        assert(after[a] == before.entries@[a]);
                        let b = ino_position(before.entries@, m);
                        assert(a == b);
                    }
                }
            }
        }
    }

    /// Gives `path` the next number. A path that had a number loses its
    /// old one.
    pub fn add_inode(&mut self, path: &str) -> (ino: u64)
        requires
            old(self).wf(),
            old(self).counter() < u64::MAX,
        ensures
            final(self).wf(),
            ino == old(self).counter(),
            final(self).counter() == old(self).counter() + 1,
            final(self).numbers() == old(self).numbers().insert(path@, ino),
            final(self).paths() == if old(self).numbers().dom().contains(path@) {
                old(self).paths().remove(old(self).numbers()[path@]).insert(ino, path@)
            } else {
                old(self).paths().insert(ino, path@)
            },
    {
        let ghost before = *self;
        let ino = self.counter;
        proof {
            before.lemma_counter_unused();
        }
        match self.get_inode(path) {
            Some(taken) => {
                proof {
                    before.lemma_two_ways(taken, path@);
                }
                self.unregister_ino(taken);
            },
            None => {
                assert(self.paths() =~= before.paths());
            },
        }
        self.counter = self.counter + 1;
        self.bind(ino, path);
        assert(self.numbers() =~= before.numbers().insert(path@, ino));
        ino
    }

    /// Moves the inode `ino` to the path `path`: the inode keeps its
    /// number, and a number that `path` had is forgotten. An inode that is
    /// not in use stays unused.
    pub fn rename_inode(&mut self, ino: u64, path: &str)
        requires
            old(self).wf(),
        ensures
            final(self).wf(),
            final(self).counter() == old(self).counter(),
            !old(self).paths().dom().contains(ino) ==> final(self).paths() == old(self).paths()
                && final(self).numbers() == old(self).numbers(),
            old(self).paths().dom().contains(ino) ==> final(self).numbers() == old(self).numbers().remove(old(self).paths()[ino]).insert(path@, ino) && final(self).paths()
                == if old(self).numbers().dom().contains(path@) {
                old(self).paths().remove(old(self).numbers()[path@]).insert(ino, path@)
            } else {
                old(self).paths().insert(ino, path@)
            },
    {
        let ghost before = *self;
        if self.get_path(ino).is_none() {
            return ;
        }
        proof {
            before.lemma_two_ways(ino, before.paths()[ino]);
        }
        match self.get_inode(path) {
            Some(taken) => {
                proof {
                    before.lemma_two_ways(taken, path@);
                }
                if taken == ino {
                    assert(self.numbers() =~= before.numbers().remove(before.paths()[ino]).insert(
                        path@,
                        ino,
                    ));
                    assert(self.paths() =~= before.paths().remove(ino).insert(ino, path@));
                    return ;
                }
                self.unregister_ino(taken);
            },
            None => {
                assert(self.paths() =~= before.paths());
            },
        }
        let ghost middle = *self;
        proof {
            middle.lemma_two_ways(ino, before.paths()[ino]);
        }
        self.unregister_ino(ino);
        self.bind(ino, path);
        proof {
            assert(self.numbers() =~= before.numbers().remove(before.paths()[ino]).insert(
                path@,
                ino,
            ));
            if before.numbers().dom().contains(path@) {
                assert(self.paths() =~= before.paths().remove(before.numbers()[path@]).insert(
                    ino,
                    path@,
                ));
            } else {
                assert(self.paths() =~= before.paths().insert(ino, path@));
            }
        }
    }

    /// The inode of `path`: the one it has, or the next number.
    pub fn add_or_create_inode(&mut self, path: &str) -> (ino: u64)
        requires
            old(self).wf(),
            old(self).counter() < u64::MAX,
        ensures
            final(self).wf(),
            final(self).numbers().dom().contains(path@),
            final(self).numbers()[path@] == ino,
            old(self).numbers().dom().contains(path@) ==> ino == old(self).numbers()[path@]
                && final(self).numbers() == old(self).numbers() && final(self).paths() == old(self).paths() && final(self).counter() == old(self).counter(),
            !old(self).numbers().dom().contains(path@) ==> ino == old(self).counter()
                && final(self).counter() == old(self).counter() + 1 && final(self).numbers() == old(self).numbers().insert(path@, ino) && final(self).paths() == old(self).paths().insert(
                ino,
                path@,
            ),
    {
        match self.get_inode(path) {
            Some(x) => x,
            None => self.add_inode(path),
        }
    }

    /// Forgets the inode `ino` and its path.
    pub fn unregister_ino(&mut self, ino: u64)
        requires
            old(self).wf(),
        ensures
            final(self).wf(),
            final(self).counter() == old(self).counter(),
            final(self).paths() == old(self).paths().remove(ino),
            final(self).numbers() == if old(self).paths().dom().contains(ino) {
                old(self).numbers().remove(old(self).paths()[ino])
            } else {
                old(self).numbers()
            },
    {
        let ghost before = *self;
        match self.find_ino(ino) {
            None => {
                assert(self.paths() =~= before.paths().remove(ino));
            },
            Some(i) => {
                proof {
                    let j = ino_position(before.entries@, ino);
                    assert(i == j);
                }
                let _ = self.entries.remove(i);
                proof {
                    let gone = before.entries@[i as int];
                    let after = self.entries@;
                    assert forall|a: int| 0 <= a < after.len() implies #[trigger] after[a]
                        == before.entries@[if a < i {
                        a
                    } else {
                        a + 1
                    }] by {}
                    assert forall|a: int, b: int|
                        0 <= a < after.len() && 0 <= b < after.len() && a != b implies (
                    #[trigger] after[a]).ino() != (#[trigger] after[b]).ino() && after[a].path()
                        != after[b].path() by {
                        let a0 = if a < i {
                            a
                        } else {
                            a + 1
                        };
                        let b0 = if b < i {
                            b
                        } else {
                            b + 1
                        };
                        assert(after[a] == before.entries@[a0]);
                        assert(after[b] == before.entries@[b0]);
                    }
                    assert forall|a: int| 0 <= a < after.len() implies (#[trigger] after[a]).ino()
                        < self.counter by {
                        let a0 = if a < i {
                            a
                        } else {
                            a + 1
                        };
                        assert(after[a] == before.entries@[a0]);
                    }
                    assert(self.paths() =~= before.paths().remove(ino)) by {
                        assert forall|m: u64|
                            self.paths().dom().contains(m) <==> before.paths().remove(
                                ino,
                            ).dom().contains(m) by {
                            if has_ino(after, m) {
                                let a = ino_position(after, m);
                                let a0 = if a < i {
                                    a
                                } else {
                                    a + 1
                                };
                                assert(after[a] == before.entries@[a0]);
                                assert(before.entries@[a0].ino() == m);
                            }
                            if has_ino(before.entries@, m) && m != ino {
                                let b = ino_position(before.entries@, m);
                                let a = if b < i {
                                    b
                                } else {
                                    b - 1
                                };
                                assert(after[a] == before.entries@[b]);
                                assert(after[a].ino() == m);
                            }
                        }
                        assert forall|m: u64| self.paths().dom().contains(m) implies self.paths()[m]
                            == before.paths().remove(ino)[m] by {
                            let a = ino_position(after, m);
                            let a0 = if a < i {
                                a
                            } else {
                                a + 1
                            };
                            assert(after[a] == before.entries@[a0]);
                            let b = ino_position(before.entries@, m);
                            assert(a0 == b);
                        }
                    }
                    assert(before.paths()[ino] == gone.path());
                    assert(self.numbers() =~= before.numbers().remove(gone.path())) by {
                        assert forall|p: Seq<char>|
                            self.numbers().dom().contains(p) <==> before.numbers().remove(
                                gone.path(),
                            ).dom().contains(p) by {
                            if has_path(after, p) {
                                let a = path_position(after, p);
                                let a0 = if a < i {
                                    a
                                } else {
                                    a + 1
                                };
                                assert(after[a] == before.entries@[a0]);
                                assert(before.entries@[a0].path() == p);
                            }
                            if has_path(before.entries@, p) && p != gone.path() {
                                let b = path_position(before.entries@, p);
                                let a = if b < i {
                                    b
                                } else {
                                    b - 1
                                };
                                assert(after[a] == before.entries@[b]);
                                assert(after[a].path() == p);
                            }
                        }
                        assert forall|p: Seq<char>|
                            self.numbers().dom().contains(p) implies self.numbers()[p]
                            == before.numbers().remove(gone.path())[p] by {
                            let a = path_position(after, p);
                            let a0 = if a < i {
                                a
                            } else {
                                a + 1
                            };
                            assert(after[a] == before.entries@[a0]);
                            let b = path_position(before.entries@, p);
                            assert(a0 == b);
                        }
                    }
                }
            },
        }
    }
}

/// How many bytes a read of `size` bytes at `offset` gets from a file of
/// `file_size` bytes: what is left after the offset, at most `size`.
pub fn read_size(size: u32, file_size: u64, offset: u64) -> (n: u64)
    ensures
        n == if offset >= file_size {
            0
        } else if file_size - offset < size {
            file_size - offset
        } else {
            size as int
        },
{
    let left = if offset >= file_size {
        0
    } else {
        file_size - offset
    };
    if left < size as u64 {
        left
    } else {
        size as u64
    }
}

/// What a request for an extended attribute is answered with.
#[derive(Debug, Clone, Copy, PartialEq, Eq, Structural)]
pub enum XattrAnswer {
    /// The length of the value.
    Size(u32),
    /// The value itself.
    Data,
    /// The buffer offered is too small.
    Range,
}

/// Decides how to answer a request that offers `size` bytes for a value
/// of `len` bytes: a request that offers nothing asks for the length.
pub fn xattr_answer(size: u32, len: usize) -> (r: XattrAnswer)
    requires
        size == 0 ==> len <= u32::MAX,
    ensures
        r == if size == 0 {
            XattrAnswer::Size(len as u32)
        } else if len <= size {
            XattrAnswer::Data
        } else {
            XattrAnswer::Range
        },
{
    if size == 0 {
        XattrAnswer::Size(len as u32)
    } else if len <= size as usize {
        XattrAnswer::Data
    } else {
        XattrAnswer::Range
    }
}


/// Where the metadata of a file comes from.
#[derive(Debug)]
pub enum MSource {
    /// The file itself.
    Value(String),
    /// The file itself and, before it, the source with the given number.
    Parent { parent_ids: u64, own: String },
}

impl MSource {
    /// The name of the file itself.
    pub open spec fn own(&self) -> Seq<char> {
        match self {
            MSource::Value(p) => p@,
            MSource::Parent { own, .. } => own@,
        }
    }

    /// The number of the source before this one, if there is one.
    pub open spec fn before(&self) -> Option<u64> {
        match self {
            MSource::Value(_) => None,
            MSource::Parent { parent_ids, .. } => Some(*parent_ids),
        }
    }

    /// A copy of this source.
    pub fn duplicate(&self) -> (r: MSource)
        ensures
            r.own() == self.own(),
            r.before() == self.before(),
    {
        match self {
            MSource::Value(p) => MSource::Value(p.clone()),
            MSource::Parent { parent_ids, own } => MSource::Parent {
                parent_ids: *parent_ids,
                own: own.clone(),
            },
        }
    }
}

/// A file with the source of its metadata.
#[derive(Debug)]
pub struct PProgram {
    pub m_source: MSource,
}

/// The numbers that the first `n` pairs of `pairs` give their names; a
/// later pair wins.
spec fn ids_of(pairs: Seq<(String, u64)>, n: nat) -> Map<Seq<char>, u64>
    decreases n,
{
    if n == 0 || n > pairs.len() {
        Map::empty()
    } else {
        ids_of(pairs, (n - 1) as nat).insert(pairs[n - 1].0@, pairs[n - 1].1)
    }
}

proof fn lemma_ids_prefix(a: Seq<(String, u64)>, b: Seq<(String, u64)>, n: nat)
    requires
        n <= a.len(),
        n <= b.len(),
        forall|i: int| 0 <= i < n ==> a[i] == b[i],
    ensures
        ids_of(a, n) == ids_of(b, n),
    decreases n,
{
    if n > 0 {
        lemma_ids_prefix(a, b, (n - 1) as nat);
    }
}

/// Hands out numbers for metadata sources and remembers them by name.
#[derive(Debug)]
pub struct Broker {
    available_id: u64,
    id_to_metadata: Vec<MSource>,
    file_name_to_id: Vec<(String, u64)>,
}

impl Broker {
    /// The sources by number.
    pub closed spec fn sources(&self) -> Seq<MSource> {
        self.id_to_metadata@
    }

    /// The number of each name.
    pub closed spec fn ids(&self) -> Map<Seq<char>, u64> {
        ids_of(self.file_name_to_id@, self.file_name_to_id@.len())
    }

    /// The invariant of the broker: the next number is the number of
    /// sources so far.
    pub closed spec fn wf(&self) -> bool {
        self.available_id == self.id_to_metadata@.len()
    }

    /// A broker that knows no source.
    pub fn new() -> (b: Broker)
        ensures
            b.wf(),
            b.sources().len() == 0,
            b.ids() == Map::<Seq<char>, u64>::empty(),
    {
        Broker { available_id: 0, id_to_metadata: Vec::new(), file_name_to_id: Vec::new() }
    }

    /// The name of the source with the number `id`.
    pub fn get_name(&self, id: u64) -> (r: Option<&str>)
        ensures
            match r {
                Some(name) => id < self.sources().len() && name@ == self.sources()[id as int].own(),
                None => id >= self.sources().len(),
            },
    {
        if id >= self.id_to_metadata.len() as u64 {
            return None;
        }
        match &self.id_to_metadata[id as usize] {
            MSource::Value(p) => Some(p.as_str()),
            MSource::Parent { own, .. } => Some(own.as_str()),
        }
    }

    /// The number of the name `name`.
    pub fn get_id(&self, name: &str) -> (r: Option<u64>)
        ensures
            match r {
                Some(id) => self.ids().dom().contains(name@) && self.ids()[name@] == id,
                None => !self.ids().dom().contains(name@),
            },
    {
        let pairs = &self.file_name_to_id;
        let mut i: usize = pairs.len();
        while i > 0
            invariant
                i <= pairs.len(),
                pairs@ == self.file_name_to_id@,
                ids_of(pairs@, pairs@.len()).dom().contains(name@) == ids_of(
                    pairs@,
                    i as nat,
                ).dom().contains(name@),
                ids_of(pairs@, i as nat).dom().contains(name@) ==> ids_of(pairs@, pairs@.len())[name@]
                    == ids_of(pairs@, i as nat)[name@],
            decreases i,
        {
            i = i - 1;
            if str_eq(pairs[i].0.as_str(), name) {
                return Some(pairs[i].1);
            }
        }
        None
    }

    /// Whether a number is left to hand out.
    pub fn has_room(&self) -> (b: bool)
        ensures
            b == (self.sources().len() < u64::MAX),
    {
        self.id_to_metadata.len() as u64 != u64::MAX
    }

    /// Gives `program_name` the next number and records where its
    /// metadata comes from: from itself, or from itself and, before it,
    /// from `parent`. Returns `None`, and changes nothing, where `parent`
    /// has no number.
    pub fn map_name_to_id(&mut self, program_name: String, parent: Option<String>) -> (r: Option<
        MSource,
    >)
        requires
            old(self).wf(),
            old(self).sources().len() < u64::MAX,
        ensures
            final(self).wf(),
            match parent {
                Some(p) => if p@ == program_name@ || old(self).ids().dom().contains(p@) {
                    &&& r matches Some(source)
                    &&& source.own() == program_name@
                    &&& source.before() == Some(
                        if p@ == program_name@ {
                            old(self).sources().len() as u64
                        } else {
                            old(self).ids()[p@]
                        },
                    )
                } else {
                    r is None
                },
                None => r matches Some(source) && source.own() == program_name@ && source.before()
                    is None,
            },
            match r {
                Some(source) => {
                    &&& final(self).sources().len() == old(self).sources().len() + 1
                    &&& final(self).sources().last().own() == source.own()
                    &&& final(self).sources().last().before() == source.before()
                    &&& forall|i: int|
                        0 <= i < old(self).sources().len() ==> final(self).sources()[i] == old(self).sources()[i]
                    &&& final(self).ids() == old(self).ids().insert(
                        program_name@,
                        old(self).sources().len() as u64,
                    )
                },
                None => final(self).sources() == old(self).sources() && final(self).ids() == old(self).ids(),
            },
    {
        let id = self.available_id;
        let parent_id = match &parent {
            Some(p) => {
                if str_eq(p.as_str(), program_name.as_str()) {
                    Some(id)
                } else {
                    match self.get_id(p.as_str()) {
                        Some(found) => Some(found),
                        None => {
                            return None;
                        },
                    }
                }
            },
            None => None,
        };
        self.available_id = self.available_id + 1;
        let ghost pairs = self.file_name_to_id@;
        self.file_name_to_id.push((program_name.clone(), id));
        proof {
            lemma_ids_prefix(pairs, self.file_name_to_id@, pairs.len());
        }
        let source = match parent_id {
            Some(parent_ids) => MSource::Parent { parent_ids, own: program_name },
            None => MSource::Value(program_name),
        };
        let copy = source.duplicate();
        self.id_to_metadata.push(copy);
        Some(source)
    }

    /// The file `program_name` with the source of its metadata.
    pub fn get_program(&mut self, program_name: String, parent: Option<String>) -> (r: Option<
        PProgram,
    >)
        requires
            old(self).wf(),
            old(self).sources().len() < u64::MAX,
        ensures
            final(self).wf(),
            r is Some <==> (parent matches Some(p) ==> p@ == program_name@ || old(self).ids().dom().contains(p@)),
            r matches Some(program) ==> program.m_source.own() == program_name@ && final(self).sources().len() == old(self).sources().len() + 1,
            r is None ==> final(self).sources() == old(self).sources() && final(self).ids() == old(self).ids(),
    {
        match self.map_name_to_id(program_name, parent) {
            Some(m_source) => Some(PProgram { m_source }),
            None => None,
        }
    }
}

} // verus!
