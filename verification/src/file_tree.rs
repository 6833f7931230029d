//! The tree of directories and files.

use crate::prelude::{names, BackendId};
use crate::state::StateError;
use crate::text::{
    text_before, text_before_is_irreflexive, text_before_is_total, text_before_is_transitive,
    text_order, Order,
};
use vstd::prelude::*;

verus! {

/// Where a blob of data lies.
#[derive(Clone, Copy, Debug, PartialEq, Eq, PartialOrd, Ord, Hash, Structural)]
pub struct BlobLocator {
    pub backend_id: BackendId,
    pub uuid: u128,
}

/// A run of bytes of a file, and the blob that holds it.
#[derive(Clone, Copy, Debug, PartialEq, Eq, PartialOrd, Ord, Structural)]
pub struct Extent {
    pub length: u64,
    pub locator: BlobLocator,
}

/// A file: its length and the blobs that make it up.
#[derive(Debug)]
pub struct FileInode {
    pub length: u64,
    pub extents: Vec<Extent>,
}

/// What a file is made of.
pub struct FileInodeView {
    pub length: u64,
    pub extents: Seq<Extent>,
}

impl View for FileInode {
    type V = FileInodeView;

    open spec fn view(&self) -> FileInodeView {
        FileInodeView { length: self.length, extents: self.extents@ }
    }
}

impl Clone for FileInode {
    fn clone(&self) -> (copy: Self)
        ensures
            copy@ == self@,
    {
        let extents = self.extents.clone();
        proof {
            assert(extents@ =~= self.extents@);
        }
        FileInode { length: self.length, extents }
    }
}

/// A directory: entries by name, each name once, in ascending order of the names.
#[derive(Debug)]
pub struct FileTree {
    entries: Vec<(String, FileTreeEntry)>,
}

/// What a name in a directory stands for.
#[derive(Debug)]
pub enum FileTreeEntry {
    Dir(FileTree),
    File(FileInode),
}

/// What a name in a directory stands for, as mathematical data.
pub enum EntryView {
    Dir(Map<Seq<char>, EntryView>),
    File(FileInodeView),
}

/// The map that a sequence of named entries denotes.
spec fn entries_view(entries: Seq<(String, FileTreeEntry)>) -> Map<Seq<char>, EntryView>
    decreases entries,
{
    if entries.len() == 0 {
        Map::empty()
    } else {
        entries_view(entries.drop_last()).insert(
            entries.last().0@,
            entry_view(entries.last().1),
        )
    }
}

/// The value that an entry denotes.
spec fn entry_view(entry: FileTreeEntry) -> EntryView
    decreases entry,
{
    match entry {
        FileTreeEntry::Dir(tree) => EntryView::Dir(entries_view(tree.entries@)),
        FileTreeEntry::File(inode) => EntryView::File(inode@),
    }
}

/// The names ascend strictly.
spec fn ascending(entries: Seq<(String, FileTreeEntry)>) -> bool {
    forall|i: int, j: int|
        0 <= i < j < entries.len() ==> text_before(
            #[trigger] entries[i].0@,
            #[trigger] entries[j].0@,
        )
}

/// The names ascend, and every directory below is well formed.
spec fn entries_wf(entries: Seq<(String, FileTreeEntry)>) -> bool
    decreases entries,
{
    &&& ascending(entries)
    &&& forall|i: int| 0 <= i < entries.len() ==> entry_wf(#[trigger] entries[i].1)
}

/// Every directory in the entry is well formed.
spec fn entry_wf(entry: FileTreeEntry) -> bool
    decreases entry,
{
    match entry {
        FileTreeEntry::Dir(tree) => entries_wf(tree.entries@),
        FileTreeEntry::File(_) => true,
    }
}

impl View for FileTree {
    type V = Map<Seq<char>, EntryView>;

    closed spec fn view(&self) -> Map<Seq<char>, EntryView> {
        entries_view(self.entries@)
    }
}

impl View for FileTreeEntry {
    type V = EntryView;

    open spec fn view(&self) -> EntryView {
        match *self {
            FileTreeEntry::Dir(tree) => EntryView::Dir(tree@),
            FileTreeEntry::File(inode) => EntryView::File(inode@),
        }
    }
}

/// The contents of a directory: what each name in it stands for.
pub type DirView = Map<Seq<char>, EntryView>;

/// The directory that is reached from `dir` by the given names, if each of them names a
/// directory.
pub open spec fn walk(dir: DirView, path: Seq<Seq<char>>) -> Option<DirView>
    decreases path.len(),
{
    if path.len() == 0 {
        Some(dir)
    } else if dir.contains_key(path.first()) && dir[path.first()] is Dir {
        walk(dir[path.first()]->Dir_0, path.drop_first())
    } else {
        None
    }
}

/// The path without its last segment; the empty path stays empty.
pub open spec fn above(path: Seq<Seq<char>>) -> Seq<Seq<char>> {
    if path.len() == 0 {
        path
    } else {
        path.drop_last()
    }
}

/// `dir` with an entry at the given path, whose directory exists.
pub open spec fn with_entry(dir: DirView, path: Seq<Seq<char>>, entry: EntryView) -> DirView
    decreases path.len(),
{
    if path.len() <= 1 {
        dir.insert(path.first(), entry)
    } else {
        dir.insert(
            path.first(),
            EntryView::Dir(with_entry(dir[path.first()]->Dir_0, path.drop_first(), entry)),
        )
    }
}

/// `dir` without the entry at the given path, whose directory exists.
pub open spec fn without_entry(dir: DirView, path: Seq<Seq<char>>) -> DirView
    decreases path.len(),
{
    if path.len() <= 1 {
        dir.remove(path.first())
    } else {
        dir.insert(
            path.first(),
            EntryView::Dir(without_entry(dir[path.first()]->Dir_0, path.drop_first())),
        )
    }
}

proof fn lemma_entries_view(entries: Seq<(String, FileTreeEntry)>)
    requires
        ascending(entries),
    ensures
        forall|i: int|
            0 <= i < entries.len() ==> entries_view(entries).contains_key(
                #[trigger] entries[i].0@,
            ) && entries_view(entries)[entries[i].0@] == entry_view(entries[i].1),
        forall|name: Seq<char>| #[trigger]
            entries_view(entries).contains_key(name) ==> exists|i: int|
                0 <= i < entries.len() && #[trigger] entries[i].0@ == name,
    decreases entries.len(),
{
    if entries.len() > 0 {
        let rest = entries.drop_last();
        let n = entries.len() - 1;
        lemma_entries_view(rest);
        assert forall|i: int| 0 <= i < entries.len() implies entries_view(entries).contains_key(
            #[trigger] entries[i].0@,
        ) && entries_view(entries)[entries[i].0@] == entry_view(entries[i].1) by {
            if i < n {
                assert(rest[i] == entries[i]);
                assert(text_before(entries[i].0@, entries[n].0@));
                text_before_is_irreflexive(entries[i].0@);
            }
        }
        assert forall|name: Seq<char>| #[trigger]
            entries_view(entries).contains_key(name) implies exists|i: int|
            0 <= i < entries.len() && #[trigger] entries[i].0@ == name by {
            if name == entries.last().0@ {
                assert(entries[n].0@ == name);
            } else {
                assert(entries_view(rest).contains_key(name));
                let i = choose|i: int| 0 <= i < rest.len() && #[trigger] rest[i].0@ == name;
                assert(entries[i].0@ == name);
            }
        }
    }
}

/// Two ascending sequences of entries that hold the same, but for one name, denote maps that
/// differ at that name only.
proof fn lemma_same_entries_but_one(
    before: Seq<(String, FileTreeEntry)>,
    after: Seq<(String, FileTreeEntry)>,
    k: int,
    name: Seq<char>,
    entry: FileTreeEntry,
)
    requires
        ascending(before),
        ascending(after),
        0 <= k < after.len(),
        after[k].0@ == name,
        after[k].1 == entry,
        forall|i: int|
            0 <= i < before.len() && #[trigger] before[i].0@ != name ==> after.contains(before[i]),
        forall|i: int|
            0 <= i < after.len() && #[trigger] after[i].0@ != name ==> before.contains(after[i]),
    ensures
        entries_view(after) == entries_view(before).insert(name, entry_view(entry)),
{
    lemma_entries_view(before);
    lemma_entries_view(after);
    let want = entries_view(before).insert(name, entry_view(entry));
    assert forall|n: Seq<char>| entries_view(after).contains_key(n) == want.contains_key(n) && (
    want.contains_key(n) ==> entries_view(after)[n] == want[n]) by {
        if n == name {
            assert(after[k].0@ == n);
        } else {
            if entries_view(before).contains_key(n) {
                let i = choose|i: int| 0 <= i < before.len() && #[trigger] before[i].0@ == n;
                let j = after.index_of(before[i]);
                assert(after[j].0@ == n);
            }
            if entries_view(after).contains_key(n) {
                let i = choose|i: int| 0 <= i < after.len() && #[trigger] after[i].0@ == n;
                let j = before.index_of(after[i]);
                assert(before[j].0@ == n);
            }
        }
    }
    assert(entries_view(after) =~= want);
}

impl FileTree {
    /// The names ascend in this directory and in every directory below it.
    pub closed spec fn wf(self) -> bool {
        entries_wf(self.entries@)
    }

    /// The place of a name: where its entry is, or where it would have to be inserted.
    fn position(&self, name: &str) -> (place: (bool, usize))
        requires
            ascending(self.entries@),
        ensures
            place.1 <= self.entries.len(),
            place.0 ==> place.1 < self.entries.len() && self.entries[place.1 as int].0@ == name@,
            place.0 == self@.contains_key(name@),
            forall|i: int|
                0 <= i < place.1 ==> text_before(#[trigger] self.entries[i].0@, name@),
            forall|i: int|
                place.1 <= i < self.entries.len() && !(place.0 && i == place.1) ==> text_before(
                    name@,
                    #[trigger] self.entries[i].0@,
                ),
    {
        let mut low: usize = 0;
        let mut high: usize = self.entries.len();
        while low < high
            invariant
                ascending(self.entries@),
                low <= high <= self.entries.len(),
                forall|i: int| 0 <= i < low ==> text_before(#[trigger] self.entries[i].0@, name@),
                forall|i: int|
                    high <= i < self.entries.len() ==> text_before(
                        name@,
                        #[trigger] self.entries[i].0@,
                    ),
            decreases high - low,
        {
            let mid: usize = low + (high - low) / 2;
            match text_order(self.entries[mid].0.as_str(), name) {
                Order::Equal => {
                    proof {
                        lemma_entries_view(self.entries@);
                    }
                    return (true, mid);
                },
                Order::Less => {
                    proof {
                        assert forall|i: int| 0 <= i < mid + 1 implies text_before(
                            #[trigger] self.entries[i].0@,
                            name@,
                        ) by {
                            if i < mid {
                                text_before_is_transitive(
                                    self.entries[i].0@,
                                    self.entries[mid as int].0@,
                                    name@,
                                );
                            }
                        }
                    }
                    low = mid + 1;
                },
                Order::Greater => {
                    proof {
                        text_before_is_total(self.entries[mid as int].0@, name@);
                        assert forall|i: int| mid <= i < self.entries.len() implies text_before(
                            name@,
                            #[trigger] self.entries[i].0@,
                        ) by {
                            if i > mid {
                                text_before_is_transitive(
                                    name@,
                                    self.entries[mid as int].0@,
                                    self.entries[i].0@,
                                );
                            }
                        }
                    }
                    high = mid;
                },
            }
        }
        proof {
            lemma_entries_view(self.entries@);
            text_before_is_irreflexive(name@);
        }
        (false, low)
    }

    /// An empty directory.
    pub fn new() -> (tree: Self)
        ensures
            tree.wf(),
            tree@ == Map::<Seq<char>, EntryView>::empty(),
    {
        FileTree { entries: Vec::new() }
    }

    /// What a name in this directory stands for.
    pub fn get(&self, name: &str) -> (entry: Option<&FileTreeEntry>)
        requires
            self.wf(),
        ensures
            entry is Some <==> self@.contains_key(name@),
            entry matches Some(e) ==> e@ == self@[name@] && e.wf(),
    {
        let (found, at) = self.position(name);
        if found {
            proof {
                lemma_entries_view(self.entries@);
            }
            Some(&self.entries[at].1)
        } else {
            None
        }
    }

    /// Makes a name in this directory stand for `entry`, and returns what it stood for.
    pub fn insert(&mut self, name: String, entry: FileTreeEntry) -> (replaced: Option<FileTreeEntry>)
        requires
            old(self).wf(),
            entry.wf(),
        ensures
            final(self).wf(),
            final(self)@ == old(self)@.insert(name@, entry@),
            replaced is Some <==> old(self)@.contains_key(name@),
            replaced matches Some(e) ==> e@ == old(self)@[name@] && e.wf(),
    {
        let (found, at) = self.position(name.as_str());
        let ghost before = self.entries@;
        let ghost text = name@;
        let ghost added = (name, entry);
        if found {
            let replaced = self.entries.remove(at);
            self.entries.insert(at, (name, entry));
            proof {
                assert(self.entries@ =~= before.update(at as int, added));
                assert(ascending(self.entries@)) by {
                    assert forall|i: int, j: int| 0 <= i < j < self.entries@.len() implies text_before(
                        #[trigger] self.entries@[i].0@,
                        #[trigger] self.entries@[j].0@,
                    ) by {
                        assert(self.entries@[i].0@ == before[i].0@);
                        assert(self.entries@[j].0@ == before[j].0@);
                    }
                }
                lemma_entries_view(before);
                assert(self.entries@[at as int] == added);
                assert forall|i: int|
                    0 <= i < before.len() && #[trigger] before[i].0@
                        != text implies self.entries@.contains(before[i]) by {
                    assert(self.entries@[i] == before[i]);
                }
                assert forall|i: int|
                    0 <= i < self.entries@.len() && #[trigger] self.entries@[i].0@
                        != text implies before.contains(self.entries@[i]) by {
                    assert(before[i] == self.entries@[i]);
                }
                lemma_same_entries_but_one(before, self.entries@, at as int, text, added.1);
            }
            Some(replaced.1)
        } else {
            self.entries.insert(at, (name, entry));
            proof {
                lemma_entries_view(before);
                assert(ascending(self.entries@)) by {
                    assert forall|i: int, j: int| 0 <= i < j < self.entries@.len() implies text_before(
                        #[trigger] self.entries@[i].0@,
                        #[trigger] self.entries@[j].0@,
                    ) by {
                        if i < at && j > at {
                            assert(text_before(before[i].0@, before[j - 1].0@));
                        } else if i > at {
                            assert(text_before(before[i - 1].0@, before[j - 1].0@));
                        } else if j < at {
                            assert(text_before(before[i].0@, before[j].0@));
                        } else if i == at {
                            assert(text_before(text, before[j - 1].0@));
                        } else {
                            assert(text_before(before[i].0@, text));
                        }
                    }
                }
                assert(self.entries@[at as int] == added);
                assert forall|i: int|
                    0 <= i < before.len() && #[trigger] before[i].0@
                        != text implies self.entries@.contains(before[i]) by {
                    let j = if i < at { i } else { i + 1 };
                    assert(self.entries@[j] == before[i]);
                }
                assert forall|i: int|
                    0 <= i < self.entries@.len() && #[trigger] self.entries@[i].0@
                        != text implies before.contains(self.entries@[i]) by {
                    let j = if i < at { i } else { i - 1 };
                    assert(before[j] == self.entries@[i]);
                }
                lemma_same_entries_but_one(before, self.entries@, at as int, text, added.1);
            }
            None
        }
    }

    /// Takes a name out of this directory, and returns what it stood for.
    pub fn remove(&mut self, name: &str) -> (removed: Option<FileTreeEntry>)
        requires
            old(self).wf(),
        ensures
            final(self).wf(),
            final(self)@ == old(self)@.remove(name@),
            removed is Some <==> old(self)@.contains_key(name@),
            removed matches Some(e) ==> e@ == old(self)@[name@] && e.wf(),
    {
        let (found, at) = self.position(name);
        let ghost before = self.entries@;
        proof {
            lemma_entries_view(before);
        }
        if found {
            let removed = self.entries.remove(at);
            proof {
                let after = self.entries@;
                assert forall|i: int| 0 <= i < after.len() implies #[trigger] after[i] == before[if i
                    < at {
                    i
                } else {
                    i + 1
                }] by {}
                assert(ascending(after));
                lemma_entries_view(after);
                assert(entries_view(after) =~= entries_view(before).remove(name@)) by {
                    assert forall|n: Seq<char>|
                        entries_view(after).contains_key(n) == entries_view(before).remove(
                            name@,
                        ).contains_key(n) && (entries_view(after).contains_key(n)
                            ==> entries_view(after)[n] == entries_view(before)[n]) by {
                        if entries_view(after).contains_key(n) {
                            let i = choose|i: int|
                                0 <= i < after.len() && #[trigger] after[i].0@ == n;
                            let j = if i < at { i } else { i + 1 };
                            assert(before[j].0@ == n);
                            text_before_is_irreflexive(n);
                        }
                        if entries_view(before).contains_key(n) && n != name@ {
                            let i = choose|i: int|
                                0 <= i < before.len() && #[trigger] before[i].0@ == n;
                            let j = if i < at { i } else { i - 1 };
                            assert(after[j].0@ == n);
                        }
                    }
                }
            }
            Some(removed.1)
        } else {
            proof {
                assert(entries_view(before).remove(name@) =~= entries_view(before));
            }
            None
        }
    }
}

impl FileTreeEntry {
    /// Every directory in the entry is well formed.
    pub open spec fn wf(self) -> bool {
        match self {
            FileTreeEntry::Dir(tree) => tree.wf(),
            FileTreeEntry::File(_) => true,
        }
    }
}

impl Clone for FileTreeEntry {
    fn clone(&self) -> (copy: Self)
        ensures
            copy@ == self@,
            self.wf() ==> copy.wf(),
        decreases self,
    {
        match self {
            FileTreeEntry::Dir(tree) => FileTreeEntry::Dir(tree.clone()),
            FileTreeEntry::File(inode) => FileTreeEntry::File(inode.clone()),
        }
    }
}

impl Clone for FileTree {
    fn clone(&self) -> (copy: Self)
        ensures
            copy@ == self@,
            self.wf() ==> copy.wf(),
        decreases self,
    {
        let mut entries: Vec<(String, FileTreeEntry)> = Vec::new();
        let mut i: usize = 0;
        while i < self.entries.len()
            invariant
                i <= self.entries.len(),
                entries.len() == i,
                entries_view(entries@) == entries_view(self.entries@.take(i as int)),
                forall|j: int| 0 <= j < i ==> #[trigger] entries[j].0@ == self.entries[j].0@,
                forall|j: int|
                    0 <= j < i && self.entries[j].1.wf() ==> (#[trigger] entries[j]).1.wf(),
            decreases self.entries.len() - i,
        {
            let ghost done = entries@;
            let name = self.entries[i].0.clone();
            let entry = self.entries[i].1.clone();
            entries.push((name, entry));
            proof {
                assert(entries@.drop_last() =~= done);
                assert(entry_view(entries@[i as int].1) == entry_view(self.entries@[i as int].1));
                assert(self.entries@.take(i + 1).drop_last() =~= self.entries@.take(i as int));
            }
            i += 1;
        }
        proof {
            assert(self.entries@.take(i as int) =~= self.entries@);
        }
        FileTree { entries }
    }
}

/// The outcome of looking a path up: whether its directory exists, and what the last name
/// stands for in it.
pub open spec fn entry_at(dir: DirView, path: Seq<Seq<char>>) -> Result<
    Option<EntryView>,
    StateError,
> {
    match walk(dir, above(path)) {
        None => Err(StateError::BrokenPath),
        Some(parent) => if path.len() == 0 {
            Err(StateError::PathEmpty)
        } else if parent.contains_key(path.last()) {
            Ok(Some(parent[path.last()]))
        } else {
            Ok(None)
        },
    }
}

impl FileTree {
    /// The directory that holds the last segment of the path: every segment but the last is
    /// followed.
    pub fn resolve_dir(&self, path: &[String]) -> (dir: Result<&FileTree, StateError>)
        requires
            self.wf(),
        ensures
            match walk(self@, above(names(path@))) {
                Some(found) => dir matches Ok(tree) && tree@ == found && tree.wf(),
                None => dir == Err::<&FileTree, StateError>(StateError::BrokenPath),
            },
    {
        let mut cur_dir: &FileTree = self;
        let len: usize = path.len();
        let steps: usize = if len == 0 { 0 } else { len - 1 };
        let ghost way = above(names(path@));
        let mut i: usize = 0;
        proof {
            assert(way.skip(0) =~= way);
        }
        while i < steps
            invariant
                i <= steps,
                steps == (if path@.len() == 0 { 0 } else { path@.len() - 1 }),
                way == above(names(path@)),
                cur_dir.wf(),
                walk(self@, way) == walk(cur_dir@, way.skip(i as int)),
            decreases steps - i,
        {
            proof {
                assert(way.skip(i as int).first() == path@[i as int]@);
                assert(way.skip(i as int).drop_first() =~= way.skip(i + 1));
            }
            match cur_dir.get(path[i].as_str()) {
                None => {
                    return Err(StateError::BrokenPath);
                },
                Some(FileTreeEntry::File(_)) => {
                    return Err(StateError::BrokenPath);
                },
                Some(FileTreeEntry::Dir(tree)) => {
                    cur_dir = tree;
                },
            }
            i += 1;
        }
        proof {
            assert(way.skip(i as int) =~= Seq::<Seq<char>>::empty());
        }
        Ok(cur_dir)
    }

    /// What stands at a path: nothing, or an entry. Refused where the directory of the path
    /// does not exist, and for the empty path.
    pub fn resolve_dir_entry(&self, path: &[String]) -> (entry: Result<
        Option<&FileTreeEntry>,
        StateError,
    >)
        requires
            self.wf(),
        ensures
            match entry_at(self@, names(path@)) {
                Ok(Some(found)) => entry matches Ok(Some(e)) && e@ == found && e.wf(),
                Ok(None) => entry matches Ok(None),
                Err(why) => entry matches Err(e) && e == why,
            },
    {
        match self.resolve_dir(path) {
            Err(why) => Err(why),
            Ok(dir) => {
                if path.len() == 0 {
                    return Err(StateError::PathEmpty);
                }
                proof {
                    assert(names(path@).last() == path@[path@.len() - 1]@);
                }
                Ok(dir.get(path[path.len() - 1].as_str()))
            },
        }
    }

    /// Makes the last segment of the path stand for `entry`. The segments before it, from
    /// `depth` on, lead from this directory to the directory that gets the entry.
    pub fn put(&mut self, path: &[String], depth: usize, entry: FileTreeEntry)
        requires
            old(self).wf(),
            entry.wf(),
            depth < path@.len(),
            walk(old(self)@, names(path@).skip(depth as int).drop_last()) is Some,
        ensures
            final(self).wf(),
            final(self)@ == with_entry(old(self)@, names(path@).skip(depth as int), entry@),
        decreases path@.len() - depth,
    {
        let ghost rest = names(path@).skip(depth as int);
        proof {
            assert(rest.first() == path@[depth as int]@);
        }
        if depth == path.len() - 1 {
            let name = path[depth].clone();
            self.insert(name, entry);
        } else {
            proof {
                assert(rest.drop_first() =~= names(path@).skip(depth + 1));
                assert(rest.drop_last().drop_first() =~= rest.drop_first().drop_last());
                assert(rest.drop_last().first() == rest.first());
            }
            let name = path[depth].clone();
            let taken = self.remove(name.as_str());
            match taken {
                Some(FileTreeEntry::Dir(mut tree)) => {
                    tree.put(path, depth + 1, entry);
                    let ghost changed = tree@;
                    self.insert(name, FileTreeEntry::Dir(tree));
                    proof {
                        assert(self@ =~= old(self)@.insert(
                            rest.first(),
                            EntryView::Dir(changed),
                        ));
                    }
                },
                _ => {
                    assert(false);
                },
            }
        }
    }

    /// Takes the entry at the path out of its directory. The segments before the last, from
    /// `depth` on, lead from this directory to that one.
    pub fn take(&mut self, path: &[String], depth: usize)
        requires
            old(self).wf(),
            depth < path@.len(),
            walk(old(self)@, names(path@).skip(depth as int).drop_last()) is Some,
        ensures
            final(self).wf(),
            final(self)@ == without_entry(old(self)@, names(path@).skip(depth as int)),
        decreases path@.len() - depth,
    {
        let ghost rest = names(path@).skip(depth as int);
        proof {
            assert(rest.first() == path@[depth as int]@);
        }
        if depth == path.len() - 1 {
            self.remove(path[depth].as_str());
        } else {
            proof {
                assert(rest.drop_first() =~= names(path@).skip(depth + 1));
                assert(rest.drop_last().drop_first() =~= rest.drop_first().drop_last());
                assert(rest.drop_last().first() == rest.first());
            }
            let name = path[depth].clone();
            let taken = self.remove(name.as_str());
            match taken {
                Some(FileTreeEntry::Dir(mut tree)) => {
                    tree.take(path, depth + 1);
                    let ghost changed = tree@;
                    self.insert(name, FileTreeEntry::Dir(tree));
                    proof {
                        assert(self@ =~= old(self)@.insert(
                            rest.first(),
                            EntryView::Dir(changed),
                        ));
                    }
                },
                _ => {
                    assert(false);
                },
            }
        }
    }

    /// The entry that the last segment names in the directory that holds the segment before
    /// it.
    pub fn resolve_path(&self, path: &[String]) -> (entry: Result<&FileTreeEntry, StateError>)
        requires
            self.wf(),
        ensures
            match resolved(self@, names(path@)) {
                Ok(found) => entry matches Ok(e) && e@ == found && e.wf(),
                Err(why) => entry matches Err(e) && e == why,
            },
    {
        let len: usize = path.len();
        if len == 0 {
            return Err(StateError::PathEmpty);
        }
        let (most, _) = path.split_at(len - 1);
        proof {
            assert(names(most@) =~= names(path@).drop_last());
            assert(names(path@).last() == path@[len - 1]@);
        }
        match self.resolve_dir(most) {
            Err(why) => Err(why),
            Ok(tree) => match tree.get(path[len - 1].as_str()) {
                Some(entry) => Ok(entry),
                None => Err(StateError::BrokenPath),
            },
        }
    }

    /// The names in this directory and what they stand for, in ascending order of the names.
    pub fn entries(&self) -> (entries: &Vec<(String, FileTreeEntry)>)
        requires
            self.wf(),
        ensures
            forall|i: int, j: int|
                0 <= i < j < entries@.len() ==> text_before(
                    #[trigger] entries@[i].0@,
                    #[trigger] entries@[j].0@,
                ),
            forall|i: int|
                0 <= i < entries@.len() ==> self@.contains_key(#[trigger] entries@[i].0@)
                    && self@[entries@[i].0@] == entries@[i].1@ && entries@[i].1.wf(),
            forall|name: Seq<char>| #[trigger]
                self@.contains_key(name) ==> exists|i: int|
                    0 <= i < entries@.len() && #[trigger] entries@[i].0@ == name,
    {
        proof {
            lemma_entries_view(self.entries@);
        }
        &self.entries
    }
}

/// The entry that `resolve_path` finds. The last name is looked up in the directory that the
/// path without its last two segments leads to.
pub open spec fn resolved(dir: DirView, path: Seq<Seq<char>>) -> Result<EntryView, StateError> {
    if path.len() == 0 {
        Err(StateError::PathEmpty)
    } else {
        match walk(dir, above(path.drop_last())) {
            None => Err(StateError::BrokenPath),
            Some(parent) => if parent.contains_key(path.last()) {
                Ok(parent[path.last()])
            } else {
                Err(StateError::BrokenPath)
            },
        }
    }
}

/// A file is seen with its length and with all its extents, and an entry as the file or the
/// directory that it is.
pub proof fn files_are_seen_in_full(inode: FileInode, tree: FileTree)
    ensures
        inode@.length == inode.length,
        inode@.extents == inode.extents@,
        FileTreeEntry::File(inode)@ == EntryView::File(inode@),
        FileTreeEntry::Dir(tree)@ == EntryView::Dir(tree@),
{
}

} // verus!
