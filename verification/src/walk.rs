//! Enumerating a directory tree: the files below a root, and the root's own subdirectories.
//!
//! The walk never touches the file system itself. It names the path to look at next and is
//! told what was found there.

use vstd::prelude::*;
use crate::path::{copy_name, RelPath};
use crate::path_set::{views, PathSet};

verus! {

/// What was found at a path.
#[derive(Debug, PartialEq, Eq)]
pub enum Probe {
    /// A directory, with the names of the entries that could be read.
    Directory(Vec<Vec<u8>>),
    /// A directory that could not be listed.
    Unreadable,
    /// A regular file.
    File,
    /// Anything else, or nothing.
    Other,
}

/// What a path holds, as plain values.
pub enum Node {
    Directory(Seq<Seq<u8>>),
    Unreadable,
    File,
    Other,
}

impl View for Probe {
    type V = Node;

    open spec fn view(&self) -> Node {
        match self {
            Probe::Directory(names) => Node::Directory(names@.map_values(|n: Vec<u8>| n@)),
            Probe::Unreadable => Node::Unreadable,
            Probe::File => Node::File,
            Probe::Other => Node::Other,
        }
    }
}

/// The paths one name below `parent`, one for each of `names`, in their order.
pub open spec fn children(parent: Seq<Seq<u8>>, names: Seq<Seq<u8>>) -> Seq<Seq<Seq<u8>>> {
    Seq::new(names.len(), |i: int| parent.push(names[i]))
}

/// A walk under way, as plain values: the paths still to be looked at, the last one first,
/// and the files found so far.
pub struct WalkState {
    pub pending: Seq<Seq<Seq<u8>>>,
    pub files: Set<Seq<Seq<u8>>>,
}

impl WalkState {
    /// A walk that has only its root to look at.
    pub open spec fn start() -> WalkState {
        WalkState { pending: seq![Seq::<Seq<u8>>::empty()], files: Set::empty() }
    }

    /// The walk after `found` was seen at the last pending path: a directory's entries become
    /// pending, a file joins the files, anything else is passed over. With nothing pending the
    /// walk stays as it is.
    pub open spec fn advance(self, found: Node) -> WalkState {
        if self.pending.len() == 0 {
            self
        } else {
            let path = self.pending.last();
            let rest = self.pending.drop_last();
            match found {
                Node::Directory(names) => WalkState {
                    pending: rest + children(path, names),
                    files: self.files,
                },
                Node::File => WalkState { pending: rest, files: self.files.insert(path) },
                _ => WalkState { pending: rest, files: self.files },
            }
        }
    }
}

/// A walk of one tree, from its root down.
pub struct Walker {
    pending: Vec<RelPath>,
    files: PathSet,
}

impl View for Walker {
    type V = WalkState;

    closed spec fn view(&self) -> WalkState {
        WalkState { pending: views(self.pending@), files: self.files@ }
    }
}

impl Walker {
    /// A walk about to look at the root.
    pub fn new() -> (walker: Walker)
        ensures
            walker@ == WalkState::start(),
    {
        let mut pending: Vec<RelPath> = Vec::new();
        pending.push(RelPath::root());
        let walker = Walker { pending, files: PathSet::new() };
        assert(walker@.pending =~= WalkState::start().pending);
        walker
    }

    /// The path to look at next; none when the walk is over.
    pub fn current(&self) -> (next: Option<&RelPath>)
        ensures
            (match next {
                Some(path) => self@.pending.len() > 0 && path@ == self@.pending.last(),
                None => self@.pending.len() == 0,
            }),
    {
        let n = self.pending.len();
        if n == 0 {
            None
        } else {
            Some(&self.pending[n - 1])
        }
    }

    /// Takes what was found at the current path.
    pub fn advance(&mut self, found: Probe)
        ensures
            final(self)@ == old(self)@.advance(found@),
    {
        let ghost before = self@;
        match self.pending.pop() {
            None => {},
            Some(path) => {
                assert(views(self.pending@) =~= before.pending.drop_last());
                assert(path@ == before.pending.last());
                match found {
                    Probe::Directory(names) => {
                        let ghost rest = views(self.pending@);
                        let ghost below = children(path@, names@.map_values(|n: Vec<u8>| n@));
                        let mut i: usize = 0;
                        while i < names.len()
                            invariant
                                i <= names.len(),
                                below == children(path@, names@.map_values(|n: Vec<u8>| n@)),
                                views(self.pending@) == rest + below.take(i as int),
                                self.files@ == before.files,
                            decreases names.len() - i,
                        {
                            let ghost earlier = views(self.pending@);
                            let child = path.child(&names[i]);
                            assert(child@ == below[i as int]);
                            self.pending.push(child);
                            assert(views(self.pending@) =~= earlier.push(below[i as int]));
                            assert(below.take(i + 1) =~= below.take(i as int).push(
                                below[i as int],
                            ));
                            i = i + 1;
                        }
                        assert(below.take(names.len() as int) =~= below);
                    },
                    Probe::File => {
                        self.files.insert(path);
                    },
                    _ => {},
                }
            },
        }
    }

    /// Ends the walk and gives the files found.
    pub fn finish(self) -> (files: PathSet)
        ensures
            files@ == self@.files,
    {
        self.files
    }
}

/// An entry of a directory.
#[derive(Debug, PartialEq, Eq)]
pub struct Entry {
    pub name: Vec<u8>,
    pub is_dir: bool,
}

/// The one-name paths of the entries that are directories.
pub open spec fn subdirectories(entries: Seq<Entry>) -> Set<Seq<Seq<u8>>> {
    Set::new(
        |p: Seq<Seq<u8>>|
            exists|i: int|
                0 <= i < entries.len() && entries[i].is_dir && p == seq![#[trigger] entries[i].name@],
    )
}

/// The immediate subdirectories of a root, from the listing of its entries. A root that
/// could not be listed has none.
pub fn direct_subdirs(listing: &Option<Vec<Entry>>) -> (dirs: PathSet)
    ensures
        dirs@ == (match listing {
            Some(entries) => subdirectories(entries@),
            None => Set::<Seq<Seq<u8>>>::empty(),
        }),
{
    let mut dirs = PathSet::new();
    match listing {
        None => {},
        Some(entries) => {
            let mut i: usize = 0;
            while i < entries.len()
                invariant
                    i <= entries.len(),
                    dirs@ == subdirectories(entries@.take(i as int)),
                decreases entries.len() - i,
            {
                let ghost earlier = entries@.take(i as int);
                let ghost now = entries@.take(i + 1);
                if entries[i].is_dir {
                    dirs.insert(RelPath::single(copy_name(&entries[i].name)));
                }
                proof {
                    assert forall|p: Seq<Seq<u8>>| dirs@.contains(p) <==> subdirectories(
                        now,
                    ).contains(p) by {
                        if subdirectories(earlier).contains(p) {
                            let j = choose|j: int|
                                0 <= j < earlier.len() && earlier[j].is_dir && p == seq![
                                    #[trigger] earlier[j].name@,
                                ];
                            assert(now[j].is_dir && p == seq![now[j].name@]);
                        }
                        if entries[i as int].is_dir && p == seq![entries[i as int].name@] {
                            assert(now[i as int].is_dir && p == seq![now[i as int].name@]);
                        }
                        if subdirectories(now).contains(p) {
                            let j = choose|j: int|
                                0 <= j < now.len() && now[j].is_dir && p == seq![
                                    #[trigger] now[j].name@,
                                ];
                            if j < i {
                                assert(earlier[j].is_dir && p == seq![earlier[j].name@]);
                            }
                        }
                    }
                    assert(dirs@ =~= subdirectories(now));
                }
                i = i + 1;
            }
            assert(entries@.take(entries.len() as int) =~= entries@);
        },
    }
    dirs
}

/// `path` can be reached from the root of `tree`, which says what each path holds: every path
/// above it is a listed directory that holds the next name on the way.
pub open spec fn reachable(tree: spec_fn(Seq<Seq<u8>>) -> Node, path: Seq<Seq<u8>>) -> bool
    decreases path.len(),
{
    if path.len() == 0 {
        true
    } else {
        &&& reachable(tree, path.drop_last())
        &&& tree(path.drop_last()) matches Node::Directory(names) && names.contains(path.last())
    }
}

/// The files of a tree: the paths that hold a regular file and can be reached from the root
/// through listed directory entries.
pub open spec fn files_of(tree: spec_fn(Seq<Seq<u8>>) -> Node) -> Set<Seq<Seq<u8>>> {
    Set::new(|p: Seq<Seq<u8>>| reachable(tree, p) && tree(p) is File)
}

/// A walk of `tree` is on course: the files found are finitely many files of the tree, every
/// pending path can be reached, and every file of the tree not found yet is a pending path or
/// lies below one.
pub open spec fn on_course(tree: spec_fn(Seq<Seq<u8>>) -> Node, walk: WalkState) -> bool {
    &&& walk.files.finite()
    &&& walk.files.subset_of(files_of(tree))
    &&& forall|i: int| 0 <= i < walk.pending.len() ==> reachable(tree, #[trigger] walk.pending[i])
    &&& forall|f: Seq<Seq<u8>>| #[trigger]
        files_of(tree).contains(f) && !walk.files.contains(f) ==> exists|i: int|
            0 <= i < walk.pending.len() && (#[trigger] walk.pending[i]).is_prefix_of(f)
}

/// The path `k` names down the way to a reachable path is reachable, and a listed directory
/// that holds the next name.
proof fn lemma_way_down(tree: spec_fn(Seq<Seq<u8>>) -> Node, path: Seq<Seq<u8>>, k: int)
    requires
        reachable(tree, path),
        0 <= k < path.len(),
    ensures
        reachable(tree, path.take(k)),
        tree(path.take(k)) matches Node::Directory(names) && names.contains(path[k]),
    decreases path.len(),
{
    if k == path.len() - 1 {
        assert(path.take(k) =~= path.drop_last());
    } else {
        lemma_way_down(tree, path.drop_last(), k);
        assert(path.drop_last().take(k) =~= path.take(k));
    }
}

/// A walk starts on course.
pub proof fn lemma_walk_starts_on_course(tree: spec_fn(Seq<Seq<u8>>) -> Node)
    ensures
        on_course(tree, WalkState::start()),
{
    let walk = WalkState::start();
    assert forall|f: Seq<Seq<u8>>| #[trigger]
        files_of(tree).contains(f) && !walk.files.contains(f) implies exists|i: int|
        0 <= i < walk.pending.len() && (#[trigger] walk.pending[i]).is_prefix_of(f) by {
        assert(walk.pending[0].is_prefix_of(f));
    }
}

/// A walk that is told what the tree holds at the current path stays on course.
pub proof fn lemma_walk_stays_on_course(tree: spec_fn(Seq<Seq<u8>>) -> Node, walk: WalkState)
    requires
        on_course(tree, walk),
        walk.pending.len() > 0,
    ensures
        on_course(tree, walk.advance(tree(walk.pending.last()))),
{
    let path = walk.pending.last();
    let rest = walk.pending.drop_last();
    let found = tree(path);
    let next = walk.advance(found);
    assert(reachable(tree, path));
    assert forall|i: int| 0 <= i < next.pending.len() implies reachable(
        tree,
        #[trigger] next.pending[i],
    ) by {
        if i < rest.len() {
            assert(next.pending[i] == walk.pending[i]);
        } else {
            let names = found->Directory_0;
            let j = i - rest.len();
            let child = path.push(names[j]);
            assert(next.pending[i] == child);
            assert(child.drop_last() =~= path);
            assert(names.contains(names[j]));
        }
    }
    assert forall|f: Seq<Seq<u8>>| #[trigger]
        files_of(tree).contains(f) && !next.files.contains(f) implies exists|i: int|
        0 <= i < next.pending.len() && (#[trigger] next.pending[i]).is_prefix_of(f) by {
        let i = choose|i: int|
            0 <= i < walk.pending.len() && (#[trigger] walk.pending[i]).is_prefix_of(f);
        if i < rest.len() {
            assert(next.pending[i] == walk.pending[i]);
        } else {
            assert(path.is_prefix_of(f));
            if f.len() == path.len() {
                assert(f =~= path);
            } else {
                lemma_way_down(tree, f, path.len() as int);
                assert(f.take(path.len() as int) =~= path);
                let names = found->Directory_0;
                let j = choose|j: int| 0 <= j < names.len() && names[j] == f[path.len() as int];
                let child = path.push(names[j]);
                assert(next.pending[rest.len() + j] == child);
                assert(child.is_prefix_of(f)) by {
                    assert(child =~= f.take(path.len() as int + 1));
                }
            }
        }
    }
}

/// A walk on course that has nothing left to look at has found exactly the files of the tree.
pub proof fn lemma_finished_walk_is_complete(tree: spec_fn(Seq<Seq<u8>>) -> Node, walk: WalkState)
    requires
        on_course(tree, walk),
        walk.pending.len() == 0,
    ensures
        walk.files == files_of(tree),
{
    assert(walk.files =~= files_of(tree));
}

} // verus!
