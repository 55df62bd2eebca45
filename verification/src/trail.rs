//! Where in the tree a depth-first walk is.
//!
//! A walk that cannot read an entry often knows no more than how deep it was. The
//! directories that the walk is in tell whose entry it was.
use vstd::prelude::*;

use crate::path::{FilePath, Part};
use crate::walk::{EntryRec, WalkEntry};

verus! {

/// What a walk of the disk hands out, in the order in which it goes down the tree.
#[derive(Debug)]
pub enum Sighting {
    /// A directory, `depth` levels below the root, and whether it could be listed.
    Dir { path: FilePath, depth: usize, listed: bool },
    /// A regular file with its size, or `None` if that could not be read.
    File { path: FilePath, size: Option<u64> },
    /// Anything else, such as a symbolic link that is not followed.
    Other,
    /// Something `depth` levels below the root that could not be read.
    Failed { depth: usize },
}

/// What a walk of the disk hands out, as a mathematical value.
pub enum SightingRec {
    Dir { path: Seq<Part>, depth: usize, listed: bool },
    File { path: Seq<Part>, size: Option<u64> },
    Other,
    Failed { depth: usize },
}

impl View for Sighting {
    type V = SightingRec;

    open spec fn view(&self) -> SightingRec {
        match self {
            Sighting::Dir { path, depth, listed } => SightingRec::Dir {
                path: path@,
                depth: *depth,
                listed: *listed,
            },
            Sighting::File { path, size } => SightingRec::File { path: path@, size: *size },
            Sighting::Other => SightingRec::Other,
            Sighting::Failed { depth } => SightingRec::Failed { depth: *depth },
        }
    }
}

/// The root of a walk and the directories that the walk is in, outermost first.
#[derive(Debug)]
pub struct Trail {
    root: FilePath,
    open: Vec<FilePath>,
}

/// A trail, as a mathematical value.
#[verifier::ext_equal]
pub struct TrailRec {
    pub root: Seq<Part>,
    pub dirs: Seq<Seq<Part>>,
}

impl View for Trail {
    type V = TrailRec;

    closed spec fn view(&self) -> TrailRec {
        TrailRec { root: self.root@, dirs: crate::sort::views(self.open@) }
    }
}

impl TrailRec {
    /// The directory that what is met `depth` levels below the root is in. The root stands
    /// for the directory that it is in itself.
    pub open spec fn dir_at(self, depth: int) -> Seq<Part> {
        if 0 < depth <= self.dirs.len() {
            self.dirs[depth - 1]
        } else {
            self.root
        }
    }

    /// The trail in a directory, `depth` levels below the root.
    pub open spec fn entered(self, path: Seq<Part>, depth: int) -> TrailRec {
        let above = if depth < self.dirs.len() {
            self.dirs.take(depth)
        } else {
            self.dirs
        };
        TrailRec { dirs: above.push(path), ..self }
    }

    /// The trail after something was met.
    pub open spec fn after(self, seen: SightingRec) -> TrailRec {
        match seen {
            SightingRec::Dir { path, depth, listed } => self.entered(path, depth as int),
            _ => self,
        }
    }

    /// The entries that what was met stands for. A directory that could not be listed is an
    /// entry, and there is something in it that could not be read.
    pub open spec fn entries(self, seen: SightingRec) -> Seq<EntryRec> {
        match seen {
            SightingRec::Dir { path, depth, listed } => if listed {
                seq![EntryRec::Dir { path, depth }]
            } else {
                seq![EntryRec::Dir { path, depth }, EntryRec::Unreadable { dir: path }]
            },
            SightingRec::File { path, size } => seq![EntryRec::File { path, size }],
            SightingRec::Other => seq![EntryRec::Other],
            SightingRec::Failed { depth } => seq![
                EntryRec::Unreadable { dir: self.dir_at(depth as int) },
            ],
        }
    }

    /// Every directory of the trail is directly in the one before it, and the first is the
    /// root.
    pub open spec fn in_line(self) -> bool {
        &&& self.dirs.len() > 0 ==> self.dirs[0] == self.root
        &&& forall|i: int|
            0 < i < self.dirs.len() ==> crate::path::parent_of(#[trigger] self.dirs[i]) == Some(
                self.dirs[i - 1],
            )
    }
}

impl Trail {
    /// The trail of a walk of `root` that has not begun.
    pub fn new(root: &FilePath) -> (r: Trail)
        ensures
            r@ == (TrailRec { root: root@, dirs: Seq::empty() }),
    {
        let r = Trail { root: root.clone(), open: Vec::new() };
        assert(r@.dirs =~= Seq::<Seq<Part>>::empty());
        r
    }

    /// The directory that what is met `depth` levels below the root is in.
    fn dir_at(&self, depth: usize) -> (r: FilePath)
        ensures
            r@ == self@.dir_at(depth as int),
    {
        assert(self@.dirs.len() == self.open.len());
        if 0 < depth && depth <= self.open.len() {
            assert(self@.dirs[depth - 1] == self.open@[depth - 1]@);
            self.open[depth - 1].clone()
        } else {
            self.root.clone()
        }
    }

    /// Takes in what the walk hands out next and says which entries it stands for.
    pub fn meet(&mut self, seen: Sighting) -> (r: Vec<WalkEntry>)
        ensures
            final(self)@ == old(self)@.after(seen@),
            crate::sort::views(r@) == old(self)@.entries(seen@),
    {
        let mut out: Vec<WalkEntry> = Vec::new();
        match seen {
            Sighting::Dir { path, depth, listed } => {
                self.open.truncate(depth);
                self.open.push(path.clone());
                assert(self@.dirs =~= old(self)@.entered(path@, depth as int).dirs);
                let dir = path.clone();
                out.push(WalkEntry::Dir { path, depth });
                if !listed {
                    out.push(WalkEntry::Unreadable { dir });
                }
            },
            Sighting::File { path, size } => {
                out.push(WalkEntry::File { path, size });
            },
            Sighting::Other => {
                out.push(WalkEntry::Other);
            },
            Sighting::Failed { depth } => {
                let dir = self.dir_at(depth);
                out.push(WalkEntry::Unreadable { dir });
            },
        }
        assert(crate::sort::views(out@) =~= old(self)@.entries(seen@));
        out
    }
}

/// A walk that goes down from directory to directory stays on its trail: the directory that
/// it enters is where the entries one level further down are.
pub proof fn law_a_walk_stays_on_its_trail(t: TrailRec, path: Seq<Part>, depth: int)
    requires
        t.in_line(),
        0 <= depth <= t.dirs.len(),
        depth == 0 ==> path == t.root,
        depth > 0 ==> crate::path::parent_of(path) == Some(t.dir_at(depth)),
    ensures
        t.entered(path, depth).in_line(),
        t.entered(path, depth).dir_at(depth + 1) == path,
        forall|d: int| 0 < d <= depth ==> #[trigger] t.entered(path, depth).dir_at(d) == t.dir_at(d),
{
    let now = t.entered(path, depth);
    assert forall|i: int| 0 < i < now.dirs.len() implies crate::path::parent_of(
        #[trigger] now.dirs[i],
    ) == Some(now.dirs[i - 1]) by {
        if i < depth {
            assert(now.dirs[i] == t.dirs[i]);
            assert(now.dirs[i - 1] == t.dirs[i - 1]);
        }
    }
}

proof fn lemma_depths(t: TrailRec, i: int)
    requires
        t.in_line(),
        0 <= i < t.dirs.len(),
    ensures
        t.dirs[i].len() == t.root.len() + i,
    decreases i,
{
    if i > 0 {
        lemma_depths(t, i - 1);
        assert(crate::path::parent_of(t.dirs[i]) == Some(t.dirs[i - 1]));
    }
}

/// What could not be read counts for the directory that it is in: where that directory is on
/// the trail, it is found by the depth.
pub proof fn law_a_failed_entry_counts_where_it_is(t: TrailRec, entry: Seq<Part>, depth: usize)
    requires
        t.in_line(),
        crate::path::parent_of(entry) is Some,
        t.dirs.contains(crate::path::parent_of(entry)->0),
        entry.len() == t.root.len() + depth,
    ensures
        t.entries(SightingRec::Failed { depth }) == seq![
            EntryRec::Unreadable { dir: crate::path::parent_of(entry)->0 },
        ],
{
    let dir = crate::path::parent_of(entry)->0;
    let i = choose|i: int| 0 <= i < t.dirs.len() && t.dirs[i] == dir;
    lemma_depths(t, i);
    assert(i == depth - 1);
}

} // verus!
