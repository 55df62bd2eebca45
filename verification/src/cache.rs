//! The tree of the last complete walk, from which folders below its root are served
//! without walking again.
use vstd::prelude::*;

use crate::glob::{Options, OptionsRec};
use crate::model::TreeModel;
use crate::path::FilePath;
use crate::report::ScanReport;
use crate::tree::ScanTree;

verus! {

/// The tree of the last complete walk, plus the options it was walked with.
struct Cached {
    tree: ScanTree,
    opts: Options,
}

/// A cached tree, as a mathematical value.
pub struct CachedRec {
    pub tree: TreeModel,
    pub opts: OptionsRec,
}

/// Holds the cached scan tree, if there is one.
pub struct ScanCache {
    slot: Option<Cached>,
}

impl View for ScanCache {
    type V = Option<CachedRec>;

    closed spec fn view(&self) -> Option<CachedRec> {
        match self.slot {
            Some(c) => Some(CachedRec { tree: c.tree@, opts: c.opts@ }),
            None => None,
        }
    }
}

impl ScanCache {
    /// The cached tree is well-formed.
    pub closed spec fn wf(self) -> bool {
        match self.slot {
            Some(c) => c.tree.wf(),
            None => true,
        }
    }

    /// Nothing cached yet.
    pub fn new() -> (r: ScanCache)
        ensures
            r.wf(),
            r@ is None,
    {
        ScanCache { slot: None }
    }

    /// Whether the cached tree holds this directory.
    pub fn holds(&self, path: &FilePath) -> (r: bool)
        requires
            self.wf(),
        ensures
            r == (self@ is Some && self@->0.tree.has_dir(path@)),
    {
        match &self.slot {
            Some(c) => c.tree.contains(path),
            None => false,
        }
    }

    /// The report on `path` from the cached tree, if `path` lies in it and it was walked
    /// with the same options. `refresh` asks for a fresh walk.
    pub fn lookup(&self, path: &FilePath, opts: &Options, refresh: bool, top: usize) -> (r: Option<
        ScanReport,
    >)
        requires
            self.wf(),
        ensures
            r is Some == (!refresh && self@ is Some && self@->0.opts == opts@
                && self@->0.tree.has_dir(path@)),
            r matches Some(report) ==> self@->0.tree.is_report(path@, top as nat, report),
    {
        if refresh {
            return None;
        }
        match &self.slot {
            Some(c) => {
                if c.opts.same(opts) {
                    c.tree.report(path, top)
                } else {
                    None
                }
            },
            None => None,
        }
    }

    /// Keeps a tree. A cancelled walk is a partial view: it is never kept, and what was
    /// kept before stays. Returns whether the tree was kept.
    pub fn keep(&mut self, tree: ScanTree, opts: Options) -> (kept: bool)
        requires
            old(self).wf(),
            tree.wf(),
        ensures
            final(self).wf(),
            kept == !tree@.cancelled,
            final(self)@ == if tree@.cancelled {
                old(self)@
            } else {
                Some(CachedRec { tree: tree@, opts: opts@ })
            },
    {
        if tree.cancelled() {
            return false;
        }
        self.slot = Some(Cached { tree, opts });
        true
    }

    /// Forget the cached tree, so the next scan walks the disk again.
    pub fn invalidate(&mut self)
        ensures
            final(self).wf(),
            final(self)@ is None,
    {
        self.slot = None;
    }

    /// The scanned root that the history of `path` is about: the one that the cached tree
    /// was built from if `path` lies in it, else `path` itself.
    pub fn history_root(&self, path: &FilePath) -> (r: FilePath)
        requires
            self.wf(),
        ensures
            r@ == if self@ is Some && self@->0.tree.has_dir(path@) {
                self@->0.tree.root()
            } else {
                path@
            },
    {
        match &self.slot {
            Some(c) => {
                if c.tree.contains(path) {
                    c.tree.root().clone()
                } else {
                    path.clone()
                }
            },
            None => path.clone(),
        }
    }

    /// The directory that the cached tree was built from.
    pub fn root(&self) -> (r: Option<&FilePath>)
        requires
            self.wf(),
        ensures
            (match r {
                Some(path) => self@ is Some && path@ == self@->0.tree.root(),
                None => self@ is None,
            }),
    {
        match &self.slot {
            Some(c) => Some(c.tree.root()),
            None => None,
        }
    }

    /// The cached tree, if `path` lies in it.
    pub fn tree_with(&self, path: &FilePath) -> (r: Option<&ScanTree>)
        requires
            self.wf(),
        ensures
            (match r {
                Some(tree) => self@ is Some && tree.wf() && tree@ == self@->0.tree
                    && tree@.has_dir(path@),
                None => self@ is None || !self@->0.tree.has_dir(path@),
            }),
    {
        match &self.slot {
            Some(c) => {
                if c.tree.contains(path) {
                    Some(&c.tree)
                } else {
                    None
                }
            },
            None => None,
        }
    }

    /// After a reclaim that removed `removed` files: a real one changes files that the
    /// cached tree may hold, so the tree is dropped.
    pub fn after_reclaim(&mut self, dry_run: bool, removed: usize)
        requires
            old(self).wf(),
        ensures
            final(self).wf(),
            final(self)@ == if !dry_run && removed > 0 {
                None
            } else {
                old(self)@
            },
    {
        if !dry_run && removed > 0 {
            self.slot = None;
        }
    }

    /// After a removal of `path`. A clean one is taken out of the cached tree in place,
    /// and the disk space updated; if anything failed the tree is dropped, so that the
    /// next scan reflects the disk. A dry run changes nothing.
    pub fn after_remove(&mut self, path: &FilePath, applied: bool, clean: bool, disk: (u64, u64))
        requires
            old(self).wf(),
        ensures
            final(self).wf(),
            final(self)@ == if !applied {
                old(self)@
            } else if !clean {
                None
            } else {
                match old(self)@ {
                    Some(c) => Some(
                        CachedRec {
                            tree: TreeModel {
                                disk_total: disk.0,
                                disk_free: disk.1,
                                ..c.tree.without(path@)
                            },
                            opts: c.opts,
                        },
                    ),
                    None => None,
                }
            },
    {
        if !applied {
            return;
        }
        if !clean {
            self.slot = None;
            return;
        }
        let mut slot: Option<Cached> = None;
        std::mem::swap(&mut slot, &mut self.slot);
        match slot {
            Some(c) => {
                let Cached { mut tree, opts } = c;
                tree.remove(path);
                tree.refresh_disk_space(disk);
                self.slot = Some(Cached { tree, opts });
            },
            None => {},
        }
    }
}

} // verus!
