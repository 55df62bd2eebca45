//! A table from paths to numbers.
use std::collections::HashMap;
use vstd::prelude::*;

use crate::path::{FilePath, Part, PathPart};

verus! {

broadcast use vstd::std_specs::hash::group_hash_axioms;

spec fn mix(h: u64, x: u64) -> u64 {
    (h ^ x).wrapping_mul(0x0000_0100_0000_01b3)
}

spec fn hash_bytes(h: u64, b: Seq<u8>) -> u64
    decreases b.len(),
{
    if b.len() == 0 {
        h
    } else {
        mix(hash_bytes(h, b.drop_last()), b.last() as u64)
    }
}

spec fn hash_part(h: u64, p: Part) -> u64 {
    match p {
        Part::Prefix(b) => hash_bytes(mix(h, 256), b),
        Part::RootDir => mix(h, 257),
        Part::CurDir => mix(h, 258),
        Part::ParentDir => mix(h, 259),
        Part::Normal(b) => hash_bytes(mix(h, 260), b),
    }
}

spec fn hash_path(p: Seq<Part>) -> u64
    decreases p.len(),
{
    if p.len() == 0 {
        0xcbf2_9ce4_8422_2325
    } else {
        hash_part(hash_path(p.drop_last()), p.last())
    }
}

fn exec_mix(h: u64, x: u64) -> (r: u64)
    ensures
        r == mix(h, x),
{
    (h ^ x).wrapping_mul(0x0000_0100_0000_01b3)
}

fn exec_hash_bytes(h: u64, b: &Vec<u8>) -> (r: u64)
    ensures
        r == hash_bytes(h, b@),
{
    let mut r: u64 = h;
    let mut i: usize = 0;
    while i < b.len()
        invariant
            i <= b.len(),
            r == hash_bytes(h, b@.take(i as int)),
        decreases b.len() - i,
    {
        assert(b@.take(i + 1).drop_last() =~= b@.take(i as int));
        r = exec_mix(r, b[i] as u64);
        i += 1;
    }
    assert(b@.take(i as int) =~= b@);
    r
}

fn exec_hash_path(p: &FilePath) -> (r: u64)
    ensures
        r == hash_path(p@),
{
    let parts = p.parts();
    let mut r: u64 = 0xcbf2_9ce4_8422_2325;
    let mut i: usize = 0;
    while i < parts.len()
        invariant
            i <= parts.len(),
            crate::sort::views(parts@) == p@,
            r == hash_path(p@.take(i as int)),
        decreases parts.len() - i,
    {
        assert(p@.take(i + 1).drop_last() =~= p@.take(i as int));
        assert(p@.take(i + 1).last() == parts@[i as int]@);
        r = match &parts[i] {
            PathPart::Prefix(b) => exec_hash_bytes(exec_mix(r, 256), b),
            PathPart::RootDir => exec_mix(r, 257),
            PathPart::CurDir => exec_mix(r, 258),
            PathPart::ParentDir => exec_mix(r, 259),
            PathPart::Normal(b) => exec_hash_bytes(exec_mix(r, 260), b),
        };
        i += 1;
    }
    assert(p@.take(i as int) =~= p@);
    r
}

struct Slot {
    path: FilePath,
    id: usize,
}

/// A table from paths to numbers, with one number per path.
pub struct PathIndex {
    buckets: HashMap<u64, Vec<Slot>>,
}

spec fn holds(buckets: Map<u64, Vec<Slot>>, p: Seq<Part>, j: int) -> bool {
    &&& buckets.contains_key(hash_path(p))
    &&& 0 <= j < buckets[hash_path(p)]@.len()
    &&& buckets[hash_path(p)]@[j].path@ == p
}

impl View for PathIndex {
    type V = Map<Seq<Part>, usize>;

    closed spec fn view(&self) -> Map<Seq<Part>, usize> {
        Map::new(
            |p: Seq<Part>| exists|j: int| holds(self.buckets@, p, j),
            |p: Seq<Part>|
                self.buckets@[hash_path(p)]@[choose|j: int| holds(self.buckets@, p, j)].id,
        )
    }
}

impl PathIndex {
    /// Every slot is in the bucket of its path, and no path has two slots.
    pub closed spec fn wf(&self) -> bool {
        &&& forall|k: u64, j: int|
            self.buckets@.contains_key(k) && 0 <= j < self.buckets@[k]@.len() ==> hash_path(
                (#[trigger] self.buckets@[k]@[j]).path@,
            ) == k
        &&& forall|k: u64, i: int, j: int|
            self.buckets@.contains_key(k) && 0 <= i < j < self.buckets@[k]@.len() ==> (
            #[trigger] self.buckets@[k]@[i]).path@ != (#[trigger] self.buckets@[k]@[j]).path@
    }

    proof fn lemma_slot(&self, p: Seq<Part>, j: int)
        requires
            self.wf(),
            holds(self.buckets@, p, j),
        ensures
            self@.contains_key(p),
            self@[p] == self.buckets@[hash_path(p)]@[j].id,
    {
        let c = choose|j: int| holds(self.buckets@, p, j);
        assert(holds(self.buckets@, p, c));
        if c < j {
            assert(self.buckets@[hash_path(p)]@[c].path@ != self.buckets@[hash_path(p)]@[j].path@);
        }
        if j < c {
            assert(self.buckets@[hash_path(p)]@[j].path@ != self.buckets@[hash_path(p)]@[c].path@);
        }
    }

    /// The empty table.
    pub fn new() -> (r: PathIndex)
        ensures
            r.wf(),
            r@ == Map::<Seq<Part>, usize>::empty(),
    {
        let r = PathIndex { buckets: HashMap::new() };
        assert(r@ =~= Map::<Seq<Part>, usize>::empty());
        r
    }

    /// The number of `path`.
    pub fn get(&self, path: &FilePath) -> (r: Option<usize>)
        requires
            self.wf(),
        ensures
            (match r {
                Some(id) => self@.contains_key(path@) && self@[path@] == id,
                None => !self@.contains_key(path@),
            }),
    {
        let h: u64 = exec_hash_path(path);
        match self.buckets.get(&h) {
            None => None,
            Some(bucket) => {
                let mut i: usize = 0;
                while i < bucket.len()
                    invariant
                        i <= bucket.len(),
                        self.wf(),
                        h == hash_path(path@),
                        self.buckets@.contains_key(h),
                        self.buckets@[h] == *bucket,
                        forall|j: int| 0 <= j < i ==> (#[trigger] bucket@[j]).path@ != path@,
                    decreases bucket.len() - i,
                {
                    if bucket[i].path.same(path) {
                        proof {
                            self.lemma_slot(path@, i as int);
                        }
                        return Some(bucket[i].id);
                    }
                    i += 1;
                }
                None
            },
        }
    }

    /// Gives `path`, which has none yet, the number `id`.
    pub fn insert(&mut self, path: FilePath, id: usize)
        requires
            old(self).wf(),
            !old(self)@.contains_key(path@),
        ensures
            final(self).wf(),
            final(self)@ == old(self)@.insert(path@, id),
    {
        let h: u64 = exec_hash_path(&path);
        let ghost p = path@;
        let mut bucket: Vec<Slot> = match self.buckets.remove(&h) {
            Some(b) => b,
            None => Vec::new(),
        };
        let ghost before = bucket@;
        bucket.push(Slot { path, id });
        let ghost after = bucket@;
        self.buckets.insert(h, bucket);
        proof {
            let was = old(self).buckets@;
            let now = self.buckets@;
            assert(now =~= was.insert(h, now[h]));
            assert(now[h]@ == after);
            assert(was.contains_key(h) ==> was[h]@ == before);
            assert(!was.contains_key(h) ==> before.len() == 0);
            assert forall|j: int| 0 <= j < before.len() implies (#[trigger] before[j]).path@ != p by {
                assert(!holds(was, p, j));
            }
            assert forall|k: u64, i: int, j: int|
                now.contains_key(k) && 0 <= i < j < now[k]@.len() implies (
            #[trigger] now[k]@[i]).path@ != (#[trigger] now[k]@[j]).path@ by {
                if k == h {
                    assert(now[k]@[i] == before[i]);
                    if j < before.len() {
                        assert(now[k]@[j] == before[j]);
                        assert(was[h]@[i].path@ != was[h]@[j].path@);
                    }
                } else {
                    assert(was[k]@[i].path@ != was[k]@[j].path@);
                }
            }
            assert forall|k: u64, j: int| now.contains_key(k) && 0 <= j < now[k]@.len() implies
                hash_path((#[trigger] now[k]@[j]).path@) == k by {
                if k == h && j < before.len() {
                    assert(now[k]@[j] == was[h]@[j]);
                } else if k != h {
                    assert(hash_path(was[k]@[j].path@) == k);
                }
            }
            assert(self.wf());
            let target = old(self)@.insert(p, id);
            assert forall|q: Seq<Part>| self@.contains_key(q) == target.contains_key(q) by {
                if self@.contains_key(q) && q != p {
                    let j = choose|j: int| holds(now, q, j);
                    assert(holds(now, q, j));
                    if hash_path(q) == h {
                        assert(after[j].path@ == q);
                        assert(after[before.len() as int].path@ == p);
                        assert(j < before.len());
                    }
                    assert(holds(was, q, j));
                    old(self).lemma_slot(q, j);
                }
                if old(self)@.contains_key(q) {
                    let j = choose|j: int| holds(was, q, j);
                    assert(holds(was, q, j));
                    assert(holds(now, q, j));
                    self.lemma_slot(q, j);
                }
                assert(holds(now, p, before.len() as int));
                self.lemma_slot(p, before.len() as int);
            }
            assert forall|q: Seq<Part>| target.contains_key(q) implies self@[q] == target[q] by {
                if q == p {
                    assert(holds(now, p, before.len() as int));
                    self.lemma_slot(p, before.len() as int);
                } else {
                    let j = choose|j: int| holds(was, q, j);
                    assert(holds(was, q, j));
                    assert(holds(now, q, j));
                    old(self).lemma_slot(q, j);
                    self.lemma_slot(q, j);
                }
            }
            assert(self@ =~= target);
        }
    }

    /// Forgets `path`.
    pub fn remove(&mut self, path: &FilePath)
        requires
            old(self).wf(),
        ensures
            final(self).wf(),
            final(self)@ == old(self)@.remove(path@),
    {
        let h: u64 = exec_hash_path(path);
        let ghost p = path@;
        let ghost was = self.buckets@;
        match self.buckets.remove(&h) {
            None => {
                assert(self.buckets@ =~= was);
                assert forall|j: int| !holds(was, p, j) by {}
                assert(self@ =~= old(self)@.remove(p));
            },
            Some(b) => {
                let mut bucket = b;
                let ghost before = bucket@;
                let mut i: usize = 0;
                while i < bucket.len() && !bucket[i].path.same(path)
                    invariant
                        i <= bucket.len(),
                        bucket@ == before,
                        p == path@,
                        forall|j: int| 0 <= j < i ==> (#[trigger] before[j]).path@ != p,
                    decreases bucket.len() - i,
                {
                    i += 1;
                }
                if i < bucket.len() {
                    bucket.remove(i);
                }
                self.buckets.insert(h, bucket);
                proof {
                    assert(self.buckets@ =~= was.insert(h, self.buckets@[h]));
                    lemma_removed(*old(self), *self, h, i as int, p);
                }
            },
        }
    }
}

/// Dropping the slot of `p` from its bucket takes `p` out of the table.
proof fn lemma_removed(before: PathIndex, after: PathIndex, h: u64, i: int, p: Seq<Part>)
    requires
        before.wf(),
        h == hash_path(p),
        before.buckets@.contains_key(h),
        0 <= i <= before.buckets@[h]@.len(),
        after.buckets@ == before.buckets@.insert(h, after.buckets@[h]),
        forall|j: int| 0 <= j < i ==> (#[trigger] before.buckets@[h]@[j]).path@ != p,
        i < before.buckets@[h]@.len() ==> before.buckets@[h]@[i].path@ == p
            && after.buckets@[h]@ == before.buckets@[h]@.remove(i),
        i == before.buckets@[h]@.len() ==> after.buckets@[h]@ == before.buckets@[h]@,
    ensures
        after.wf(),
        after@ == before@.remove(p),
{
    let was = before.buckets@;
    let now = after.buckets@;
    let old_bucket = was[h]@;
    let new_bucket = now[h]@;
    assert forall|j: int| 0 <= j < new_bucket.len() implies #[trigger] new_bucket[j]
        == old_bucket[if j < i { j } else { j + 1 }] by {}
    assert(after.wf()) by {
        assert forall|k: u64, a: int, c: int|
            now.contains_key(k) && 0 <= a < c < now[k]@.len() implies (
        #[trigger] now[k]@[a]).path@ != (#[trigger] now[k]@[c]).path@ by {
            if k == h {
                let a1 = if a < i { a } else { a + 1 };
                let c1 = if c < i { c } else { c + 1 };
                assert(was[h]@[a1].path@ != was[h]@[c1].path@);
            } else {
                assert(was[k]@[a].path@ != was[k]@[c].path@);
            }
        }
        assert forall|k: u64, j: int| now.contains_key(k) && 0 <= j < now[k]@.len() implies
            hash_path((#[trigger] now[k]@[j]).path@) == k by {
            if k == h {
                let j1 = if j < i { j } else { j + 1 };
                assert(hash_path(was[h]@[j1].path@) == h);
            } else {
                assert(hash_path(was[k]@[j].path@) == k);
            }
        }
    }
    let target = before@.remove(p);
    assert forall|q: Seq<Part>| #[trigger]
        after@.contains_key(q) implies target.contains_key(q) && after@[q]
        == target[q] by {
        let j = choose|j: int| holds(now, q, j);
        assert(holds(now, q, j));
        after.lemma_slot(q, j);
        if hash_path(q) == h {
            let j1 = if j < i { j } else { j + 1 };
            assert(new_bucket[j] == old_bucket[j1]);
            assert(holds(was, q, j1));
            before.lemma_slot(q, j1);
            if q == p && j1 > i {
                assert(was[h]@[i].path@ != was[h]@[j1].path@);
            }
        } else {
            assert(holds(was, q, j));
            before.lemma_slot(q, j);
        }
    }
    assert forall|q: Seq<Part>| #[trigger]
        target.contains_key(q) implies after@.contains_key(q) by {
        let j = choose|j: int| holds(was, q, j);
        assert(holds(was, q, j));
        if hash_path(q) == h {
            let n = if j < i { j } else { j - 1 };
            assert(j != i);
            assert(new_bucket[n] == old_bucket[j]);
            assert(holds(now, q, n));
            after.lemma_slot(q, n);
        } else {
            assert(holds(now, q, j));
            after.lemma_slot(q, j);
        }
    }
    assert(after@ =~= target);
}

} // verus!
