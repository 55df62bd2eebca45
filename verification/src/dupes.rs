//! Groups of byte-identical files.
//!
//! Files are probed in stages so that no more is read than must be: files of one size
//! first, then one path per physical file, then the digest of the first block, then
//! the digest of the whole content. What is read at each stage is kept in a [`Probe`].
use std::collections::HashMap;

use vstd::prelude::*;

use crate::path::{FilePath, Part};
use crate::progress::Progress;
use crate::report::FileEntry;

verus! {

/// A file and what has been found out about it so far.
#[derive(Debug)]
pub struct Probe {
    pub path: FilePath,
    pub size: u64,
    /// A number for the physical file, the same for all hard links to it; `None` if it
    /// could not be read.
    pub id: Option<u64>,
    /// The digest of the first block, if it has been read.
    pub prefix: Option<[u8; 32]>,
    /// The digest of the whole content, if it has been read.
    pub digest: Option<[u8; 32]>,
}

/// A probed file, as a mathematical value.
#[verifier::ext_equal]
pub struct ProbeRec {
    pub path: Seq<Part>,
    pub size: u64,
    pub id: Option<u64>,
    pub prefix: Option<Seq<u8>>,
    pub digest: Option<Seq<u8>>,
}

/// The bytes of a digest that may be missing.
pub open spec fn digest_view(d: Option<[u8; 32]>) -> Option<Seq<u8>> {
    match d {
        Some(d) => Some(d@),
        None => None,
    }
}

impl View for Probe {
    type V = ProbeRec;

    open spec fn view(&self) -> ProbeRec {
        ProbeRec {
            path: self.path@,
            size: self.size,
            id: self.id,
            prefix: digest_view(self.prefix),
            digest: digest_view(self.digest),
        }
    }
}

impl Probe {
    /// A file of which nothing but its size is known.
    pub fn new(file: FileEntry) -> (r: Probe)
        ensures
            r@ == (ProbeRec {
                path: file.path@,
                size: file.size,
                id: None,
                prefix: None,
                digest: None,
            }),
    {
        Probe { path: file.path, size: file.size, id: None, prefix: None, digest: None }
    }
}

/// A group of byte-identical files (hard links to the same physical file are
/// collapsed, so `wasted` reflects space that is actually reclaimable).
#[derive(Debug)]
pub struct DupGroup {
    pub hash: String,
    pub size: u64,
    pub files: Vec<FilePath>,
    /// Bytes reclaimable if all but one copy is removed.
    pub wasted: u64,
}

/// A group, as a mathematical value.
#[verifier::ext_equal]
pub struct GroupRec {
    pub hash: Seq<char>,
    pub size: u64,
    pub files: Seq<Seq<Part>>,
    pub wasted: u64,
}

impl View for DupGroup {
    type V = GroupRec;

    open spec fn view(&self) -> GroupRec {
        GroupRec {
            hash: self.hash@,
            size: self.size,
            files: crate::sort::views(self.files@),
            wasted: self.wasted,
        }
    }
}

/// What the files of a group have in common.
#[verifier::ext_equal]
pub struct DupKey {
    pub size: u64,
    pub prefix: Seq<u8>,
    pub digest: Seq<u8>,
}

/// The size of a file, unless that is below `min` or zero.
pub open spec fn size_key(min: u64) -> spec_fn(ProbeRec) -> Option<u64> {
    |p: ProbeRec|
        if p.size >= min && p.size > 0 {
            Some(p.size)
        } else {
            None
        }
}

/// The digest of a file's first block.
pub open spec fn prefix_key() -> spec_fn(ProbeRec) -> Option<Seq<u8>> {
    |p: ProbeRec| p.prefix
}

/// The digest of a file's content.
pub open spec fn digest_key() -> spec_fn(ProbeRec) -> Option<Seq<u8>> {
    |p: ProbeRec| p.digest
}

/// The files with this key.
pub open spec fn keyed<K>(key: spec_fn(ProbeRec) -> Option<K>, k: K) -> spec_fn(ProbeRec) -> bool {
    |p: ProbeRec| key(p) == Some(k)
}

/// Another path to the same physical file is in the list.
pub open spec fn linked(before: Seq<ProbeRec>, p: ProbeRec) -> bool {
    p.id is Some && exists|i: int| 0 <= i < before.len() && (#[trigger] before[i]).id == p.id
}

/// One path per physical file, the first of each. Paths whose identity is not known
/// are kept.
pub open spec fn one_per_file(probes: Seq<ProbeRec>) -> Seq<ProbeRec>
    decreases probes.len(),
{
    if probes.len() == 0 {
        Seq::empty()
    } else if linked(probes.drop_last(), probes.last()) {
        one_per_file(probes.drop_last())
    } else {
        one_per_file(probes.drop_last()).push(probes.last())
    }
}

/// The physical files among `probes` that a key stands for: of its size, one path per
/// file, and with its digests.
pub open spec fn twins(probes: Seq<ProbeRec>, min: u64, k: DupKey) -> Seq<ProbeRec> {
    one_per_file(probes.filter(keyed(size_key(min), k.size))).filter(
        keyed(prefix_key(), k.prefix),
    ).filter(keyed(digest_key(), k.digest))
}

/// The paths of a list of files.
pub open spec fn paths_of(probes: Seq<ProbeRec>) -> Seq<Seq<Part>> {
    Seq::new(probes.len(), |i: int| probes[i].path)
}

/// Paths in order.
pub open spec fn earlier_path() -> spec_fn(Seq<Part>, Seq<Part>) -> bool {
    |a: Seq<Part>, b: Seq<Part>| crate::path::path_le(a, b)
}

/// The product, or the largest number where it does not fit.
pub open spec fn saturating_product(a: u64, b: nat) -> u64 {
    if a * b <= u64::MAX {
        (a * b) as u64
    } else {
        u64::MAX
    }
}

/// `r` is the group of these files.
pub open spec fn is_group(members: Seq<ProbeRec>, k: DupKey, r: GroupRec) -> bool {
    &&& members.len() >= 2
    &&& r.hash == crate::hash::hex(k.digest)
    &&& r.size == k.size
    &&& crate::sort::sorted_by(r.files, earlier_path())
    &&& r.files.to_multiset() == paths_of(members).to_multiset()
    &&& r.wasted == saturating_product(k.size, (members.len() - 1) as nat)
}

/// Groups that waste more first.
pub open spec fn more_wasted() -> spec_fn(GroupRec, GroupRec) -> bool {
    |a: GroupRec, b: GroupRec| a.wasted >= b.wasted
}

/// The keys that stand for at least two physical files.
pub open spec fn duplicated(probes: Seq<ProbeRec>, min: u64) -> spec_fn(DupKey) -> bool {
    |k: DupKey| twins(probes, min, k).len() >= 2
}

/// `out` has a group for every key that stands for at least two physical files, and
/// no other.
pub open spec fn has_groups(
    probes: Seq<ProbeRec>,
    min: u64,
    keys: Seq<DupKey>,
    out: Seq<GroupRec>,
) -> bool {
    &&& keys.len() == out.len()
    &&& forall|g: int|
        0 <= g < out.len() ==> is_group(
            twins(probes, min, keys[g]),
            keys[g],
            #[trigger] out[g],
        )
}

/// `out` are the groups of identical files among `probes`, the most wasteful first.
pub open spec fn are_duplicates(probes: Seq<ProbeRec>, min: u64, out: Seq<GroupRec>) -> bool {
    &&& exists|keys: Seq<DupKey>|
        crate::sort::is_found(keys, duplicated(probes, min)) && #[trigger] has_groups(
            probes,
            min,
            keys,
            out,
        )
    &&& crate::sort::sorted_by(out, more_wasted())
}

/// `out` has the files of every key that at least two have, in their order.
pub open spec fn are_key_groups<K>(
    probes: Seq<ProbeRec>,
    key: spec_fn(ProbeRec) -> Option<K>,
    out: Seq<Seq<ProbeRec>>,
) -> bool {
    &&& forall|g: int|
        0 <= g < out.len() ==> {
            &&& (#[trigger] out[g]).len() >= 2
            &&& key(out[g][0]) is Some
            &&& out[g] == probes.filter(keyed(key, key(out[g][0])->0))
        }
    &&& forall|g: int, h: int|
        0 <= g < h < out.len() ==> key((#[trigger] out[g])[0]) != key((#[trigger] out[h])[0])
    &&& forall|k: K|
        probes.filter(keyed(key, k)).len() >= 2 ==> #[trigger] has_key_group(out, key, k)
}

/// Some group has this key.
pub open spec fn has_key_group<K>(
    out: Seq<Seq<ProbeRec>>,
    key: spec_fn(ProbeRec) -> Option<K>,
    k: K,
) -> bool {
    exists|g: int| 0 <= g < out.len() && key((#[trigger] out[g])[0]) == Some(k)
}

/// The groups of at least two files with a key.
spec fn worth_keeping<K>(key: spec_fn(ProbeRec) -> Option<K>) -> spec_fn(Seq<ProbeRec>) -> bool {
    |s: Seq<ProbeRec>| s.len() >= 2 && key(s[0]) is Some
}

/// Splits files by key, and drops those without a key and groups of fewer than two.
/// `f` decides `le`, under which files with a key are tied to those with the same key
/// only; `h` tells whether a file has a key.
fn key_groups<K, F: Fn(&Probe, &Probe) -> bool, H: Fn(&Probe) -> bool>(
    probes: Vec<Probe>,
    f: &F,
    h: &H,
    Ghost(le): Ghost<spec_fn(ProbeRec, ProbeRec) -> bool>,
    Ghost(key): Ghost<spec_fn(ProbeRec) -> Option<K>>,
) -> (r: Vec<Vec<Probe>>)
    requires
        crate::sort::total_preorder(le),
        forall|x: &Probe, y: &Probe| call_requires(*f, (x, y)),
        forall|x: &Probe, y: &Probe, r: bool|
            #[trigger] call_ensures(*f, (x, y), r) ==> r == le(x@, y@),
        forall|x: &Probe| call_requires(*h, (x,)),
        forall|x: &Probe, r: bool| #[trigger] call_ensures(*h, (x,), r) ==> r == (key(x@) is Some),
        forall|a: ProbeRec, b: ProbeRec|
            key(a) is Some ==> (#[trigger] le(a, b) && le(b, a) <==> key(a) == key(b)),
    ensures
        are_key_groups(crate::sort::views(probes@), key, crate::sort::group_views(r@)),
{
    let ghost all = crate::sort::views(probes@);
    let groups = crate::sort::group_by(probes, f, Ghost(le));
    let ghost classes = crate::sort::group_views(groups@);
    let ghost keep = worth_keeping(key);
    let mut rest = crate::sort::reversed(groups);
    let mut out: Vec<Vec<Probe>> = Vec::new();
    let ghost mut done: int = 0;
    proof {
        reveal(Seq::filter);
        assert(classes.take(0) =~= Seq::<Seq<ProbeRec>>::empty());
        assert(crate::sort::group_views(out@) =~= classes.take(0).filter(keep));
        assert(crate::sort::group_views(rest@) =~= classes.reverse());
        assert(classes.skip(0) =~= classes);
    }
    while rest.len() > 0
        invariant
            0 <= done <= classes.len(),
            rest.len() == classes.len() - done,
            keep == worth_keeping(key),
            forall|x: &Probe| call_requires(*h, (x,)),
            forall|x: &Probe, r: bool|
                #[trigger] call_ensures(*h, (x,), r) ==> r == (key(x@) is Some),
            crate::sort::group_views(rest@) == classes.skip(done).reverse(),
            crate::sort::group_views(out@) == classes.take(done).filter(keep),
        decreases rest.len(),
    {
        let ghost was = crate::sort::group_views(out@);
        let ghost back = crate::sort::group_views(rest@);
        match rest.pop() {
            Some(g) => {
                proof {
                    reveal(Seq::filter);
                    assert(crate::sort::views(g@) == back.last());
                    assert(classes.skip(done).reverse().last() == classes[done]);
                    assert(classes.take(done + 1).drop_last() =~= classes.take(done));
                    assert(classes.take(done + 1).last() == crate::sort::views(g@));
                    assert(crate::sort::group_views(rest@) =~= back.drop_last());
                    assert(back.drop_last() =~= classes.skip(done + 1).reverse());
                    done = done + 1;
                }
                if g.len() >= 2 {
                    assert(crate::sort::views(g@)[0] == g@[0]@);
                    if h(&g[0]) {
                        out.push(g);
                        assert(crate::sort::group_views(out@) =~= was.push(
                            crate::sort::views(g@),
                        ));
                    }
                }
            },
            None => {},
        }
    }
    proof {
        assert(classes.take(done) =~= classes);
        lemma_key_groups(all, le, key, classes, crate::sort::group_views(out@));
    }
    out
}

proof fn lemma_key_groups<K>(
    all: Seq<ProbeRec>,
    le: spec_fn(ProbeRec, ProbeRec) -> bool,
    key: spec_fn(ProbeRec) -> Option<K>,
    classes: Seq<Seq<ProbeRec>>,
    out: Seq<Seq<ProbeRec>>,
)
    requires
        crate::sort::is_grouping(all, classes, le),
        out == classes.filter(worth_keeping(key)),
        forall|a: ProbeRec, b: ProbeRec|
            key(a) is Some ==> (#[trigger] le(a, b) && le(b, a) <==> key(a) == key(b)),
    ensures
        are_key_groups(all, key, out),
{
    let keep = worth_keeping(key);
    assert forall|c: int|
        0 <= c < classes.len() && key((#[trigger] classes[c])[0]) is Some implies classes[c]
        == all.filter(keyed(key, key(classes[c][0])->0)) by {
        let x = classes[c][0];
        let t = crate::sort::tied(le, x);
        let q = keyed(key, key(x)->0);
        assert forall|i: int| 0 <= i < all.len() implies t(#[trigger] all[i]) == q(all[i]) by {
            assert(le(x, all[i]) && le(all[i], x) <==> key(x) == key(all[i]));
        }
        crate::sort::lemma_filter_ext(all, t, q);
    }
    assert forall|g: int| 0 <= g < out.len() implies {
        &&& (#[trigger] out[g]).len() >= 2
        &&& key(out[g][0]) is Some
        &&& out[g] == all.filter(keyed(key, key(out[g][0])->0))
    } by {
        let c = crate::sort::lemma_kept_from(classes, keep, g);
        assert(classes[c] == out[g]);
    }
    assert forall|g: int, h: int| 0 <= g < h < out.len() implies key((#[trigger] out[g])[0])
        != key((#[trigger] out[h])[0]) by {
        crate::sort::lemma_filter_order(classes, keep, g, h);
        let (c, d) = choose|c: int, d: int|
            0 <= c < d < classes.len() && #[trigger] classes[c] == out[g] && #[trigger] classes[d]
                == out[h];
        assert(le(classes[c][0], classes[d][0]) && !le(classes[d][0], classes[c][0]));
        assert(key(out[g][0]) is Some);
    }
    assert forall|k: K| all.filter(keyed(key, k)).len() >= 2 implies #[trigger] has_key_group(
        out,
        key,
        k,
    ) by {
        let n = crate::sort::lemma_kept_from(all, keyed(key, k), 0);
        assert(crate::sort::has_group(classes, all[n], le));
        let c = choose|c: int|
            0 <= c < classes.len() && le((#[trigger] classes[c])[0], all[n]) && le(
                all[n],
                classes[c][0],
            );
        assert(le(all[n], classes[c][0]) && le(classes[c][0], all[n]));
        assert(key(classes[c][0]) == Some(k));
        assert(keep(classes[c]));
        let g = crate::sort::lemma_kept_at(classes, keep, c);
        assert(key(out[g][0]) == Some(k));
    }
}

/// Smaller files first.
spec fn smaller() -> spec_fn(ProbeRec, ProbeRec) -> bool {
    |a: ProbeRec, b: ProbeRec| a.size <= b.size
}

/// Groups files by size, ignoring files smaller than `min_size` bytes and zero-byte
/// files, and sizes that occur only once.
pub fn size_groups(probes: Vec<Probe>, min_size: u64) -> (r: Vec<Vec<Probe>>)
    ensures
        are_key_groups(
            crate::sort::views(probes@),
            size_key(min_size),
            crate::sort::group_views(r@),
        ),
{
    let f = |a: &Probe, b: &Probe| -> (r: bool)
        ensures
            r == smaller()(a@, b@),
        { a.size <= b.size };
    let h = |a: &Probe| -> (r: bool)
        ensures
            r == (size_key(min_size)(a@) is Some),
        { a.size >= min_size && a.size > 0 };
    key_groups::<u64, _, _>(probes, &f, &h, Ghost(smaller()), Ghost(size_key(min_size)))
}

/// Missing digests first, then in byte order.
spec fn digest_le(a: Option<Seq<u8>>, b: Option<Seq<u8>>) -> bool {
    match (a, b) {
        (None, _) => true,
        (Some(_), None) => false,
        (Some(x), Some(y)) => crate::path::bytes_le(x, y),
    }
}

fn digest_precedes(a: &Option<[u8; 32]>, b: &Option<[u8; 32]>) -> (r: bool)
    ensures
        r == digest_le(digest_view(*a), digest_view(*b)),
{
    match (a, b) {
        (None, _) => true,
        (Some(_), None) => false,
        (Some(x), Some(y)) => crate::path::bytes_precede(x.as_slice(), y.as_slice()),
    }
}

proof fn lemma_digest_order()
    ensures
        crate::sort::total_preorder(
            |a: ProbeRec, b: ProbeRec| digest_le(a.prefix, b.prefix),
        ),
        crate::sort::total_preorder(
            |a: ProbeRec, b: ProbeRec| digest_le(a.digest, b.digest),
        ),
        forall|x: Option<Seq<u8>>, y: Option<Seq<u8>>|
            x is Some ==> (#[trigger] digest_le(x, y) && digest_le(y, x) <==> x == y),
{
    assert forall|x: Option<Seq<u8>>, y: Option<Seq<u8>>| #[trigger]
        digest_le(x, y) || digest_le(y, x) by {
        if x is Some && y is Some {
            crate::path::lemma_bytes_total(x->0, y->0);
        }
    }
    assert forall|x: Option<Seq<u8>>, y: Option<Seq<u8>>, z: Option<Seq<u8>>| #[trigger]
        digest_le(x, y) && #[trigger] digest_le(y, z) implies digest_le(x, z) by {
        if x is Some && y is Some && z is Some {
            crate::path::lemma_bytes_trans(x->0, y->0, z->0);
        }
    }
    assert forall|x: Option<Seq<u8>>, y: Option<Seq<u8>>| x is Some implies (#[trigger] digest_le(
        x,
        y,
    ) && digest_le(y, x) <==> x == y) by {
        if y is Some {
            if digest_le(x, y) && digest_le(y, x) {
                crate::path::lemma_bytes_antisym(x->0, y->0);
            }
            crate::path::lemma_bytes_refl(x->0);
        }
    }
    let p = |a: ProbeRec, b: ProbeRec| digest_le(a.prefix, b.prefix);
    assert forall|a: ProbeRec, b: ProbeRec| #[trigger] p(a, b) || p(b, a) by {
        assert(digest_le(a.prefix, b.prefix) || digest_le(b.prefix, a.prefix));
    }
    assert forall|a: ProbeRec, b: ProbeRec, c: ProbeRec| #[trigger]
        p(a, b) && #[trigger] p(b, c) implies p(a, c) by {
        assert(digest_le(a.prefix, b.prefix) && digest_le(b.prefix, c.prefix));
    }
    let d = |a: ProbeRec, b: ProbeRec| digest_le(a.digest, b.digest);
    assert forall|a: ProbeRec, b: ProbeRec| #[trigger] d(a, b) || d(b, a) by {
        assert(digest_le(a.digest, b.digest) || digest_le(b.digest, a.digest));
    }
    assert forall|a: ProbeRec, b: ProbeRec, c: ProbeRec| #[trigger]
        d(a, b) && #[trigger] d(b, c) implies d(a, c) by {
        assert(digest_le(a.digest, b.digest) && digest_le(b.digest, c.digest));
    }
}

/// Groups files by the digest of their first block, dropping files of which that could
/// not be read, and digests that only one file has.
pub fn prefix_groups(probes: Vec<Probe>) -> (r: Vec<Vec<Probe>>)
    ensures
        are_key_groups(crate::sort::views(probes@), prefix_key(), crate::sort::group_views(r@)),
{
    let ghost le = |a: ProbeRec, b: ProbeRec| digest_le(a.prefix, b.prefix);
    let f = |a: &Probe, b: &Probe| -> (r: bool)
        ensures
            r == digest_le(a@.prefix, b@.prefix),
        { digest_precedes(&a.prefix, &b.prefix) };
    let h = |a: &Probe| -> (r: bool)
        ensures
            r == (a@.prefix is Some),
        { a.prefix.is_some() };
    proof {
        lemma_digest_order();
        assert forall|a: ProbeRec, b: ProbeRec| prefix_key()(a) is Some implies (#[trigger] le(a, b)
            && le(b, a) <==> prefix_key()(a) == prefix_key()(b)) by {
            assert(digest_le(a.prefix, b.prefix) && digest_le(b.prefix, a.prefix) <==> a.prefix
                == b.prefix);
        }
    }
    key_groups::<Seq<u8>, _, _>(probes, &f, &h, Ghost(le), Ghost(prefix_key()))
}

/// Groups files by the digest of their content, dropping files of which that could not
/// be read, and digests that only one file has.
fn digest_groups(probes: Vec<Probe>) -> (r: Vec<Vec<Probe>>)
    ensures
        are_key_groups(crate::sort::views(probes@), digest_key(), crate::sort::group_views(r@)),
{
    let ghost le = |a: ProbeRec, b: ProbeRec| digest_le(a.digest, b.digest);
    let f = |a: &Probe, b: &Probe| -> (r: bool)
        ensures
            r == digest_le(a@.digest, b@.digest),
        { digest_precedes(&a.digest, &b.digest) };
    let h = |a: &Probe| -> (r: bool)
        ensures
            r == (a@.digest is Some),
        { a.digest.is_some() };
    proof {
        lemma_digest_order();
        assert forall|a: ProbeRec, b: ProbeRec| digest_key()(a) is Some implies (#[trigger] le(a, b)
            && le(b, a) <==> digest_key()(a) == digest_key()(b)) by {
            assert(digest_le(a.digest, b.digest) && digest_le(b.digest, a.digest) <==> a.digest
                == b.digest);
        }
    }
    key_groups::<Seq<u8>, _, _>(probes, &f, &h, Ghost(le), Ghost(digest_key()))
}

/// The identities of a list of files.
spec fn ids_of(probes: Seq<ProbeRec>) -> Set<u64> {
    Set::new(|id: u64| exists|i: int| 0 <= i < probes.len() && (#[trigger] probes[i]).id == Some(id))
}

/// Keep one path per distinct physical file. Hard links share a file identity, so they
/// must not be counted as duplicates. Paths whose identity can't be read are kept.
pub fn dedup_hard_links(probes: Vec<Probe>) -> (r: Vec<Probe>)
    ensures
        crate::sort::views(r@) == one_per_file(crate::sort::views(probes@)),
{
    broadcast use vstd::std_specs::hash::group_hash_axioms;

    let ghost all = crate::sort::views(probes@);
    let mut seen: HashMap<u64, bool> = HashMap::new();
    let mut rest = crate::sort::reversed(probes);
    let mut out: Vec<Probe> = Vec::new();
    let ghost mut done: int = 0;
    proof {
        assert(all.take(0) =~= Seq::<ProbeRec>::empty());
        assert(crate::sort::views(out@) =~= one_per_file(all.take(0)));
        assert(crate::sort::views(rest@) =~= all.reverse());
        assert(all.skip(0) =~= all);
        assert(seen@.dom() =~= ids_of(all.take(0)));
    }
    while rest.len() > 0
        invariant
            0 <= done <= all.len(),
            rest.len() == all.len() - done,
            crate::sort::views(rest@) == all.skip(done).reverse(),
            crate::sort::views(out@) == one_per_file(all.take(done)),
            seen@.dom() == ids_of(all.take(done)),
        decreases rest.len(),
    {
        let ghost was = crate::sort::views(out@);
        let ghost back = crate::sort::views(rest@);
        let ghost before = all.take(done);
        let ghost now = all.take(done + 1);
        match rest.pop() {
            Some(p) => {
                proof {
                    assert(p@ == back.last());
                    assert(all.skip(done).reverse().last() == all[done]);
                    assert(now.drop_last() =~= before);
                    assert(now.last() == p@);
                    assert(crate::sort::views(rest@) =~= back.drop_last());
                    assert(back.drop_last() =~= all.skip(done + 1).reverse());
                    done = done + 1;
                    lemma_ids(before, now, p@);
                }
                match p.id {
                    Some(id) => {
                        if !seen.contains_key(&id) {
                            assert(!linked(before, p@)) by {
                                assert(!ids_of(before).contains(id));
                            }
                            seen.insert(id, true);
                            assert(seen@.dom() =~= ids_of(now));
                            out.push(p);
                            assert(crate::sort::views(out@) =~= was.push(p@));
                        } else {
                            assert(ids_of(before).contains(id));
                            assert(linked(before, p@));
                            assert(seen@.dom() =~= ids_of(now));
                        }
                    },
                    None => {
                        assert(seen@.dom() =~= ids_of(now));
                        out.push(p);
                        assert(crate::sort::views(out@) =~= was.push(p@));
                    },
                }
            },
            None => {},
        }
    }
    assert(all.take(done) =~= all);
    out
}

proof fn lemma_ids(before: Seq<ProbeRec>, now: Seq<ProbeRec>, p: ProbeRec)
    requires
        now.len() > 0,
        now.drop_last() == before,
        now.last() == p,
    ensures
        ids_of(now) == if p.id is Some {
            ids_of(before).insert(p.id->0)
        } else {
            ids_of(before)
        },
{
    assert forall|id: u64| ids_of(now).contains(id) <==> ids_of(before).contains(id) || p.id
        == Some(id) by {
        if ids_of(now).contains(id) {
            let i = choose|i: int| 0 <= i < now.len() && (#[trigger] now[i]).id == Some(id);
            if i < before.len() {
                assert(before[i] == now[i]);
            }
        }
        if ids_of(before).contains(id) {
            let i = choose|i: int| 0 <= i < before.len() && (#[trigger] before[i]).id == Some(id);
            assert(now[i] == before[i]);
        }
        if p.id == Some(id) {
            assert(now[now.len() - 1] == p);
        }
    }
    assert(ids_of(now) =~= if p.id is Some {
        ids_of(before).insert(p.id->0)
    } else {
        ids_of(before)
    });
}

/// What of a group of files of one size, whose identities have been read, is worth
/// hashing: one path per physical file if that leaves at least two, and nothing once
/// cancellation has been requested.
pub fn worth_hashing(probes: Vec<Probe>, progress: &Progress) -> (r: Vec<Probe>)
    ensures
        crate::sort::views(r@) == if progress@.cancelled || one_per_file(
            crate::sort::views(probes@),
        ).len() < 2 {
            Seq::<ProbeRec>::empty()
        } else {
            one_per_file(crate::sort::views(probes@))
        },
{
    if progress.cancelled() {
        let none: Vec<Probe> = Vec::new();
        assert(crate::sort::views(none@) =~= Seq::<ProbeRec>::empty());
        return none;
    }
    let reps = dedup_hard_links(probes);
    if reps.len() < 2 {
        let none: Vec<Probe> = Vec::new();
        assert(crate::sort::views(none@) =~= Seq::<ProbeRec>::empty());
        return none;
    }
    reps
}

/// The paths of a list of files.
fn into_paths(probes: Vec<Probe>) -> (r: Vec<FilePath>)
    ensures
        crate::sort::views(r@) == paths_of(crate::sort::views(probes@)),
{
    let ghost all = crate::sort::views(probes@);
    let mut rest = crate::sort::reversed(probes);
    let mut out: Vec<FilePath> = Vec::new();
    proof {
        assert(crate::sort::views(rest@) =~= all.reverse());
    }
    while rest.len() > 0
        invariant
            rest.len() + out.len() == all.len(),
            forall|i: int|
                0 <= i < rest.len() ==> (#[trigger] rest@[i])@ == all[all.len() - 1 - i],
            forall|i: int| 0 <= i < out.len() ==> (#[trigger] out@[i])@ == all[i].path,
        decreases rest.len(),
    {
        match rest.pop() {
            Some(p) => {
                out.push(p.path);
            },
            None => {},
        }
    }
    assert(crate::sort::views(out@) =~= paths_of(all));
    out
}

/// Makes a group of files with the same content.
fn make_group(members: Vec<Probe>, size: u64, Ghost(k): Ghost<DupKey>) -> (r: DupGroup)
    requires
        members@.len() >= 2,
        members@[0]@.digest == Some(k.digest),
        k.size == size,
    ensures
        is_group(crate::sort::views(members@), k, r@),
{
    let hash = match &members[0].digest {
        Some(d) => crate::hash::to_hex(d),
        None => String::new(),
    };
    let n: u64 = (members.len() - 1) as u64;
    let wasted: u64 = match size.checked_mul(n) {
        Some(w) => w,
        None => u64::MAX,
    };
    let ghost all = crate::sort::views(members@);
    let paths = into_paths(members);
    let f = |a: &FilePath, b: &FilePath| -> (r: bool)
        ensures
            r == earlier_path()(a@, b@),
        { a.precedes(b) };
    proof {
        let le = earlier_path();
        assert forall|a: Seq<Part>, b: Seq<Part>| #[trigger] le(a, b) || le(b, a) by {
            crate::path::lemma_path_total(a, b);
        }
        assert forall|a: Seq<Part>, b: Seq<Part>, c: Seq<Part>| #[trigger]
            le(a, b) && #[trigger] le(b, c) implies le(a, c) by {
            crate::path::lemma_path_trans(a, b, c);
        }
    }
    let files = crate::sort::stable_sort(paths, &f, Ghost(earlier_path()));
    DupGroup { hash, size, files, wasted }
}

/// The keys of this size and first block that at least two of the files have.
spec fn by_content(members: Seq<ProbeRec>, size: u64, prefix: Seq<u8>) -> spec_fn(DupKey) -> bool {
    |k: DupKey|
        k.size == size && k.prefix == prefix && members.filter(
            keyed(digest_key(), k.digest),
        ).len() >= 2
}

/// The groups among files of one size with the same first block.
fn content_groups(
    members: Vec<Probe>,
    size: u64,
    Ghost(prefix): Ghost<Seq<u8>>,
) -> (r: (Vec<DupGroup>, Ghost<Seq<DupKey>>))
    ensures
        crate::sort::is_found(r.1@, by_content(crate::sort::views(members@), size, prefix)),
        r.1@.len() == r.0@.len(),
        forall|g: int|
            0 <= g < r.0@.len() ==> is_group(
                crate::sort::views(members@).filter(keyed(digest_key(), r.1@[g].digest)),
                r.1@[g],
                (#[trigger] r.0@[g])@,
            ),
{
    let ghost all = crate::sort::views(members@);
    let groups = digest_groups(members);
    let ghost classes = crate::sort::group_views(groups@);
    let ghost holds = by_content(all, size, prefix);
    let mut rest = groups;
    let mut out: Vec<DupGroup> = Vec::new();
    let ghost mut keys: Seq<DupKey> = Seq::empty();
    proof {
        crate::sort::lemma_found_none(|k: DupKey| holds(k) && class_from(classes, classes.len() as int, k.digest));
        assert(classes.take(classes.len() as int) =~= classes);
    }
    while rest.len() > 0
        invariant
            rest.len() <= classes.len(),
            crate::sort::group_views(rest@) == classes.take(rest.len() as int),
            are_key_groups(all, digest_key(), classes),
            holds == by_content(all, size, prefix),
            crate::sort::is_found(
                keys,
                |k: DupKey| holds(k) && class_from(classes, rest.len() as int, k.digest),
            ),
            keys.len() == out@.len(),
            forall|g: int|
                0 <= g < out@.len() ==> is_group(
                    all.filter(keyed(digest_key(), keys[g].digest)),
                    keys[g],
                    (#[trigger] out@[g])@,
                ),
        decreases rest.len(),
    {
        let ghost n = rest.len() as int;
        let ghost back = crate::sort::group_views(rest@);
        let ghost was = keys;
        match rest.pop() {
            Some(g) => {
                let ghost c = classes[n - 1];
                let ghost k = DupKey { size, prefix, digest: c[0].digest->0 };
                proof {
                    assert(crate::sort::views(g@) == back.last());
                    assert(c == crate::sort::views(g@));
                    assert(c.len() >= 2);
                    assert(c[0] == g@[0]@);
                    assert(digest_key()(c[0]) is Some);
                    assert(c == all.filter(keyed(digest_key(), k.digest)));
                    assert(crate::sort::group_views(rest@) =~= classes.take(n - 1));
                    let before = |k: DupKey| holds(k) && class_from(classes, n, k.digest);
                    let after = |k: DupKey| holds(k) && class_from(classes, n - 1, k.digest);
                    assert forall|w: DupKey| #[trigger] after(w) <==> before(w) || w == k by {
                        if after(w) && !before(w) {
                            assert(w =~= k);
                        }
                        if before(w) {
                            let i = choose|i: int|
                                n <= i < classes.len() && (#[trigger] classes[i])[0].digest
                                    == Some(w.digest);
                            assert(classes[i][0].digest == Some(w.digest));
                        }
                        if w == k {
                            assert(classes[n - 1][0].digest == Some(w.digest));
                        }
                    }
                    assert(!before(k)) by {
                        if before(k) {
                            let i = choose|i: int|
                                n <= i < classes.len() && (#[trigger] classes[i])[0].digest
                                    == Some(k.digest);
                            assert(digest_key()(classes[n - 1][0]) != digest_key()(classes[i][0]));
                        }
                    }
                    crate::sort::lemma_found_push(keys, k, before, after);
                    keys = keys.push(k);
                }
                let made = make_group(g, size, Ghost(k));
                out.push(made);
                assert forall|j: int| 0 <= j < out@.len() implies is_group(
                    all.filter(keyed(digest_key(), keys[j].digest)),
                    keys[j],
                    (#[trigger] out@[j])@,
                ) by {
                    if j < was.len() {
                        assert(keys[j] == was[j]);
                    }
                }
            },
            None => {},
        }
    }
    proof {
        let before = |k: DupKey| holds(k) && class_from(classes, 0, k.digest);
        assert forall|k: DupKey| #[trigger] holds(k) <==> before(k) by {
            if holds(k) {
                assert(has_key_group(classes, digest_key(), k.digest));
                let g = choose|g: int|
                    0 <= g < classes.len() && digest_key()((#[trigger] classes[g])[0]) == Some(
                        k.digest,
                    );
                assert(classes[g][0].digest == Some(k.digest));
            }
        }
        crate::sort::lemma_found_same(keys, before, holds);
    }
    (out, Ghost(keys))
}

/// One of the classes from `n` on has this content.
spec fn class_from(classes: Seq<Seq<ProbeRec>>, n: int, digest: Seq<u8>) -> bool {
    exists|i: int|
        n <= i < classes.len() && (#[trigger] classes[i])[0].digest == Some(digest)
}

/// The files with the digests of a key.
spec fn same_content(reps: Seq<ProbeRec>, k: DupKey) -> Seq<ProbeRec> {
    reps.filter(keyed(prefix_key(), k.prefix)).filter(keyed(digest_key(), k.digest))
}

/// The keys of this size that at least two of the files have.
spec fn by_size(reps: Seq<ProbeRec>, size: u64) -> spec_fn(DupKey) -> bool {
    |k: DupKey| k.size == size && same_content(reps, k).len() >= 2
}

/// One of the classes from `n` on has this first block.
spec fn prefix_from(classes: Seq<Seq<ProbeRec>>, n: int, prefix: Seq<u8>) -> bool {
    exists|i: int|
        n <= i < classes.len() && (#[trigger] classes[i])[0].prefix == Some(prefix)
}

proof fn lemma_prefix_class(
    reps: Seq<ProbeRec>,
    size: u64,
    classes: Seq<Seq<ProbeRec>>,
    n: int,
    keys: Seq<DupKey>,
    more: Seq<DupKey>,
)
    requires
        are_key_groups(reps, prefix_key(), classes),
        0 < n <= classes.len(),
        crate::sort::is_found(
            keys,
            |k: DupKey| by_size(reps, size)(k) && prefix_from(classes, n, k.prefix),
        ),
        crate::sort::is_found(
            more,
            by_content(classes[n - 1], size, classes[n - 1][0].prefix->0),
        ),
    ensures
        crate::sort::is_found(
            keys + more,
            |k: DupKey| by_size(reps, size)(k) && prefix_from(classes, n - 1, k.prefix),
        ),
{
    let c = classes[n - 1];
    let prefix = c[0].prefix->0;
    assert(prefix_key()(c[0]) is Some);
    assert(c == reps.filter(keyed(prefix_key(), prefix)));
    let first = |k: DupKey| by_size(reps, size)(k) && prefix_from(classes, n, k.prefix);
    let second = by_content(c, size, prefix);
    let both = |k: DupKey| by_size(reps, size)(k) && prefix_from(classes, n - 1, k.prefix);
    assert forall|k: DupKey| !(#[trigger] first(k) && second(k)) by {
        if first(k) && second(k) {
            let i = choose|i: int|
                n <= i < classes.len() && (#[trigger] classes[i])[0].prefix == Some(k.prefix);
            assert(prefix_key()(classes[n - 1][0]) != prefix_key()(classes[i][0]));
        }
    }
    assert forall|k: DupKey| #[trigger] both(k) <==> first(k) || second(k) by {
        if both(k) && !first(k) {
            assert(k.prefix == prefix);
        }
        if first(k) {
            let i = choose|i: int|
                n <= i < classes.len() && (#[trigger] classes[i])[0].prefix == Some(k.prefix);
            assert(classes[i][0].prefix == Some(k.prefix));
        }
        if second(k) {
            assert(classes[n - 1][0].prefix == Some(k.prefix));
        }
    }
    crate::sort::lemma_found_append(keys, more, first, second, both);
}

/// The groups among physical files of one size.
fn file_groups(reps: Vec<Probe>, size: u64) -> (r: (Vec<DupGroup>, Ghost<Seq<DupKey>>))
    ensures
        crate::sort::is_found(r.1@, by_size(crate::sort::views(reps@), size)),
        r.1@.len() == r.0@.len(),
        forall|g: int|
            0 <= g < r.0@.len() ==> is_group(
                same_content(crate::sort::views(reps@), r.1@[g]),
                r.1@[g],
                (#[trigger] r.0@[g])@,
            ),
{
    let ghost all = crate::sort::views(reps@);
    let groups = prefix_groups(reps);
    let ghost classes = crate::sort::group_views(groups@);
    let mut rest = groups;
    let mut out: Vec<DupGroup> = Vec::new();
    let ghost mut keys: Seq<DupKey> = Seq::empty();
    proof {
        crate::sort::lemma_found_none(
            |k: DupKey|
                by_size(all, size)(k) && prefix_from(classes, classes.len() as int, k.prefix),
        );
        assert(classes.take(classes.len() as int) =~= classes);
    }
    while rest.len() > 0
        invariant
            rest.len() <= classes.len(),
            crate::sort::group_views(rest@) == classes.take(rest.len() as int),
            are_key_groups(all, prefix_key(), classes),
            crate::sort::is_found(
                keys,
                |k: DupKey|
                    by_size(all, size)(k) && prefix_from(classes, rest.len() as int, k.prefix),
            ),
            keys.len() == out@.len(),
            forall|g: int|
                0 <= g < out@.len() ==> is_group(
                    same_content(all, keys[g]),
                    keys[g],
                    (#[trigger] out@[g])@,
                ),
        decreases rest.len(),
    {
        let ghost n = rest.len() as int;
        let ghost back = crate::sort::group_views(rest@);
        let ghost was = keys;
        let ghost was_out = out@;
        match rest.pop() {
            Some(g) => {
                let ghost c = classes[n - 1];
                let ghost prefix = c[0].prefix->0;
                proof {
                    assert(crate::sort::views(g@) == back.last());
                    assert(c == crate::sort::views(g@));
                    assert(prefix_key()(c[0]) is Some);
                    assert(c == all.filter(keyed(prefix_key(), prefix)));
                    assert(crate::sort::group_views(rest@) =~= classes.take(n - 1));
                }
                let (mut found, Ghost(more)) = content_groups(g, size, Ghost(prefix));
                let ghost found_now = found@;
                out.append(&mut found);
                proof {
                    lemma_prefix_class(all, size, classes, n, was, more);
                    keys = was + more;
                    assert(out@ =~= was_out + found_now);
                    assert forall|j: int| 0 <= j < out@.len() implies is_group(
                        same_content(all, keys[j]),
                        keys[j],
                        (#[trigger] out@[j])@,
                    ) by {
                        if j < was.len() {
                            assert(keys[j] == was[j]);
                            assert(out@[j] == was_out[j]);
                        } else {
                            let i = j - was.len();
                            assert(keys[j] == more[i]);
                            assert(out@[j] == found_now[i]);
                            assert(more.contains(more[i]));
                            assert(by_content(c, size, prefix)(more[i]));
                        }
                    }
                }
            },
            None => {},
        }
    }
    proof {
        let before = |k: DupKey| by_size(all, size)(k) && prefix_from(classes, 0, k.prefix);
        let holds = by_size(all, size);
        assert forall|k: DupKey| #[trigger] holds(k) <==> before(k) by {
            if holds(k) {
                all.filter(keyed(prefix_key(), k.prefix)).lemma_filter_len(
                    keyed(digest_key(), k.digest),
                );
                assert(has_key_group(classes, prefix_key(), k.prefix));
                let g = choose|g: int|
                    0 <= g < classes.len() && prefix_key()((#[trigger] classes[g])[0]) == Some(
                        k.prefix,
                    );
                assert(classes[g][0].prefix == Some(k.prefix));
            }
        }
        crate::sort::lemma_found_same(keys, before, holds);
    }
    (out, Ghost(keys))
}

/// One of the classes from `n` on is of this size.
spec fn size_from(classes: Seq<Seq<ProbeRec>>, n: int, size: u64) -> bool {
    exists|i: int| n <= i < classes.len() && (#[trigger] classes[i])[0].size == size
}

proof fn lemma_size_class(
    all: Seq<ProbeRec>,
    min: u64,
    classes: Seq<Seq<ProbeRec>>,
    n: int,
    keys: Seq<DupKey>,
    more: Seq<DupKey>,
)
    requires
        are_key_groups(all, size_key(min), classes),
        0 < n <= classes.len(),
        crate::sort::is_found(
            keys,
            |k: DupKey| duplicated(all, min)(k) && size_from(classes, n, k.size),
        ),
        crate::sort::is_found(
            more,
            by_size(one_per_file(classes[n - 1]), classes[n - 1][0].size),
        ),
    ensures
        crate::sort::is_found(
            keys + more,
            |k: DupKey| duplicated(all, min)(k) && size_from(classes, n - 1, k.size),
        ),
{
    let c = classes[n - 1];
    let size = c[0].size;
    assert(size_key(min)(c[0]) is Some);
    assert(c == all.filter(keyed(size_key(min), size)));
    let first = |k: DupKey| duplicated(all, min)(k) && size_from(classes, n, k.size);
    let second = by_size(one_per_file(c), size);
    let both = |k: DupKey| duplicated(all, min)(k) && size_from(classes, n - 1, k.size);
    assert forall|k: DupKey| !(#[trigger] first(k) && second(k)) by {
        if first(k) && second(k) {
            let i = choose|i: int|
                n <= i < classes.len() && (#[trigger] classes[i])[0].size == k.size;
            assert(size_key(min)(classes[n - 1][0]) != size_key(min)(classes[i][0]));
            assert(size_key(min)(classes[i][0]) is Some);
        }
    }
    assert forall|k: DupKey| #[trigger] both(k) <==> first(k) || second(k) by {
        if both(k) && !first(k) {
            assert(k.size == size);
        }
        if first(k) {
            let i = choose|i: int|
                n <= i < classes.len() && (#[trigger] classes[i])[0].size == k.size;
            assert(classes[i][0].size == k.size);
        }
        if second(k) {
            assert(classes[n - 1][0].size == k.size);
        }
    }
    crate::sort::lemma_found_append(keys, more, first, second, both);
}

pub(crate) proof fn lemma_one_per_file_len(probes: Seq<ProbeRec>)
    ensures
        one_per_file(probes).len() <= probes.len(),
    decreases probes.len(),
{
    if probes.len() > 0 {
        lemma_one_per_file_len(probes.drop_last());
    }
}

/// The groups among probed files, in no particular order.
fn all_groups(probes: Vec<Probe>, min_size: u64) -> (r: (Vec<DupGroup>, Ghost<Seq<DupKey>>))
    ensures
        crate::sort::is_found(r.1@, duplicated(crate::sort::views(probes@), min_size)),
        has_groups(
            crate::sort::views(probes@),
            min_size,
            r.1@,
            crate::sort::views(r.0@),
        ),
{
    let ghost all = crate::sort::views(probes@);
    let groups = size_groups(probes, min_size);
    let ghost classes = crate::sort::group_views(groups@);
    let mut rest = groups;
    let mut out: Vec<DupGroup> = Vec::new();
    let ghost mut keys: Seq<DupKey> = Seq::empty();
    proof {
        crate::sort::lemma_found_none(
            |k: DupKey|
                duplicated(all, min_size)(k) && size_from(classes, classes.len() as int, k.size),
        );
        assert(classes.take(classes.len() as int) =~= classes);
    }
    while rest.len() > 0
        invariant
            rest.len() <= classes.len(),
            crate::sort::group_views(rest@) == classes.take(rest.len() as int),
            are_key_groups(all, size_key(min_size), classes),
            crate::sort::is_found(
                keys,
                |k: DupKey|
                    duplicated(all, min_size)(k) && size_from(classes, rest.len() as int, k.size),
            ),
            keys.len() == out@.len(),
            forall|g: int|
                0 <= g < out@.len() ==> is_group(
                    twins(all, min_size, keys[g]),
                    keys[g],
                    (#[trigger] out@[g])@,
                ),
        decreases rest.len(),
    {
        let ghost n = rest.len() as int;
        let ghost back = crate::sort::group_views(rest@);
        let ghost was = keys;
        let ghost was_out = out@;
        match rest.pop() {
            Some(g) => {
                let ghost c = classes[n - 1];
                proof {
                    assert(crate::sort::views(g@) == back.last());
                    assert(c == crate::sort::views(g@));
                    assert(c[0] == g@[0]@);
                    assert(size_key(min_size)(c[0]) is Some);
                    assert(c == all.filter(keyed(size_key(min_size), c[0].size)));
                    assert(crate::sort::group_views(rest@) =~= classes.take(n - 1));
                }
                let size: u64 = g[0].size;
                let reps = dedup_hard_links(g);
                let (mut found, Ghost(more)) = file_groups(reps, size);
                let ghost found_now = found@;
                out.append(&mut found);
                proof {
                    lemma_size_class(all, min_size, classes, n, was, more);
                    keys = was + more;
                    assert(out@ =~= was_out + found_now);
                    assert forall|j: int| 0 <= j < out@.len() implies is_group(
                        twins(all, min_size, keys[j]),
                        keys[j],
                        (#[trigger] out@[j])@,
                    ) by {
                        if j < was.len() {
                            assert(keys[j] == was[j]);
                            assert(out@[j] == was_out[j]);
                        } else {
                            let i = j - was.len();
                            assert(keys[j] == more[i]);
                            assert(out@[j] == found_now[i]);
                            assert(more.contains(more[i]));
                            assert(by_size(one_per_file(c), size)(more[i]));
                        }
                    }
                }
            },
            None => {},
        }
    }
    proof {
        let before = |k: DupKey| duplicated(all, min_size)(k) && size_from(classes, 0, k.size);
        let holds = duplicated(all, min_size);
        assert forall|k: DupKey| #[trigger] holds(k) <==> before(k) by {
            if holds(k) {
                let c = all.filter(keyed(size_key(min_size), k.size));
                let reps = one_per_file(c);
                reps.filter(keyed(prefix_key(), k.prefix)).lemma_filter_len(
                    keyed(digest_key(), k.digest),
                );
                reps.lemma_filter_len(keyed(prefix_key(), k.prefix));
                lemma_one_per_file_len(c);
                assert(has_key_group(classes, size_key(min_size), k.size));
                let g = choose|g: int|
                    0 <= g < classes.len() && size_key(min_size)((#[trigger] classes[g])[0])
                        == Some(k.size);
                assert(classes[g][0].size == k.size);
            }
        }
        crate::sort::lemma_found_same(keys, before, holds);
        let views = crate::sort::views(out@);
        assert forall|g: int| 0 <= g < views.len() implies is_group(
            twins(all, min_size, keys[g]),
            keys[g],
            #[trigger] views[g],
        ) by {
            assert(views[g] == out@[g]@);
        }
    }
    (out, Ghost(keys))
}

/// A group together with what its files have in common.
struct Ranked {
    group: DupGroup,
    key: Ghost<DupKey>,
}

/// A group together with its key, as a mathematical value.
#[verifier::ext_equal]
struct RankedRec {
    group: GroupRec,
    key: DupKey,
}

impl View for Ranked {
    type V = RankedRec;

    closed spec fn view(&self) -> RankedRec {
        RankedRec { group: self.group@, key: self.key@ }
    }
}

/// Groups that waste more first.
spec fn ranks_before() -> spec_fn(RankedRec, RankedRec) -> bool {
    |a: RankedRec, b: RankedRec| a.group.wasted >= b.group.wasted
}

/// Putting groups in another order keeps them the groups of the same files.
proof fn lemma_ranked(
    all: Seq<ProbeRec>,
    min: u64,
    keys: Seq<DupKey>,
    groups: Seq<GroupRec>,
    input: Seq<RankedRec>,
    output: Seq<RankedRec>,
)
    requires
        crate::sort::is_found(keys, duplicated(all, min)),
        has_groups(all, min, keys, groups),
        input.len() == groups.len(),
        forall|g: int|
            0 <= g < input.len() ==> (#[trigger] input[g]).group == groups[g] && input[g].key
                == keys[g],
        crate::sort::is_stable_sort(input, output, ranks_before()),
    ensures
        are_duplicates(all, min, Seq::new(output.len(), |g: int| output[g].group)),
{
    broadcast use vstd::seq_lib::group_to_multiset_ensures;

    let out = Seq::new(output.len(), |g: int| output[g].group);
    let now = Seq::new(output.len(), |g: int| output[g].key);
    assert(input.no_duplicates()) by {
        assert forall|i: int, j: int|
            0 <= i < input.len() && 0 <= j < input.len() && i != j implies input[i] != input[j] by {
            assert(keys[i] != keys[j]);
        }
    }
    input.lemma_multiset_has_no_duplicates();
    output.lemma_multiset_has_no_duplicates_conv();
    assert forall|v: RankedRec| #[trigger] output.contains(v) <==> input.contains(v) by {
        assert(output.contains(v) <==> output.to_multiset().count(v) > 0);
        assert(input.contains(v) <==> input.to_multiset().count(v) > 0);
    }
    assert(now.no_duplicates()) by {
        assert forall|i: int, j: int| 0 <= i < now.len() && 0 <= j < now.len() && i != j implies now[i]
            != now[j] by {
            assert(output.contains(output[i]) && output.contains(output[j]));
            let a = choose|a: int| 0 <= a < input.len() && input[a] == output[i];
            let b = choose|b: int| 0 <= b < input.len() && input[b] == output[j];
            assert(output[i] != output[j]);
            assert(a != b);
            assert(keys[a] != keys[b]);
        }
    }
    let holds = duplicated(all, min);
    assert forall|k: DupKey| #[trigger] now.contains(k) <==> holds(k) by {
        if now.contains(k) {
            let i = choose|i: int| 0 <= i < now.len() && now[i] == k;
            assert(output.contains(output[i]));
            let a = choose|a: int| 0 <= a < input.len() && input[a] == output[i];
            assert(keys[a] == k);
            assert(keys.contains(k));
        }
        if holds(k) {
            assert(keys.contains(k));
            let a = choose|a: int| 0 <= a < keys.len() && keys[a] == k;
            assert(input.contains(input[a]));
            assert(output.contains(input[a]));
            let i = choose|i: int| 0 <= i < output.len() && output[i] == input[a];
            assert(now[i] == k);
        }
    }
    assert forall|g: int| 0 <= g < out.len() implies is_group(
        twins(all, min, now[g]),
        now[g],
        #[trigger] out[g],
    ) by {
        assert(output.contains(output[g]));
        let a = choose|a: int| 0 <= a < input.len() && input[a] == output[g];
        assert(is_group(twins(all, min, keys[a]), keys[a], groups[a]));
    }
    assert(crate::sort::is_found(now, holds) && has_groups(all, min, now, out));
    assert forall|i: int, j: int| 0 <= i < j < out.len() implies more_wasted()(
        #[trigger] out[i],
        #[trigger] out[j],
    ) by {
        assert(ranks_before()(output[i], output[j]));
    }
}

/// Find groups of byte-identical files among probed ones, ignoring files smaller than
/// `min_size` bytes and zero-byte files, the most wasteful group first.
///
/// Cheap and correct: group by size, collapse hard links, then by the digest of the
/// first block, then by the digest of the whole content. Progress is reported, and
/// cancellation heeded, while the files are probed (see [`worth_hashing`]): what was not
/// probed is in no group.
pub fn find_duplicates_with_progress(probes: Vec<Probe>, min_size: u64) -> (r: Vec<DupGroup>)
    ensures
        are_duplicates(crate::sort::views(probes@), min_size, crate::sort::views(r@)),
{
    let ghost all = crate::sort::views(probes@);
    let (groups, Ghost(keys)) = all_groups(probes, min_size);
    let ghost found = crate::sort::views(groups@);
    let mut rest = crate::sort::reversed(groups);
    let mut ranked: Vec<Ranked> = Vec::new();
    while rest.len() > 0
        invariant
            rest.len() + ranked.len() == found.len(),
            forall|i: int|
                0 <= i < rest.len() ==> (#[trigger] rest@[i])@ == found[found.len() - 1 - i],
            forall|i: int|
                0 <= i < ranked.len() ==> (#[trigger] ranked@[i])@.group == found[i]
                    && ranked@[i]@.key == keys[i],
        decreases rest.len(),
    {
        match rest.pop() {
            Some(group) => {
                ranked.push(Ranked { group, key: Ghost(keys[ranked.len() as int]) });
            },
            None => {},
        }
    }
    let f = |a: &Ranked, b: &Ranked| -> (r: bool)
        ensures
            r == ranks_before()(a@, b@),
        { a.group.wasted >= b.group.wasted };
    let ghost input = crate::sort::views(ranked@);
    let sorted = crate::sort::stable_sort(ranked, &f, Ghost(ranks_before()));
    let ghost output = crate::sort::views(sorted@);
    proof {
        assert forall|g: int| 0 <= g < input.len() implies (#[trigger] input[g]).group == found[g]
            && input[g].key == keys[g] by {
            assert(input[g] == ranked@[g]@);
        }
        lemma_ranked(all, min_size, keys, found, input, output);
    }
    let mut rest = crate::sort::reversed(sorted);
    let mut out: Vec<DupGroup> = Vec::new();
    while rest.len() > 0
        invariant
            rest.len() + out.len() == output.len(),
            forall|i: int|
                0 <= i < rest.len() ==> (#[trigger] rest@[i])@ == output[output.len() - 1 - i],
            forall|i: int| 0 <= i < out.len() ==> (#[trigger] out@[i])@ == output[i].group,
        decreases rest.len(),
    {
        match rest.pop() {
            Some(ranked) => {
                out.push(ranked.group);
            },
            None => {},
        }
    }
    assert(crate::sort::views(out@) =~= Seq::new(output.len(), |g: int| output[g].group));
    out
}

/// Find duplicate files among probed ones. See [`find_duplicates_with_progress`].
pub fn find_duplicates(probes: Vec<Probe>, min_size: u64) -> (r: Vec<DupGroup>)
    ensures
        are_duplicates(crate::sort::views(probes@), min_size, crate::sort::views(r@)),
{
    find_duplicates_with_progress(probes, min_size)
}

/// Among paths to the same physical file at most one is kept.
pub proof fn law_hard_links_are_collapsed(probes: Seq<ProbeRec>, i: int, j: int)
    requires
        0 <= i < j < one_per_file(probes).len(),
        one_per_file(probes)[i].id is Some,
    ensures
        one_per_file(probes)[i].id != one_per_file(probes)[j].id,
    decreases probes.len(),
{
    let rest = probes.drop_last();
    let kept = one_per_file(rest);
    if j < kept.len() {
        law_hard_links_are_collapsed(rest, i, j);
    } else {
        let k = lemma_kept_file(rest, i);
        assert(rest[k].id == kept[i].id);
    }
}

/// What is kept comes from the list.
pub(crate) proof fn lemma_kept_file(probes: Seq<ProbeRec>, i: int) -> (k: int)
    requires
        0 <= i < one_per_file(probes).len(),
    ensures
        0 <= k < probes.len(),
        probes[k] == one_per_file(probes)[i],
    decreases probes.len(),
{
    let rest = probes.drop_last();
    let kept = one_per_file(rest);
    if i < kept.len() {
        let k = lemma_kept_file(rest, i);
        assert(rest[k] == probes[k]);
        k
    } else {
        probes.len() - 1
    }
}

/// A physical file is kept under one of its paths.
pub proof fn law_every_file_is_kept(probes: Seq<ProbeRec>, k: int)
    requires
        0 <= k < probes.len(),
    ensures
        one_per_file(probes).contains(probes[k]) || (probes[k].id is Some && exists|i: int|
            0 <= i < one_per_file(probes).len() && (#[trigger] one_per_file(probes)[i]).id
                == probes[k].id),
    decreases probes.len(),
{
    let rest = probes.drop_last();
    let kept = one_per_file(rest);
    let now = one_per_file(probes);
    let p = probes[k];
    if k < rest.len() {
        assert(rest[k] == p);
        law_every_file_is_kept(rest, k);
        if kept.contains(p) {
            let i = choose|i: int| 0 <= i < kept.len() && kept[i] == p;
            assert(now[i] == p);
        } else {
            let i = choose|i: int| 0 <= i < kept.len() && (#[trigger] kept[i]).id == p.id;
            assert(now[i] == kept[i]);
        }
    } else if linked(rest, p) {
        let j = choose|j: int| 0 <= j < rest.len() && (#[trigger] rest[j]).id == p.id;
        law_every_file_is_kept(rest, j);
        if kept.contains(rest[j]) {
            let i = choose|i: int| 0 <= i < kept.len() && kept[i] == rest[j];
            assert(now[i].id == p.id);
        } else {
            let i = choose|i: int| 0 <= i < kept.len() && (#[trigger] kept[i]).id == rest[j].id;
            assert(now[i].id == p.id);
        }
    } else {
        assert(now.last() == p);
        assert(now[now.len() - 1] == p);
    }
}

/// Everything that a key stands for is one of the probed files, has the size and the
/// digests of the key, and is large enough.
pub proof fn law_twins_are_alike(probes: Seq<ProbeRec>, min: u64, k: DupKey, i: int)
    requires
        0 <= i < twins(probes, min, k).len(),
    ensures
        ({
            let p = twins(probes, min, k)[i];
            &&& probes.contains(p)
            &&& p.size == k.size
            &&& p.size >= min
            &&& p.size > 0
            &&& p.prefix == Some(k.prefix)
            &&& p.digest == Some(k.digest)
        }),
{
    let sized = probes.filter(keyed(size_key(min), k.size));
    let reps = one_per_file(sized);
    let pre = reps.filter(keyed(prefix_key(), k.prefix));
    let a = crate::sort::lemma_kept_from(pre, keyed(digest_key(), k.digest), i);
    let b = crate::sort::lemma_kept_from(reps, keyed(prefix_key(), k.prefix), a);
    let c = lemma_kept_file(sized, b);
    let n = crate::sort::lemma_kept_from(probes, keyed(size_key(min), k.size), c);
    assert(probes[n] == twins(probes, min, k)[i]);
}

/// No two files of a group are hard links to the same physical file.
pub proof fn law_groups_hold_no_hard_links(
    probes: Seq<ProbeRec>,
    min: u64,
    k: DupKey,
    i: int,
    j: int,
)
    requires
        0 <= i < j < twins(probes, min, k).len(),
        twins(probes, min, k)[i].id is Some,
    ensures
        twins(probes, min, k)[i].id != twins(probes, min, k)[j].id,
{
    let reps = one_per_file(probes.filter(keyed(size_key(min), k.size)));
    let pre = reps.filter(keyed(prefix_key(), k.prefix));
    crate::sort::lemma_filter_order(pre, keyed(digest_key(), k.digest), i, j);
    let (c, d) = choose|c: int, d: int|
        0 <= c < d < pre.len() && #[trigger] pre[c] == twins(probes, min, k)[i] && #[trigger] pre[d]
            == twins(probes, min, k)[j];
    crate::sort::lemma_filter_order(reps, keyed(prefix_key(), k.prefix), c, d);
    let (e, f) = choose|e: int, f: int|
        0 <= e < f < reps.len() && #[trigger] reps[e] == pre[c] && #[trigger] reps[f] == pre[d];
    law_hard_links_are_collapsed(probes.filter(keyed(size_key(min), k.size)), e, f);
}

/// The key of a file whose digests have been read.
pub open spec fn key_of(p: ProbeRec) -> DupKey {
    DupKey { size: p.size, prefix: p.prefix->0, digest: p.digest->0 }
}

/// The file was probed as having this content.
pub open spec fn has_content(p: ProbeRec, content: Seq<u8>) -> bool {
    &&& p.size == content.len()
    &&& p.prefix == Some(
        crate::hash::blake3_digest(
            crate::report::at_most(content, crate::hash::PREFIX_LEN as nat),
        ),
    )
    &&& p.digest == Some(crate::hash::blake3_digest(content))
}

/// Two physical files with the same content, large enough and not empty, are in the
/// same group, and that group is reported.
pub proof fn law_identical_files_are_grouped(
    probes: Seq<ProbeRec>,
    min: u64,
    out: Seq<GroupRec>,
    content: Seq<u8>,
    a: int,
    b: int,
) -> (g: int)
    requires
        are_duplicates(probes, min, out),
        content.len() > 0,
        content.len() >= min,
        ({
            let reps = one_per_file(
                probes.filter(keyed(size_key(min), content.len() as u64)),
            );
            &&& 0 <= a < b < reps.len()
            &&& has_content(reps[a], content)
            &&& has_content(reps[b], content)
        }),
    ensures
        0 <= g < out.len(),
        out[g].size == content.len(),
        out[g].hash == crate::hash::hex(crate::hash::blake3_digest(content)),
        ({
            let reps = one_per_file(
                probes.filter(keyed(size_key(min), content.len() as u64)),
            );
            &&& out[g].files.contains(reps[a].path)
            &&& out[g].files.contains(reps[b].path)
        }),
{
    let reps = one_per_file(probes.filter(keyed(size_key(min), content.len() as u64)));
    let k = key_of(reps[a]);
    let pre = reps.filter(keyed(prefix_key(), k.prefix));
    let members = twins(probes, min, k);
    assert(k.size == content.len());
    lemma_filter_two(reps, keyed(prefix_key(), k.prefix), a, b);
    let (c, d) = choose|c: int, d: int|
        0 <= c < d < pre.len() && #[trigger] pre[c] == reps[a] && #[trigger] pre[d] == reps[b];
    lemma_filter_two(pre, keyed(digest_key(), k.digest), c, d);
    let (e, f) = choose|e: int, f: int|
        0 <= e < f < members.len() && #[trigger] members[e] == pre[c] && #[trigger] members[f]
            == pre[d];
    let keys = choose|keys: Seq<DupKey>|
        crate::sort::is_found(keys, duplicated(probes, min)) && #[trigger] has_groups(
            probes,
            min,
            keys,
            out,
        );
    assert(duplicated(probes, min)(k));
    assert(keys.contains(k));
    let g = choose|g: int| 0 <= g < keys.len() && keys[g] == k;
    assert(is_group(twins(probes, min, keys[g]), keys[g], out[g]));
    let paths = paths_of(members);
    assert(paths[e] == reps[a].path && paths[f] == reps[b].path);
    lemma_same_members(paths, out[g].files, reps[a].path);
    lemma_same_members(paths, out[g].files, reps[b].path);
    g
}

pub(crate) proof fn lemma_same_members<V>(a: Seq<V>, b: Seq<V>, v: V)
    requires
        a.to_multiset() == b.to_multiset(),
    ensures
        a.contains(v) <==> b.contains(v),
{
    broadcast use vstd::seq_lib::group_to_multiset_ensures;

    assert(a.contains(v) <==> a.to_multiset().count(v) > 0);
    assert(b.contains(v) <==> b.to_multiset().count(v) > 0);
}

pub(crate) proof fn lemma_filter_two<V>(s: Seq<V>, p: spec_fn(V) -> bool, a: int, b: int)
    requires
        0 <= a < b < s.len(),
        p(s[a]),
        p(s[b]),
    ensures
        exists|c: int, d: int|
            0 <= c < d < s.filter(p).len() && #[trigger] s.filter(p)[c] == s[a]
                && #[trigger] s.filter(p)[d] == s[b],
    decreases s.len(),
{
    reveal(Seq::filter);
    let rest = s.drop_last();
    let kept = rest.filter(p);
    let now = s.filter(p);
    if b < rest.len() {
        assert(rest[a] == s[a] && rest[b] == s[b]);
        lemma_filter_two(rest, p, a, b);
        let (c, d) = choose|c: int, d: int|
            0 <= c < d < kept.len() && #[trigger] kept[c] == rest[a] && #[trigger] kept[d]
                == rest[b];
        assert(now[c] == s[a] && now[d] == s[b]);
    } else {
        assert(rest[a] == s[a]);
        let c = crate::sort::lemma_kept_at(rest, p, a);
        assert(s[b] == s.last());
        assert(now[c] == s[a] && now[now.len() - 1] == s[b]);
    }
}

/// Every file of a reported group is a probed file with the size of the group, at
/// least `min` bytes and not empty, and with the digest that the group shows.
pub proof fn law_groups_hold_identical_files(
    probes: Seq<ProbeRec>,
    min: u64,
    out: Seq<GroupRec>,
    g: int,
    i: int,
)
    requires
        are_duplicates(probes, min, out),
        0 <= g < out.len(),
        0 <= i < out[g].files.len(),
    ensures
        out[g].files.len() >= 2,
        out[g].size >= min,
        out[g].size > 0,
        exists|n: int|
            0 <= n < probes.len() && (#[trigger] probes[n]).path == out[g].files[i]
                && probes[n].size == out[g].size && probes[n].digest is Some
                && crate::hash::hex(probes[n].digest->0) == out[g].hash,
{
    broadcast use vstd::seq_lib::group_to_multiset_ensures;

    let keys = choose|keys: Seq<DupKey>|
        crate::sort::is_found(keys, duplicated(probes, min)) && #[trigger] has_groups(
            probes,
            min,
            keys,
            out,
        );
    let k = keys[g];
    let members = twins(probes, min, k);
    assert(is_group(members, k, out[g]));
    let paths = paths_of(members);
    assert(out[g].files.to_multiset().len() == paths.to_multiset().len());
    assert(out[g].files.contains(out[g].files[i]));
    lemma_same_members(paths, out[g].files, out[g].files[i]);
    let j = choose|j: int| 0 <= j < paths.len() && paths[j] == out[g].files[i];
    law_twins_are_alike(probes, min, k, j);
    assert(probes.contains(members[j]));
    let n = choose|n: int| 0 <= n < probes.len() && probes[n] == members[j];
    assert(probes[n].path == out[g].files[i]);
}

/// Two groups share no file, where no path was probed twice.
pub proof fn law_groups_are_disjoint(
    probes: Seq<ProbeRec>,
    min: u64,
    out: Seq<GroupRec>,
    g: int,
    h: int,
    p: Seq<Part>,
)
    requires
        are_duplicates(probes, min, out),
        forall|i: int, j: int|
            0 <= i < j < probes.len() ==> (#[trigger] probes[i]).path != (
            #[trigger] probes[j]).path,
        0 <= g < h < out.len(),
        out[g].files.contains(p),
    ensures
        !out[h].files.contains(p),
{
    let keys = choose|keys: Seq<DupKey>|
        crate::sort::is_found(keys, duplicated(probes, min)) && #[trigger] has_groups(
            probes,
            min,
            keys,
            out,
        );
    if out[h].files.contains(p) {
        let n = lemma_member(probes, min, keys[g], out[g], p);
        let m = lemma_member(probes, min, keys[h], out[h], p);
        if n < m {
            assert(probes[n].path != probes[m].path);
        } else if m < n {
            assert(probes[m].path != probes[n].path);
        }
        assert(keys[g] =~= keys[h]);
        assert(keys[g] != keys[h]);
    }
}

/// A file of a group is a probed file with the key of the group.
proof fn lemma_member(
    probes: Seq<ProbeRec>,
    min: u64,
    k: DupKey,
    group: GroupRec,
    p: Seq<Part>,
) -> (n: int)
    requires
        is_group(twins(probes, min, k), k, group),
        group.files.contains(p),
    ensures
        0 <= n < probes.len(),
        probes[n].path == p,
        key_of(probes[n]) == k,
{
    let members = twins(probes, min, k);
    let paths = paths_of(members);
    lemma_same_members(paths, group.files, p);
    let j = choose|j: int| 0 <= j < paths.len() && paths[j] == p;
    law_twins_are_alike(probes, min, k, j);
    let n = choose|n: int| 0 <= n < probes.len() && probes[n] == members[j];
    assert(key_of(probes[n]) =~= k);
    n
}

/// Lists that are sorted by path and hold the same paths are the same list.
proof fn lemma_sorted_paths(a: Seq<Seq<Part>>, b: Seq<Seq<Part>>)
    requires
        crate::sort::sorted_by(a, earlier_path()),
        crate::sort::sorted_by(b, earlier_path()),
        a.to_multiset() == b.to_multiset(),
    ensures
        a == b,
    decreases a.len(),
{
    broadcast use vstd::seq_lib::group_to_multiset_ensures;

    assert(a.len() == a.to_multiset().len());
    assert(b.len() == b.to_multiset().len());
    if a.len() > 0 {
        let x = a[0];
        let y = b[0];
        lemma_same_members(a, b, x);
        lemma_same_members(a, b, y);
        assert(a.contains(x) && b.contains(y));
        let i = choose|i: int| 0 <= i < b.len() && b[i] == x;
        let j = choose|j: int| 0 <= j < a.len() && a[j] == y;
        if x != y {
            assert(earlier_path()(b[0], b[i]));
            assert(earlier_path()(a[0], a[j]));
            crate::path::lemma_path_antisym(x, y);
        }
        let a1 = a.remove(0);
        let b1 = b.remove(0);
        assert(a1.to_multiset() =~= a.to_multiset().remove(x));
        assert(b1.to_multiset() =~= b.to_multiset().remove(x));
        assert forall|k: int, l: int| 0 <= k < l < a1.len() implies earlier_path()(
            #[trigger] a1[k],
            #[trigger] a1[l],
        ) by {
            assert(earlier_path()(a[k + 1], a[l + 1]));
        }
        assert forall|k: int, l: int| 0 <= k < l < b1.len() implies earlier_path()(
            #[trigger] b1[k],
            #[trigger] b1[l],
        ) by {
            assert(earlier_path()(b[k + 1], b[l + 1]));
        }
        lemma_sorted_paths(a1, b1);
        assert(a =~= seq![x] + a1);
        assert(b =~= seq![x] + b1);
    } else {
        assert(a =~= b);
    }
}

/// A group is determined by its members.
proof fn lemma_one_group(members: Seq<ProbeRec>, k: DupKey, a: GroupRec, b: GroupRec)
    requires
        is_group(members, k, a),
        is_group(members, k, b),
    ensures
        a == b,
{
    lemma_sorted_paths(a.files, b.files);
    assert(a =~= b);
}

/// Where a size is large enough for both minimums, a key stands for the same files.
proof fn lemma_twins_of_minimum(probes: Seq<ProbeRec>, low: u64, high: u64, k: DupKey)
    requires
        low <= high,
    ensures
        k.size >= high ==> twins(probes, high, k) == twins(probes, low, k),
        k.size < high ==> twins(probes, high, k).len() == 0,
        k.size == 0 ==> twins(probes, low, k).len() == 0,
{
    let p = keyed(size_key(low), k.size);
    let q = keyed(size_key(high), k.size);
    if k.size >= high {
        assert forall|i: int| 0 <= i < probes.len() implies p(#[trigger] probes[i]) == q(
            probes[i],
        ) by {}
        crate::sort::lemma_filter_ext(probes, p, q);
    } else if twins(probes, high, k).len() > 0 {
        law_twins_are_alike(probes, high, k, 0);
    }
    if k.size == 0 && twins(probes, low, k).len() > 0 {
        law_twins_are_alike(probes, low, k, 0);
    }
}

/// Raising the minimum size only drops the groups of smaller files.
pub proof fn law_a_larger_minimum_drops_smaller_groups(
    probes: Seq<ProbeRec>,
    low: u64,
    high: u64,
    all: Seq<GroupRec>,
    fewer: Seq<GroupRec>,
    g: GroupRec,
)
    requires
        low <= high,
        are_duplicates(probes, low, all),
        are_duplicates(probes, high, fewer),
    ensures
        fewer.contains(g) <==> all.contains(g) && g.size >= high,
{
    let a = choose|keys: Seq<DupKey>|
        crate::sort::is_found(keys, duplicated(probes, low)) && #[trigger] has_groups(
            probes,
            low,
            keys,
            all,
        );
    let b = choose|keys: Seq<DupKey>|
        crate::sort::is_found(keys, duplicated(probes, high)) && #[trigger] has_groups(
            probes,
            high,
            keys,
            fewer,
        );
    if fewer.contains(g) {
        let i = choose|i: int| 0 <= i < fewer.len() && fewer[i] == g;
        let k = b[i];
        lemma_twins_of_minimum(probes, low, high, k);
        assert(is_group(twins(probes, high, k), k, g));
        assert(duplicated(probes, low)(k));
        assert(a.contains(k));
        let j = choose|j: int| 0 <= j < a.len() && a[j] == k;
        assert(is_group(twins(probes, low, k), k, all[j]));
        lemma_one_group(twins(probes, low, k), k, g, all[j]);
        assert(all.contains(g));
    }
    if all.contains(g) && g.size >= high {
        let i = choose|i: int| 0 <= i < all.len() && all[i] == g;
        let k = a[i];
        lemma_twins_of_minimum(probes, low, high, k);
        assert(is_group(twins(probes, low, k), k, g));
        assert(duplicated(probes, high)(k));
        assert(b.contains(k));
        let j = choose|j: int| 0 <= j < b.len() && b[j] == k;
        assert(is_group(twins(probes, high, k), k, fewer[j]));
        lemma_one_group(twins(probes, high, k), k, g, fewer[j]);
        assert(fewer.contains(g));
    }
}

/// Empty files are never reported: a minimum of 0 finds the same groups as one of 1.
pub proof fn law_empty_files_are_never_reported(
    probes: Seq<ProbeRec>,
    none: Seq<GroupRec>,
    one: Seq<GroupRec>,
    g: GroupRec,
)
    requires
        are_duplicates(probes, 0, none),
        are_duplicates(probes, 1, one),
    ensures
        none.contains(g) <==> one.contains(g),
        none.contains(g) ==> g.size > 0,
{
    law_a_larger_minimum_drops_smaller_groups(probes, 0, 1, none, one, g);
    if none.contains(g) {
        let i = choose|i: int| 0 <= i < none.len() && none[i] == g;
        let keys = choose|keys: Seq<DupKey>|
            crate::sort::is_found(keys, duplicated(probes, 0)) && #[trigger] has_groups(
                probes,
                0,
                keys,
                none,
            );
        assert(is_group(twins(probes, 0, keys[i]), keys[i], none[i]));
        lemma_twins_of_minimum(probes, 0, 0, keys[i]);
    }
}

} // verus!
