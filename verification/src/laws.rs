//! How a scanned tree agrees with a fresh scan, and how totals add up.
use vstd::prelude::*;

use crate::model::{DirNode, TreeModel};
use crate::path::Part;
use crate::report::{DirRec, FileRec};

verus! {

/// The sum of `g` over a list of files.
pub open spec fn weigh(files: Seq<FileRec>, g: spec_fn(FileRec) -> nat) -> nat
    decreases files.len(),
{
    if files.len() == 0 {
        0
    } else {
        weigh(files.drop_last(), g) + g(files.last())
    }
}

/// Every file weighs its bytes.
pub open spec fn by_size() -> spec_fn(FileRec) -> nat {
    |f: FileRec| f.size as nat
}

/// Every file weighs one.
pub open spec fn by_count() -> spec_fn(FileRec) -> nat {
    |f: FileRec| 1
}

/// One file value weighs one, all others nothing.
spec fn by_value(v: FileRec) -> spec_fn(FileRec) -> nat {
    |f: FileRec|
        if f == v {
            1
        } else {
            0
        }
}

/// The bytes of a list of directory records.
pub open spec fn recs_size(recs: Seq<DirRec>) -> nat
    decreases recs.len(),
{
    if recs.len() == 0 {
        0
    } else {
        recs_size(recs.drop_last()) + recs.last().size as nat
    }
}

/// The files of a list of directory records.
pub open spec fn recs_files(recs: Seq<DirRec>) -> nat
    decreases recs.len(),
{
    if recs.len() == 0 {
        0
    } else {
        recs_files(recs.drop_last()) + recs.last().file_count as nat
    }
}

/// The files that lie below `d`, at any depth.
pub open spec fn below(d: Seq<Part>) -> spec_fn(FileRec) -> bool {
    |f: FileRec| d.is_prefix_of(f.path) && d.len() < f.path.len()
}

/// `p` extends `root` by ordinary components.
pub open spec fn extends(root: Seq<Part>, p: Seq<Part>) -> bool {
    &&& root.is_prefix_of(p)
    &&& root.len() < p.len()
    &&& forall|i: int|
        root.len() <= i < p.len() ==> !(#[trigger] p[i] is RootDir) && !(p[i] is Prefix)
}

/// A walk below `root`: everything it saw extends the root.
pub open spec fn walks_below(root: Seq<Part>, dirs: Seq<Seq<Part>>, files: Seq<FileRec>) -> bool {
    &&& forall|i: int| 0 <= i < dirs.len() ==> extends(root, #[trigger] dirs[i])
    &&& forall|i: int| 0 <= i < files.len() ==> extends(root, (#[trigger] files[i]).path)
}

proof fn lemma_weigh_size(files: Seq<FileRec>)
    ensures
        weigh(files, by_size()) == crate::report::files_size(files),
    decreases files.len(),
{
    if files.len() > 0 {
        lemma_weigh_size(files.drop_last());
    }
}

proof fn lemma_weigh_count(files: Seq<FileRec>)
    ensures
        weigh(files, by_count()) == files.len(),
    decreases files.len(),
{
    if files.len() > 0 {
        lemma_weigh_count(files.drop_last());
    }
}

proof fn lemma_weigh_value(files: Seq<FileRec>, v: FileRec)
    ensures
        weigh(files, by_value(v)) == files.to_multiset().count(v),
    decreases files.len(),
{
    broadcast use vstd::seq_lib::group_to_multiset_ensures;

    if files.len() > 0 {
        lemma_weigh_value(files.drop_last(), v);
        assert(files =~= files.drop_last().push(files.last()));
    } else {
        assert(files =~= Seq::<FileRec>::empty());
        assert(files.to_multiset().count(v) == 0) by {
            files.to_multiset_ensures();
            assert(!files.contains(v));
        }
    }
}

proof fn lemma_weigh_add(a: Seq<FileRec>, b: Seq<FileRec>, g: spec_fn(FileRec) -> nat)
    ensures
        weigh(a + b, g) == weigh(a, g) + weigh(b, g),
    decreases b.len(),
{
    if b.len() == 0 {
        assert(a + b =~= a);
    } else {
        lemma_weigh_add(a, b.drop_last(), g);
        assert((a + b).drop_last() =~= a + b.drop_last());
    }
}

/// Weighing the two sides of a split weighs everything.
proof fn lemma_weigh_split(
    files: Seq<FileRec>,
    p: spec_fn(FileRec) -> bool,
    q: spec_fn(FileRec) -> bool,
    g: spec_fn(FileRec) -> nat,
)
    requires
        forall|i: int| 0 <= i < files.len() ==> p(#[trigger] files[i]) == !q(files[i]),
    ensures
        weigh(files, g) == weigh(files.filter(p), g) + weigh(files.filter(q), g),
    decreases files.len(),
{
    reveal(Seq::filter);
    if files.len() > 0 {
        let rest = files.drop_last();
        assert forall|i: int| 0 <= i < rest.len() implies p(#[trigger] rest[i]) == !q(rest[i]) by {
            assert(rest[i] == files[i]);
        }
        lemma_weigh_split(rest, p, q, g);
        assert(files[files.len() - 1] == files.last());
        assert(rest.filter(p).push(files.last()).drop_last() =~= rest.filter(p));
        assert(rest.filter(q).push(files.last()).drop_last() =~= rest.filter(q));
    }
}

/// The files whose key is `k`.
spec fn keyed<K>(key: spec_fn(FileRec) -> Option<K>, k: K) -> spec_fn(FileRec) -> bool {
    |f: FileRec| key(f) == Some(k)
}

/// What the files of each key weigh, summed over the keys.
spec fn key_sum<K>(
    keys: Seq<K>,
    files: Seq<FileRec>,
    key: spec_fn(FileRec) -> Option<K>,
    g: spec_fn(FileRec) -> nat,
) -> nat
    decreases keys.len(),
{
    if keys.len() == 0 {
        0
    } else {
        key_sum(keys.drop_last(), files, key, g) + weigh(
            files.filter(keyed(key, keys.last())),
            g,
        )
    }
}

proof fn lemma_key_sum_push<K>(
    keys: Seq<K>,
    files: Seq<FileRec>,
    f: FileRec,
    key: spec_fn(FileRec) -> Option<K>,
    g: spec_fn(FileRec) -> nat,
)
    requires
        keys.no_duplicates(),
    ensures
        key_sum(keys, files.push(f), key, g) == key_sum(keys, files, key, g) + if key(f) is Some
            && keys.contains(key(f)->0) {
            g(f)
        } else {
            0
        },
    decreases keys.len(),
{
    if keys.len() > 0 {
        let rest = keys.drop_last();
        let k = keys.last();
        lemma_key_sum_push(rest, files, f, key, g);
        files.lemma_filter_push(f, keyed(key, k));
        assert(files.filter(keyed(key, k)).push(f).drop_last() =~= files.filter(keyed(key, k)));
        if key(f) is Some {
            let v = key(f)->0;
            if rest.contains(v) {
                let j = choose|j: int| 0 <= j < rest.len() && rest[j] == v;
                assert(keys[j] == v);
                assert(keys[keys.len() - 1] == k);
                assert(keys.contains(v));
            }
            if keys.contains(v) {
                let j = choose|j: int| 0 <= j < keys.len() && keys[j] == v;
                if j < rest.len() {
                    assert(rest[j] == v);
                }
            }
            if v == k {
                assert(keys[keys.len() - 1] == v);
            }
        }
    }
}

/// Where every key occurs once, the files with a key are weighed once each.
proof fn lemma_key_sum<K>(
    keys: Seq<K>,
    files: Seq<FileRec>,
    key: spec_fn(FileRec) -> Option<K>,
    some: spec_fn(FileRec) -> bool,
    g: spec_fn(FileRec) -> nat,
)
    requires
        keys.no_duplicates(),
        forall|i: int|
            0 <= i < files.len() ==> some(#[trigger] files[i]) == (key(files[i]) is Some),
        forall|i: int|
            0 <= i < files.len() && some(#[trigger] files[i]) ==> keys.contains(
                key(files[i])->0,
            ),
    ensures
        key_sum(keys, files, key, g) == weigh(files.filter(some), g),
    decreases files.len(),
{
    reveal(Seq::filter);
    if files.len() == 0 {
        lemma_key_sum_empty(keys, files, key, g);
    } else {
        let rest = files.drop_last();
        let f = files.last();
        assert(f == files[files.len() - 1]);
        assert forall|i: int| 0 <= i < rest.len() implies #[trigger] rest[i] == files[i] by {}
        lemma_key_sum(keys, rest, key, some, g);
        lemma_key_sum_push(keys, rest, f, key, g);
        assert(files =~= rest.push(f));
        assert(rest.filter(some).push(f).drop_last() =~= rest.filter(some));
    }
}

proof fn lemma_key_sum_empty<K>(
    keys: Seq<K>,
    files: Seq<FileRec>,
    key: spec_fn(FileRec) -> Option<K>,
    g: spec_fn(FileRec) -> nat,
)
    requires
        files.len() == 0,
    ensures
        key_sum(keys, files, key, g) == 0,
    decreases keys.len(),
{
    reveal(Seq::filter);
    if keys.len() > 0 {
        lemma_key_sum_empty(keys.drop_last(), files, key, g);
    }
}

/// The immediate sub-folder of `root` that a file lies in, if it lies in one.
spec fn folder_key(root: Seq<Part>) -> spec_fn(FileRec) -> Option<Seq<Part>> {
    |f: FileRec|
        if crate::scan::deeper_in(root, f) {
            Some(crate::scan::sub_folder(root, f))
        } else {
            None
        }
}

proof fn lemma_recs_sum(root: Seq<Part>, files: Seq<FileRec>, all: Seq<DirRec>)
    requires
        forall|i: int|
            0 <= i < all.len() ==> #[trigger] all[i] == crate::scan::folder_rec(
                root,
                files,
                all[i].path,
            ),
        crate::report::files_size(files) <= u64::MAX,
        files.len() <= u64::MAX,
    ensures
        recs_size(all) == key_sum(
            Seq::new(all.len(), |i: int| all[i].path),
            files,
            folder_key(root),
            by_size(),
        ),
        recs_files(all) == key_sum(
            Seq::new(all.len(), |i: int| all[i].path),
            files,
            folder_key(root),
            by_count(),
        ),
    decreases all.len(),
{
    if all.len() > 0 {
        let rest = all.drop_last();
        let keys = Seq::new(all.len(), |i: int| all[i].path);
        assert(keys.drop_last() =~= Seq::new(rest.len(), |i: int| rest[i].path));
        assert forall|i: int| 0 <= i < rest.len() implies #[trigger] rest[i]
            == crate::scan::folder_rec(root, files, rest[i].path) by {
            assert(rest[i] == all[i]);
        }
        lemma_recs_sum(root, files, rest);
        let d = all.last().path;
        assert(all[all.len() - 1] == all.last());
        let p = crate::scan::in_folder(root, d);
        let q = keyed(folder_key(root), d);
        assert forall|i: int| 0 <= i < files.len() implies p(#[trigger] files[i]) == q(files[i]) by {}
        crate::sort::lemma_filter_ext(files, p, q);
        lemma_weigh_size(files.filter(p));
        lemma_weigh_count(files.filter(p));
        crate::report::lemma_files_size_filter(files, p);
        files.lemma_filter_len(p);
    }
}

/// The sub-folders of a scan and the files directly in its root add up to the totals.
pub proof fn law_scan_adds_up(
    root: Seq<Part>,
    dirs: Seq<Seq<Part>>,
    files: Seq<FileRec>,
    all: Seq<DirRec>,
)
    requires
        crate::scan::is_folder_list(root, dirs, files, all),
        forall|i: int| 0 <= i < files.len() ==> below(root)(#[trigger] files[i]),
        crate::report::files_size(files) <= u64::MAX,
        files.len() <= u64::MAX,
    ensures
        crate::report::files_size(files) == recs_size(all) + crate::report::files_size(
            files.filter(crate::scan::directly_in(root)),
        ),
        files.len() == recs_files(all) + files.filter(crate::scan::directly_in(root)).len(),
{
    let here = crate::scan::directly_in(root);
    let deep = |f: FileRec| crate::scan::deeper_in(root, f);
    let keys = Seq::new(all.len(), |i: int| all[i].path);
    assert forall|i: int| 0 <= i < files.len() implies here(#[trigger] files[i]) == !deep(
        files[i],
    ) by {
        assert(below(root)(files[i]));
    }
    assert forall|i: int| 0 <= i < files.len() && deep(#[trigger] files[i]) implies keys.contains(
        folder_key(root)(files[i])->0,
    ) by {
        let d = crate::scan::sub_folder(root, files[i]);
        assert(crate::scan::in_folder(root, d)(files[i]));
        assert(crate::scan::lists(all, d));
        let j = choose|j: int| 0 <= j < all.len() && (#[trigger] all[j]).path == d;
        assert(keys[j] == d);
    }
    assert(keys.no_duplicates());
    lemma_recs_sum(root, files, all);
    lemma_key_sum(keys, files, folder_key(root), deep, by_size());
    lemma_key_sum(keys, files, folder_key(root), deep, by_count());
    lemma_weigh_split(files, here, deep, by_size());
    lemma_weigh_split(files, here, deep, by_count());
    lemma_weigh_size(files);
    lemma_weigh_count(files);
    lemma_weigh_size(files.filter(here));
    lemma_weigh_count(files.filter(here));
}

/// Below its root, a tree's directories nest as their paths do.
pub(crate) proof fn lemma_within_prefix(root: Seq<Part>, p: Seq<Part>, d: Seq<Part>)
    requires
        p == root || extends(root, p),
    ensures
        crate::model::within(root, p, d) <==> d.is_prefix_of(p) && root.len() <= d.len(),
    decreases p.len(),
{
    if p == root {
        if d.is_prefix_of(p) && root.len() <= d.len() {
            assert(d =~= p);
        }
        assert(root.is_prefix_of(root));
    } else {
        let q = p.drop_last();
        assert(p[p.len() - 1] == p.last());
        assert(crate::model::up(root, p) == q);
        assert(root.is_prefix_of(q)) by {
            assert(root =~= q.subrange(0, root.len() as int)) by {
                assert(root =~= p.subrange(0, root.len() as int));
            }
        }
        if root.len() == q.len() {
            assert(q =~= root);
        } else {
            assert forall|i: int| root.len() <= i < q.len() implies !(#[trigger] q[i] is RootDir)
                && !(q[i] is Prefix) by {
                assert(q[i] == p[i]);
            }
        }
        lemma_within_prefix(root, q, d);
        if p == d {
            assert(d =~= p.subrange(0, d.len() as int));
        }
        if d.is_prefix_of(q) {
            assert(d =~= p.subrange(0, d.len() as int));
        }
        if d.is_prefix_of(p) && d != p {
            if d.len() == p.len() {
                assert(d =~= p);
            }
            assert(d =~= q.subrange(0, d.len() as int));
        }
    }
}

/// A file lies below `d` exactly if the directory that holds it lies at or below `d`.
proof fn lemma_held_below(root: Seq<Part>, f: FileRec, d: Seq<Part>)
    requires
        extends(root, f.path),
        root.is_prefix_of(d),
    ensures
        crate::model::within(root, crate::model::up(root, f.path), d) <==> below(d)(f),
        crate::model::up(root, f.path) == f.path.drop_last(),
        crate::model::up(root, f.path) == root || extends(
            root,
            crate::model::up(root, f.path),
        ),
{
    let p = f.path;
    let q = p.drop_last();
    assert(p[p.len() - 1] == p.last());
    assert(root =~= q.subrange(0, root.len() as int)) by {
        assert(root =~= p.subrange(0, root.len() as int));
    }
    if root.len() == q.len() {
        assert(q =~= root);
    } else {
        assert forall|i: int| root.len() <= i < q.len() implies !(#[trigger] q[i] is RootDir)
            && !(q[i] is Prefix) by {
            assert(q[i] == p[i]);
        }
    }
    lemma_within_prefix(root, q, d);
    if d.is_prefix_of(q) {
        assert(d =~= p.subrange(0, d.len() as int));
    }
    if below(d)(f) {
        assert(d =~= q.subrange(0, d.len() as int));
    }
}

/// The directory that holds a file, if that lies at or below `d`.
spec fn holder(root: Seq<Part>, d: Seq<Part>) -> spec_fn(FileRec) -> Option<Seq<Part>> {
    |f: FileRec|
        if crate::model::within(root, crate::model::up(root, f.path), d) {
            Some(crate::model::up(root, f.path))
        } else {
            None
        }
}

proof fn lemma_files_within(
    root: Seq<Part>,
    nodes: Seq<DirNode>,
    files: Seq<FileRec>,
    d: Seq<Part>,
    g: spec_fn(FileRec) -> nat,
)
    requires
        forall|i: int|
            0 <= i < nodes.len() ==> (#[trigger] nodes[i]).files == files.filter(
                crate::model::held_by(root, nodes[i].path),
            ),
    ensures
        weigh(crate::model::files_within(root, nodes, d), g) == key_sum(
            Seq::new(nodes.len(), |i: int| nodes[i].path),
            files,
            holder(root, d),
            g,
        ),
    decreases nodes.len(),
{
    if nodes.len() > 0 {
        let rest = nodes.drop_last();
        let keys = Seq::new(nodes.len(), |i: int| nodes[i].path);
        assert(keys.drop_last() =~= Seq::new(rest.len(), |i: int| rest[i].path));
        assert forall|i: int| 0 <= i < rest.len() implies (#[trigger] rest[i]).files
            == files.filter(crate::model::held_by(root, rest[i].path)) by {
            assert(rest[i] == nodes[i]);
        }
        lemma_files_within(root, rest, files, d, g);
        let e = nodes.last();
        assert(e == nodes[nodes.len() - 1]);
        let p = crate::model::held_by(root, e.path);
        let q = keyed(holder(root, d), e.path);
        if crate::model::within(root, e.path, d) {
            assert forall|i: int| 0 <= i < files.len() implies p(#[trigger] files[i]) == q(
                files[i],
            ) by {}
            crate::sort::lemma_filter_ext(files, p, q);
            lemma_weigh_add(crate::model::files_within(root, rest, d), e.files, g);
        } else {
            assert forall|i: int| 0 <= i < files.len() implies !q(#[trigger] files[i]) by {}
            crate::sort::lemma_filter_none(files, q);
        }
    } else {
        assert(crate::model::files_within(root, nodes, d).len() == 0);
    }
}

/// Whatever files are weighed by, those of a tree at or below `d` weigh as much as
/// the walked files below `d`.
proof fn lemma_tree_files(
    m: TreeModel,
    dirs: Seq<Seq<Part>>,
    files: Seq<FileRec>,
    d: Seq<Part>,
    g: spec_fn(FileRec) -> nat,
)
    requires
        crate::model::is_tree_of(m, m.root(), dirs, files),
        walks_below(m.root(), dirs, files),
        m.root().is_prefix_of(d),
    ensures
        weigh(m.all_files(d), g) == weigh(files.filter(below(d)), g),
{
    let root = m.root();
    let keys = Seq::new(m.dirs.len(), |i: int| m.dirs[i].path);
    lemma_files_within(root, m.dirs, files, d, g);
    assert(keys.no_duplicates());
    assert forall|i: int| 0 <= i < files.len() implies below(d)(#[trigger] files[i]) == (holder(
        root,
        d,
    )(files[i]) is Some) by {
        lemma_held_below(root, files[i], d);
    }
    assert forall|i: int| 0 <= i < files.len() && below(d)(#[trigger] files[i]) implies keys.contains(
        holder(root, d)(files[i])->0,
    ) by {
        lemma_held_below(root, files[i], d);
        let q = crate::model::up(root, files[i].path);
        assert(crate::model::within(root, q, q));
        assert(m.has_dir(q));
        let j = choose|j: int| 0 <= j < m.dirs.len() && (#[trigger] m.dirs[j]).path == q;
        assert(keys[j] == q);
    }
    lemma_key_sum(keys, files, holder(root, d), below(d), g);
}

proof fn lemma_totals(root: Seq<Part>, nodes: Seq<DirNode>, d: Seq<Part>)
    ensures
        crate::model::dirs_sum(
            nodes,
            crate::model::only_within(root, d, crate::model::own_size()),
        ) == weigh(crate::model::files_within(root, nodes, d), by_size()),
        crate::model::dirs_sum(
            nodes,
            crate::model::only_within(root, d, crate::model::own_files()),
        ) == weigh(crate::model::files_within(root, nodes, d), by_count()),
    decreases nodes.len(),
{
    if nodes.len() > 0 {
        let rest = nodes.drop_last();
        let e = nodes.last();
        lemma_totals(root, rest, d);
        lemma_weigh_add(crate::model::files_within(root, rest, d), e.files, by_size());
        lemma_weigh_add(crate::model::files_within(root, rest, d), e.files, by_count());
        lemma_weigh_size(e.files);
        lemma_weigh_count(e.files);
    }
}

/// A folder of a scanned tree has the totals, the files directly in it and the files
/// below it that a fresh scan of just that folder sees.
pub proof fn law_drill_in_totals(
    m: TreeModel,
    dirs: Seq<Seq<Part>>,
    files: Seq<FileRec>,
    d: Seq<Part>,
)
    requires
        crate::model::is_tree_of(m, m.root(), dirs, files),
        walks_below(m.root(), dirs, files),
        m.has_dir(d),
    ensures
        m.total_size(d) == crate::report::files_size(files.filter(below(d))),
        m.total_files(d) == files.filter(below(d)).len(),
        m.files_of(d) == files.filter(below(d)).filter(crate::scan::directly_in(d)),
        m.all_files(d).to_multiset() == files.filter(below(d)).to_multiset(),
{
    let root = m.root();
    lemma_dir_extends(m, dirs, files, d);
    let sub = files.filter(below(d));
    lemma_totals(root, m.dirs, d);
    lemma_tree_files(m, dirs, files, d, by_size());
    lemma_tree_files(m, dirs, files, d, by_count());
    lemma_weigh_size(sub);
    lemma_weigh_count(sub);
    assert forall|v: FileRec| m.all_files(d).to_multiset().count(v) == sub.to_multiset().count(
        v,
    ) by {
        lemma_tree_files(m, dirs, files, d, by_value(v));
        lemma_weigh_value(m.all_files(d), v);
        lemma_weigh_value(sub, v);
    }
    assert(m.all_files(d).to_multiset() =~= sub.to_multiset());
    let held = crate::model::held_by(root, d);
    assert forall|i: int| 0 <= i < files.len() implies held(#[trigger] files[i]) == (below(d)(
        files[i],
    ) && crate::scan::directly_in(d)(files[i])) by {
        let p = files[i].path;
        lemma_held_below(root, files[i], d);
        if held(files[i]) {
            assert(d =~= p.subrange(0, d.len() as int));
        }
        if crate::scan::directly_in(d)(files[i]) {
            assert(p.drop_last() =~= d);
        }
    }
    crate::sort::lemma_filter_twice(files, below(d), crate::scan::directly_in(d), held);
    let j = choose|j: int| 0 <= j < m.dirs.len() && (#[trigger] m.dirs[j]).path == d;
    assert(m.dirs[j].files == files.filter(held));
}

/// Every directory of the tree of a walk below `root` is the root or extends it.
pub(crate) proof fn lemma_dir_extends(
    m: TreeModel,
    dirs: Seq<Seq<Part>>,
    files: Seq<FileRec>,
    d: Seq<Part>,
)
    requires
        crate::model::is_tree_of(m, m.root(), dirs, files),
        walks_below(m.root(), dirs, files),
        m.has_dir(d),
    ensures
        m.root().is_prefix_of(d),
        d == m.root() || extends(m.root(), d),
{
    let root = m.root();
    assert(crate::model::walked_dir(root, dirs, files, d));
    if d == root {
        assert(root =~= root.subrange(0, root.len() as int));
    } else if exists|i: int|
        0 <= i < dirs.len() && crate::model::within(root, #[trigger] dirs[i], d) {
        let i = choose|i: int|
            0 <= i < dirs.len() && crate::model::within(root, #[trigger] dirs[i], d);
        lemma_prefix_extends(root, dirs[i], d);
    } else {
        let i = choose|i: int|
            0 <= i < files.len() && crate::model::within(
                root,
                crate::model::up(root, (#[trigger] files[i]).path),
                d,
            );
        assert(root =~= root.subrange(0, root.len() as int));
        lemma_held_below(root, files[i], root);
        lemma_prefix_extends(root, crate::model::up(root, files[i].path), d);
    }
}

proof fn lemma_prefix_extends(root: Seq<Part>, p: Seq<Part>, d: Seq<Part>)
    requires
        p == root || extends(root, p),
        crate::model::within(root, p, d),
    ensures
        root.is_prefix_of(d),
        d == root || extends(root, d),
{
    lemma_within_prefix(root, p, d);
    assert(d =~= p.subrange(0, d.len() as int));
    assert(root.is_prefix_of(p)) by {
        if p == root {
            assert(root =~= root.subrange(0, root.len() as int));
        }
    }
    assert(root =~= d.subrange(0, root.len() as int)) by {
        assert(root =~= p.subrange(0, root.len() as int));
    }
    if d.len() == root.len() {
        assert(d =~= root);
    } else {
        assert forall|i: int| root.len() <= i < d.len() implies !(#[trigger] d[i] is RootDir)
            && !(d[i] is Prefix) by {
            assert(d[i] == p[i]);
        }
    }
}

/// The path `d` followed by one more component of `p`.
proof fn lemma_step_down(root: Seq<Part>, d: Seq<Part>, p: Seq<Part>)
    requires
        extends(root, p),
        root.is_prefix_of(d),
        d.is_prefix_of(p),
        d.len() < p.len(),
    ensures
        ({
            let c = p.take(d.len() as int + 1);
            &&& extends(root, c)
            &&& c.is_prefix_of(p)
            &&& crate::model::up(root, c) == d
            &&& c != root
        }),
{
    let c = p.take(d.len() as int + 1);
    assert(c =~= p.subrange(0, c.len() as int));
    assert(root =~= c.subrange(0, root.len() as int)) by {
        assert(root =~= p.subrange(0, root.len() as int));
    }
    assert forall|i: int| root.len() <= i < c.len() implies !(#[trigger] c[i] is RootDir) && !(
    c[i] is Prefix) by {
        assert(c[i] == p[i]);
    }
    assert(c[c.len() - 1] == c.last());
    assert(c.drop_last() =~= d) by {
        assert(d =~= p.subrange(0, d.len() as int));
    }
}

/// The record that a tree has of the sub-folder `c` of `d` is the one that a fresh
/// scan of `d` has of it.
proof fn lemma_child_rec(
    m: TreeModel,
    dirs: Seq<Seq<Part>>,
    files: Seq<FileRec>,
    d: Seq<Part>,
    c: Seq<Part>,
)
    requires
        crate::model::is_tree_of(m, m.root(), dirs, files),
        walks_below(m.root(), dirs, files),
        m.has_dir(d),
        m.has_dir(c),
        c != m.root(),
        crate::model::up(m.root(), c) == d,
    ensures
        m.dir_rec(c) == crate::scan::folder_rec(d, files.filter(below(d)), c),
        m.total_files(c) == files.filter(below(d)).filter(crate::scan::in_folder(d, c)).len(),
{
    let root = m.root();
    lemma_dir_extends(m, dirs, files, c);
    law_drill_in_totals(m, dirs, files, c);
    assert(c[c.len() - 1] == c.last());
    assert(c.drop_last() == d);
    let inside = crate::scan::in_folder(d, c);
    assert forall|i: int| 0 <= i < files.len() implies below(c)(#[trigger] files[i]) == (below(d)(
        files[i],
    ) && inside(files[i])) by {
        let p = files[i].path;
        if below(c)(files[i]) {
            assert(d =~= p.subrange(0, d.len() as int)) by {
                assert(c =~= p.subrange(0, c.len() as int));
            }
            assert(p.take(d.len() as int + 1) =~= c);
        }
        if inside(files[i]) {
            assert(c =~= p.subrange(0, c.len() as int));
        }
    }
    crate::sort::lemma_filter_twice(files, below(d), inside, below(c));
}

/// The sub-folders that a tree lists for one of its folders are the ones that a fresh
/// scan of just that folder finds, with the same figures.
pub proof fn law_drill_in_children(
    m: TreeModel,
    dirs: Seq<Seq<Part>>,
    files: Seq<FileRec>,
    d: Seq<Part>,
)
    requires
        crate::model::is_tree_of(m, m.root(), dirs, files),
        walks_below(m.root(), dirs, files),
        m.has_dir(d),
        files.len() <= u64::MAX,
    ensures
        crate::scan::is_folder_list(
            d,
            dirs.filter(dir_below(d)),
            files.filter(below(d)),
            m.children(d),
        ),
{
    let root = m.root();
    let sub = files.filter(below(d));
    let lower = dirs.filter(dir_below(d));
    let kids = m.dirs.filter(crate::model::child_of(root, d));
    let recs = m.children(d);
    lemma_dir_extends(m, dirs, files, d);
    assert forall|i: int| 0 <= i < recs.len() implies {
        let c = (#[trigger] recs[i]).path;
        &&& m.has_dir(c)
        &&& c != root
        &&& crate::model::up(root, c) == d
        &&& recs[i] == m.dir_rec(c)
    } by {
        let k = crate::sort::lemma_kept_from(m.dirs, crate::model::child_of(root, d), i);
        assert(kids[i] == m.dirs[k]);
    }
    let path_of = |e: DirNode| e.path;
    crate::sort::lemma_filter_distinct(m.dirs, crate::model::child_of(root, d), path_of);
    assert forall|i: int, j: int| 0 <= i < j < recs.len() implies (#[trigger] recs[i]).path != (
    #[trigger] recs[j]).path by {
        assert(path_of(kids[i]) != path_of(kids[j]));
    }
    assert forall|i: int| 0 <= i < recs.len() implies #[trigger] recs[i] == crate::scan::folder_rec(
        d,
        sub,
        recs[i].path,
    ) by {
        lemma_child_rec(m, dirs, files, d, recs[i].path);
    }
    assert forall|c: Seq<Part>| #[trigger]
        crate::scan::lists(recs, c) <==> crate::scan::folder_walked(d, lower, c) || exists|i: int|
            0 <= i < sub.len() && crate::scan::in_folder(d, c)(#[trigger] sub[i]) by {
        if crate::scan::lists(recs, c) {
            lemma_child_walked(m, dirs, files, d, c);
        }
        if crate::scan::folder_walked(d, lower, c) {
            let i = choose|i: int|
                0 <= i < lower.len() && crate::scan::folder_above(d, #[trigger] lower[i], c);
            let n = crate::sort::lemma_kept_from(dirs, dir_below(d), i);
            let p = dirs[n];
            assert(extends(root, p) || p == root);
            if p == root {
                assert(d.len() < root.len());
            }
            lemma_step_down(root, d, p);
            lemma_within_prefix(root, p, c);
            assert(crate::model::within(root, dirs[n], c));
            lemma_listed(m, d, c);
        }
        if exists|i: int| 0 <= i < sub.len() && crate::scan::in_folder(d, c)(#[trigger] sub[i]) {
            let i = choose|i: int|
                0 <= i < sub.len() && crate::scan::in_folder(d, c)(#[trigger] sub[i]);
            let n = crate::sort::lemma_kept_from(files, below(d), i);
            lemma_step_down(root, d, files[n].path);
            lemma_held_below(root, files[n], c);
            lemma_listed(m, d, c);
        }
    }
}

/// A sub-folder that is in the tree is listed.
proof fn lemma_listed(m: TreeModel, d: Seq<Part>, c: Seq<Part>)
    requires
        m.has_dir(c),
        c != m.root(),
        crate::model::up(m.root(), c) == d,
    ensures
        crate::scan::lists(m.children(d), c),
{
    let k = choose|k: int| 0 <= k < m.dirs.len() && (#[trigger] m.dirs[k]).path == c;
    let a = crate::sort::lemma_kept_at(m.dirs, crate::model::child_of(m.root(), d), k);
    assert(m.children(d)[a] == m.dir_rec(c));
}

/// A sub-folder that the tree lists was walked, or a file lies in it.
proof fn lemma_child_walked(
    m: TreeModel,
    dirs: Seq<Seq<Part>>,
    files: Seq<FileRec>,
    d: Seq<Part>,
    c: Seq<Part>,
)
    requires
        crate::model::is_tree_of(m, m.root(), dirs, files),
        walks_below(m.root(), dirs, files),
        m.has_dir(d),
        crate::scan::lists(m.children(d), c),
    ensures
        crate::scan::folder_walked(d, dirs.filter(dir_below(d)), c) || exists|i: int|
            0 <= i < files.filter(below(d)).len() && crate::scan::in_folder(d, c)(
                #[trigger] files.filter(below(d))[i],
            ),
{
    let root = m.root();
    let recs = m.children(d);
    let kids = m.dirs.filter(crate::model::child_of(root, d));
    let a = choose|a: int| 0 <= a < recs.len() && (#[trigger] recs[a]).path == c;
    let k = crate::sort::lemma_kept_from(m.dirs, crate::model::child_of(root, d), a);
    assert(kids[a] == m.dirs[k]);
    assert(m.dirs[k].path == c);
    assert(m.has_dir(c));
    lemma_dir_extends(m, dirs, files, d);
    lemma_dir_extends(m, dirs, files, c);
    assert(c[c.len() - 1] == c.last());
    assert(c.drop_last() == d);
    assert(crate::model::walked_dir(root, dirs, files, c));
    if exists|i: int| 0 <= i < dirs.len() && crate::model::within(root, #[trigger] dirs[i], c) {
        let i = choose|i: int|
            0 <= i < dirs.len() && crate::model::within(root, #[trigger] dirs[i], c);
        let p = dirs[i];
        lemma_within_prefix(root, p, c);
        lemma_in_sub_folder(d, c, p);
        let n = crate::sort::lemma_kept_at(dirs, dir_below(d), i);
        assert(crate::scan::folder_above(d, dirs.filter(dir_below(d))[n], c));
    } else {
        let i = choose|i: int|
            0 <= i < files.len() && crate::model::within(
                root,
                crate::model::up(root, (#[trigger] files[i]).path),
                c,
            );
        lemma_held_below(root, files[i], c);
        let p = files[i].path;
        lemma_in_sub_folder(d, c, p);
        let n = crate::sort::lemma_kept_at(files, below(d), i);
        assert(crate::scan::in_folder(d, c)(files.filter(below(d))[n]));
    }
}

proof fn lemma_in_sub_folder(d: Seq<Part>, c: Seq<Part>, p: Seq<Part>)
    requires
        c.len() > 0,
        c.drop_last() == d,
        c.is_prefix_of(p),
    ensures
        d.is_prefix_of(p),
        p.len() > d.len(),
        p.take(d.len() as int + 1) == c,
{
    assert(c =~= p.subrange(0, c.len() as int));
    assert(d =~= p.subrange(0, d.len() as int));
    assert(p.take(d.len() as int + 1) =~= c);
}

/// The entries that could not be read at or below a folder of a scanned tree are those
/// that a fresh scan of just that folder comes across.
pub proof fn law_drill_in_skipped(m: TreeModel, d: Seq<Part>)
    requires
        m.root().is_prefix_of(d),
        forall|i: int|
            0 <= i < m.skipped.len() ==> #[trigger] m.skipped[i] == m.root() || extends(
                m.root(),
                m.skipped[i],
            ),
    ensures
        m.skipped_within(d) == m.skipped.filter(|q: Seq<Part>| d.is_prefix_of(q)).len(),
{
    let root = m.root();
    let keep = crate::model::within_dir(root, d);
    let at = |q: Seq<Part>| d.is_prefix_of(q);
    assert forall|i: int| 0 <= i < m.skipped.len() implies keep(#[trigger] m.skipped[i]) == at(
        m.skipped[i],
    ) by {
        lemma_within_prefix(root, m.skipped[i], d);
        assert(root =~= d.subrange(0, root.len() as int));
    }
    crate::sort::lemma_filter_ext(m.skipped, keep, at);
}

/// All entries that could not be read count for the root.
pub proof fn law_root_counts_all_skipped(m: TreeModel)
    ensures
        m.skipped_within(m.root()) == m.skipped.len(),
{
    let keep = crate::model::within_dir(m.root(), m.root());
    assert forall|i: int| 0 <= i < m.skipped.len() implies keep(#[trigger] m.skipped[i]) by {
        crate::model::lemma_within_root(m.root(), m.skipped[i]);
    }
    crate::sort::lemma_filter_all(m.skipped, keep);
}

/// The directories of a list that lie below `d`.
pub open spec fn dir_below(d: Seq<Part>) -> spec_fn(Seq<Part>) -> bool {
    |p: Seq<Part>| d.is_prefix_of(p) && d.len() < p.len()
}

/// The directories at or below `d`.
spec fn node_within(root: Seq<Part>, d: Seq<Part>) -> spec_fn(DirNode) -> bool {
    |e: DirNode| crate::model::within(root, e.path, d)
}

proof fn lemma_count_within(root: Seq<Part>, nodes: Seq<DirNode>, d: Seq<Part>)
    ensures
        crate::model::dirs_sum(
            nodes,
            crate::model::only_within(root, d, crate::model::own_dirs()),
        ) == nodes.filter(node_within(root, d)).len(),
    decreases nodes.len(),
{
    reveal(Seq::filter);
    if nodes.len() > 0 {
        lemma_count_within(root, nodes.drop_last(), d);
    }
}

/// Lists without repetition that hold the same values are equally long.
proof fn lemma_same_values<V>(a: Seq<V>, b: Seq<V>)
    requires
        a.no_duplicates(),
        b.no_duplicates(),
        forall|v: V| #[trigger] a.contains(v) <==> b.contains(v),
    ensures
        a.len() == b.len(),
{
    a.unique_seq_to_set();
    b.unique_seq_to_set();
    assert(a.to_set() =~= b.to_set());
}

/// A folder of a scanned tree has as many folders below it as a fresh scan of just
/// that folder sees, where the walk listed every directory below the root, each once.
pub proof fn law_drill_in_dirs(
    m: TreeModel,
    dirs: Seq<Seq<Part>>,
    files: Seq<FileRec>,
    d: Seq<Part>,
)
    requires
        crate::model::is_tree_of(m, m.root(), dirs, files),
        walks_below(m.root(), dirs, files),
        dirs.no_duplicates(),
        forall|p: Seq<Part>|
            m.has_dir(p) && p != m.root() ==> #[trigger] dirs.contains(p),
        m.has_dir(d),
    ensures
        m.total_dirs(d) == dirs.filter(dir_below(d)).len(),
{
    let root = m.root();
    let nodes = m.dirs.filter(node_within(root, d));
    let a = Seq::new(nodes.len(), |i: int| nodes[i].path);
    let lower = dirs.filter(dir_below(d));
    let b = lower.push(d);
    lemma_count_within(root, m.dirs, d);
    lemma_dir_extends(m, dirs, files, d);
    let path_of = |e: DirNode| e.path;
    assert forall|i: int, j: int| 0 <= i < j < m.dirs.len() implies path_of(#[trigger] m.dirs[i])
        != path_of(#[trigger] m.dirs[j]) by {}
    crate::sort::lemma_filter_distinct(m.dirs, node_within(root, d), path_of);
    assert(a.no_duplicates()) by {
        assert forall|i: int, j: int| 0 <= i < j < a.len() implies a[i] != a[j] by {
            assert(path_of(nodes[i]) != path_of(nodes[j]));
        }
    }
    let same = |p: Seq<Part>| p;
    assert forall|i: int, j: int| 0 <= i < j < dirs.len() implies same(#[trigger] dirs[i]) != same(
        #[trigger] dirs[j],
    ) by {}
    crate::sort::lemma_filter_distinct(dirs, dir_below(d), same);
    assert(b.no_duplicates()) by {
        assert forall|i: int, j: int| 0 <= i < j < b.len() implies b[i] != b[j] by {
            let k = crate::sort::lemma_kept_from(dirs, dir_below(d), i);
            assert(b[i] == lower[i]);
            if j < lower.len() {
                assert(b[j] == lower[j]);
                assert(same(lower[i]) != same(lower[j]));
            }
        }
    }
    assert forall|p: Seq<Part>| #[trigger] a.contains(p) <==> b.contains(p) by {
        if a.contains(p) {
            let i = choose|i: int| 0 <= i < a.len() && a[i] == p;
            let k = crate::sort::lemma_kept_from(m.dirs, node_within(root, d), i);
            assert(m.dirs[k].path == p);
            assert(m.has_dir(p));
            lemma_dir_extends(m, dirs, files, p);
            lemma_within_prefix(root, p, d);
            if p == d {
                assert(b[b.len() - 1] == p);
            } else {
                if d.len() == p.len() {
                    assert(d =~= p);
                }
                if p == root {
                    assert(d =~= root);
                }
                assert(dirs.contains(p));
                let n = choose|n: int| 0 <= n < dirs.len() && dirs[n] == p;
                let j = crate::sort::lemma_kept_at(dirs, dir_below(d), n);
                assert(b[j] == p);
            }
        }
        if b.contains(p) {
            let i = choose|i: int| 0 <= i < b.len() && b[i] == p;
            if i < lower.len() {
                let n = crate::sort::lemma_kept_from(dirs, dir_below(d), i);
                assert(crate::model::within(root, dirs[n], dirs[n]));
                assert(m.has_dir(p));
                lemma_within_prefix(root, p, d);
            } else {
                assert(p == d);
            }
            let k = choose|k: int| 0 <= k < m.dirs.len() && (#[trigger] m.dirs[k]).path == p;
            let j = crate::sort::lemma_kept_at(m.dirs, node_within(root, d), k);
            assert(a[j] == p);
        }
    }
    lemma_same_values(a, b);
}

/// The totals of a list of directories, summed.
pub open spec fn totals_of(m: TreeModel, kids: Seq<DirNode>, g: spec_fn(DirNode) -> nat) -> nat
    decreases kids.len(),
{
    if kids.len() == 0 {
        0
    } else {
        totals_of(m, kids.drop_last(), g) + m.total(kids.last().path, g)
    }
}

/// `g`, counted once for every directory of the list that `e` lies at or below.
spec fn hits(root: Seq<Part>, kids: Seq<DirNode>, g: spec_fn(DirNode) -> nat, e: DirNode) -> nat
    decreases kids.len(),
{
    if kids.len() == 0 {
        0
    } else {
        hits(root, kids.drop_last(), g, e) + crate::model::only_within(root, kids.last().path, g)(
            e,
        )
    }
}

proof fn lemma_totals_hits(m: TreeModel, kids: Seq<DirNode>, g: spec_fn(DirNode) -> nat)
    ensures
        totals_of(m, kids, g) == crate::model::dirs_sum(
            m.dirs,
            |e: DirNode| hits(m.root(), kids, g, e),
        ),
    decreases kids.len(),
{
    let root = m.root();
    let all = |e: DirNode| hits(root, kids, g, e);
    if kids.len() == 0 {
        let none = |e: DirNode| 0nat;
        crate::model::lemma_sum_ext(m.dirs, all, none);
        crate::model::lemma_sum_none(m.dirs);
    } else {
        lemma_totals_hits(m, kids.drop_last(), g);
        let first = |e: DirNode| hits(root, kids.drop_last(), g, e);
        crate::model::lemma_sum_split(
            m.dirs,
            first,
            crate::model::only_within(root, kids.last().path, g),
            all,
        );
    }
}

/// Some immediate sub-folder of `d` is on the way from `p` up to `d`.
proof fn lemma_child_above(m: TreeModel, p: Seq<Part>, d: Seq<Part>) -> (k: int)
    requires
        m.wf(),
        m.has_dir(p),
        crate::model::within(m.root(), p, d),
        p != d,
    ensures
        0 <= k < m.dirs.len(),
        crate::model::child_of(m.root(), d)(m.dirs[k]),
        crate::model::within(m.root(), p, m.dirs[k].path),
    decreases crate::model::height(m.root(), p),
{
    let root = m.root();
    let k = choose|k: int| 0 <= k < m.dirs.len() && (#[trigger] m.dirs[k]).path == p;
    let q = crate::model::up(root, p);
    if q == d {
        k
    } else {
        assert(k > 0);
        assert(m.has_dir(q));
        lemma_child_above(m, q, d)
    }
}

/// Two different sub-folders of `d` have nothing in common.
proof fn lemma_children_apart(
    root: Seq<Part>,
    d: Seq<Part>,
    a: Seq<Part>,
    b: Seq<Part>,
    e: Seq<Part>,
)
    requires
        a != root,
        crate::model::up(root, a) == d,
        b != root,
        crate::model::up(root, b) == d,
        crate::model::within(root, e, a),
        crate::model::within(root, e, b),
    ensures
        a == b,
{
    if a != b {
        crate::model::lemma_within_linear(root, e, a, b);
        let (lo, hi) = if crate::model::within(root, a, b) {
            (a, b)
        } else {
            (b, a)
        };
        assert(crate::model::within(root, d, hi));
        assert(crate::model::within(root, d, d));
        assert(crate::model::within(root, hi, d));
        crate::model::lemma_within_antisym(root, d, hi);
        assert(hi == crate::model::up(root, hi));
    }
}

proof fn lemma_hits_child(
    root: Seq<Part>,
    kids: Seq<DirNode>,
    d: Seq<Part>,
    g: spec_fn(DirNode) -> nat,
    e: DirNode,
)
    requires
        forall|i: int|
            0 <= i < kids.len() ==> crate::model::child_of(root, d)(#[trigger] kids[i]),
        forall|i: int, j: int|
            0 <= i < j < kids.len() ==> (#[trigger] kids[i]).path != (#[trigger] kids[j]).path,
    ensures
        hits(root, kids, g, e) == if exists|i: int|
            0 <= i < kids.len() && crate::model::within(
                root,
                e.path,
                (#[trigger] kids[i]).path,
            ) {
            g(e)
        } else {
            0
        },
    decreases kids.len(),
{
    if kids.len() > 0 {
        let rest = kids.drop_last();
        assert forall|i: int| 0 <= i < rest.len() implies #[trigger] rest[i] == kids[i] by {}
        lemma_hits_child(root, rest, d, g, e);
        let c = kids[kids.len() - 1];
        assert(c == kids.last());
        if exists|i: int|
            0 <= i < rest.len() && crate::model::within(root, e.path, (#[trigger] rest[i]).path) {
            let i = choose|i: int|
                0 <= i < rest.len() && crate::model::within(
                    root,
                    e.path,
                    (#[trigger] rest[i]).path,
                );
            assert(rest[i] == kids[i]);
            if crate::model::within(root, e.path, c.path) {
                lemma_children_apart(root, d, kids[i].path, c.path, e.path);
            }
        } else {
            assert forall|i: int| 0 <= i < rest.len() implies !crate::model::within(
                root,
                e.path,
                (#[trigger] kids[i]).path,
            ) by {
                assert(rest[i] == kids[i]);
            }
        }
    }
}

/// What a directory counts for in total is what it counts for itself and the totals
/// of its immediate sub-folders, in every tree.
pub proof fn law_tree_adds_up(m: TreeModel, k: int, g: spec_fn(DirNode) -> nat)
    requires
        m.wf(),
        0 <= k < m.dirs.len(),
    ensures
        m.total(m.dirs[k].path, g) == g(m.dirs[k]) + totals_of(
            m,
            m.dirs.filter(crate::model::child_of(m.root(), m.dirs[k].path)),
            g,
        ),
{
    let root = m.root();
    let d = m.dirs[k].path;
    let kids = m.dirs.filter(crate::model::child_of(root, d));
    lemma_totals_hits(m, kids, g);
    let path_of = |e: DirNode| e.path;
    assert forall|i: int, j: int| 0 <= i < j < m.dirs.len() implies path_of(#[trigger] m.dirs[i])
        != path_of(#[trigger] m.dirs[j]) by {}
    crate::sort::lemma_filter_distinct(m.dirs, crate::model::child_of(root, d), path_of);
    assert forall|i: int, j: int| 0 <= i < j < kids.len() implies (#[trigger] kids[i]).path != (
    #[trigger] kids[j]).path by {
        assert(path_of(kids[i]) != path_of(kids[j]));
    }
    assert forall|i: int| 0 <= i < kids.len() implies crate::model::child_of(root, d)(
        #[trigger] kids[i],
    ) by {
        let n = crate::sort::lemma_kept_from(m.dirs, crate::model::child_of(root, d), i);
    }
    let all = crate::model::only_within(root, d, g);
    let lower = |e: DirNode| hits(root, kids, g, e);
    let own = |e: DirNode|
        if e.path == d {
            g(e)
        } else {
            0
        };
    assert forall|i: int| 0 <= i < m.dirs.len() implies all(#[trigger] m.dirs[i]) == own(m.dirs[i])
        + lower(m.dirs[i]) by {
        let e = m.dirs[i];
        lemma_hits_child(root, kids, d, g, e);
        if crate::model::within(root, e.path, d) && e.path != d {
            assert(m.has_dir(e.path));
            let c = lemma_child_above(m, e.path, d);
            let n = crate::sort::lemma_kept_at(m.dirs, crate::model::child_of(root, d), c);
            assert(crate::model::within(root, e.path, kids[n].path));
        } else if exists|n: int|
            0 <= n < kids.len() && crate::model::within(root, e.path, (#[trigger] kids[n]).path) {
            let n = choose|n: int|
                0 <= n < kids.len() && crate::model::within(
                    root,
                    e.path,
                    (#[trigger] kids[n]).path,
                );
            let c = kids[n].path;
            assert(crate::model::within(root, d, d));
            assert(crate::model::within(root, c, d));
            crate::model::lemma_within_trans(root, e.path, c, d);
            if e.path == d {
                crate::model::lemma_within_antisym(root, d, c);
                assert(c == crate::model::up(root, c));
            }
        }
    }
    crate::model::lemma_sum_split(m.dirs, own, lower, all);
    lemma_sum_at(m.dirs, k, own, g(m.dirs[k]));
}

proof fn lemma_sum_at(dirs: Seq<DirNode>, k: int, own: spec_fn(DirNode) -> nat, v: nat)
    requires
        forall|i: int|
            0 <= i < dirs.len() ==> own(#[trigger] dirs[i]) == if i == k {
                v
            } else {
                0
            },
    ensures
        crate::model::dirs_sum(dirs, own) == if 0 <= k < dirs.len() {
            v
        } else {
            0
        },
    decreases dirs.len(),
{
    if dirs.len() > 0 {
        let rest = dirs.drop_last();
        assert forall|i: int| 0 <= i < rest.len() implies own(#[trigger] rest[i]) == if i == k {
            v
        } else {
            0
        } by {
            assert(rest[i] == dirs[i]);
        }
        lemma_sum_at(rest, k, own, v);
        assert(dirs[dirs.len() - 1] == dirs.last());
    }
}

} // verus!
