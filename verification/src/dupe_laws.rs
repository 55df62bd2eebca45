//! What a search for duplicates finds, in terms of the files that were probed.
use vstd::prelude::*;

use crate::dupes::{DupKey, GroupRec, ProbeRec};

verus! {

/// The first path to a physical file is kept among the files that `keep` picks.
proof fn lemma_one_kept(probes: Seq<ProbeRec>, keep: spec_fn(ProbeRec) -> bool, i: int) -> (a: int)
    requires
        0 <= i < probes.len(),
        keep(probes[i]),
        probes[i].id is Some ==> forall|k: int|
            0 <= k < i ==> (#[trigger] probes[k]).id != probes[i].id,
    ensures
        0 <= a < crate::dupes::one_per_file(probes.filter(keep)).len(),
        crate::dupes::one_per_file(probes.filter(keep))[a] == probes[i],
    decreases probes.len(),
{
    reveal(Seq::filter);
    let rest = probes.drop_last();
    let kept = rest.filter(keep);
    let now = probes.filter(keep);
    if keep(probes.last()) {
        assert(now == kept.push(probes.last()));
        assert(now.drop_last() =~= kept);
    }
    if i < rest.len() {
        assert(rest[i] == probes[i]);
        lemma_one_kept(rest, keep, i)
    } else {
        if crate::dupes::linked(kept, probes[i]) {
            let a = choose|a: int| 0 <= a < kept.len() && (#[trigger] kept[a]).id == probes[i].id;
            let k = crate::sort::lemma_kept_from(rest, keep, a);
            assert(rest[k] == probes[k]);
        }
        crate::dupes::one_per_file(now).len() - 1
    }
}

proof fn lemma_two_kept(probes: Seq<ProbeRec>, keep: spec_fn(ProbeRec) -> bool, i: int, j: int) -> (at:
    (int, int))
    requires
        0 <= i < j < probes.len(),
        keep(probes[i]),
        keep(probes[j]),
        probes[i].id is Some ==> forall|k: int|
            0 <= k < i ==> (#[trigger] probes[k]).id != probes[i].id,
        probes[j].id is Some ==> forall|k: int|
            0 <= k < j ==> (#[trigger] probes[k]).id != probes[j].id,
    ensures
        0 <= at.0 < at.1 < crate::dupes::one_per_file(probes.filter(keep)).len(),
        crate::dupes::one_per_file(probes.filter(keep))[at.0] == probes[i],
        crate::dupes::one_per_file(probes.filter(keep))[at.1] == probes[j],
    decreases probes.len(),
{
    reveal(Seq::filter);
    let rest = probes.drop_last();
    let kept = rest.filter(keep);
    let now = probes.filter(keep);
    if keep(probes.last()) {
        assert(now == kept.push(probes.last()));
        assert(now.drop_last() =~= kept);
    }
    if j < rest.len() {
        assert(rest[i] == probes[i] && rest[j] == probes[j]);
        lemma_two_kept(rest, keep, i, j)
    } else {
        assert(rest[i] == probes[i]);
        let a = lemma_one_kept(rest, keep, i);
        if crate::dupes::linked(kept, probes[j]) {
            let b = choose|b: int| 0 <= b < kept.len() && (#[trigger] kept[b]).id == probes[j].id;
            let k = crate::sort::lemma_kept_from(rest, keep, b);
            assert(rest[k] == probes[k]);
        }
        (a, crate::dupes::one_per_file(now).len() - 1)
    }
}

/// Two files of the same size, at least `min` bytes and not empty, whose first blocks and
/// whose contents have the same digests, are in one group, whatever their size: where they
/// are not known to be hard links, neither to each other nor to a file before them.
pub proof fn law_equal_files_share_a_group(
    probes: Seq<ProbeRec>,
    min: u64,
    out: Seq<GroupRec>,
    i: int,
    j: int,
) -> (g: int)
    requires
        crate::dupes::are_duplicates(probes, min, out),
        0 <= i < j < probes.len(),
        probes[i].size == probes[j].size,
        probes[i].size >= min,
        probes[i].size > 0,
        probes[i].prefix is Some,
        probes[i].prefix == probes[j].prefix,
        probes[i].digest is Some,
        probes[i].digest == probes[j].digest,
        probes[i].id is Some ==> forall|k: int|
            0 <= k < i ==> (#[trigger] probes[k]).id != probes[i].id,
        probes[j].id is Some ==> forall|k: int|
            0 <= k < j ==> (#[trigger] probes[k]).id != probes[j].id,
    ensures
        0 <= g < out.len(),
        out[g].size == probes[i].size,
        out[g].files.contains(probes[i].path),
        out[g].files.contains(probes[j].path),
{
    let k = DupKey { size: probes[i].size, prefix: probes[i].prefix->0, digest: probes[i].digest->0 };
    let sized = crate::dupes::keyed(crate::dupes::size_key(min), k.size);
    let by_prefix = crate::dupes::keyed(crate::dupes::prefix_key(), k.prefix);
    let by_digest = crate::dupes::keyed(crate::dupes::digest_key(), k.digest);
    let reps = crate::dupes::one_per_file(probes.filter(sized));
    let pre = reps.filter(by_prefix);
    let members = crate::dupes::twins(probes, min, k);
    let at = lemma_two_kept(probes, sized, i, j);
    crate::dupes::lemma_filter_two(reps, by_prefix, at.0, at.1);
    let (c, d) = choose|c: int, d: int|
        0 <= c < d < pre.len() && #[trigger] pre[c] == reps[at.0] && #[trigger] pre[d]
            == reps[at.1];
    crate::dupes::lemma_filter_two(pre, by_digest, c, d);
    let (e, f) = choose|e: int, f: int|
        0 <= e < f < members.len() && #[trigger] members[e] == pre[c] && #[trigger] members[f]
            == pre[d];
    let keys = choose|keys: Seq<DupKey>|
        crate::sort::is_found(keys, crate::dupes::duplicated(probes, min))
            && #[trigger] crate::dupes::has_groups(probes, min, keys, out);
    assert(crate::dupes::duplicated(probes, min)(k));
    assert(keys.contains(k));
    let g = choose|g: int| 0 <= g < keys.len() && keys[g] == k;
    assert(crate::dupes::is_group(crate::dupes::twins(probes, min, keys[g]), keys[g], out[g]));
    let paths = crate::dupes::paths_of(members);
    assert(paths[e] == probes[i].path && paths[f] == probes[j].path);
    crate::dupes::lemma_same_members(paths, out[g].files, probes[i].path);
    crate::dupes::lemma_same_members(paths, out[g].files, probes[j].path);
    g
}

/// What a group says of its files: at least two, of the size that it shows, with the same first
/// block and the same content, which is the one that its hash is the digest of. All copies but
/// one are wasted. The files are in path order, so that the one that is kept is always the
/// same.
pub proof fn law_a_group_shows_what_its_files_are(
    probes: Seq<ProbeRec>,
    min: u64,
    out: Seq<GroupRec>,
    g: int,
) -> (first: int)
    requires
        crate::dupes::are_duplicates(probes, min, out),
        0 <= g < out.len(),
    ensures
        out[g].files.len() >= 2,
        out[g].size >= min,
        out[g].size > 0,
        out[g].size * (out[g].files.len() - 1) <= u64::MAX ==> out[g].wasted == out[g].size * (
        out[g].files.len() - 1),
        out[g].size * (out[g].files.len() - 1) > u64::MAX ==> out[g].wasted == u64::MAX,
        forall|i: int, j: int|
            0 <= i < j < out[g].files.len() ==> crate::path::path_le(
                #[trigger] out[g].files[i],
                #[trigger] out[g].files[j],
            ),
        0 <= first < probes.len(),
        probes[first].digest is Some,
        out[g].hash == crate::hash::hex(probes[first].digest->0),
        forall|i: int|
            0 <= i < out[g].files.len() ==> exists|n: int|
                0 <= n < probes.len() && (#[trigger] probes[n]).path == #[trigger] out[g].files[i]
                    && probes[n].size == out[g].size && probes[n].prefix is Some
                    && probes[n].prefix == probes[first].prefix && probes[n].digest
                    == probes[first].digest,
{
    broadcast use vstd::seq_lib::group_to_multiset_ensures;

    let keys = choose|keys: Seq<DupKey>|
        crate::sort::is_found(keys, crate::dupes::duplicated(probes, min))
            && #[trigger] crate::dupes::has_groups(probes, min, keys, out);
    let k = keys[g];
    let members = crate::dupes::twins(probes, min, k);
    assert(crate::dupes::is_group(members, k, out[g]));
    let paths = crate::dupes::paths_of(members);
    assert(out[g].files.len() == out[g].files.to_multiset().len());
    assert(paths.len() == paths.to_multiset().len());
    assert forall|i: int, j: int| 0 <= i < j < out[g].files.len() implies crate::path::path_le(
        #[trigger] out[g].files[i],
        #[trigger] out[g].files[j],
    ) by {
        assert(crate::dupes::earlier_path()(out[g].files[i], out[g].files[j]));
    }
    crate::dupes::law_twins_are_alike(probes, min, k, 0);
    let first = choose|n: int| 0 <= n < probes.len() && probes[n] == members[0];
    assert forall|i: int| 0 <= i < out[g].files.len() implies exists|n: int|
        0 <= n < probes.len() && (#[trigger] probes[n]).path == #[trigger] out[g].files[i]
            && probes[n].size == out[g].size && probes[n].prefix is Some && probes[n].prefix
            == probes[first].prefix && probes[n].digest == probes[first].digest by {
        let p = out[g].files[i];
        assert(out[g].files.contains(p));
        crate::dupes::lemma_same_members(paths, out[g].files, p);
        let j = choose|j: int| 0 <= j < paths.len() && paths[j] == p;
        crate::dupes::law_twins_are_alike(probes, min, k, j);
        let n = choose|n: int| 0 <= n < probes.len() && probes[n] == members[j];
        assert(probes[n].path == p);
    }
    first
}

/// The groups that waste most come first.
pub proof fn law_the_most_wasteful_groups_come_first(
    probes: Seq<ProbeRec>,
    min: u64,
    out: Seq<GroupRec>,
)
    requires
        crate::dupes::are_duplicates(probes, min, out),
    ensures
        forall|g: int, h: int|
            0 <= g < h < out.len() ==> (#[trigger] out[g]).wasted >= (#[trigger] out[h]).wasted,
{
    assert forall|g: int, h: int| 0 <= g < h < out.len() implies (#[trigger] out[g]).wasted >= (
    #[trigger] out[h]).wasted by {
        assert(crate::dupes::more_wasted()(out[g], out[h]));
    }
}

/// A group names every physical file once: two of its files are never known to be hard links
/// to the same one, where no path was probed twice.
pub proof fn law_a_group_names_every_file_once(
    probes: Seq<ProbeRec>,
    min: u64,
    out: Seq<GroupRec>,
    g: int,
    a: int,
    b: int,
)
    requires
        crate::dupes::are_duplicates(probes, min, out),
        forall|i: int, j: int|
            0 <= i < j < probes.len() ==> (#[trigger] probes[i]).path != (#[trigger] probes[j]).path,
        0 <= g < out.len(),
        0 <= a < probes.len(),
        0 <= b < probes.len(),
        a != b,
        out[g].files.contains(probes[a].path),
        out[g].files.contains(probes[b].path),
    ensures
        probes[a].id is Some ==> probes[a].id != probes[b].id,
        out[g].files.no_duplicates(),
{
    broadcast use vstd::seq_lib::group_to_multiset_ensures;

    let keys = choose|keys: Seq<DupKey>|
        crate::sort::is_found(keys, crate::dupes::duplicated(probes, min))
            && #[trigger] crate::dupes::has_groups(probes, min, keys, out);
    let k = keys[g];
    let members = crate::dupes::twins(probes, min, k);
    assert(crate::dupes::is_group(members, k, out[g]));
    let x = lemma_place(probes, min, k, out[g], a);
    let y = lemma_place(probes, min, k, out[g], b);
    if probes[a].id is Some && probes[a].id == probes[b].id {
        if x < y {
            crate::dupes::law_groups_hold_no_hard_links(probes, min, k, x, y);
        } else if y < x {
            crate::dupes::law_groups_hold_no_hard_links(probes, min, k, y, x);
        } else {
            if a < b {
                assert(probes[a].path != probes[b].path);
            } else {
                assert(probes[b].path != probes[a].path);
            }
        }
    }
    // Different members have different paths, so the list of paths has each once.
    let paths = crate::dupes::paths_of(members);
    lemma_members_apart(probes, min, k);
    assert(paths.no_duplicates()) by {
        assert forall|i: int, j: int| 0 <= i < paths.len() && 0 <= j < paths.len() && i != j implies paths[i]
            != paths[j] by {
            if i < j {
                assert(members[i].path != members[j].path);
            } else {
                assert(members[j].path != members[i].path);
            }
        }
    }
    paths.lemma_multiset_has_no_duplicates();
    out[g].files.lemma_multiset_has_no_duplicates_conv();
}

/// Where a file stands among the members of its group.
proof fn lemma_place(probes: Seq<ProbeRec>, min: u64, k: DupKey, group: GroupRec, a: int) -> (x: int)
    requires
        forall|i: int, j: int|
            0 <= i < j < probes.len() ==> (#[trigger] probes[i]).path != (#[trigger] probes[j]).path,
        crate::dupes::is_group(crate::dupes::twins(probes, min, k), k, group),
        0 <= a < probes.len(),
        group.files.contains(probes[a].path),
    ensures
        0 <= x < crate::dupes::twins(probes, min, k).len(),
        crate::dupes::twins(probes, min, k)[x] == probes[a],
{
    let members = crate::dupes::twins(probes, min, k);
    let paths = crate::dupes::paths_of(members);
    crate::dupes::lemma_same_members(paths, group.files, probes[a].path);
    let x = choose|x: int| 0 <= x < paths.len() && paths[x] == probes[a].path;
    crate::dupes::law_twins_are_alike(probes, min, k, x);
    let n = choose|n: int| 0 <= n < probes.len() && probes[n] == members[x];
    if n < a {
        assert(probes[n].path != probes[a].path);
    } else if a < n {
        assert(probes[a].path != probes[n].path);
    }
    x
}

proof fn lemma_members_apart(probes: Seq<ProbeRec>, min: u64, k: DupKey)
    requires
        forall|i: int, j: int|
            0 <= i < j < probes.len() ==> (#[trigger] probes[i]).path != (#[trigger] probes[j]).path,
    ensures
        ({
            let members = crate::dupes::twins(probes, min, k);
            forall|i: int, j: int|
                0 <= i < j < members.len() ==> (#[trigger] members[i]).path != (
                #[trigger] members[j]).path
        }),
{
    let sized = probes.filter(crate::dupes::keyed(crate::dupes::size_key(min), k.size));
    let reps = crate::dupes::one_per_file(sized);
    let by_prefix = crate::dupes::keyed(crate::dupes::prefix_key(), k.prefix);
    let by_digest = crate::dupes::keyed(crate::dupes::digest_key(), k.digest);
    lemma_apart_filter(probes, crate::dupes::keyed(crate::dupes::size_key(min), k.size));
    lemma_apart_reps(sized);
    lemma_apart_filter(reps, by_prefix);
    lemma_apart_filter(reps.filter(by_prefix), by_digest);
}

proof fn lemma_apart_filter(s: Seq<ProbeRec>, keep: spec_fn(ProbeRec) -> bool)
    requires
        forall|i: int, j: int| 0 <= i < j < s.len() ==> (#[trigger] s[i]).path != (#[trigger] s[j]).path,
    ensures
        forall|i: int, j: int|
            0 <= i < j < s.filter(keep).len() ==> (#[trigger] s.filter(keep)[i]).path != (
            #[trigger] s.filter(keep)[j]).path,
{
    assert forall|i: int, j: int| 0 <= i < j < s.filter(keep).len() implies (
    #[trigger] s.filter(keep)[i]).path != (#[trigger] s.filter(keep)[j]).path by {
        crate::sort::lemma_filter_order(s, keep, i, j);
        let (c, d) = choose|c: int, d: int|
            0 <= c < d < s.len() && #[trigger] s[c] == s.filter(keep)[i] && #[trigger] s[d]
                == s.filter(keep)[j];
        assert(s[c].path != s[d].path);
    }
}

proof fn lemma_apart_reps(s: Seq<ProbeRec>)
    requires
        forall|i: int, j: int| 0 <= i < j < s.len() ==> (#[trigger] s[i]).path != (#[trigger] s[j]).path,
    ensures
        ({
            let kept = crate::dupes::one_per_file(s);
            forall|i: int, j: int|
                0 <= i < j < kept.len() ==> (#[trigger] kept[i]).path != (#[trigger] kept[j]).path
        }),
    decreases s.len(),
{
    if s.len() > 0 {
        let rest = s.drop_last();
        let kept = crate::dupes::one_per_file(rest);
        let now = crate::dupes::one_per_file(s);
        lemma_apart_reps(rest);
        assert forall|i: int, j: int| 0 <= i < j < now.len() implies (#[trigger] now[i]).path != (
        #[trigger] now[j]).path by {
            if j < kept.len() {
                assert(now[i] == kept[i] && now[j] == kept[j]);
            } else {
                assert(now[i] == kept[i]);
                let k = crate::dupes::lemma_kept_file(rest, i);
                assert(s[k].path != s[s.len() - 1].path);
            }
        }
    }
}

/// Groups of files by size hold any two files of the same size, at least `min` bytes and not
/// empty, together, and no others.
pub proof fn law_files_of_one_size_are_grouped(
    probes: Seq<ProbeRec>,
    min: u64,
    groups: Seq<Seq<ProbeRec>>,
)
    requires
        crate::dupes::are_key_groups(probes, crate::dupes::size_key(min), groups),
    ensures
        forall|i: int, j: int|
            0 <= i < j < probes.len() && (#[trigger] probes[i]).size == (#[trigger] probes[j]).size
                && probes[i].size >= min && probes[i].size > 0 ==> exists|g: int|
                0 <= g < groups.len() && (#[trigger] groups[g]).contains(probes[i])
                    && groups[g].contains(probes[j]),
        forall|g: int, a: int|
            0 <= g < groups.len() && 0 <= a < (#[trigger] groups[g]).len() ==> {
                &&& probes.contains(#[trigger] groups[g][a])
                &&& groups[g][a].size == groups[g][0].size
                &&& groups[g][a].size >= min
                &&& groups[g][a].size > 0
                &&& groups[g].len() >= 2
            },
{
    let key = crate::dupes::size_key(min);
    assert forall|i: int, j: int|
        0 <= i < j < probes.len() && (#[trigger] probes[i]).size == (#[trigger] probes[j]).size
            && probes[i].size >= min && probes[i].size > 0 implies exists|g: int|
        0 <= g < groups.len() && (#[trigger] groups[g]).contains(probes[i]) && groups[g].contains(
            probes[j],
        ) by {
        lemma_grouped(probes, key, groups, probes[i].size, i, j);
    }
    assert forall|g: int, a: int| 0 <= g < groups.len() && 0 <= a < (#[trigger] groups[g]).len() implies {
        &&& probes.contains(#[trigger] groups[g][a])
        &&& groups[g][a].size == groups[g][0].size
        &&& groups[g][a].size >= min
        &&& groups[g][a].size > 0
        &&& groups[g].len() >= 2
    } by {
        let keep = crate::dupes::keyed(key, key(groups[g][0])->0);
        let n = crate::sort::lemma_kept_from(probes, keep, a);
        assert(probes[n] == groups[g][a]);
    }
}

/// Groups of files by first block hold any two files with the same digest of it together, and
/// no others.
pub proof fn law_files_with_one_first_block_are_grouped(
    probes: Seq<ProbeRec>,
    groups: Seq<Seq<ProbeRec>>,
)
    requires
        crate::dupes::are_key_groups(probes, crate::dupes::prefix_key(), groups),
    ensures
        forall|i: int, j: int|
            0 <= i < j < probes.len() && (#[trigger] probes[i]).prefix == (
            #[trigger] probes[j]).prefix && probes[i].prefix is Some ==> exists|g: int|
                0 <= g < groups.len() && (#[trigger] groups[g]).contains(probes[i])
                    && groups[g].contains(probes[j]),
        forall|g: int, a: int|
            0 <= g < groups.len() && 0 <= a < (#[trigger] groups[g]).len() ==> {
                &&& probes.contains(#[trigger] groups[g][a])
                &&& groups[g][a].prefix is Some
                &&& groups[g][a].prefix == groups[g][0].prefix
                &&& groups[g].len() >= 2
            },
{
    let key = crate::dupes::prefix_key();
    assert forall|i: int, j: int|
        0 <= i < j < probes.len() && (#[trigger] probes[i]).prefix == (#[trigger] probes[j]).prefix
            && probes[i].prefix is Some implies exists|g: int|
        0 <= g < groups.len() && (#[trigger] groups[g]).contains(probes[i]) && groups[g].contains(
            probes[j],
        ) by {
        lemma_grouped(probes, key, groups, probes[i].prefix->0, i, j);
    }
    assert forall|g: int, a: int| 0 <= g < groups.len() && 0 <= a < (#[trigger] groups[g]).len() implies {
        &&& probes.contains(#[trigger] groups[g][a])
        &&& groups[g][a].prefix is Some
        &&& groups[g][a].prefix == groups[g][0].prefix
        &&& groups[g].len() >= 2
    } by {
        let keep = crate::dupes::keyed(key, key(groups[g][0])->0);
        let n = crate::sort::lemma_kept_from(probes, keep, a);
        assert(probes[n] == groups[g][a]);
    }
}

proof fn lemma_grouped<K>(
    probes: Seq<ProbeRec>,
    key: spec_fn(ProbeRec) -> Option<K>,
    groups: Seq<Seq<ProbeRec>>,
    k: K,
    i: int,
    j: int,
)
    requires
        crate::dupes::are_key_groups(probes, key, groups),
        0 <= i < j < probes.len(),
        key(probes[i]) == Some(k),
        key(probes[j]) == Some(k),
    ensures
        exists|g: int|
            0 <= g < groups.len() && (#[trigger] groups[g]).contains(probes[i])
                && groups[g].contains(probes[j]),
{
    let keep = crate::dupes::keyed(key, k);
    crate::dupes::lemma_filter_two(probes, keep, i, j);
    assert(crate::dupes::has_key_group(groups, key, k));
    let g = choose|g: int| 0 <= g < groups.len() && key((#[trigger] groups[g])[0]) == Some(k);
    assert(groups[g] == probes.filter(keep));
    let a = crate::sort::lemma_kept_at(probes, keep, i);
    let b = crate::sort::lemma_kept_at(probes, keep, j);
    assert(groups[g][a] == probes[i] && groups[g][b] == probes[j]);
}

/// Of the paths to a physical file the first is kept, and no other; paths whose identity is
/// not known are all kept.
pub proof fn law_the_first_path_of_a_file_is_kept(probes: Seq<ProbeRec>, i: int)
    ensures
        0 <= i < probes.len() && (probes[i].id is Some ==> forall|k: int|
            0 <= k < i ==> (#[trigger] probes[k]).id != probes[i].id)
            ==> crate::dupes::one_per_file(probes).contains(probes[i]),
        0 <= i < crate::dupes::one_per_file(probes).len() ==> exists|n: int|
            0 <= n < probes.len() && #[trigger] probes[n] == crate::dupes::one_per_file(probes)[i]
                && (probes[n].id is Some ==> forall|k: int|
                0 <= k < n ==> (#[trigger] probes[k]).id != probes[n].id),
{
    let any = |p: ProbeRec| true;
    crate::sort::lemma_filter_all(probes, any);
    if 0 <= i < probes.len() && (probes[i].id is Some ==> forall|k: int|
        0 <= k < i ==> (#[trigger] probes[k]).id != probes[i].id) {
        lemma_one_kept(probes, any, i);
    }
    if 0 <= i < crate::dupes::one_per_file(probes).len() {
        lemma_kept_is_first(probes, i);
    }
}

proof fn lemma_kept_is_first(probes: Seq<ProbeRec>, i: int)
    requires
        0 <= i < crate::dupes::one_per_file(probes).len(),
    ensures
        exists|n: int|
            0 <= n < probes.len() && #[trigger] probes[n] == crate::dupes::one_per_file(probes)[i]
                && (probes[n].id is Some ==> forall|k: int|
                0 <= k < n ==> (#[trigger] probes[k]).id != probes[n].id),
    decreases probes.len(),
{
    let rest = probes.drop_last();
    let kept = crate::dupes::one_per_file(rest);
    if i < kept.len() {
        lemma_kept_is_first(rest, i);
        let n = choose|n: int|
            0 <= n < rest.len() && #[trigger] rest[n] == kept[i] && (rest[n].id is Some ==> forall|
                k: int,
            |
                0 <= k < n ==> (#[trigger] rest[k]).id != rest[n].id);
        assert(probes[n] == rest[n]);
        assert forall|k: int| 0 <= k < n && probes[n].id is Some implies (#[trigger] probes[k]).id
            != probes[n].id by {
            assert(rest[k] == probes[k]);
        }
    } else {
        let n = probes.len() - 1;
        assert(probes[n] == crate::dupes::one_per_file(probes)[i]);
        assert forall|k: int| 0 <= k < n && probes[n].id is Some implies (#[trigger] probes[k]).id
            != probes[n].id by {
            assert(rest[k] == probes[k]);
        }
    }
}

/// A digest is written with two characters for each byte, the first for the upper four bits:
/// `0` to `9` and `a` to `f`.
pub proof fn law_digests_are_written_byte_by_byte(bytes: Seq<u8>, i: int)
    requires
        0 <= i < bytes.len(),
    ensures
        crate::hash::hex(bytes).len() == 2 * bytes.len(),
        crate::hash::hex(bytes)[2 * i] as int == if bytes[i] / 16 < 10 {
            '0' as int + bytes[i] / 16
        } else {
            'a' as int + bytes[i] / 16 - 10
        },
        crate::hash::hex(bytes)[2 * i + 1] as int == if bytes[i] % 16 < 10 {
            '0' as int + bytes[i] % 16
        } else {
            'a' as int + bytes[i] % 16 - 10
        },
{
    assert((2 * i) / 2 == i && (2 * i + 1) / 2 == i);
    assert((2 * i) % 2 == 0 && (2 * i + 1) % 2 == 1);
}

} // verus!
