//! Reading files in stages, and no more of each than must be, finds every group.
use vstd::prelude::*;

use crate::dupes::{DupKey, GroupRec, ProbeRec};

verus! {

/// The values of all groups, one group after the other.
pub open spec fn all_of<V>(groups: Seq<Seq<V>>) -> Seq<V>
    decreases groups.len(),
{
    if groups.len() == 0 {
        Seq::empty()
    } else {
        all_of(groups.drop_last()) + groups.last()
    }
}

/// `stages` has, for each group of files of one size, one path per physical file,
/// grouped by the digest of the first block.
pub open spec fn are_stages(
    groups: Seq<Seq<ProbeRec>>,
    stages: Seq<Seq<Seq<ProbeRec>>>,
) -> bool {
    &&& stages.len() == groups.len()
    &&& forall|s: int|
        0 <= s < groups.len() ==> crate::dupes::are_key_groups(
            crate::dupes::one_per_file(groups[s]),
            crate::dupes::prefix_key(),
            #[trigger] stages[s],
        )
}

/// The files that are left to be read as a whole.
pub open spec fn survivors(stages: Seq<Seq<Seq<ProbeRec>>>) -> Seq<ProbeRec> {
    all_of(Seq::new(stages.len(), |s: int| all_of(stages[s])))
}

/// Where no group has a value that passes a filter, nothing passes it.
proof fn lemma_none_of<V>(groups: Seq<Seq<V>>, p: spec_fn(V) -> bool)
    requires
        forall|t: int, i: int|
            0 <= t < groups.len() && 0 <= i < groups[t].len() ==> !p(#[trigger] groups[t][i]),
    ensures
        all_of(groups).filter(p) == Seq::<V>::empty(),
    decreases groups.len(),
{
    if groups.len() > 0 {
        let rest = groups.drop_last();
        let last = groups.last();
        assert forall|t: int, i: int| 0 <= t < rest.len() && 0 <= i < rest[t].len() implies !p(
            #[trigger] rest[t][i],
        ) by {
            assert(rest[t][i] == groups[t][i]);
        }
        lemma_none_of(rest, p);
        assert forall|i: int| 0 <= i < last.len() implies !p(#[trigger] last[i]) by {
            assert(last[i] == groups[groups.len() - 1][i]);
        }
        crate::sort::lemma_filter_none(last, p);
        Seq::filter_distributes_over_add(all_of(rest), last, p);
    } else {
        crate::sort::lemma_filter_none(all_of(groups), p);
    }
}

/// Where exactly the values of one group pass a filter, that group is what passes it.
proof fn lemma_one_of<V>(groups: Seq<Seq<V>>, s: int, p: spec_fn(V) -> bool)
    requires
        0 <= s < groups.len(),
        forall|t: int, i: int|
            0 <= t < groups.len() && 0 <= i < groups[t].len() ==> p(#[trigger] groups[t][i]) == (t
                == s),
    ensures
        all_of(groups).filter(p) == groups[s],
    decreases groups.len(),
{
    let rest = groups.drop_last();
    let last = groups.last();
    assert forall|t: int, i: int| 0 <= t < rest.len() && 0 <= i < rest[t].len() implies p(
        #[trigger] rest[t][i],
    ) == (t == s) by {
        assert(rest[t][i] == groups[t][i]);
    }
    assert forall|i: int| 0 <= i < last.len() implies p(#[trigger] last[i]) == (s == groups.len()
        - 1) by {
        assert(last[i] == groups[groups.len() - 1][i]);
    }
    Seq::filter_distributes_over_add(all_of(rest), last, p);
    if s == groups.len() - 1 {
        lemma_none_of(rest, p);
        crate::sort::lemma_filter_all(last, p);
        assert(Seq::<V>::empty() + last =~= last);
    } else {
        lemma_one_of(rest, s, p);
        crate::sort::lemma_filter_none(last, p);
        assert(groups[s] + Seq::<V>::empty() =~= groups[s]);
    }
}

/// Every value of a list of groups is in one of the groups.
proof fn lemma_all_from<V>(groups: Seq<Seq<V>>, n: int) -> (at: (int, int))
    requires
        0 <= n < all_of(groups).len(),
    ensures
        0 <= at.0 < groups.len(),
        0 <= at.1 < groups[at.0].len(),
        groups[at.0][at.1] == all_of(groups)[n],
    decreases groups.len(),
{
    let rest = groups.drop_last();
    if n < all_of(rest).len() {
        let at = lemma_all_from(rest, n);
        assert(rest[at.0] == groups[at.0]);
        at
    } else {
        (groups.len() - 1, n - all_of(rest).len())
    }
}

/// Of two values of a list of groups, the later one is further on in the same group or
/// in a later one.
proof fn lemma_all_order<V>(groups: Seq<Seq<V>>, n: int, m: int) -> (at: ((int, int), (int, int)))
    requires
        0 <= n < m < all_of(groups).len(),
    ensures
        0 <= at.0.0 <= at.1.0 < groups.len(),
        0 <= at.0.1 < groups[at.0.0].len(),
        0 <= at.1.1 < groups[at.1.0].len(),
        at.0.0 == at.1.0 ==> at.0.1 < at.1.1,
        groups[at.0.0][at.0.1] == all_of(groups)[n],
        groups[at.1.0][at.1.1] == all_of(groups)[m],
    decreases groups.len(),
{
    let rest = groups.drop_last();
    let before = all_of(rest).len() as int;
    if m < before {
        let at = lemma_all_order(rest, n, m);
        assert(rest[at.0.0] == groups[at.0.0]);
        assert(rest[at.1.0] == groups[at.1.0]);
        at
    } else if n < before {
        let at = lemma_all_from(rest, n);
        assert(rest[at.0] == groups[at.0]);
        (at, (groups.len() - 1, m - before))
    } else {
        ((groups.len() - 1, n - before), (groups.len() - 1, m - before))
    }
}

/// A list in which no physical file occurs twice has one path per file already.
proof fn lemma_one_per_file_done(probes: Seq<ProbeRec>)
    requires
        forall|i: int, j: int|
            0 <= i < j < probes.len() && (#[trigger] probes[i]).id is Some ==> probes[i].id
                != (#[trigger] probes[j]).id,
    ensures
        crate::dupes::one_per_file(probes) == probes,
    decreases probes.len(),
{
    if probes.len() > 0 {
        let rest = probes.drop_last();
        assert forall|i: int, j: int| 0 <= i < j < rest.len() && (#[trigger] rest[i]).id is Some implies rest[i].id
            != (#[trigger] rest[j]).id by {
            assert(rest[i] == probes[i] && rest[j] == probes[j]);
        }
        lemma_one_per_file_done(rest);
        if crate::dupes::linked(rest, probes.last()) {
            let i = choose|i: int|
                0 <= i < rest.len() && (#[trigger] rest[i]).id == probes.last().id;
            assert(probes[i].id == probes[probes.len() - 1].id);
        }
        assert(probes =~= rest.push(probes.last()));
    }
}

/// Grouping one path per file by the first block does not bring a file in twice.
proof fn lemma_classes_hold_one_per_file(sized: Seq<ProbeRec>, classes: Seq<Seq<ProbeRec>>)
    requires
        crate::dupes::are_key_groups(
            crate::dupes::one_per_file(sized),
            crate::dupes::prefix_key(),
            classes,
        ),
    ensures
        crate::dupes::one_per_file(all_of(classes)) == all_of(classes),
{
    let reps = crate::dupes::one_per_file(sized);
    let key = crate::dupes::prefix_key();
    let flat = all_of(classes);
    assert forall|n: int, m: int| 0 <= n < m < flat.len() && (#[trigger] flat[n]).id is Some implies flat[n].id
        != (#[trigger] flat[m]).id by {
        let (a, b) = lemma_all_order(classes, n, m);
        let p = crate::dupes::keyed(key, key(classes[a.0][0])->0);
        let q = crate::dupes::keyed(key, key(classes[b.0][0])->0);
        assert(classes[a.0] == reps.filter(p));
        assert(classes[b.0] == reps.filter(q));
        if a.0 == b.0 {
            crate::sort::lemma_filter_order(reps, p, a.1, b.1);
            let (c, d) = choose|c: int, d: int|
                0 <= c < d < reps.len() && #[trigger] reps[c] == reps.filter(p)[a.1]
                    && #[trigger] reps[d] == reps.filter(p)[b.1];
            crate::dupes::law_hard_links_are_collapsed(sized, c, d);
        } else {
            let c = crate::sort::lemma_kept_from(reps, p, a.1);
            let d = crate::sort::lemma_kept_from(reps, q, b.1);
            assert(key(classes[a.0][0]) != key(classes[b.0][0]));
            assert(key(reps[c]) != key(reps[d]));
            if c < d {
                crate::dupes::law_hard_links_are_collapsed(sized, c, d);
            } else if reps[d].id is Some {
                crate::dupes::law_hard_links_are_collapsed(sized, d, c);
            }
        }
    }
    lemma_one_per_file_done(flat);
}

/// The files with a given first block that are left after grouping by it: all of them,
/// if there are at least two, and else none.
proof fn lemma_class(reps: Seq<ProbeRec>, classes: Seq<Seq<ProbeRec>>, prefix: Seq<u8>)
    requires
        crate::dupes::are_key_groups(reps, crate::dupes::prefix_key(), classes),
    ensures
        ({
            let p = crate::dupes::keyed(crate::dupes::prefix_key(), prefix);
            all_of(classes).filter(p) == if reps.filter(p).len() >= 2 {
                reps.filter(p)
            } else {
                Seq::<ProbeRec>::empty()
            }
        }),
{
    let key = crate::dupes::prefix_key();
    let p = crate::dupes::keyed(key, prefix);
    assert forall|t: int, i: int| 0 <= t < classes.len() && 0 <= i < classes[t].len() implies key(
        #[trigger] classes[t][i],
    ) == key(classes[t][0]) by {
        let q = crate::dupes::keyed(key, key(classes[t][0])->0);
        assert(classes[t] == reps.filter(q));
        let c = crate::sort::lemma_kept_from(reps, q, i);
        assert(q(reps[c]));
    }
    if crate::dupes::has_key_group(classes, key, prefix) {
        let g = choose|g: int| 0 <= g < classes.len() && key((#[trigger] classes[g])[0]) == Some(
            prefix,
        );
        assert forall|t: int, i: int| 0 <= t < classes.len() && 0 <= i < classes[t].len() implies p(
            #[trigger] classes[t][i],
        ) == (t == g) by {
            assert(key(classes[t][i]) == key(classes[t][0]));
            if t < g {
                assert(key(classes[t][0]) != key(classes[g][0]));
            } else if g < t {
                assert(key(classes[g][0]) != key(classes[t][0]));
            }
        }
        lemma_one_of(classes, g, p);
        assert(classes[g] == reps.filter(p));
    } else {
        assert forall|t: int, i: int| 0 <= t < classes.len() && 0 <= i < classes[t].len() implies !p(
            #[trigger] classes[t][i],
        ) by {
            assert(key(classes[t][i]) == key(classes[t][0]));
        }
        lemma_none_of(classes, p);
    }
}

/// The survivors of one size are those of its group.
proof fn lemma_survivors_of_size(
    probes: Seq<ProbeRec>,
    min: u64,
    groups: Seq<Seq<ProbeRec>>,
    stages: Seq<Seq<Seq<ProbeRec>>>,
    size: u64,
)
    requires
        crate::dupes::are_key_groups(probes, crate::dupes::size_key(min), groups),
        are_stages(groups, stages),
    ensures
        ({
            let key = crate::dupes::size_key(min);
            let p = crate::dupes::keyed(key, size);
            if crate::dupes::has_key_group(groups, key, size) {
                exists|s: int|
                    0 <= s < groups.len() && groups[s] == probes.filter(p)
                        && survivors(stages).filter(p) == all_of(#[trigger] stages[s])
            } else {
                survivors(stages).filter(p) == Seq::<ProbeRec>::empty() && probes.filter(p).len()
                    < 2
            }
        }),
{
    let key = crate::dupes::size_key(min);
    let p = crate::dupes::keyed(key, size);
    let flats = Seq::new(stages.len(), |s: int| all_of(stages[s]));
    assert forall|t: int, i: int| 0 <= t < flats.len() && 0 <= i < flats[t].len() implies key(
        #[trigger] flats[t][i],
    ) == key(groups[t][0]) by {
        let classes = stages[t];
        let reps = crate::dupes::one_per_file(groups[t]);
        let at = lemma_all_from(classes, i);
        let pk = crate::dupes::prefix_key();
        let q = crate::dupes::keyed(pk, pk(classes[at.0][0])->0);
        assert(classes[at.0] == reps.filter(q));
        let c = crate::sort::lemma_kept_from(reps, q, at.1);
        let d = crate::dupes::lemma_kept_file(groups[t], c);
        let r = crate::dupes::keyed(key, key(groups[t][0])->0);
        assert(groups[t] == probes.filter(r));
        let n = crate::sort::lemma_kept_from(probes, r, d);
        assert(r(probes[n]));
    }
    if crate::dupes::has_key_group(groups, key, size) {
        let s = choose|s: int| 0 <= s < groups.len() && key((#[trigger] groups[s])[0]) == Some(
            size,
        );
        assert forall|t: int, i: int| 0 <= t < flats.len() && 0 <= i < flats[t].len() implies p(
            #[trigger] flats[t][i],
        ) == (t == s) by {
            assert(key(flats[t][i]) == key(groups[t][0]));
            if t < s {
                assert(key(groups[t][0]) != key(groups[s][0]));
            } else if s < t {
                assert(key(groups[s][0]) != key(groups[t][0]));
            }
        }
        lemma_one_of(flats, s, p);
        assert(groups[s] == probes.filter(p));
        assert(flats[s] == all_of(stages[s]));
    } else {
        assert forall|t: int, i: int| 0 <= t < flats.len() && 0 <= i < flats[t].len() implies !p(
            #[trigger] flats[t][i],
        ) by {
            assert(key(flats[t][i]) == key(groups[t][0]));
            assert(key((groups[t])[0]) != Some(size));
        }
        lemma_none_of(flats, p);
    }
}

/// The files that match: the same ones, or too few for a group either way.
pub open spec fn alike(a: Seq<ProbeRec>, b: Seq<ProbeRec>) -> bool {
    a == b || (a.len() < 2 && b.len() < 2)
}

/// Within one size, grouping by the first block loses no files that a key stands for.
proof fn lemma_classes_keep(
    sized: Seq<ProbeRec>,
    classes: Seq<Seq<ProbeRec>>,
    prefix: Seq<u8>,
    digest: Seq<u8>,
)
    requires
        crate::dupes::are_key_groups(
            crate::dupes::one_per_file(sized),
            crate::dupes::prefix_key(),
            classes,
        ),
    ensures
        alike(
            crate::dupes::one_per_file(sized).filter(
                crate::dupes::keyed(crate::dupes::prefix_key(), prefix),
            ).filter(crate::dupes::keyed(crate::dupes::digest_key(), digest)),
            crate::dupes::one_per_file(all_of(classes)).filter(
                crate::dupes::keyed(crate::dupes::prefix_key(), prefix),
            ).filter(crate::dupes::keyed(crate::dupes::digest_key(), digest)),
        ),
{
    let dp = crate::dupes::keyed(crate::dupes::digest_key(), digest);
    let reps = crate::dupes::one_per_file(sized);
    let kept = reps.filter(crate::dupes::keyed(crate::dupes::prefix_key(), prefix));
    lemma_classes_hold_one_per_file(sized, classes);
    lemma_class(reps, classes, prefix);
    kept.lemma_filter_len(dp);
    if kept.len() < 2 {
        crate::sort::lemma_filter_none(Seq::<ProbeRec>::empty(), dp);
    }
}

/// Fewer than two files of one size are too few for a group.
proof fn lemma_too_few(sized: Seq<ProbeRec>, prefix: Seq<u8>, digest: Seq<u8>)
    requires
        sized.len() < 2,
    ensures
        crate::dupes::one_per_file(sized).filter(
            crate::dupes::keyed(crate::dupes::prefix_key(), prefix),
        ).filter(crate::dupes::keyed(crate::dupes::digest_key(), digest)).len() < 2,
{
    let pp = crate::dupes::keyed(crate::dupes::prefix_key(), prefix);
    let dp = crate::dupes::keyed(crate::dupes::digest_key(), digest);
    let reps = crate::dupes::one_per_file(sized);
    crate::dupes::lemma_one_per_file_len(sized);
    reps.lemma_filter_len(pp);
    reps.filter(pp).lemma_filter_len(dp);
}

/// Where a key stands for at least two physical files, they all survive.
proof fn lemma_twins_survive(
    probes: Seq<ProbeRec>,
    min: u64,
    groups: Seq<Seq<ProbeRec>>,
    stages: Seq<Seq<Seq<ProbeRec>>>,
    k: DupKey,
)
    requires
        crate::dupes::are_key_groups(probes, crate::dupes::size_key(min), groups),
        are_stages(groups, stages),
    ensures
        alike(
            crate::dupes::twins(probes, min, k),
            crate::dupes::twins(survivors(stages), min, k),
        ),
{
    let sk = crate::dupes::size_key(min);
    let sp = crate::dupes::keyed(sk, k.size);
    lemma_survivors_of_size(probes, min, groups, stages, k.size);
    if crate::dupes::has_key_group(groups, sk, k.size) {
        let s = choose|s: int|
            0 <= s < groups.len() && groups[s] == probes.filter(sp) && survivors(stages).filter(sp)
                == all_of(#[trigger] stages[s]);
        lemma_classes_keep(groups[s], stages[s], k.prefix, k.digest);
    } else {
        lemma_too_few(probes.filter(sp), k.prefix, k.digest);
        lemma_too_few(survivors(stages).filter(sp), k.prefix, k.digest);
    }
}

/// Reading whole files only where another physical file of the same size begins with the
/// same block finds the same groups as reading every file.
pub proof fn law_staged_search_finds_every_group(
    probes: Seq<ProbeRec>,
    min: u64,
    groups: Seq<Seq<ProbeRec>>,
    stages: Seq<Seq<Seq<ProbeRec>>>,
    out: Seq<GroupRec>,
)
    requires
        crate::dupes::are_key_groups(probes, crate::dupes::size_key(min), groups),
        are_stages(groups, stages),
        crate::dupes::are_duplicates(survivors(stages), min, out),
    ensures
        crate::dupes::are_duplicates(probes, min, out),
{
    let left = survivors(stages);
    let here = crate::dupes::duplicated(probes, min);
    let there = crate::dupes::duplicated(left, min);
    let keys = choose|keys: Seq<DupKey>|
        crate::sort::is_found(keys, there) && #[trigger] crate::dupes::has_groups(
            left,
            min,
            keys,
            out,
        );
    assert forall|k: DupKey| #[trigger] keys.contains(k) <==> here(k) by {
        lemma_twins_survive(probes, min, groups, stages, k);
        assert(there(k) <==> here(k));
    }
    assert(crate::sort::is_found(keys, here));
    assert forall|g: int| 0 <= g < out.len() implies crate::dupes::is_group(
        crate::dupes::twins(probes, min, keys[g]),
        keys[g],
        #[trigger] out[g],
    ) by {
        lemma_twins_survive(probes, min, groups, stages, keys[g]);
        assert(crate::dupes::is_group(crate::dupes::twins(left, min, keys[g]), keys[g], out[g]));
    }
    assert(crate::dupes::has_groups(probes, min, keys, out));
}

} // verus!
