//! What comes first, in lists that are sorted and cut off.
use vstd::prelude::*;

use crate::path::Part;

verus! {

/// Cutting a list off keeps its beginning, as much of it as asked for.
pub proof fn law_cutting_off_keeps_the_beginning<V>(s: Seq<V>, n: nat)
    ensures
        crate::report::at_most(s, n).len() == if s.len() < n {
            s.len()
        } else {
            n
        },
        forall|i: int|
            0 <= i < crate::report::at_most(s, n).len() ==> #[trigger] crate::report::at_most(s, n)[i]
                == s[i],
{
}

/// What is left of a sorted list that was cut off: in order, drawn from the list, and before
/// everything that is not left.
pub(crate) proof fn lemma_cut_off<V>(
    all: Seq<V>,
    sorted: Seq<V>,
    out: Seq<V>,
    n: nat,
    le: spec_fn(V, V) -> bool,
)
    requires
        crate::sort::sorted_by(sorted, le),
        sorted.to_multiset() == all.to_multiset(),
        out == crate::report::at_most(sorted, n),
    ensures
        out.len() == if all.len() < n {
            all.len()
        } else {
            n
        },
        forall|i: int, j: int| 0 <= i < j < out.len() ==> le(#[trigger] out[i], #[trigger] out[j]),
        forall|v: V| #[trigger] out.to_multiset().count(v) <= all.to_multiset().count(v),
        forall|v: V| out.contains(v) ==> #[trigger] all.contains(v),
        forall|v: V, i: int|
            #[trigger] all.contains(v) && !out.contains(v) && 0 <= i < out.len() ==> le(
                #[trigger] out[i],
                v,
            ),
{
    broadcast use vstd::seq_lib::group_to_multiset_ensures;

    assert(sorted.len() == sorted.to_multiset().len());
    assert(all.len() == all.to_multiset().len());
    let rest = sorted.skip(out.len() as int);
    assert(sorted =~= out + rest);
    assert forall|v: V| #[trigger] out.to_multiset().count(v) <= all.to_multiset().count(v) by {
        vstd::seq_lib::lemma_multiset_commutative(out, rest);
    }
    assert forall|v: V| out.contains(v) implies #[trigger] all.contains(v) by {
        assert(sorted.contains(v)) by {
            let i = choose|i: int| 0 <= i < out.len() && out[i] == v;
            assert(sorted[i] == v);
        }
        assert(sorted.to_multiset().count(v) > 0);
    }
    assert forall|v: V, i: int|
        #[trigger] all.contains(v) && !out.contains(v) && 0 <= i < out.len() implies le(
        #[trigger] out[i],
        v,
    ) by {
        assert(all.to_multiset().count(v) > 0);
        assert(sorted.contains(v));
        let k = choose|k: int| 0 <= k < sorted.len() && sorted[k] == v;
        if k < out.len() {
            assert(out[k] == v);
        }
        assert(le(sorted[i], sorted[k]));
    }
}

/// Of two paths that first differ in one component, the one whose component comes first comes
/// first. Components of different kinds come in the order drive, root, `.`, `..`, name.
pub proof fn law_the_first_difference_orders_paths(
    common: Seq<Part>,
    a: Part,
    x: Seq<Part>,
    b: Part,
    y: Seq<Part>,
)
    requires
        a != b,
    ensures
        a is Prefix && !(b is Prefix) ==> crate::path::path_le(
            common + seq![a] + x,
            common + seq![b] + y,
        ),
        a is RootDir && (b is CurDir || b is ParentDir || b is Normal) ==> crate::path::path_le(
            common + seq![a] + x,
            common + seq![b] + y,
        ),
        a is CurDir && (b is ParentDir || b is Normal) ==> crate::path::path_le(
            common + seq![a] + x,
            common + seq![b] + y,
        ),
        a is ParentDir && b is Normal ==> crate::path::path_le(
            common + seq![a] + x,
            common + seq![b] + y,
        ),
        a is Normal && b is Normal ==> crate::path::path_le(
            common + seq![a] + x,
            common + seq![b] + y,
        ) == crate::path::bytes_le(a->Normal_0, b->Normal_0),
        a is Prefix && b is Prefix ==> crate::path::path_le(
            common + seq![a] + x,
            common + seq![b] + y,
        ) == crate::path::bytes_le(a->Prefix_0, b->Prefix_0),
    decreases common.len(),
{
    let p = common + seq![a] + x;
    let q = common + seq![b] + y;
    if common.len() == 0 {
        assert(p[0] == a);
        assert(q[0] == b);
    } else {
        law_the_first_difference_orders_paths(common.drop_first(), a, x, b, y);
        assert(p[0] == common[0] && q[0] == common[0]);
        assert(p.drop_first() =~= common.drop_first() + seq![a] + x);
        assert(q.drop_first() =~= common.drop_first() + seq![b] + y);
    }
}

/// Paths are in one order only: of two different ones, exactly one comes first, and a folder
/// comes before what lies below it.
pub proof fn law_paths_have_one_order(p: Seq<Part>, q: Seq<Part>, more: Seq<Part>)
    ensures
        p != q ==> crate::path::path_le(p, q) != crate::path::path_le(q, p),
        crate::path::path_le(p, p),
        crate::path::path_le(p, p + more),
        more.len() > 0 ==> !crate::path::path_le(p + more, p),
{
    crate::path::lemma_path_total(p, q);
    crate::path::lemma_path_total(p, p);
    lemma_prefix_first(p, more);
    if more.len() > 0 && crate::path::path_le(p + more, p) {
        crate::path::lemma_path_antisym(p, p + more);
        assert((p + more).len() != p.len());
    }
    if crate::path::path_le(p, q) && crate::path::path_le(q, p) {
        crate::path::lemma_path_antisym(p, q);
    }
}

proof fn lemma_prefix_first(p: Seq<Part>, more: Seq<Part>)
    ensures
        crate::path::path_le(p, p + more),
    decreases p.len(),
{
    if p.len() > 0 {
        lemma_prefix_first(p.drop_first(), more);
        assert((p + more).drop_first() =~= p.drop_first() + more);
        assert((p + more)[0] == p[0]);
    }
}

/// Names are in dictionary order: the first byte in which they differ decides, and the
/// beginning of a name comes before the name.
pub proof fn law_names_are_in_dictionary_order(
    common: Seq<u8>,
    a: u8,
    x: Seq<u8>,
    b: u8,
    y: Seq<u8>,
)
    ensures
        a != b ==> crate::path::bytes_le(common + seq![a] + x, common + seq![b] + y) == (a < b),
        crate::path::bytes_le(common, common + x),
        !crate::path::bytes_le(common + seq![a] + x, common),
    decreases common.len(),
{
    let p = common + seq![a] + x;
    let q = common + seq![b] + y;
    let r = common + x;
    if common.len() == 0 {
        assert(p[0] == a);
        assert(q[0] == b);
    } else {
        law_names_are_in_dictionary_order(common.drop_first(), a, x, b, y);
        assert(p[0] == common[0] && q[0] == common[0] && r[0] == common[0]);
        assert(p.drop_first() =~= common.drop_first() + seq![a] + x);
        assert(q.drop_first() =~= common.drop_first() + seq![b] + y);
        assert(r.drop_first() =~= common.drop_first() + x);
    }
}

/// The folder that a path is in is the path without its last component. The empty path, a
/// root and a drive are in none.
pub proof fn law_a_path_is_in_the_folder_above(folder: Seq<Part>, last: Part)
    ensures
        last is Normal || last is CurDir || last is ParentDir ==> crate::path::parent_of(
            folder.push(last),
        ) == Some(folder),
        last is RootDir || last is Prefix ==> crate::path::parent_of(folder.push(last)) is None,
        crate::path::parent_of(Seq::empty()) is None,
{
    assert(folder.push(last).drop_last() =~= folder);
}

/// The views of a list are the views of its values, one by one.
pub proof fn law_views_are_taken_one_by_one<T: View>(s: Seq<T>, i: int)
    requires
        0 <= i < s.len(),
    ensures
        crate::sort::views(s).len() == s.len(),
        crate::sort::views(s)[i] == s[i]@,
{
}

/// Sorting keeps every value, puts them in order, and leaves those that tie in the order that
/// they were in.
pub proof fn law_sorting_keeps_ties_in_order<V>(
    input: Seq<V>,
    output: Seq<V>,
    le: spec_fn(V, V) -> bool,
    x: V,
)
    requires
        crate::sort::is_stable_sort(input, output, le),
    ensures
        forall|i: int, j: int|
            0 <= i < j < output.len() ==> le(#[trigger] output[i], #[trigger] output[j]),
        output.to_multiset() == input.to_multiset(),
        output.filter(|y: V| le(x, y) && le(y, x)) == input.filter(|y: V| le(x, y) && le(y, x)),
{
    let same = |y: V| le(x, y) && le(y, x);
    assert(crate::sort::tied(le, x) =~= same);
    assert(output.filter(crate::sort::tied(le, x)) == input.filter(crate::sort::tied(le, x)));
}

/// The views of a list of lists are the views of the lists, one by one.
pub proof fn law_views_of_groups_are_taken_one_by_one<T: View>(groups: Seq<Vec<T>>, g: int)
    requires
        0 <= g < groups.len(),
    ensures
        crate::sort::group_views(groups).len() == groups.len(),
        crate::sort::group_views(groups)[g] == crate::sort::views(groups[g]@),
{
}

} // verus!
