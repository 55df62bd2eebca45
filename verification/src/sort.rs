//! Stable sorting.
use vstd::prelude::*;

verus! {

/// The views of a list of values.
pub open spec fn views<T: View>(s: Seq<T>) -> Seq<T::V> {
    Seq::new(s.len(), |i: int| s[i]@)
}

/// `le` compares any two values, and does so transitively.
pub open spec fn total_preorder<V>(le: spec_fn(V, V) -> bool) -> bool {
    &&& forall|a: V, b: V| #[trigger] le(a, b) || le(b, a)
    &&& forall|a: V, b: V, c: V| #[trigger] le(a, b) && #[trigger] le(b, c) ==> le(a, c)
}

/// Every value of `s` is in order with all that follow it.
pub open spec fn sorted_by<V>(s: Seq<V>, le: spec_fn(V, V) -> bool) -> bool {
    forall|i: int, j: int| 0 <= i < j < s.len() ==> le(#[trigger] s[i], #[trigger] s[j])
}

/// The values that `le` does not tell apart from `x`.
pub open spec fn tied<V>(le: spec_fn(V, V) -> bool, x: V) -> spec_fn(V) -> bool {
    |y: V| le(x, y) && le(y, x)
}

/// `output` is `input` sorted by `le`, with tied values in their old order.
pub open spec fn is_stable_sort<V>(
    input: Seq<V>,
    output: Seq<V>,
    le: spec_fn(V, V) -> bool,
) -> bool {
    &&& sorted_by(output, le)
    &&& forall|x: V| #[trigger]
        output.filter(tied(le, x)) == input.filter(tied(le, x))
    &&& output.to_multiset() == input.to_multiset()
}

pub(crate) proof fn lemma_filter_none<V>(s: Seq<V>, p: spec_fn(V) -> bool)
    requires
        forall|i: int| 0 <= i < s.len() ==> !p(#[trigger] s[i]),
    ensures
        s.filter(p) == Seq::<V>::empty(),
    decreases s.len(),
{
    reveal(Seq::filter);
    if s.len() > 0 {
        lemma_filter_none(s.drop_last(), p);
    }
    assert(s.filter(p) =~= Seq::<V>::empty());
}

/// Filters that agree on every value of a list keep the same values.
pub(crate) proof fn lemma_filter_ext<V>(s: Seq<V>, p: spec_fn(V) -> bool, q: spec_fn(V) -> bool)
    requires
        forall|i: int| 0 <= i < s.len() ==> p(#[trigger] s[i]) == q(s[i]),
    ensures
        s.filter(p) == s.filter(q),
    decreases s.len(),
{
    reveal(Seq::filter);
    if s.len() > 0 {
        let rest = s.drop_last();
        assert forall|i: int| 0 <= i < rest.len() implies p(#[trigger] rest[i]) == q(rest[i]) by {
            assert(rest[i] == s[i]);
        }
        lemma_filter_ext(rest, p, q);
        assert(s[s.len() - 1] == s.last());
    }
}

/// Filtering keeps keys distinct.
pub(crate) proof fn lemma_filter_distinct<V, K>(s: Seq<V>, p: spec_fn(V) -> bool, key: spec_fn(V) -> K)
    requires
        forall|i: int, j: int|
            0 <= i < j < s.len() ==> key(#[trigger] s[i]) != key(#[trigger] s[j]),
    ensures
        forall|i: int, j: int|
            0 <= i < j < s.filter(p).len() ==> key(#[trigger] s.filter(p)[i]) != key(
                #[trigger] s.filter(p)[j],
            ),
    decreases s.len(),
{
    reveal(Seq::filter);
    if s.len() > 0 {
        let rest = s.drop_last();
        assert forall|i: int, j: int| 0 <= i < j < rest.len() implies key(#[trigger] rest[i]) != key(
            #[trigger] rest[j],
        ) by {
            assert(rest[i] == s[i] && rest[j] == s[j]);
        }
        lemma_filter_distinct(rest, p, key);
        let out = s.filter(p);
        let kept = rest.filter(p);
        if p(s.last()) {
            assert forall|i: int, j: int| 0 <= i < j < out.len() implies key(#[trigger] out[i])
                != key(#[trigger] out[j]) by {
                assert(out[i] == kept[i]);
                if j < kept.len() {
                    assert(out[j] == kept[j]);
                } else {
                    let k = lemma_kept_from(rest, p, i);
                    assert(s[k] == rest[k]);
                    assert(s[s.len() - 1] == s.last());
                }
            }
        }
    }
}

/// What a filter keeps comes from the list and passes the filter.
pub(crate) proof fn lemma_kept_from<V>(s: Seq<V>, p: spec_fn(V) -> bool, i: int) -> (k: int)
    requires
        0 <= i < s.filter(p).len(),
    ensures
        0 <= k < s.len(),
        s[k] == s.filter(p)[i],
        p(s[k]),
{
    s.lemma_filter_pred(p, i);
    let v = s.filter(p)[i];
    assert(s.filter(p).contains(v));
    s.lemma_filter_contains_rev(p, v);
    choose|k: int| 0 <= k < s.len() && s[k] == v
}

/// What passes a filter is kept.
pub(crate) proof fn lemma_kept_at<V>(s: Seq<V>, p: spec_fn(V) -> bool, k: int) -> (i: int)
    requires
        0 <= k < s.len(),
        p(s[k]),
    ensures
        0 <= i < s.filter(p).len(),
        s.filter(p)[i] == s[k],
{
    s.lemma_filter_contains(p, k);
    choose|i: int| 0 <= i < s.filter(p).len() && s.filter(p)[i] == s[k]
}

/// What a filter keeps stays in order.
pub(crate) proof fn lemma_filter_order<V>(s: Seq<V>, p: spec_fn(V) -> bool, g: int, h: int)
    requires
        0 <= g < h < s.filter(p).len(),
    ensures
        exists|c: int, d: int|
            0 <= c < d < s.len() && #[trigger] s[c] == s.filter(p)[g] && #[trigger] s[d]
                == s.filter(p)[h],
    decreases s.len(),
{
    reveal(Seq::filter);
    let rest = s.drop_last();
    let kept = rest.filter(p);
    if h < kept.len() {
        lemma_filter_order(rest, p, g, h);
        let (c, d) = choose|c: int, d: int|
            0 <= c < d < rest.len() && #[trigger] rest[c] == kept[g] && #[trigger] rest[d]
                == kept[h];
        assert(s[c] == rest[c] && s[d] == rest[d]);
    } else {
        let c = lemma_kept_from(rest, p, g);
        assert(s[c] == rest[c]);
        assert(s[s.len() - 1] == s.last());
        assert(s[c] == s.filter(p)[g] && s[s.len() - 1] == s.filter(p)[h]);
    }
}

/// Filtering twice keeps what passes both filters.
pub(crate) proof fn lemma_filter_twice<V>(
    s: Seq<V>,
    p: spec_fn(V) -> bool,
    q: spec_fn(V) -> bool,
    both: spec_fn(V) -> bool,
)
    requires
        forall|i: int| 0 <= i < s.len() ==> both(#[trigger] s[i]) == (p(s[i]) && q(s[i])),
    ensures
        s.filter(p).filter(q) == s.filter(both),
    decreases s.len(),
{
    reveal(Seq::filter);
    if s.len() > 0 {
        let rest = s.drop_last();
        assert forall|i: int| 0 <= i < rest.len() implies both(#[trigger] rest[i]) == (p(rest[i])
            && q(rest[i])) by {
            assert(rest[i] == s[i]);
        }
        lemma_filter_twice(rest, p, q, both);
        assert(s[s.len() - 1] == s.last());
        assert(rest.filter(p).push(s.last()).drop_last() =~= rest.filter(p));
    }
}

/// Moving `x` from before `b` to behind it keeps the order of tied values when
/// every value of `b` is strictly below `x`.
proof fn lemma_move_past<V>(
    a: Seq<V>,
    x: V,
    b: Seq<V>,
    out: Seq<V>,
    le: spec_fn(V, V) -> bool,
    y: V,
)
    requires
        total_preorder(le),
        forall|i: int| 0 <= i < b.len() ==> !le(x, #[trigger] b[i]),
    ensures
        (a + seq![x] + b + out).filter(tied(le, y)) == (a + b + (seq![x] + out)).filter(
            tied(le, y),
        ),
{
    broadcast use Seq::filter_distributes_over_add;

    let p = tied(le, y);
    let one = seq![x];
    if p(x) {
        assert forall|i: int| 0 <= i < b.len() implies !p(#[trigger] b[i]) by {
            if p(b[i]) {
                assert(le(x, y) && le(y, b[i]));
            }
        }
        lemma_filter_none(b, p);
        assert(a.filter(p) + one.filter(p) + b.filter(p) + out.filter(p) =~= a.filter(p)
            + b.filter(p) + (one.filter(p) + out.filter(p)));
    } else {
        lemma_filter_none(one, p);
        assert(a.filter(p) + one.filter(p) + b.filter(p) + out.filter(p) =~= a.filter(p)
            + b.filter(p) + (one.filter(p) + out.filter(p)));
    }
    assert((a + one + b + out) == ((a + one) + b) + out);
}

proof fn lemma_move_past_multiset<V>(a: Seq<V>, x: V, b: Seq<V>, out: Seq<V>)
    ensures
        (a + seq![x] + b + out).to_multiset() == (a + b + (seq![x] + out)).to_multiset(),
{
    broadcast use vstd::seq_lib::lemma_multiset_commutative;

    let one = seq![x];
    vstd::seq_lib::lemma_multiset_commutative(a + one + b, out);
    vstd::seq_lib::lemma_multiset_commutative(a + one, b);
    vstd::seq_lib::lemma_multiset_commutative(a, one);
    vstd::seq_lib::lemma_multiset_commutative(a + b, one + out);
    vstd::seq_lib::lemma_multiset_commutative(a, b);
    vstd::seq_lib::lemma_multiset_commutative(one, out);
    assert((a + one + b + out).to_multiset() =~= (a + b + (one + out)).to_multiset());
}

/// Taking the last value of a sorted list to the front of `out` keeps both sorted.
proof fn lemma_take_last<V>(
    from: Seq<V>,
    rest: Seq<V>,
    out: Seq<V>,
    le: spec_fn(V, V) -> bool,
)
    requires
        from.len() > 0,
        rest == from.drop_last(),
        sorted_by(from, le),
        sorted_by(out, le),
        forall|i: int, j: int|
            0 <= i < from.len() && 0 <= j < out.len() ==> le(#[trigger] from[i], #[trigger] out[j]),
    ensures
        sorted_by(rest, le),
        sorted_by(seq![from.last()] + out, le),
        forall|i: int, j: int|
            0 <= i < rest.len() && 0 <= j < out.len() + 1 ==> le(
                #[trigger] rest[i],
                #[trigger] (seq![from.last()] + out)[j],
            ),
{
    let next = seq![from.last()] + out;
    assert forall|i: int, j: int| 0 <= i < rest.len() && 0 <= j < next.len() implies le(
        #[trigger] rest[i],
        #[trigger] next[j],
    ) by {
        assert(rest[i] == from[i]);
        if j > 0 {
            assert(next[j] == out[j - 1]);
        }
    }
    assert forall|i: int, j: int| 0 <= i < j < rest.len() implies le(
        #[trigger] rest[i],
        #[trigger] rest[j],
    ) by {
        assert(rest[i] == from[i] && rest[j] == from[j]);
    }
    assert forall|i: int, j: int| 0 <= i < j < next.len() implies le(
        #[trigger] next[i],
        #[trigger] next[j],
    ) by {
        assert(next[j] == out[j - 1]);
        if i > 0 {
            assert(next[i] == out[i - 1]);
        }
    }
}

/// Merges two sorted lists; where values tie, those of `a` come first.
fn merge<T: View, F: Fn(&T, &T) -> bool>(
    a: Vec<T>,
    b: Vec<T>,
    f: &F,
    Ghost(le): Ghost<spec_fn(T::V, T::V) -> bool>,
) -> (out: Vec<T>)
    requires
        total_preorder(le),
        sorted_by(views(a@), le),
        sorted_by(views(b@), le),
        forall|x: &T, y: &T| call_requires(*f, (x, y)),
        forall|x: &T, y: &T, r: bool|
            #[trigger] call_ensures(*f, (x, y), r) ==> r == le(x@, y@),
    ensures
        is_stable_sort(views(a@) + views(b@), views(out@), le),
{
    let ghost a0 = views(a@);
    let ghost b0 = views(b@);
    let mut a = a;
    let mut b = b;
    // Built back to front.
    let mut rev: Vec<T> = Vec::new();
    let ghost mut out: Seq<T::V> = Seq::empty();
    assert(a0 + b0 + out =~= a0 + b0);
    while a.len() > 0 && b.len() > 0
        invariant
            total_preorder(le),
            sorted_by(views(a@), le),
            sorted_by(views(b@), le),
            sorted_by(out, le),
            out =~= views(rev@).reverse(),
            forall|i: int, j: int|
                0 <= i < a@.len() && 0 <= j < out.len() ==> le(
                    #[trigger] views(a@)[i],
                    #[trigger] out[j],
                ),
            forall|i: int, j: int|
                0 <= i < b@.len() && 0 <= j < out.len() ==> le(
                    #[trigger] views(b@)[i],
                    #[trigger] out[j],
                ),
            forall|y: T::V|
                #[trigger] (views(a@) + views(b@) + out).filter(tied(le, y)) == (a0 + b0).filter(
                    tied(le, y),
                ),
            (views(a@) + views(b@) + out).to_multiset() == (a0 + b0).to_multiset(),
            forall|x: &T, y: &T| call_requires(*f, (x, y)),
            forall|x: &T, y: &T, r: bool|
                #[trigger] call_ensures(*f, (x, y), r) ==> r == le(x@, y@),
        decreases a.len() + b.len(),
    {
        let ghost va = views(a@);
        let ghost vb = views(b@);
        let ghost old_out = out;
        let take_b: bool = f(&a[a.len() - 1], &b[b.len() - 1]);
        assert(take_b == le(va.last(), vb.last()));
        if take_b {
            let x = b.pop();
            if let Some(x) = x {
                proof {
                    out = seq![x@] + old_out;
                }
                rev.push(x);
            }
            assert(views(b@) =~= vb.drop_last());
            proof {
                lemma_take_last(vb, views(b@), old_out, le);
            }
            assert(va + vb + old_out =~= va + views(b@) + out);
            assert forall|i: int, j: int|
                0 <= i < a@.len() && 0 <= j < out.len() implies le(
                #[trigger] views(a@)[i],
                #[trigger] out[j],
            ) by {
                if j == 0 {
                    assert(le(va[i], va.last()) || i == va.len() - 1);
                    assert(le(va.last(), vb.last()));
                }
            }
            assert forall|y: T::V|
                #[trigger] (views(a@) + views(b@) + out).filter(tied(le, y)) == (a0 + b0).filter(
                    tied(le, y),
                ) by {
                assert((va + vb + old_out).filter(tied(le, y)) == (a0 + b0).filter(tied(le, y)));
            }
        } else {
            let x = a.pop();
            if let Some(x) = x {
                proof {
                    out = seq![x@] + old_out;
                }
                rev.push(x);
            }
            assert(views(a@) =~= va.drop_last());
            proof {
                lemma_take_last(va, views(a@), old_out, le);
            }
            assert(va =~= views(a@) + seq![va.last()]);
            assert forall|i: int| 0 <= i < vb.len() implies !le(va.last(), #[trigger] vb[i]) by {
                if le(va.last(), vb[i]) {
                    assert(i == vb.len() - 1 || le(vb[i], vb.last()));
                }
            }
            assert forall|i: int, j: int|
                0 <= i < b@.len() && 0 <= j < out.len() implies le(
                #[trigger] views(b@)[i],
                #[trigger] out[j],
            ) by {
                if j == 0 {
                    assert(!le(va.last(), vb[i]));
                    assert(le(vb[i], va.last()) || le(va.last(), vb[i]));
                }
            }
            proof {
                lemma_move_past_multiset(views(a@), va.last(), vb, old_out);
            }
            assert forall|y: T::V|
                #[trigger] (views(a@) + views(b@) + out).filter(tied(le, y)) == (a0 + b0).filter(
                    tied(le, y),
                ) by {
                lemma_move_past(views(a@), va.last(), vb, old_out, le, y);
                assert((va + vb + old_out).filter(tied(le, y)) == (a0 + b0).filter(tied(le, y)));
            }
        }
    }
    while a.len() > 0
        invariant
            a.len() > 0 ==> b.len() == 0,
            total_preorder(le),
            sorted_by(views(a@), le),
            sorted_by(views(b@), le),
            sorted_by(out, le),
            out =~= views(rev@).reverse(),
            forall|i: int, j: int|
                0 <= i < a@.len() && 0 <= j < out.len() ==> le(
                    #[trigger] views(a@)[i],
                    #[trigger] out[j],
                ),
            forall|i: int, j: int|
                0 <= i < b@.len() && 0 <= j < out.len() ==> le(
                    #[trigger] views(b@)[i],
                    #[trigger] out[j],
                ),
            forall|y: T::V|
                #[trigger] (views(a@) + views(b@) + out).filter(tied(le, y)) == (a0 + b0).filter(
                    tied(le, y),
                ),
            (views(a@) + views(b@) + out).to_multiset() == (a0 + b0).to_multiset(),
        decreases a.len(),
    {
        let ghost va = views(a@);
        let ghost old_out = out;
        let x = a.pop();
        if let Some(x) = x {
            proof {
                out = seq![x@] + old_out;
            }
            rev.push(x);
        }
        assert(views(a@) =~= va.drop_last());
        proof {
            lemma_take_last(va, views(a@), old_out, le);
        }
        assert(va + views(b@) + old_out =~= views(a@) + views(b@) + out);
        assert forall|y: T::V|
            #[trigger] (views(a@) + views(b@) + out).filter(tied(le, y)) == (a0 + b0).filter(
                tied(le, y),
            ) by {
            assert((va + views(b@) + old_out).filter(tied(le, y)) == (a0 + b0).filter(tied(le, y)));
        }
    }
    while b.len() > 0
        invariant
            a.len() == 0,
            total_preorder(le),
            sorted_by(views(b@), le),
            sorted_by(out, le),
            out =~= views(rev@).reverse(),
            forall|i: int, j: int|
                0 <= i < b@.len() && 0 <= j < out.len() ==> le(
                    #[trigger] views(b@)[i],
                    #[trigger] out[j],
                ),
            forall|y: T::V|
                #[trigger] (views(a@) + views(b@) + out).filter(tied(le, y)) == (a0 + b0).filter(
                    tied(le, y),
                ),
            (views(a@) + views(b@) + out).to_multiset() == (a0 + b0).to_multiset(),
        decreases b.len(),
    {
        let ghost vb = views(b@);
        let ghost old_out = out;
        let x = b.pop();
        if let Some(x) = x {
            proof {
                out = seq![x@] + old_out;
            }
            rev.push(x);
        }
        assert(views(b@) =~= vb.drop_last());
        proof {
            lemma_take_last(vb, views(b@), old_out, le);
        }
        assert(views(a@) + vb + old_out =~= views(a@) + views(b@) + out);
        assert forall|y: T::V|
            #[trigger] (views(a@) + views(b@) + out).filter(tied(le, y)) == (a0 + b0).filter(
                tied(le, y),
            ) by {
            assert((views(a@) + vb + old_out).filter(tied(le, y)) == (a0 + b0).filter(tied(le, y)));
        }
    }
    let r = reversed(rev);
    assert(views(a@) + views(b@) + out =~= out);
    assert(views(r@) =~= out);
    assert forall|x: T::V| #[trigger]
        out.filter(tied(le, x)) == (a0 + b0).filter(tied(le, x)) by {
        assert((views(a@) + views(b@) + out).filter(tied(le, x)) == (a0 + b0).filter(tied(le, x)));
    }
    r
}

/// The list back to front.
pub(crate) fn reversed<T>(v: Vec<T>) -> (r: Vec<T>)
    ensures
        r@ == v@.reverse(),
{
    let ghost v0 = v@;
    let mut v = v;
    let mut r: Vec<T> = Vec::new();
    while v.len() > 0
        invariant
            v.len() + r.len() == v0.len(),
            v@ =~= v0.take(v.len() as int),
            forall|i: int| 0 <= i < r.len() ==> #[trigger] r@[i] == v0[v0.len() - 1 - i],
        decreases v.len(),
    {
        if let Some(x) = v.pop() {
            r.push(x);
        }
    }
    assert(r@ =~= v0.reverse());
    r
}

/// Sorts `v` by `f`, which decides `le`; tied values keep their order.
pub(crate) fn stable_sort<T: View, F: Fn(&T, &T) -> bool>(
    v: Vec<T>,
    f: &F,
    Ghost(le): Ghost<spec_fn(T::V, T::V) -> bool>,
) -> (out: Vec<T>)
    requires
        total_preorder(le),
        forall|x: &T, y: &T| call_requires(*f, (x, y)),
        forall|x: &T, y: &T, r: bool|
            #[trigger] call_ensures(*f, (x, y), r) ==> r == le(x@, y@),
    ensures
        is_stable_sort(views(v@), views(out@), le),
    decreases v.len(),
{
    if v.len() <= 1 {
        return v;
    }
    let ghost v0 = views(v@);
    let mut v = v;
    let mid: usize = v.len() / 2;
    let right = v.split_off(mid);
    let ghost va = views(v@);
    let ghost vb = views(right@);
    assert(v0 =~= va + vb);
    let a = stable_sort(v, f, Ghost(le));
    let b = stable_sort(right, f, Ghost(le));
    let out = merge(a, b, f, Ghost(le));
    proof {
        broadcast use Seq::filter_distributes_over_add;

        vstd::seq_lib::lemma_multiset_commutative(va, vb);
        vstd::seq_lib::lemma_multiset_commutative(views(a@), views(b@));
        assert forall|x: T::V| #[trigger]
            views(out@).filter(tied(le, x)) == v0.filter(tied(le, x)) by {
            assert(views(a@).filter(tied(le, x)) == va.filter(tied(le, x)));
            assert(views(b@).filter(tied(le, x)) == vb.filter(tied(le, x)));
            assert((views(a@) + views(b@)).filter(tied(le, x)) == views(a@).filter(tied(le, x))
                + views(b@).filter(tied(le, x)));
            assert((va + vb).filter(tied(le, x)) == va.filter(tied(le, x)) + vb.filter(
                tied(le, x),
            ));
        }
    }
    out
}

/// `out` holds exactly the values that `holds` is true of, each once.
pub open spec fn is_found<V>(out: Seq<V>, holds: spec_fn(V) -> bool) -> bool {
    &&& out.no_duplicates()
    &&& forall|v: V| #[trigger] out.contains(v) <==> holds(v)
}

pub(crate) proof fn lemma_found_push<V>(
    out: Seq<V>,
    v: V,
    before: spec_fn(V) -> bool,
    after: spec_fn(V) -> bool,
)
    requires
        is_found(out, before),
        !before(v),
        forall|w: V| #[trigger] after(w) <==> before(w) || w == v,
    ensures
        is_found(out.push(v), after),
{
    let now = out.push(v);
    assert(!out.contains(v));
    assert forall|i: int, j: int| 0 <= i < now.len() && 0 <= j < now.len() && i != j implies now[i]
        != now[j] by {
        if i < out.len() {
            assert(out.contains(now[i]));
        }
        if j < out.len() {
            assert(out.contains(now[j]));
        }
    }
    assert forall|w: V| #[trigger] now.contains(w) <==> after(w) by {
        if now.contains(w) {
            let i = choose|i: int| 0 <= i < now.len() && now[i] == w;
            if i < out.len() {
                assert(out.contains(w));
            }
        }
        if out.contains(w) {
            let i = choose|i: int| 0 <= i < out.len() && out[i] == w;
            assert(now[i] == w);
        }
        assert(now[out.len() as int] == v);
    }
}

pub(crate) proof fn lemma_found_same<V>(
    out: Seq<V>,
    before: spec_fn(V) -> bool,
    after: spec_fn(V) -> bool,
)
    requires
        is_found(out, before),
        forall|w: V| #[trigger] after(w) <==> before(w),
    ensures
        is_found(out, after),
{
    assert forall|w: V| #[trigger] out.contains(w) <==> after(w) by {}
}

pub(crate) proof fn lemma_found_none<V>(holds: spec_fn(V) -> bool)
    requires
        forall|v: V| !#[trigger] holds(v),
    ensures
        is_found(Seq::<V>::empty(), holds),
{
}

pub(crate) proof fn lemma_found_append<V>(
    a: Seq<V>,
    b: Seq<V>,
    first: spec_fn(V) -> bool,
    second: spec_fn(V) -> bool,
    both: spec_fn(V) -> bool,
)
    requires
        is_found(a, first),
        is_found(b, second),
        forall|v: V| !(#[trigger] first(v) && second(v)),
        forall|v: V| #[trigger] both(v) <==> first(v) || second(v),
    ensures
        is_found(a + b, both),
{
    let s = a + b;
    assert forall|i: int, j: int| 0 <= i < s.len() && 0 <= j < s.len() && i != j implies s[i]
        != s[j] by {
        if i < a.len() && j >= a.len() {
            assert(a.contains(s[i]) && b.contains(s[j]));
            assert(first(s[i]) && second(s[j]));
        }
        if j < a.len() && i >= a.len() {
            assert(a.contains(s[j]) && b.contains(s[i]));
            assert(first(s[j]) && second(s[i]));
        }
    }
    assert forall|v: V| #[trigger] s.contains(v) <==> both(v) by {
        if s.contains(v) {
            let i = choose|i: int| 0 <= i < s.len() && s[i] == v;
            if i < a.len() {
                assert(a.contains(v));
            } else {
                assert(b[i - a.len()] == v);
                assert(b.contains(v));
            }
        }
        if first(v) {
            assert(a.contains(v));
            let i = choose|i: int| 0 <= i < a.len() && a[i] == v;
            assert(s[i] == v);
        }
        if second(v) {
            assert(b.contains(v));
            let i = choose|i: int| 0 <= i < b.len() && b[i] == v;
            assert(s[a.len() + i] == v);
        }
    }
}

/// The views of a list of lists.
pub open spec fn group_views<T: View>(s: Seq<Vec<T>>) -> Seq<Seq<T::V>> {
    Seq::new(s.len(), |i: int| views(s[i]@))
}

/// `groups` splits `input` into its classes of tied values, in order; within a class
/// the values keep their order.
pub open spec fn is_grouping<V>(
    input: Seq<V>,
    groups: Seq<Seq<V>>,
    le: spec_fn(V, V) -> bool,
) -> bool {
    &&& forall|g: int|
        0 <= g < groups.len() ==> (#[trigger] groups[g]).len() > 0 && groups[g] == input.filter(
            tied(le, groups[g][0]),
        )
    &&& forall|g: int, h: int|
        0 <= g < h < groups.len() ==> le((#[trigger] groups[g])[0], (#[trigger] groups[h])[0])
            && !le(groups[h][0], groups[g][0])
    &&& forall|i: int| 0 <= i < input.len() ==> has_group(groups, #[trigger] input[i], le)
}

/// Some group holds values tied to `v`.
pub open spec fn has_group<V>(groups: Seq<Seq<V>>, v: V, le: spec_fn(V, V) -> bool) -> bool {
    exists|g: int|
        0 <= g < groups.len() && le((#[trigger] groups[g])[0], v) && le(v, groups[g][0])
}

/// [`total_preorder`], kept folded.
#[verifier::opaque]
spec fn ordered<V>(le: spec_fn(V, V) -> bool) -> bool {
    total_preorder(le)
}

proof fn lemma_refl<V>(le: spec_fn(V, V) -> bool, a: V)
    requires
        ordered(le),
    ensures
        le(a, a),
{
    reveal(ordered);
    assert(le(a, a) || le(a, a));
}

proof fn lemma_trans<V>(le: spec_fn(V, V) -> bool, a: V, b: V, c: V)
    requires
        ordered(le),
        le(a, b),
        le(b, c),
    ensures
        le(a, c),
{
    reveal(ordered);
}

/// In a sorted list, what comes first is below what comes later.
proof fn lemma_sorted_le<V>(s: Seq<V>, i: int, j: int, le: spec_fn(V, V) -> bool)
    requires
        ordered(le),
        sorted_by(s, le),
        0 <= i <= j < s.len(),
    ensures
        le(s[i], s[j]),
{
    if i == j {
        lemma_refl(le, s[i]);
    }
}

/// Across a gap in a sorted list no values are tied.
proof fn lemma_gap<V>(s: Seq<V>, n: int, i: int, k: int, le: spec_fn(V, V) -> bool)
    requires
        ordered(le),
        sorted_by(s, le),
        0 <= i < n <= k < s.len(),
        !le(s[n], s[n - 1]),
    ensures
        le(s[i], s[k]),
        !le(s[k], s[i]),
{
    lemma_sorted_le(s, i, k, le);
    if le(s[k], s[i]) {
        lemma_sorted_le(s, i, n - 1, le);
        lemma_sorted_le(s, n, k, le);
        lemma_trans(le, s[n], s[k], s[i]);
        lemma_trans(le, s[n], s[i], s[n - 1]);
    }
}

/// From `a` up to `n` the sorted list `s` is one run of tied values, with a gap at
/// either end.
spec fn is_run<V>(s: Seq<V>, a: int, n: int, le: spec_fn(V, V) -> bool) -> bool {
    &&& 0 <= a < n <= s.len()
    &&& a > 0 ==> !le(s[a], s[a - 1])
    &&& n < s.len() ==> !le(s[n], s[n - 1])
    &&& le(s[n - 1], s[a])
}

proof fn lemma_run_tied<V>(s: Seq<V>, a: int, n: int, i: int, le: spec_fn(V, V) -> bool)
    requires
        ordered(le),
        sorted_by(s, le),
        is_run(s, a, n, le),
        a <= i < n,
    ensures
        tied(le, s[a])(s[i]),
{
    lemma_sorted_le(s, a, i, le);
    lemma_sorted_le(s, i, n - 1, le);
    lemma_trans(le, s[i], s[n - 1], s[a]);
}

/// A run is all that is tied to its first value.
proof fn lemma_run<V>(s: Seq<V>, a: int, n: int, le: spec_fn(V, V) -> bool)
    requires
        ordered(le),
        sorted_by(s, le),
        is_run(s, a, n, le),
    ensures
        s.subrange(a, n) == s.filter(tied(le, s[a])),
{
    let t = tied(le, s[a]);
    let before = s.take(a);
    let run = s.subrange(a, n);
    let after = s.skip(n);
    assert(s =~= before + run + after);
    assert forall|i: int| 0 <= i < before.len() implies !t(#[trigger] before[i]) by {
        assert(before[i] == s[i]);
        lemma_gap(s, a, i, a, le);
    }
    lemma_filter_none(before, t);
    assert forall|i: int| 0 <= i < after.len() implies !t(#[trigger] after[i]) by {
        assert(after[i] == s[n + i]);
        lemma_gap(s, n, a, n + i, le);
    }
    lemma_filter_none(after, t);
    assert forall|i: int| 0 <= i < run.len() implies t(#[trigger] run[i]) by {
        assert(run[i] == s[a + i]);
        lemma_run_tied(s, a, n, a + i, le);
    }
    lemma_filter_all(run, t);
    Seq::filter_distributes_over_add(before + run, after, t);
    Seq::filter_distributes_over_add(before, run, t);
    assert(s.filter(t) =~= run);
}

pub(crate) proof fn lemma_filter_all<V>(s: Seq<V>, p: spec_fn(V) -> bool)
    requires
        forall|i: int| 0 <= i < s.len() ==> p(#[trigger] s[i]),
    ensures
        s.filter(p) == s,
    decreases s.len(),
{
    reveal(Seq::filter);
    if s.len() > 0 {
        let rest = s.drop_last();
        assert forall|i: int| 0 <= i < rest.len() implies p(#[trigger] rest[i]) by {
            assert(rest[i] == s[i]);
        }
        lemma_filter_all(rest, p);
        assert(s[s.len() - 1] == s.last());
        assert(s =~= rest.push(s.last()));
    }
}

/// Runs of the sorted list `s`, the last one first, that cover everything from `n` on.
spec fn are_runs<V>(
    s: Seq<V>,
    n: int,
    runs: Seq<(int, int)>,
    le: spec_fn(V, V) -> bool,
) -> bool {
    &&& forall|g: int| 0 <= g < runs.len() ==> is_run(s, (#[trigger] runs[g]).0, runs[g].1, le)
    &&& forall|g: int| 0 <= g < runs.len() ==> n <= (#[trigger] runs[g]).0
    &&& forall|g: int, h: int|
        0 <= g < h < runs.len() ==> (#[trigger] runs[h]).1 <= (#[trigger] runs[g]).0
    &&& forall|i: int| n <= i < s.len() ==> #[trigger] is_covered(runs, i)
}

/// One of the runs holds place `i`.
spec fn is_covered(runs: Seq<(int, int)>, i: int) -> bool {
    exists|g: int| 0 <= g < runs.len() && (#[trigger] runs[g]).0 <= i < runs[g].1
}

proof fn lemma_runs_push<V>(
    s: Seq<V>,
    a: int,
    n: int,
    runs: Seq<(int, int)>,
    le: spec_fn(V, V) -> bool,
)
    requires
        are_runs(s, n, runs, le),
        is_run(s, a, n, le),
    ensures
        are_runs(s, a, runs.push((a, n)), le),
{
    let now = runs.push((a, n));
    assert forall|i: int| a <= i < s.len() implies #[trigger] is_covered(now, i) by {
        if i < n {
            assert(now[runs.len() as int].0 <= i < now[runs.len() as int].1);
        } else {
            assert(is_covered(runs, i));
            let g = choose|g: int|
                0 <= g < runs.len() && (#[trigger] runs[g]).0 <= i < runs[g].1;
            assert(now[g] == runs[g]);
        }
    }
}

/// Groups that cover a sorted list, put in order, are a grouping of what was sorted.
proof fn lemma_grouped<V>(
    input: Seq<V>,
    s: Seq<V>,
    runs: Seq<(int, int)>,
    groups: Seq<Seq<V>>,
    le: spec_fn(V, V) -> bool,
)
    requires
        ordered(le),
        is_stable_sort(input, s, le),
        are_runs(s, 0, runs, le),
        groups.len() == runs.len(),
        forall|g: int|
            0 <= g < groups.len() ==> #[trigger] groups[g] == s.subrange(
                runs[groups.len() - 1 - g].0,
                runs[groups.len() - 1 - g].1,
            ),
    ensures
        is_grouping(input, groups, le),
{
    let m = groups.len() as int;
    assert forall|g: int| 0 <= g < m implies (#[trigger] groups[g]).len() > 0 && groups[g][0]
        == s[runs[m - 1 - g].0] && groups[g] == input.filter(tied(le, groups[g][0])) by {
        let b = runs[m - 1 - g];
        assert(is_run(s, b.0, b.1, le));
        lemma_run(s, b.0, b.1, le);
        let x = s[b.0];
        assert(s.filter(tied(le, x)) == input.filter(tied(le, x)));
    }
    assert forall|g: int, h: int| 0 <= g < h < m implies le(
        (#[trigger] groups[g])[0],
        (#[trigger] groups[h])[0],
    ) && !le(groups[h][0], groups[g][0]) by {
        let a = runs[m - 1 - h];
        let b = runs[m - 1 - g];
        assert(is_run(s, a.0, a.1, le));
        assert(is_run(s, b.0, b.1, le));
        assert(b.1 <= a.0);
        lemma_gap(s, a.0, b.0, a.0, le);
    }
    assert forall|i: int| 0 <= i < input.len() implies has_group(groups, #[trigger] input[i], le) by {
        let k = lemma_sorted_holds(input, s, le, i);
        assert(is_covered(runs, k));
        let b = choose|b: int| 0 <= b < runs.len() && (#[trigger] runs[b]).0 <= k < runs[b].1;
        assert(is_run(s, runs[b].0, runs[b].1, le));
        lemma_run_tied(s, runs[b].0, runs[b].1, k, le);
        assert(groups[m - 1 - b][0] == s[runs[b].0]);
    }
}

/// Sorting keeps every value.
proof fn lemma_sorted_holds<V>(
    input: Seq<V>,
    s: Seq<V>,
    le: spec_fn(V, V) -> bool,
    i: int,
) -> (k: int)
    requires
        is_stable_sort(input, s, le),
        0 <= i < input.len(),
    ensures
        0 <= k < s.len(),
        s[k] == input[i],
{
    broadcast use vstd::seq_lib::group_to_multiset_ensures;

    assert(input.contains(input[i]));
    assert(s.to_multiset().count(input[i]) > 0);
    assert(s.contains(input[i]));
    choose|k: int| 0 <= k < s.len() && s[k] == input[i]
}

/// Splits `v` into its classes of tied values, in order; `f` decides `le`.
pub(crate) fn group_by<T: View, F: Fn(&T, &T) -> bool>(
    v: Vec<T>,
    f: &F,
    Ghost(le): Ghost<spec_fn(T::V, T::V) -> bool>,
) -> (out: Vec<Vec<T>>)
    requires
        total_preorder(le),
        forall|x: &T, y: &T| call_requires(*f, (x, y)),
        forall|x: &T, y: &T, r: bool|
            #[trigger] call_ensures(*f, (x, y), r) ==> r == le(x@, y@),
    ensures
        is_grouping(views(v@), group_views(out@), le),
{
    let ghost input = views(v@);
    let mut rest = stable_sort(v, f, Ghost(le));
    let ghost s = views(rest@);
    let ghost mut runs: Seq<(int, int)> = Seq::empty();
    let mut groups: Vec<Vec<T>> = Vec::new();
    proof {
        reveal(ordered);
        assert(s.take(rest.len() as int) =~= s);
    }
    while rest.len() > 0
        invariant
            ordered(le),
            forall|x: &T, y: &T| call_requires(*f, (x, y)),
            forall|x: &T, y: &T, r: bool|
                #[trigger] call_ensures(*f, (x, y), r) ==> r == le(x@, y@),
            sorted_by(s, le),
            rest.len() <= s.len(),
            views(rest@) == s.take(rest.len() as int),
            0 < rest.len() < s.len() ==> !le(s[rest.len() as int], s[rest.len() - 1]),
            are_runs(s, rest.len() as int, runs, le),
            groups.len() == runs.len(),
            forall|g: int|
                0 <= g < groups.len() ==> views((#[trigger] groups@[g])@) == s.subrange(
                    runs[g].0,
                    runs[g].1,
                ),
        decreases rest.len(),
    {
        let n: usize = rest.len();
        let mut a: usize = n - 1;
        proof {
            assert forall|i: int| 0 <= i < n implies rest@[i]@ == #[trigger] s[i] by {
                assert(views(rest@)[i] == s.take(n as int)[i]);
            }
            lemma_refl(le, s[n - 1]);
        }
        while a > 0 && f(&rest[n - 1], &rest[a - 1])
            invariant
                a < n,
                n == rest.len(),
                n <= s.len(),
                forall|x: &T, y: &T| call_requires(*f, (x, y)),
                forall|x: &T, y: &T, r: bool|
                    #[trigger] call_ensures(*f, (x, y), r) ==> r == le(x@, y@),
                forall|i: int| 0 <= i < n ==> rest@[i]@ == #[trigger] s[i],
                le(s[n - 1], s[a as int]),
            ensures
                a < n,
                le(s[n - 1], s[a as int]),
                a > 0 ==> !le(s[n - 1], s[a - 1]),
            decreases a,
        {
            a -= 1;
        }
        let ghost was = runs;
        proof {
            if a > 0 && le(s[a as int], s[a - 1]) {
                lemma_trans(le, s[n - 1], s[a as int], s[a - 1]);
            }
            lemma_runs_push(s, a as int, n as int, was, le);
            runs = was.push((a as int, n as int));
        }
        let run = rest.split_off(a);
        groups.push(run);
        proof {
            assert(views(run@) =~= s.subrange(a as int, n as int));
            assert(views(rest@) =~= s.take(a as int));
        }
    }
    let ghost back = groups@;
    let out = reversed(groups);
    proof {
        let all = group_views(out@);
        assert forall|g: int| 0 <= g < all.len() implies #[trigger] all[g] == s.subrange(
            runs[all.len() - 1 - g].0,
            runs[all.len() - 1 - g].1,
        ) by {
            assert(out@[g] == back[back.len() - 1 - g]);
        }
        lemma_grouped(input, s, runs, all, le);
    }
    out
}

} // verus!
