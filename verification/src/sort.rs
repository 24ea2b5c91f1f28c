//! Stable sorting: what it means, and that it does what is expected of it.

use vstd::prelude::*;

verus! {

/// The first position from `i` on whose item does not belong before `x`.
pub open spec fn place<A>(s: Seq<A>, x: A, le: spec_fn(A, A) -> bool, i: int) -> int
    decreases s.len() - i,
{
    if i < 0 || i >= s.len() || !le(s[i], x) {
        i
    } else {
        place(s, x, le, i + 1)
    }
}

/// `x` put into `s` behind the items that belong before it or beside it.
pub open spec fn inserted<A>(s: Seq<A>, x: A, le: spec_fn(A, A) -> bool) -> Seq<A> {
    s.insert(place(s, x, le, 0), x)
}

/// `s` in the order of `le`. Items that belong beside each other keep their order.
pub open spec fn sorted<A>(s: Seq<A>, le: spec_fn(A, A) -> bool) -> Seq<A>
    decreases s.len(),
{
    if s.len() == 0 {
        s
    } else {
        inserted(sorted(s.drop_last(), le), s.last(), le)
    }
}

/// Whether `le` orders any two items, and no three of them in a circle.
pub open spec fn is_order<A>(le: spec_fn(A, A) -> bool) -> bool {
    &&& forall|a: A, b: A| #[trigger] le(a, b) || le(b, a)
    &&& forall|a: A, b: A, c: A| #[trigger] le(a, b) && #[trigger] le(b, c) ==> le(a, c)
}

pub open spec fn in_order<A>(s: Seq<A>, le: spec_fn(A, A) -> bool) -> bool {
    forall|i: int, j: int| 0 <= i <= j < s.len() ==> le(#[trigger] s[i], #[trigger] s[j])
}

pub proof fn lemma_place<A>(s: Seq<A>, x: A, le: spec_fn(A, A) -> bool, i: int)
    requires
        0 <= i <= s.len(),
    ensures
        i <= place(s, x, le, i) <= s.len(),
        forall|k: int| i <= k < place(s, x, le, i) ==> le(#[trigger] s[k], x),
        place(s, x, le, i) < s.len() ==> !le(s[place(s, x, le, i)], x),
    decreases s.len() - i,
{
    if i < s.len() && le(s[i], x) {
        lemma_place(s, x, le, i + 1);
    }
}

/// Sorting puts the items in order.
pub proof fn law_sorted_is_in_order<A>(s: Seq<A>, le: spec_fn(A, A) -> bool)
    requires
        is_order(le),
    ensures
        in_order(sorted(s, le), le),
        sorted(s, le).len() == s.len(),
    decreases s.len(),
{
    if s.len() > 0 {
        law_sorted_is_in_order(s.drop_last(), le);
        let t = sorted(s.drop_last(), le);
        let x = s.last();
        lemma_place(t, x, le, 0);
        let p = place(t, x, le, 0);
        let r = t.insert(p, x);
        assert forall|i: int, j: int| 0 <= i <= j < r.len() implies le(
            #[trigger] r[i],
            #[trigger] r[j],
        ) by {
            assert(le(r[i], r[i]) || le(r[i], r[i]));
            if i < p && j < p {
                assert(r[i] == t[i] && r[j] == t[j]);
            } else if i < p && j > p {
                assert(r[i] == t[i] && r[j] == t[j - 1]);
            } else if i < p {
                assert(r[i] == t[i] && r[j] == x);
            } else if i == p && j > p {
                assert(r[i] == x && r[j] == t[j - 1]);
                assert(le(t[p], t[j - 1]));
                assert(le(x, t[p]) || le(t[p], x));
            } else if i > p {
                assert(r[i] == t[i - 1] && r[j] == t[j - 1]);
            }
        }
    }
}

/// Sorting keeps every item as often as it is there.
pub proof fn law_sorted_keeps_items<A>(s: Seq<A>, le: spec_fn(A, A) -> bool)
    ensures
        sorted(s, le).to_multiset() == s.to_multiset(),
        sorted(s, le).len() == s.len(),
    decreases s.len(),
{
    broadcast use vstd::seq_lib::group_to_multiset_ensures;

    if s.len() > 0 {
        law_sorted_keeps_items(s.drop_last(), le);
        let t = sorted(s.drop_last(), le);
        lemma_place(t, s.last(), le, 0);
        assert(s =~= s.drop_last().push(s.last()));
        assert(t.insert(place(t, s.last(), le, 0), s.last()).to_multiset()
            =~= t.to_multiset().insert(s.last()));
    }
}

/// Sorting is stable: items that belong beside each other stay in the order in which they
/// were.
pub proof fn law_sorted_is_stable<A>(
    s: Seq<A>,
    le: spec_fn(A, A) -> bool,
    group: spec_fn(A) -> bool,
)
    requires
        is_order(le),
        forall|a: A, b: A| #[trigger] group(a) && #[trigger] group(b) ==> le(a, b),
    ensures
        sorted(s, le).filter(group) == s.filter(group),
    decreases s.len(),
{
    if s.len() > 0 {
        let t = sorted(s.drop_last(), le);
        let x = s.last();
        law_sorted_is_stable(s.drop_last(), le, group);
        law_sorted_is_in_order(s.drop_last(), le);
        lemma_place(t, x, le, 0);
        let p = place(t, x, le, 0);
        let front = t.take(p);
        let back = t.skip(p);
        let one = seq![x];
        assert(t =~= front + back);
        assert(t.insert(p, x) =~= front + one + back);
        assert(s =~= s.drop_last() + one);
        Seq::filter_distributes_over_add(front, back, group);
        Seq::filter_distributes_over_add(front + one, back, group);
        Seq::filter_distributes_over_add(front, one, group);
        Seq::filter_distributes_over_add(s.drop_last(), one, group);
        if group(x) {
            assert forall|k: int| 0 <= k < back.len() implies !group(#[trigger] back[k]) by {
                assert(back[k] == t[p + k]);
                if group(t[p + k]) {
                    assert(le(t[p + k], x));
                    assert(le(t[p], t[p + k]));
                }
            }
            lemma_filter_nothing(back, group);
            assert(front.filter(group) + one.filter(group) + back.filter(group)
                =~= front.filter(group) + back.filter(group) + one.filter(group));
        } else {
            lemma_filter_nothing(one, group);
            assert(front.filter(group) + one.filter(group) + back.filter(group)
                =~= front.filter(group) + back.filter(group) + one.filter(group));
        }
    }
}

proof fn lemma_filter_nothing<A>(s: Seq<A>, group: spec_fn(A) -> bool)
    requires
        forall|k: int| 0 <= k < s.len() ==> !group(#[trigger] s[k]),
    ensures
        s.filter(group).len() == 0,
    decreases s.len(),
{
    reveal(Seq::filter);
    if s.len() > 0 {
        assert forall|k: int| 0 <= k < s.drop_last().len() implies !group(
            #[trigger] s.drop_last()[k],
        ) by {
            assert(s.drop_last()[k] == s[k]);
        }
        lemma_filter_nothing(s.drop_last(), group);
    }
}

}
