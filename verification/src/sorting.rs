use vstd::prelude::*;
use crate::order::{
    text_gt,
    text_le,
    lemma_text_lt_asymmetric,
    lemma_text_le_transitive,
    lemma_text_lt_total,
};

verus! {

/// A list of strings, each by its characters.
pub type Texts = Seq<Seq<char>>;

/// `t` as a list with `x` in front.
pub open spec fn cons(x: Seq<char>, t: Texts) -> Texts {
    seq![x] + t
}

/// How many entries of `t` are smaller than `x`.
pub open spec fn count_below(x: Seq<char>, t: Texts) -> nat
    decreases t.len(),
{
    if t.len() == 0 {
        0
    } else {
        (if text_gt(x, t[0]) { 1nat } else { 0nat }) + count_below(x, t.drop_first())
    }
}

/// The number of pairs that stand in the wrong order.
pub open spec fn inversions(s: Texts) -> nat
    decreases s.len(),
{
    if s.len() == 0 {
        0
    } else {
        count_below(s[0], s.drop_first()) + inversions(s.drop_first())
    }
}

/// One bubble-sort pass from front to back: each entry that is greater than
/// its successor changes place with it. Also tells whether any swap happened.
pub open spec fn bubble_pass(s: Texts) -> (Texts, bool)
    decreases s.len(),
{
    if s.len() < 2 {
        (s, false)
    } else if text_gt(s[0], s[1]) {
        (cons(s[1], bubble_pass(cons(s[0], s.skip(2))).0), true)
    } else {
        (cons(s[0], bubble_pass(s.drop_first()).0), bubble_pass(s.drop_first()).1)
    }
}

/// Every entry is at most its successor.
pub open spec fn adjacent_sorted(s: Texts) -> bool {
    forall|i: int| 0 <= i < s.len() - 1 ==> #[trigger] text_le(s[i], s[i + 1])
}

/// Every entry is at most every later entry.
pub open spec fn sorted(s: Texts) -> bool {
    forall|i: int, j: int| 0 <= i < j < s.len() ==> text_le(#[trigger] s[i], #[trigger] s[j])
}

/// `r` holds the same entries as `s`, each as often.
pub open spec fn same_entries(r: Texts, s: Texts) -> bool {
    r.to_multiset() == s.to_multiset()
}

pub proof fn lemma_cons_multiset(x: Seq<char>, t: Texts)
    ensures
        cons(x, t).to_multiset() == t.to_multiset().insert(x),
{
    broadcast use vstd::seq_lib::group_to_multiset_ensures;

    let s = cons(x, t);
    assert(s.remove(0) =~= t);
    assert(s.to_multiset().remove(x) == t.to_multiset());
    assert(s.contains(x)) by {
        assert(s[0] == x);
    }
    assert(s.to_multiset().count(x) > 0);
    assert(s.to_multiset() =~= t.to_multiset().insert(x));
}

/// Facts about `cons` and `drop_first` that the proofs below lean on.
pub proof fn lemma_cons_parts(s: Texts)
    requires
        s.len() >= 2,
    ensures
        s =~= cons(s[0], s.drop_first()),
        s.drop_first() =~= cons(s[1], s.skip(2)),
        s.drop_first().drop_first() =~= s.skip(2),
        cons(s[0], s.skip(2)).drop_first() =~= s.skip(2),
{
}

/// What one bubble pass guarantees: it keeps the entries, it changes nothing
/// exactly when the list is already in order, and a pass that swapped
/// removed at least one inversion.
pub proof fn lemma_bubble_pass(s: Texts)
    ensures
        bubble_pass(s).0.len() == s.len(),
        same_entries(bubble_pass(s).0, s),
        forall|x: Seq<char>| #[trigger] count_below(x, bubble_pass(s).0) == count_below(x, s),
        !bubble_pass(s).1 ==> bubble_pass(s).0 == s && adjacent_sorted(s),
        bubble_pass(s).1 ==> inversions(bubble_pass(s).0) < inversions(s),
    decreases s.len(),
{
    if s.len() < 2 {
    } else {
        lemma_cons_parts(s);
        let a = s[0];
        let b = s[1];
        let rest = s.skip(2);
        if text_gt(a, b) {
            let t = cons(a, rest);
            lemma_bubble_pass(t);
            let (r1, b1) = bubble_pass(t);
            let r = cons(b, r1);
            assert(bubble_pass(s) == (r, true));
            // entries
            lemma_cons_multiset(b, r1);
            lemma_cons_multiset(a, rest);
            lemma_cons_multiset(b, rest);
            lemma_cons_multiset(a, s.drop_first());
            assert(s.to_multiset() == s.drop_first().to_multiset().insert(a));
            assert(r.to_multiset() =~= s.to_multiset());
            // counts
            assert forall|x: Seq<char>| #[trigger] count_below(x, r) == count_below(x, s) by {
                assert(r.drop_first() =~= r1);
                assert(t.drop_first() =~= rest);
                assert(r[0] == b);
                assert(t[0] == a);
                assert(count_below(x, t) == count_below(x, r1));
                assert(count_below(x, r) == (if text_gt(x, b) { 1nat } else { 0nat })
                    + count_below(x, r1));
                assert(count_below(x, t) == (if text_gt(x, a) { 1nat } else { 0nat })
                    + count_below(x, rest));
                assert(count_below(x, s.drop_first()) == (if text_gt(x, b) { 1nat } else { 0nat })
                    + count_below(x, rest));
                assert(count_below(x, s) == (if text_gt(x, a) { 1nat } else { 0nat })
                    + count_below(x, s.drop_first()));
            }
            // inversions
            assert(r.drop_first() =~= r1);
            assert(t.drop_first() =~= rest);
            lemma_text_lt_asymmetric(b, a);
            assert(count_below(b, t) == count_below(b, rest));
            assert(count_below(b, r1) == count_below(b, t));
            assert(inversions(r1) <= inversions(t));
            assert(inversions(t) == count_below(a, rest) + inversions(rest));
            assert(count_below(a, s.drop_first()) == 1 + count_below(a, rest));
            assert(inversions(s.drop_first()) == count_below(b, rest) + inversions(rest));
        } else {
            let d = s.drop_first();
            lemma_bubble_pass(d);
            let (r1, b1) = bubble_pass(d);
            let r = cons(a, r1);
            assert(bubble_pass(s) == (r, b1));
            lemma_cons_multiset(a, r1);
            lemma_cons_multiset(a, d);
            assert(r.to_multiset() =~= s.to_multiset());
            assert forall|x: Seq<char>| #[trigger] count_below(x, r) == count_below(x, s) by {
                assert(r.drop_first() =~= r1);
                assert(r[0] == a);
                assert(count_below(x, r) == (if text_gt(x, a) { 1nat } else { 0nat })
                    + count_below(x, r1));
                assert(count_below(x, s) == (if text_gt(x, a) { 1nat } else { 0nat })
                    + count_below(x, d));
            }
            assert(r.drop_first() =~= r1);
            if !b1 {
                assert(r =~= s);
                assert forall|i: int| 0 <= i < s.len() - 1 implies #[trigger] text_le(
                    s[i],
                    s[i + 1],
                ) by {
                    if i > 0 {
                        assert(d[i - 1] == s[i]);
                        assert(d[(i - 1) + 1] == s[i + 1]);
                    }
                }
            }
        }
    }
}

/// `s` with the entries at `i` and `i + 1` traded.
pub open spec fn swap_adjacent(s: Texts, i: int) -> Texts {
    s.update(i, s[i + 1]).update(i + 1, s[i])
}

/// One compare-and-swap of bubble sort at position `i`: the entries at `i`
/// and `i + 1` trade places when the first is greater. Also tells whether
/// they did.
pub open spec fn compare_swap(s: Texts, i: int) -> (Texts, bool) {
    if text_gt(s[i], s[i + 1]) {
        (swap_adjacent(s, i), true)
    } else {
        (s, false)
    }
}

proof fn lemma_swap_adjacent_front(s: Texts)
    requires
        s.len() >= 2,
    ensures
        swap_adjacent(s, 0) =~= cons(s[1], cons(s[0], s.skip(2))),
        s =~= cons(s[0], cons(s[1], s.skip(2))),
{
}

proof fn lemma_swap_adjacent_inner(s: Texts, i: int)
    requires
        0 < i,
        i + 1 < s.len(),
    ensures
        swap_adjacent(s, i) =~= cons(s[0], swap_adjacent(s.drop_first(), i - 1)),
        s =~= cons(s[0], s.drop_first()),
{
}

/// Trading two neighbours does not change how many entries lie below `x`.
pub proof fn lemma_count_below_swap(x: Seq<char>, s: Texts, i: int)
    requires
        0 <= i,
        i + 1 < s.len(),
    ensures
        count_below(x, swap_adjacent(s, i)) == count_below(x, s),
    decreases i,
{
    let w = swap_adjacent(s, i);
    if i == 0 {
        lemma_swap_adjacent_front(s);
        let r = s.skip(2);
        assert(cons(s[1], cons(s[0], r)).drop_first() =~= cons(s[0], r));
        assert(cons(s[0], cons(s[1], r)).drop_first() =~= cons(s[1], r));
        assert(cons(s[0], r).drop_first() =~= r);
        assert(cons(s[1], r).drop_first() =~= r);
        let ga = if text_gt(x, s[0]) { 1nat } else { 0nat };
        let gb = if text_gt(x, s[1]) { 1nat } else { 0nat };
        assert(count_below(x, cons(s[0], r)) == ga + count_below(x, r));
        assert(count_below(x, cons(s[1], r)) == gb + count_below(x, r));
        assert(count_below(x, cons(s[1], cons(s[0], r))) == gb + count_below(x, cons(s[0], r)));
        assert(count_below(x, cons(s[0], cons(s[1], r))) == ga + count_below(x, cons(s[1], r)));
    } else {
        lemma_swap_adjacent_inner(s, i);
        lemma_count_below_swap(x, s.drop_first(), i - 1);
        assert(w.drop_first() =~= swap_adjacent(s.drop_first(), i - 1));
        let g0 = if text_gt(x, s[0]) { 1nat } else { 0nat };
        assert(w[0] == s[0]);
        assert(count_below(x, w) == g0 + count_below(x, w.drop_first()));
        assert(count_below(x, s) == g0 + count_below(x, s.drop_first()));
    }
}

/// Trading two neighbours keeps the entries.
pub proof fn lemma_swap_same_entries(s: Texts, i: int)
    requires
        0 <= i,
        i + 1 < s.len(),
    ensures
        same_entries(swap_adjacent(s, i), s),
        swap_adjacent(s, i).len() == s.len(),
    decreases i,
{
    if i == 0 {
        lemma_swap_adjacent_front(s);
        let r = s.skip(2);
        lemma_cons_multiset(s[0], r);
        lemma_cons_multiset(s[1], r);
        lemma_cons_multiset(s[1], cons(s[0], r));
        lemma_cons_multiset(s[0], cons(s[1], r));
        assert(swap_adjacent(s, 0).to_multiset() =~= s.to_multiset());
    } else {
        lemma_swap_adjacent_inner(s, i);
        lemma_swap_same_entries(s.drop_first(), i - 1);
        lemma_cons_multiset(s[0], s.drop_first());
        lemma_cons_multiset(s[0], swap_adjacent(s.drop_first(), i - 1));
    }
}

/// Trading two neighbours that stand in the wrong order removes exactly one inversion.
pub proof fn lemma_swap_inversions(s: Texts, i: int)
    requires
        0 <= i,
        i + 1 < s.len(),
        text_gt(s[i], s[i + 1]),
    ensures
        inversions(swap_adjacent(s, i)) + 1 == inversions(s),
    decreases i,
{
    let w = swap_adjacent(s, i);
    if i == 0 {
        lemma_swap_adjacent_front(s);
        let a = s[0];
        let b = s[1];
        let r = s.skip(2);
        lemma_text_lt_asymmetric(b, a);
        assert(cons(b, cons(a, r)).drop_first() =~= cons(a, r));
        assert(cons(a, cons(b, r)).drop_first() =~= cons(b, r));
        assert(cons(a, r).drop_first() =~= r);
        assert(cons(b, r).drop_first() =~= r);
        assert(count_below(b, cons(a, r)) == count_below(b, r));
        assert(count_below(a, cons(b, r)) == 1 + count_below(a, r));
        assert(inversions(cons(a, r)) == count_below(a, r) + inversions(r));
        assert(inversions(cons(b, r)) == count_below(b, r) + inversions(r));
        assert(inversions(cons(b, cons(a, r))) == count_below(b, cons(a, r)) + inversions(
            cons(a, r),
        ));
        assert(inversions(cons(a, cons(b, r))) == count_below(a, cons(b, r)) + inversions(
            cons(b, r),
        ));
    } else {
        lemma_swap_adjacent_inner(s, i);
        lemma_swap_inversions(s.drop_first(), i - 1);
        lemma_count_below_swap(s[0], s.drop_first(), i - 1);
        assert(w.drop_first() =~= swap_adjacent(s.drop_first(), i - 1));
        assert(w[0] == s[0]);
        assert(inversions(w) == count_below(w[0], w.drop_first()) + inversions(w.drop_first()));
        assert(inversions(s) == count_below(s[0], s.drop_first()) + inversions(s.drop_first()));
    }
}

/// A list whose neighbours are in order is sorted.
pub proof fn lemma_adjacent_sorted_is_sorted(s: Texts)
    requires
        adjacent_sorted(s),
    ensures
        sorted(s),
    decreases s.len(),
{
    if s.len() > 1 {
        let d = s.drop_first();
        assert forall|i: int| 0 <= i < d.len() - 1 implies #[trigger] text_le(d[i], d[i + 1]) by {
            assert(d[i] == s[i + 1]);
            assert(d[i + 1] == s[(i + 1) + 1]);
        }
        lemma_adjacent_sorted_is_sorted(d);
        assert forall|i: int, j: int| 0 <= i < j < s.len() implies text_le(
            #[trigger] s[i],
            #[trigger] s[j],
        ) by {
            if i == 0 {
                assert(text_le(s[0], s[0int + 1]));
                if j > 1 {
                    assert(d[0] == s[1]);
                    assert(d[j - 1] == s[j]);
                    assert(text_le(d[0], d[j - 1]));
                    lemma_text_le_transitive(s[0], s[1], s[j]);
                }
            } else {
                assert(d[i - 1] == s[i]);
                assert(d[j - 1] == s[j]);
                assert(text_le(d[i - 1], d[j - 1]));
            }
        }
    }
}

/// There is only one sorted arrangement of a list's entries: two sorted lists
/// with the same entries are equal. So "sorted, with the same entries"
/// determines the result of a sort.
pub proof fn lemma_sorted_arrangement_unique(a: Texts, b: Texts)
    requires
        sorted(a),
        sorted(b),
        same_entries(a, b),
    ensures
        a == b,
    decreases a.len(),
{
    broadcast use vstd::seq_lib::group_to_multiset_ensures;

    assert(a.len() == a.to_multiset().len());
    assert(b.len() == b.to_multiset().len());
    if a.len() == 0 {
        assert(a =~= b);
    } else {
        let x = a[0];
        let y = b[0];
        assert(a.to_multiset().count(x) > 0) by {
            assert(a.contains(x));
        }
        assert(b.contains(x));
        assert(b.to_multiset().count(y) > 0) by {
            assert(b.contains(y));
        }
        assert(a.contains(y));
        let i = choose|i: int| 0 <= i < b.len() && b[i] == x;
        let j = choose|j: int| 0 <= j < a.len() && a[j] == y;
        assert(text_le(y, x)) by {
            if i > 0 {
                assert(text_le(b[0], b[i]));
            } else {
                crate::order::lemma_text_lt_irreflexive(x);
            }
        }
        assert(text_le(x, y)) by {
            if j > 0 {
                assert(text_le(a[0], a[j]));
            } else {
                crate::order::lemma_text_lt_irreflexive(y);
            }
        }
        lemma_text_lt_total(x, y);
        assert(x == y);
        lemma_cons_multiset(x, a.drop_first());
        lemma_cons_multiset(x, b.drop_first());
        assert(a =~= cons(x, a.drop_first()));
        assert(b =~= cons(x, b.drop_first()));
        assert(a.drop_first().to_multiset() =~= b.drop_first().to_multiset()) by {
            assert(a.drop_first().to_multiset() =~= a.to_multiset().remove(x));
            assert(b.drop_first().to_multiset() =~= b.to_multiset().remove(x));
        }
        assert forall|p: int, q: int| 0 <= p < q < a.drop_first().len() implies text_le(
            #[trigger] a.drop_first()[p],
            #[trigger] a.drop_first()[q],
        ) by {
            assert(a.drop_first()[p] == a[p + 1]);
            assert(a.drop_first()[q] == a[q + 1]);
        }
        assert forall|p: int, q: int| 0 <= p < q < b.drop_first().len() implies text_le(
            #[trigger] b.drop_first()[p],
            #[trigger] b.drop_first()[q],
        ) by {
            assert(b.drop_first()[p] == b[p + 1]);
            assert(b.drop_first()[q] == b[q + 1]);
        }
        lemma_sorted_arrangement_unique(a.drop_first(), b.drop_first());
    }
}

} // verus!
