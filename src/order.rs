//! The mathematical model of a caller-supplied comparator, and of sorted sequences under it.
use std::cmp::Ordering;
use vstd::prelude::*;

verus! {

/// The ordering that the order `c` gives to `a` against `b`.
pub open spec fn order_of<T>(c: spec_fn(T, T) -> Ordering, a: T, b: T) -> Ordering {
    c(a, b)
}

/// The comparator `f` can be called on any pair, and whatever it answers is what the spec
/// order `o` gives.
pub open spec fn agrees<T, C: Fn(&T, &T) -> Ordering>(f: C, o: spec_fn(T, T) -> Ordering) -> bool {
    &&& forall|a: T, b: T| #[trigger] call_requires(f, (&a, &b))
    &&& forall|a: T, b: T, r: Ordering| #[trigger] call_ensures(f, (&a, &b), r) ==> r == o(a, b)
}

/// The comparator `f` agrees with some total order.
pub open spec fn is_comparator<T, C: Fn(&T, &T) -> Ordering>(f: C) -> bool {
    exists|o: spec_fn(T, T) -> Ordering| agrees(f, o) && is_total_order(o)
}

/// A total order that the comparator `f` agrees with, where it has one.
pub open spec fn chosen_order<T, C: Fn(&T, &T) -> Ordering>(f: C) -> spec_fn(T, T) -> Ordering {
    choose|o: spec_fn(T, T) -> Ordering| agrees(f, o) && is_total_order(o)
}

/// `a` comes strictly before `b` under `c`.
pub open spec fn less<T>(c: spec_fn(T, T) -> Ordering, a: T, b: T) -> bool {
    order_of(c, a, b) == Ordering::Less
}

/// `c` orders its domain totally, with `Equal` as an equivalence that the order respects.
#[verifier::opaque]
pub open spec fn is_total_order<T>(c: spec_fn(T, T) -> Ordering) -> bool {
    &&& forall|a: T, b: T|
        (#[trigger] order_of(c, a, b) == Ordering::Less) <==> (order_of(c, b, a)
            == Ordering::Greater)
    &&& forall|a: T| #[trigger] order_of(c, a, a) == Ordering::Equal
    &&& forall|a: T, b: T, d: T|
        #![trigger order_of(c, a, b), order_of(c, b, d)]
        order_of(c, a, b) == Ordering::Less && order_of(c, b, d) == Ordering::Less ==> order_of(
            c,
            a,
            d,
        ) == Ordering::Less
    &&& forall|a: T, b: T, d: T|
        #![trigger order_of(c, a, b), order_of(c, a, d)]
        #![trigger order_of(c, a, b), order_of(c, b, d)]
        order_of(c, a, b) == Ordering::Equal ==> order_of(c, a, d) == order_of(c, b, d)
}

/// Every element of `s` comes strictly before every later one.
pub open spec fn strictly_sorted<T>(c: spec_fn(T, T) -> Ordering, s: Seq<T>) -> bool {
    forall|i: int, j: int| #![trigger s[i], s[j]] 0 <= i < j < s.len() ==> less(c, s[i], s[j])
}

/// Some element of `s` is `Equal` to `v` under `c`.
pub open spec fn contains_equal<T>(c: spec_fn(T, T) -> Ordering, s: Seq<T>, v: T) -> bool {
    exists|i: int| 0 <= i < s.len() && #[trigger] order_of(c, s[i], v) == Ordering::Equal
}

/// The sorted set `s` after adding `v`: unchanged where an element is `Equal` to `v`, else with
/// `v` placed before the first element that follows it.
pub open spec fn sorted_insert<T>(c: spec_fn(T, T) -> Ordering, s: Seq<T>, v: T) -> Seq<T>
    decreases s.len(),
{
    if s.len() == 0 {
        seq![v]
    } else if order_of(c, s[0], v) == Ordering::Less {
        seq![s[0]] + sorted_insert(c, s.drop_first(), v)
    } else if order_of(c, s[0], v) == Ordering::Equal {
        s
    } else {
        seq![v] + s
    }
}

/// The sorted set built by adding the values of `vals` one after another to an empty one.
pub open spec fn inserted_all<T>(c: spec_fn(T, T) -> Ordering, vals: Seq<T>) -> Seq<T>
    decreases vals.len(),
{
    if vals.len() == 0 {
        Seq::empty()
    } else {
        sorted_insert(c, inserted_all(c, vals.drop_last()), vals.last())
    }
}

/// Where every element before position `q` comes before `v` and every other one after it,
/// adding `v` puts it at `q`, and the result stays strictly sorted.
pub proof fn lemma_sorted_insert_at<T>(c: spec_fn(T, T) -> Ordering, s: Seq<T>, q: int, v: T)
    requires
        is_total_order(c),
        strictly_sorted(c, s),
        0 <= q <= s.len(),
        forall|i: int| 0 <= i < q ==> less(c, #[trigger] s[i], v),
        forall|i: int| q <= i < s.len() ==> less(c, v, #[trigger] s[i]),
    ensures
        sorted_insert(c, s, v) == s.insert(q, v),
        strictly_sorted(c, s.insert(q, v)),
        !contains_equal(c, s, v),
    decreases s.len(),
{
    reveal(is_total_order);
    if s.len() == 0 {
        assert(s.insert(q, v) =~= seq![v]);
    } else if q == 0 {
        assert(less(c, v, s[0]));
        assert(order_of(c, s[0], v) == Ordering::Greater);
        assert(s.insert(q, v) =~= seq![v] + s);
    } else {
        assert(less(c, s[0], v));
        let rest = s.drop_first();
        assert forall|i: int| 0 <= i < q - 1 implies less(c, #[trigger] rest[i], v) by {
            assert(rest[i] == s[i + 1]);
        }
        assert forall|i: int| q - 1 <= i < rest.len() implies less(c, v, #[trigger] rest[i]) by {
            assert(rest[i] == s[i + 1]);
        }
        assert forall|i: int, j: int| 0 <= i < j < rest.len() implies less(c, rest[i], rest[j]) by {
            assert(rest[i] == s[i + 1] && rest[j] == s[j + 1]);
        }
        lemma_sorted_insert_at(c, rest, q - 1, v);
        assert(s.insert(q, v) =~= seq![s[0]] + rest.insert(q - 1, v));
    }
    let t = s.insert(q, v);
    assert forall|i: int, j: int| 0 <= i < j < t.len() implies less(c, t[i], t[j]) by {
        if j < q {
            assert(t[i] == s[i] && t[j] == s[j]);
        } else if j == q {
            assert(t[i] == s[i]);
        } else if i == q {
            assert(t[j] == s[j - 1]);
        } else if i < q {
            assert(t[i] == s[i] && t[j] == s[j - 1]);
        } else {
            assert(t[i] == s[i - 1] && t[j] == s[j - 1]);
        }
    }
    assert forall|i: int| 0 <= i < s.len() implies #[trigger] order_of(c, s[i], v)
        != Ordering::Equal by {
        if i < q {
            assert(less(c, s[i], v));
        } else {
            assert(less(c, v, s[i]));
        }
    }
}

/// Adding a value that is `Equal` to an element of a strictly sorted `s` leaves `s` as it is.
pub proof fn lemma_sorted_insert_equal<T>(
    c: spec_fn(T, T) -> Ordering,
    s: Seq<T>,
    j: int,
    v: T,
)
    requires
        is_total_order(c),
        strictly_sorted(c, s),
        0 <= j < s.len(),
        order_of(c, s[j], v) == Ordering::Equal,
    ensures
        sorted_insert(c, s, v) == s,
    decreases s.len(),
{
    reveal(is_total_order);
    if j > 0 {
        assert(less(c, s[0], s[j]));
        assert(order_of(c, s[j], s[0]) == Ordering::Greater);
        assert(order_of(c, s[j], s[0]) == order_of(c, v, s[0]));
        assert(order_of(c, s[0], v) == Ordering::Less);
        let rest = s.drop_first();
        assert forall|a: int, b: int| 0 <= a < b < rest.len() implies less(c, rest[a], rest[b]) by {
            assert(rest[a] == s[a + 1] && rest[b] == s[b + 1]);
        }
        assert(rest[j - 1] == s[j]);
        lemma_sorted_insert_equal(c, rest, j - 1, v);
        assert(seq![s[0]] + rest =~= s);
    }
}

/// Adding `v` to a strictly sorted `s` keeps it strictly sorted, keeps every element of `s`,
/// brings in nothing but `v`, and leaves an element `Equal` to `v`.
pub proof fn lemma_sorted_insert_props<T>(c: spec_fn(T, T) -> Ordering, s: Seq<T>, v: T)
    requires
        is_total_order(c),
        strictly_sorted(c, s),
    ensures
        strictly_sorted(c, sorted_insert(c, s, v)),
        forall|x: T| #[trigger] sorted_insert(c, s, v).contains(x) ==> s.contains(x) || x == v,
        forall|x: T| s.contains(x) ==> #[trigger] sorted_insert(c, s, v).contains(x),
        contains_equal(c, sorted_insert(c, s, v), v),
    decreases s.len(),
{
    reveal(is_total_order);
    let r = sorted_insert(c, s, v);
    if s.len() == 0 {
        assert(r[0] == v);
        assert(order_of(c, r[0], v) == Ordering::Equal);
    } else if order_of(c, s[0], v) == Ordering::Less {
        let rest = s.drop_first();
        assert forall|a: int, b: int| 0 <= a < b < rest.len() implies less(c, rest[a], rest[b]) by {
            assert(rest[a] == s[a + 1] && rest[b] == s[b + 1]);
        }
        lemma_sorted_insert_props(c, rest, v);
        let rr = sorted_insert(c, rest, v);
        assert(r == seq![s[0]] + rr);
        assert forall|a: int, b: int| 0 <= a < b < r.len() implies less(c, r[a], r[b]) by {
            if a == 0 {
                assert(r[b] == rr[b - 1]);
                assert(rr.contains(rr[b - 1]));
                if rr[b - 1] != v {
                    let m = choose|m: int| 0 <= m < rest.len() && rest[m] == rr[b - 1];
                    assert(s[m + 1] == rest[m]);
                }
            } else {
                assert(r[a] == rr[a - 1] && r[b] == rr[b - 1]);
            }
        }
        assert forall|x: T| #[trigger] r.contains(x) implies s.contains(x) || x == v by {
            if x != s[0] {
                let m = choose|m: int| 0 <= m < r.len() && r[m] == x;
                assert(rr[m - 1] == x);
                assert(rr.contains(x));
                if x != v {
                    let m2 = choose|m2: int| 0 <= m2 < rest.len() && rest[m2] == x;
                    assert(s[m2 + 1] == x);
                }
            } else {
                assert(s[0] == x);
            }
        }
        assert forall|x: T| s.contains(x) implies #[trigger] r.contains(x) by {
            let m = choose|m: int| 0 <= m < s.len() && s[m] == x;
            if m == 0 {
                assert(r[0] == x);
            } else {
                assert(rest[m - 1] == x);
                assert(rest.contains(x));
                assert(rr.contains(x));
                let m2 = choose|m2: int| 0 <= m2 < rr.len() && rr[m2] == x;
                assert(r[m2 + 1] == x);
            }
        }
        let w = choose|i: int| 0 <= i < rr.len() && #[trigger] order_of(c, rr[i], v) == Ordering::Equal;
        assert(r[w + 1] == rr[w]);
    } else if order_of(c, s[0], v) == Ordering::Equal {
        assert(r[0] == s[0]);
    } else {
        assert(r == seq![v] + s);
        assert(less(c, v, s[0]));
        assert forall|a: int, b: int| 0 <= a < b < r.len() implies less(c, r[a], r[b]) by {
            if a == 0 {
                assert(r[b] == s[b - 1]);
                if b > 1 {
                    assert(less(c, s[0], s[b - 1]));
                }
            } else {
                assert(r[a] == s[a - 1] && r[b] == s[b - 1]);
            }
        }
        assert forall|x: T| #[trigger] r.contains(x) implies s.contains(x) || x == v by {
            let m = choose|m: int| 0 <= m < r.len() && r[m] == x;
            if m > 0 {
                assert(s[m - 1] == x);
            }
        }
        assert forall|x: T| s.contains(x) implies #[trigger] r.contains(x) by {
            let m = choose|m: int| 0 <= m < s.len() && s[m] == x;
            assert(r[m + 1] == x);
        }
        assert(order_of(c, r[0], v) == Ordering::Equal);
    }
}

/// Whatever values are added one after another, the elements stay in strictly ascending order.
pub proof fn lemma_inserts_stay_sorted<T>(c: spec_fn(T, T) -> Ordering, vals: Seq<T>)
    requires
        is_total_order(c),
    ensures
        strictly_sorted(c, inserted_all(c, vals)),
    decreases vals.len(),
{
    if vals.len() > 0 {
        lemma_inserts_stay_sorted(c, vals.drop_last());
        lemma_sorted_insert_props(c, inserted_all(c, vals.drop_last()), vals.last());
    }
}

/// Adding values one after another yields their de-duplicated, sorted version: the result is
/// strictly ascending, each of its elements is one of the values, and each value has an
/// `Equal` element in it.
pub proof fn lemma_inserts_form_set<T>(c: spec_fn(T, T) -> Ordering, vals: Seq<T>)
    requires
        is_total_order(c),
    ensures
        strictly_sorted(c, inserted_all(c, vals)),
        forall|x: T| #[trigger] inserted_all(c, vals).contains(x) ==> vals.contains(x),
        forall|i: int| 0 <= i < vals.len() ==> contains_equal(c, inserted_all(c, vals), #[trigger] vals[i]),
    decreases vals.len(),
{
    lemma_inserts_stay_sorted(c, vals);
    if vals.len() > 0 {
        let pre = vals.drop_last();
        let v = vals.last();
        let s = inserted_all(c, pre);
        let r = inserted_all(c, vals);
        lemma_inserts_form_set(c, pre);
        lemma_sorted_insert_props(c, s, v);
        assert forall|x: T| #[trigger] r.contains(x) implies vals.contains(x) by {
            if x == v {
                assert(vals[vals.len() - 1] == x);
            } else {
                assert(s.contains(x));
                assert(pre.contains(x));
                let m = choose|m: int| 0 <= m < pre.len() && pre[m] == x;
                assert(vals[m] == x);
            }
        }
        assert forall|i: int| 0 <= i < vals.len() implies contains_equal(c, r, #[trigger] vals[i]) by {
            if i < vals.len() - 1 {
                assert(pre[i] == vals[i]);
                assert(contains_equal(c, s, pre[i]));
                let m = choose|m: int| 0 <= m < s.len() && #[trigger] order_of(c, s[m], pre[i]) == Ordering::Equal;
                assert(s.contains(s[m]));
                assert(r.contains(s[m]));
                let m2 = choose|m2: int| 0 <= m2 < r.len() && r[m2] == s[m];
                assert(order_of(c, r[m2], vals[i]) == Ordering::Equal);
            }
        }
    }
}

/// Adding a value `Equal` to an element already there changes nothing.
pub proof fn lemma_duplicate_changes_nothing<T>(c: spec_fn(T, T) -> Ordering, s: Seq<T>, v: T)
    requires
        is_total_order(c),
        strictly_sorted(c, s),
        contains_equal(c, s, v),
    ensures
        sorted_insert(c, s, v) == s,
{
    let j = choose|j: int| 0 <= j < s.len() && #[trigger] order_of(c, s[j], v) == Ordering::Equal;
    lemma_sorted_insert_equal(c, s, j, v);
}

/// A call of a comparator that agrees with `o` is always allowed and answers with `o`.
pub proof fn lemma_comparator_call<T, C: Fn(&T, &T) -> Ordering>(
    f: &C,
    o: spec_fn(T, T) -> Ordering,
    a: T,
    b: T,
)
    requires
        agrees(*f, o),
    ensures
        call_requires(*f, (&a, &b)),
        forall|r: Ordering| call_ensures(*f, (&a, &b), r) ==> r == order_of(o, a, b),
{
}

} // verus!
