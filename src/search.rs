//! Lower-bound binary search over any slice, driven by a comparison against an implicit target.
use std::cmp::Ordering;
use vstd::prelude::*;

verus! {

/// Position of an outcome in the order `Less`, `Equal`, `Greater`.
pub open spec fn rank(o: Ordering) -> int {
    match o {
        Ordering::Less => 0,
        Ordering::Equal => 1,
        Ordering::Greater => 2,
    }
}

/// `f` accepts every element of `s`, and its outcomes never step back along `s`:
/// first `Less`, then `Equal`, then `Greater`. An element always gets the same outcome.
pub open spec fn is_monotone_probe<T, F: Fn(&T) -> Ordering>(f: F, s: Seq<T>) -> bool {
    &&& forall|i: int| 0 <= i < s.len() ==> #[trigger] call_requires(f, (&s[i],))
    &&& forall|i: int, j: int, oi: Ordering, oj: Ordering|
        0 <= i <= j < s.len() && #[trigger] call_ensures(f, (&s[i],), oi) && #[trigger] call_ensures(
            f,
            (&s[j],),
            oj,
        ) ==> rank(oi) <= rank(oj)
}

/// Returns `(index, true)` where `f` answers `Equal` on the element at `index`; where it answers
/// `Equal` nowhere, `(index, false)` with `index` the first position whose element compares
/// `Greater`, that is where the target would go to keep `data` in order. Any `f` that accepts
/// every element gets an index within bounds; the partition holds where `f` is monotone.
pub fn binary_search_by<T, F: Fn(&T) -> Ordering>(data: &[T], f: F) -> (r: (usize, bool))
    requires
        forall|i: int| 0 <= i < data@.len() ==> #[trigger] call_requires(f, (&data@[i],)),
    ensures
        r.1 ==> r.0 < data@.len() && call_ensures(f, (&data@[r.0 as int],), Ordering::Equal),
        !r.1 ==> r.0 <= data@.len(),
        !r.1 && is_monotone_probe(f, data@) ==> forall|i: int, o: Ordering|
            0 <= i < r.0 && #[trigger] call_ensures(f, (&data@[i],), o) ==> o == Ordering::Less,
        !r.1 && is_monotone_probe(f, data@) ==> forall|i: int, o: Ordering|
            r.0 <= i < data@.len() && #[trigger] call_ensures(f, (&data@[i],), o) ==> o
                == Ordering::Greater,
        !r.1 && r.0 > 0 ==> call_ensures(f, (&data@[r.0 - 1],), Ordering::Less),
        !r.1 && r.0 < data@.len() ==> call_ensures(f, (&data@[r.0 as int],), Ordering::Greater),
{
    if data.len() == 0 {
        return (data.len(), false);
    }
    let mut l: usize = 0;
    let mut r: usize = data.len();
    while r > l
        invariant
            forall|i: int| 0 <= i < data@.len() ==> #[trigger] call_requires(f, (&data@[i],)),
            l <= r <= data@.len(),
            is_monotone_probe(f, data@) ==> forall|i: int, o: Ordering|
                0 <= i < l && #[trigger] call_ensures(f, (&data@[i],), o) ==> o == Ordering::Less,
            is_monotone_probe(f, data@) ==> forall|i: int, o: Ordering|
                r <= i < data@.len() && #[trigger] call_ensures(f, (&data@[i],), o) ==> o
                    == Ordering::Greater,
            l > 0 ==> call_ensures(f, (&data@[l - 1],), Ordering::Less),
            r < data@.len() ==> call_ensures(f, (&data@[r as int],), Ordering::Greater),
        decreases r - l,
    {
        let mid: usize = l + (r - l) / 2;
        let cmp = f(&data[mid]);
        match cmp {
            Ordering::Greater => {
                r = mid;
            },
            Ordering::Equal => {
                return (mid, true);
            },
            Ordering::Less => {
                l = mid + 1;
            },
        }
    }
    (r, false)
}

} // verus!
