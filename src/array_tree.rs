//! The blocked sorted sequence: a sorted set kept as a run of bounded, sorted blocks.
use std::cmp::Ordering;
use vstd::prelude::*;
use vstd::seq_lib::lemma_flatten_concat;

use crate::order::{
    agrees, chosen_order, contains_equal, is_comparator, is_total_order, lemma_comparator_call, lemma_sorted_insert_at, lemma_sorted_insert_equal, less,
    order_of, sorted_insert, strictly_sorted,
};
use crate::search::{binary_search_by, is_monotone_probe, rank};

verus! {

/// What each of the vectors `d` holds.
pub open spec fn block_views<T>(d: Seq<Vec<T>>) -> Seq<Seq<T>> {
    d.map_values(|b: Vec<T>| b@)
}

/// The sum of the blocks' lengths.
pub open spec fn total_len<T>(bs: Seq<Seq<T>>) -> int
    decreases bs.len(),
{
    if bs.len() == 0 {
        0
    } else {
        total_len(bs.drop_last()) + bs.last().len()
    }
}

proof fn lemma_total_len<T>(bs: Seq<Seq<T>>)
    ensures
        bs.flatten().len() == total_len(bs),
    decreases bs.len(),
{
    bs.lemma_flatten_and_flatten_alt_are_equivalent();
    if bs.len() > 0 {
        lemma_total_len(bs.drop_last());
        bs.drop_last().lemma_flatten_and_flatten_alt_are_equivalent();
    }
}

/// Number of elements held by the blocks before block `k`.
pub open spec fn offset<T>(bs: Seq<Seq<T>>, k: int) -> int {
    bs.take(k).flatten().len() as int
}

proof fn lemma_flatten_around<T>(bs: Seq<Seq<T>>, k: int)
    requires
        0 <= k < bs.len(),
    ensures
        bs.flatten() == bs.take(k).flatten() + bs[k] + bs.skip(k + 1).flatten(),
{
    let one = seq![bs[k]];
    assert(bs =~= bs.take(k) + (one + bs.skip(k + 1)));
    lemma_flatten_concat(bs.take(k), one + bs.skip(k + 1));
    lemma_flatten_concat(one, bs.skip(k + 1));
    one.lemma_flatten_one_element();
}

/// Element `j` of block `k` stands at `offset(bs, k) + j` of the flattened blocks.
proof fn lemma_block_index<T>(bs: Seq<Seq<T>>, k: int, j: int)
    requires
        0 <= k < bs.len(),
        0 <= j < bs[k].len(),
    ensures
        offset(bs, k) + j < bs.flatten().len(),
        bs.flatten()[offset(bs, k) + j] == bs[k][j],
{
    lemma_flatten_around(bs, k);
}

/// Blocks before block `j` hold at least block `i` and all that precede it.
proof fn lemma_offset_grows<T>(bs: Seq<Seq<T>>, i: int, j: int)
    requires
        0 <= i < j <= bs.len(),
    ensures
        offset(bs, i) + bs[i].len() <= offset(bs, j),
        j == i + 1 ==> offset(bs, i) + bs[i].len() == offset(bs, j),
        j == bs.len() ==> offset(bs, j) == bs.flatten().len(),
{
    let pre = bs.take(j);
    lemma_flatten_around(pre, i);
    assert(pre.take(i) =~= bs.take(i));
    if j == i + 1 {
        assert(pre.skip(i + 1) =~= Seq::<Seq<T>>::empty());
        assert(pre.skip(i + 1).flatten() =~= Seq::<T>::empty());
    }
    if j == bs.len() {
        assert(pre =~= bs);
    }
}

/// Splitting block `k` at `m` into two neighbouring blocks leaves the elements as they were.
proof fn lemma_split_keeps<T>(bs: Seq<Seq<T>>, k: int, m: int)
    requires
        0 <= k < bs.len(),
        0 <= m <= bs[k].len(),
    ensures
        bs.update(k, bs[k].take(m)).insert(k + 1, bs[k].skip(m)).flatten() == bs.flatten(),
        bs.update(k, bs[k].take(m)).insert(k + 1, bs[k].skip(m)).take(k) == bs.take(k),
{
    let blk = bs[k];
    let nb = bs.update(k, blk.take(m)).insert(k + 1, blk.skip(m));
    assert(nb.take(k) =~= bs.take(k));
    assert(nb.skip(k + 1) =~= seq![blk.skip(m)] + bs.skip(k + 1));
    lemma_flatten_concat(seq![blk.skip(m)], bs.skip(k + 1));
    seq![blk.skip(m)].lemma_flatten_one_element();
    lemma_flatten_around(nb, k);
    lemma_flatten_around(bs, k);
    assert(blk.take(m) + blk.skip(m) =~= blk);
    assert(nb.flatten() =~= bs.flatten());
}

/// Adding `t` at `at` in block `k` adds it at `offset(bs, k) + at` of the flattened blocks.
proof fn lemma_insert_in_block<T>(bs: Seq<Seq<T>>, k: int, at: int, t: T)
    requires
        0 <= k < bs.len(),
        0 <= at <= bs[k].len(),
    ensures
        bs.update(k, bs[k].insert(at, t)).flatten() == bs.flatten().insert(offset(bs, k) + at, t),
{
    let nb = bs.update(k, bs[k].insert(at, t));
    lemma_flatten_around(nb, k);
    lemma_flatten_around(bs, k);
    assert(nb.take(k) =~= bs.take(k));
    assert(nb.skip(k + 1) =~= bs.skip(k + 1));
    assert(nb.flatten() =~= bs.flatten().insert(offset(bs, k) + at, t));
}

/// In strictly sorted flattened blocks, an element comes before every element that stands
/// after it, in a later block or later in its own.
proof fn lemma_blocks_ordered<T>(
    c: spec_fn(T, T) -> Ordering,
    bs: Seq<Seq<T>>,
    i: int,
    a: int,
    j: int,
    b: int,
)
    requires
        strictly_sorted(c, bs.flatten()),
        0 <= i <= j < bs.len(),
        0 <= a < bs[i].len(),
        0 <= b < bs[j].len(),
        i < j || a < b,
    ensures
        less(c, bs[i][a], bs[j][b]),
{
    lemma_block_index(bs, i, a);
    lemma_block_index(bs, j, b);
    if i < j {
        lemma_offset_grows(bs, i, j);
    }
    let f = bs.flatten();
    assert(f[offset(bs, i) + a] == bs[i][a]);
    assert(f[offset(bs, j) + b] == bs[j][b]);
}

/// Along ascending elements, the outcome of a comparison with a fixed `t` never steps back.
proof fn lemma_rank_follows<T>(c: spec_fn(T, T) -> Ordering, a: T, b: T, t: T)
    requires
        is_total_order(c),
        a == b || less(c, a, b),
    ensures
        rank(order_of(c, a, t)) <= rank(order_of(c, b, t)),
{
    reveal(is_total_order);
    if a != b {
        let oa = order_of(c, a, t);
        let ob = order_of(c, b, t);
        assert(order_of(c, b, a) == Ordering::Greater);
        assert(order_of(c, t, a) == Ordering::Less <==> oa == Ordering::Greater);
        assert(order_of(c, t, b) == Ordering::Less <==> ob == Ordering::Greater);
        assert(order_of(c, b, t) == Ordering::Less <==> order_of(c, t, b) == Ordering::Greater);
        assert(order_of(c, a, t) == Ordering::Less <==> order_of(c, t, a) == Ordering::Greater);
        if oa == Ordering::Greater && ob == Ordering::Less {
            assert(less(c, a, t));
        }
        if ob == Ordering::Equal {
            assert(order_of(c, b, a) == order_of(c, t, a));
        }
        if oa == Ordering::Equal {
            assert(order_of(c, a, b) == order_of(c, t, b));
        }
    }
}


/// Where the search over the heads gave `ib` and the search within the block before it (or the
/// first block) gave `pos`, every element before that place comes before `t`, and every other
/// one after it.
proof fn lemma_place_between<T>(
    c: spec_fn(T, T) -> Ordering,
    bs: Seq<Seq<T>>,
    t: T,
    ib: int,
    pos: int,
)
    requires
        is_total_order(c),
        strictly_sorted(c, bs.flatten()),
        forall|i: int| 0 <= i < bs.len() ==> 0 < #[trigger] bs[i].len(),
        0 <= ib <= bs.len(),
        bs.len() > 0,
        ib > 0 ==> order_of(c, bs[ib - 1][0], t) == Ordering::Less,
        ib < bs.len() ==> order_of(c, bs[ib][0], t) == Ordering::Greater,
        0 <= pos <= bs[if ib > 0 { ib - 1 } else { 0 }].len(),
        pos > 0 ==> order_of(c, bs[if ib > 0 { ib - 1 } else { 0 }][pos - 1], t) == Ordering::Less,
        pos < bs[if ib > 0 { ib - 1 } else { 0 }].len() ==> order_of(
            c,
            bs[if ib > 0 { ib - 1 } else { 0 }][pos],
            t,
        ) == Ordering::Greater,
    ensures
        0 <= offset(bs, if ib > 0 { ib - 1 } else { 0 }) + pos <= bs.flatten().len(),
        forall|i: int|
            0 <= i < offset(bs, if ib > 0 { ib - 1 } else { 0 }) + pos ==> less(
                c,
                #[trigger] bs.flatten()[i],
                t,
            ),
        forall|i: int|
            offset(bs, if ib > 0 { ib - 1 } else { 0 }) + pos <= i < bs.flatten().len() ==> less(
                c,
                t,
                #[trigger] bs.flatten()[i],
            ),
{
    let k = if ib > 0 { ib - 1 } else { 0 };
    let blk = bs[k];
    let flat = bs.flatten();
    let q = offset(bs, k) + pos;
    let idx_block = ib;
    reveal(is_total_order);
    lemma_block_index(bs, k, 0);
    if pos > 0 {
        lemma_block_index(bs, k, pos - 1);
        assert(order_of(c, blk[pos - 1], t) == Ordering::Less);
    } else {
        assert(order_of(c, blk[0], t) == Ordering::Greater);
        if k > 0 {
            lemma_offset_grows(bs, 0, k);
        }
        assert(offset(bs, 0) == 0) by {
            assert(bs.take(0) =~= Seq::<Seq<T>>::empty());
        }
    }
    if pos < blk.len() {
        lemma_block_index(bs, k, pos);
        assert(order_of(c, blk[pos], t) == Ordering::Greater);
        assert(less(c, t, flat[q]));
    } else {
        lemma_offset_grows(bs, k, k + 1);
        if k + 1 < bs.len() {
            if idx_block == 0 {
                assert(order_of(c, blk[pos - 1], t) == Ordering::Less);
                if pos - 1 > 0 {
                    lemma_blocks_ordered(c, bs, k, 0, k, pos - 1);
                }
                assert(false);
            }
            lemma_block_index(bs, k + 1, 0);
            assert(less(c, t, flat[q]));
        } else {
            lemma_offset_grows(bs, k, bs.len() as int);
        }
    }
    assert forall|i: int| 0 <= i < q implies less(c, #[trigger] flat[i], t) by {
        if i < q - 1 {
            assert(less(c, flat[i], flat[q - 1]));
        }
    }
    assert forall|i: int| q <= i < flat.len() implies less(c, t, #[trigger] flat[i]) by {
        if i > q {
            assert(less(c, flat[q], flat[i]));
        }
    }
}

/// After a split of block `k` at `m`, `t` compares `Greater` than the tail's first element
/// exactly where its place `pos` in the block lies past `m`.
proof fn lemma_route<T>(
    c: spec_fn(T, T) -> Ordering,
    bs: Seq<Seq<T>>,
    k: int,
    m: int,
    pos: int,
    t: T,
)
    requires
        is_total_order(c),
        strictly_sorted(c, bs.flatten()),
        0 <= k < bs.len(),
        0 <= m < bs[k].len(),
        0 <= pos <= bs[k].len(),
        pos > 0 ==> order_of(c, bs[k][pos - 1], t) == Ordering::Less,
        pos < bs[k].len() ==> order_of(c, bs[k][pos], t) == Ordering::Greater,
    ensures
        (order_of(c, t, bs[k][m]) == Ordering::Greater) == (pos > m),
{
    reveal(is_total_order);
    let blk = bs[k];
    if pos > m {
        if m < pos - 1 {
            lemma_blocks_ordered(c, bs, k, m, k, pos - 1);
        }
        assert(less(c, blk[m], t));
    } else {
        if pos < m {
            lemma_blocks_ordered(c, bs, k, pos, k, m);
        }
        assert(order_of(c, t, blk[pos]) == Ordering::Less);
        assert(less(c, t, blk[m]));
    }
}

/// The first element of each block.
pub open spec fn heads<T>(bs: Seq<Seq<T>>) -> Seq<T> {
    bs.map_values(|b: Seq<T>| b[0])
}

/// The number of leading elements of `s` that do not compare `Greater` than `t`: in a sorted
/// `s`, the position of the first element that comes after `t`.
pub open spec fn first_greater<T>(c: spec_fn(T, T) -> Ordering, s: Seq<T>, t: T) -> int
    decreases s.len(),
{
    if s.len() == 0 {
        0
    } else if order_of(c, s[0], t) == Ordering::Greater {
        0
    } else {
        1 + first_greater(c, s.drop_first(), t)
    }
}

/// The blocks after adding `t` to the blocks `bs` of capacity `cap`. Where an element `Equal`
/// to `t` is present, nothing changes. Otherwise the candidate block is the one before the
/// first block whose head comes after `t` (the first block where there is none before it).
/// A candidate with room gets `t` at its place. A full one is split into its first `cap / 2`
/// elements and the rest, which becomes the next block; `t` goes to that tail where it
/// compares `Greater` than the tail's first element, else to the front, each time at its place.
pub open spec fn insert_layout<T>(
    c: spec_fn(T, T) -> Ordering,
    cap: int,
    bs: Seq<Seq<T>>,
    t: T,
) -> Seq<Seq<T>> {
    if contains_equal(c, bs.flatten(), t) {
        bs
    } else if bs.len() == 0 {
        seq![seq![t]]
    } else {
        let ib = first_greater(c, heads(bs), t);
        let k = if ib > 0 { ib - 1 } else { 0 };
        let blk = bs[k];
        if blk.len() < cap {
            bs.update(k, blk.insert(first_greater(c, blk, t), t))
        } else {
            let front = blk.take(cap / 2);
            let tail = blk.skip(cap / 2);
            if order_of(c, t, tail[0]) == Ordering::Greater {
                bs.update(k, front).insert(k + 1, tail.insert(first_greater(c, tail, t), t))
            } else {
                bs.update(k, front.insert(first_greater(c, front, t), t)).insert(k + 1, tail)
            }
        }
    }
}

/// Where the first `n` elements of `s` do not come after `t` and the next one does, the first
/// element that comes after `t` is at `n`.
proof fn lemma_first_greater<T>(c: spec_fn(T, T) -> Ordering, s: Seq<T>, n: int, t: T)
    requires
        0 <= n <= s.len(),
        forall|i: int| 0 <= i < n ==> order_of(c, #[trigger] s[i], t) != Ordering::Greater,
        n < s.len() ==> order_of(c, s[n], t) == Ordering::Greater,
    ensures
        first_greater(c, s, t) == n,
    decreases s.len(),
{
    if s.len() > 0 && n > 0 {
        let rest = s.drop_first();
        assert(order_of(c, s[0], t) != Ordering::Greater);
        assert forall|i: int| 0 <= i < n - 1 implies order_of(c, #[trigger] rest[i], t)
            != Ordering::Greater by {
            assert(rest[i] == s[i + 1]);
        }
        if n - 1 < rest.len() {
            assert(rest[n - 1] == s[n]);
        }
        lemma_first_greater(c, rest, n - 1, t);
    }
}

/// With `t` absent, searched to block `ib` among the heads and to `pos` in the candidate
/// block, `insert_layout` is the layout that the insertion builds from `ib` and `pos`.
proof fn lemma_layout<T>(c: spec_fn(T, T) -> Ordering, cap: int, bs: Seq<Seq<T>>, t: T, ib: int, pos: int)
    requires
        is_total_order(c),
        strictly_sorted(c, bs.flatten()),
        !contains_equal(c, bs.flatten(), t),
        cap >= 2,
        forall|i: int| 0 <= i < bs.len() ==> 0 < #[trigger] bs[i].len() <= cap,
        0 <= ib <= bs.len(),
        bs.len() > 0,
        ib > 0 ==> order_of(c, bs[ib - 1][0], t) == Ordering::Less,
        ib < bs.len() ==> order_of(c, bs[ib][0], t) == Ordering::Greater,
        0 <= pos <= bs[if ib > 0 { ib - 1 } else { 0 }].len(),
        pos > 0 ==> order_of(c, bs[if ib > 0 { ib - 1 } else { 0 }][pos - 1], t) == Ordering::Less,
        pos < bs[if ib > 0 { ib - 1 } else { 0 }].len() ==> order_of(
            c,
            bs[if ib > 0 { ib - 1 } else { 0 }][pos],
            t,
        ) == Ordering::Greater,
    ensures
        ({
            let k = if ib > 0 { ib - 1 } else { 0 };
            let blk = bs[k];
            let m = cap / 2;
            insert_layout(c, cap, bs, t) == if blk.len() < cap {
                bs.update(k, blk.insert(pos, t))
            } else if pos > m {
                bs.update(k, blk.take(m)).insert(k + 1, blk.skip(m).insert(pos - m, t))
            } else {
                bs.update(k, blk.take(m).insert(pos, t)).insert(k + 1, blk.skip(m))
            }
        }),
{
    reveal(is_total_order);
    let k = if ib > 0 { ib - 1 } else { 0 };
    let blk = bs[k];
    let m = cap / 2;
    let flat = bs.flatten();
    lemma_place_between(c, bs, t, ib, pos);
    let q = offset(bs, k) + pos;
    let hs = heads(bs);
    assert forall|i: int| 0 <= i < pos implies order_of(c, #[trigger] blk[i], t) == Ordering::Less by {
        lemma_block_index(bs, k, i);
        assert(less(c, flat[offset(bs, k) + i], t));
    }
    if ib > 0 {
        assert(pos > 0);
    }
    assert forall|i: int| 0 <= i < ib implies order_of(c, #[trigger] hs[i], t) != Ordering::Greater by {
        lemma_block_index(bs, i, 0);
        if i < k {
            lemma_offset_grows(bs, i, k);
        }
        assert(less(c, flat[offset(bs, i)], t));
    }
    lemma_first_greater(c, hs, ib, t);
    lemma_first_greater(c, blk, pos, t);
    if blk.len() >= cap {
        let front = blk.take(m);
        let tail = blk.skip(m);
        lemma_route(c, bs, k, m, pos, t);
        if pos > m {
            assert forall|i: int| 0 <= i < pos - m implies order_of(c, #[trigger] tail[i], t)
                != Ordering::Greater by {
                assert(tail[i] == blk[m + i]);
            }
            lemma_first_greater(c, tail, pos - m, t);
        } else {
            assert forall|i: int| 0 <= i < pos implies order_of(c, #[trigger] front[i], t)
                != Ordering::Greater by {
                assert(front[i] == blk[i]);
            }
            lemma_first_greater(c, front, pos, t);
        }
    }
}

/// A sorted set of `T` under the comparator `C`, held as a sequence of blocks. Each block is
/// sorted, holds at least one and at most `capacity` elements, and every element of a block
/// comes before every element of the next.
#[verifier::reject_recursive_types(T)]
pub struct ArrayTree<T, C> where C: Fn(&T, &T) -> Ordering {
    comparator: C,
    ord: Ghost<spec_fn(T, T) -> Ordering>,
    data: Vec<Vec<T>>,
    capacity: u16,
    num_elements: usize,
}

impl<T: Copy, C: Fn(&T, &T) -> Ordering> View for ArrayTree<T, C> {
    type V = Seq<T>;

    /// All elements in ascending order: the blocks one after another.
    open spec fn view(&self) -> Seq<T> {
        self.blocks().flatten()
    }
}

impl<T: Copy, C: Fn(&T, &T) -> Ordering> ArrayTree<T, C> {
    /// The total order, agreed with by the comparator, that orders the elements.
    pub closed spec fn order(&self) -> spec_fn(T, T) -> Ordering {
        self.ord@
    }

    /// The comparator.
    pub closed spec fn comparator_spec(&self) -> C {
        self.comparator
    }

    /// The blocks, in order.
    pub closed spec fn blocks(&self) -> Seq<Seq<T>> {
        block_views(self.data@)
    }

    /// The largest number of elements a block holds between calls.
    pub closed spec fn cap(&self) -> int {
        self.capacity as int
    }

    /// The element count kept alongside the blocks.
    pub closed spec fn count(&self) -> int {
        self.num_elements as int
    }

    /// The structure's invariant.
    pub open spec fn wf(&self) -> bool {
        &&& agrees(self.comparator_spec(), self.order())
        &&& is_total_order(self.order())
        &&& self.cap() >= 2
        &&& forall|i: int|
            0 <= i < self.blocks().len() ==> 0 < #[trigger] self.blocks()[i].len() <= self.cap()
        &&& strictly_sorted(self.order(), self@)
        &&& self.count() == self@.len()
    }

    /// The count kept alongside the blocks is the number of elements, which is the sum of the
    /// blocks' lengths.
    pub proof fn lemma_count_consistent(&self)
        requires
            self.wf(),
        ensures
            self.count() == self@.len(),
            self@.len() == total_len(self.blocks()),
    {
        lemma_total_len(self.blocks());
    }

    /// The elements are the blocks one after another.
    pub proof fn lemma_view_is_blocks(&self)
        ensures
            self@ == self.blocks().flatten(),
    {
    }

    /// No block holds more than the capacity.
    pub proof fn lemma_blocks_bounded(&self)
        requires
            self.wf(),
        ensures
            forall|i: int| 0 <= i < self.blocks().len() ==> #[trigger] self.blocks()[i].len() <= self.cap(),
    {
    }

    /// An empty set ordered by `comparator`, which agrees with the total order `order`, whose
    /// blocks will hold up to `capacity` elements. A capacity of 1 is not accepted: splitting a
    /// full block of one element would leave an empty front block and a tail over capacity.
    pub fn new_with_order(
        comparator: C,
        order: Ghost<spec_fn(T, T) -> Ordering>,
        capacity: u16,
    ) -> (r: ArrayTree<T, C>)
        requires
            agrees(comparator, order@),
            is_total_order(order@),
            capacity >= 2,
        ensures
            r.wf(),
            r.order() == order@,
            r.comparator_spec() == comparator,
            r.cap() == capacity,
            r.blocks() == Seq::<Seq<T>>::empty(),
            r@ == Seq::<T>::empty(),
    {
        let data = Vec::with_capacity(capacity as usize);
        let r = ArrayTree { comparator, ord: order, data, capacity, num_elements: 0 };
        proof {
            assert(r.blocks() =~= Seq::<Seq<T>>::empty());
            assert(r@ =~= Seq::<T>::empty());
        }
        r
    }

    /// An empty set ordered by `comparator`, whose blocks will hold up to `capacity` elements;
    /// its order is a total order that the comparator agrees with. A capacity of 1 is not
    /// accepted (see `new_with_order`).
    pub fn new(comparator: C, capacity: u16) -> (r: ArrayTree<T, C>)
        requires
            is_comparator(comparator),
            capacity >= 2,
        ensures
            r.wf(),
            r.order() == chosen_order(comparator),
            r.comparator_spec() == comparator,
            r.cap() == capacity,
            r.blocks() == Seq::<Seq<T>>::empty(),
            r@ == Seq::<T>::empty(),
    {
        Self::new_with_order(comparator, Ghost(chosen_order(comparator)), capacity)
    }

    /// A set ordered by `comparator`, which agrees with the total order `order`, over the given
    /// blocks, where they meet the invariant:
    /// `capacity` at least 2, every block non-empty and within `capacity`, and all elements
    /// strictly ascending from block to block. `None` where they do not, or where the elements
    /// could not be counted in a `usize`.
    pub fn from_blocks_with_order(
        comparator: C,
        order: Ghost<spec_fn(T, T) -> Ordering>,
        capacity: u16,
        blocks: Vec<Vec<T>>,
    ) -> (r: Option<ArrayTree<T, C>>)
        requires
            agrees(comparator, order@),
            is_total_order(order@),
        ensures
            r.is_some() <==> ({
                &&& capacity >= 2
                &&& forall|i: int|
                    0 <= i < blocks@.len() ==> 0 < #[trigger] blocks@[i]@.len() <= capacity
                &&& strictly_sorted(order@, block_views(blocks@).flatten())
                &&& block_views(blocks@).flatten().len() <= usize::MAX
            }),
            r matches Some(t) ==> {
                &&& t.wf()
                &&& t.order() == order@
                &&& t.comparator_spec() == comparator
                &&& t.cap() == capacity
                &&& t.blocks() == block_views(blocks@)
            },
    {
        let ghost c = order@;
        let ghost bs = block_views(blocks@);
        let ghost flat = bs.flatten();
        if capacity < 2 {
            return None;
        }
        let mut n: usize = 0;
        let mut prev: Option<T> = None;
        let ghost mut seen: Seq<T> = Seq::empty();
        let mut b: usize = 0;
        proof {
            assert(bs.take(0) =~= Seq::<Seq<T>>::empty());
        }
        while b < blocks.len()
            invariant
                is_total_order(c),
                agrees(comparator, c),
                c == order@,
                bs == block_views(blocks@),
                flat == bs.flatten(),
                b <= bs.len(),
                forall|i: int| 0 <= i < b ==> 0 < #[trigger] bs[i].len() <= capacity,
                seen == bs.take(b as int).flatten(),
                strictly_sorted(c, seen),
                n == seen.len(),
                prev == if seen.len() > 0 { Some(seen.last()) } else { None::<T> },
            decreases bs.len() - b,
        {
            let block = &blocks[b];
            proof {
                assert(block@ == bs[b as int]);
                lemma_flatten_around(bs, b as int);
            }
            if block.len() == 0 || block.len() > capacity as usize {
                return None;
            }
            let mut j: usize = 0;
            while j < block.len()
                invariant
                    is_total_order(c),
                    agrees(comparator, c),
                    c == order@,
                c == order@,
                    bs == block_views(blocks@),
                    flat == bs.flatten(),
                    b < bs.len(),
                    block@ == bs[b as int],
                    flat == bs.take(b as int).flatten() + bs[b as int] + bs.skip(b + 1).flatten(),
                    j <= block@.len(),
                    seen == bs.take(b as int).flatten() + block@.take(j as int),
                    strictly_sorted(c, seen),
                    n == seen.len(),
                    prev == if seen.len() > 0 { Some(seen.last()) } else { None::<T> },
                decreases block@.len() - j,
            {
                let x = block[j];
                proof {
                    assert(flat[seen.len() as int] == x);
                    assert forall|m: int| 0 <= m < seen.len() implies flat[m] == seen[m] by {}
                }
                if let Some(p) = prev {
                    proof {
                        lemma_comparator_call(&comparator, c, p, x);
                    }
                    let o = (comparator)(&p, &x);
                    if !matches!(o, Ordering::Less) {
                        proof {
                            assert(o == order_of(c, p, x));
                            assert(flat[seen.len() - 1] == p);
                            assert(!less(c, flat[seen.len() - 1], flat[seen.len() as int]));
                        }
                        return None;
                    }
                }
                if n == usize::MAX {
                    proof {
                        assert(flat.len() >= seen.len() + 1);
                    }
                    return None;
                }
                proof {
                    reveal(is_total_order);
                    let s2 = seen.push(x);
                    assert forall|a: int, d: int| 0 <= a < d < s2.len() implies less(c, s2[a], s2[d]) by {
                        if d == seen.len() && a < seen.len() - 1 {
                            assert(less(c, seen[a], seen[seen.len() - 1]));
                        }
                    }
                    assert(block@.take(j + 1) =~= block@.take(j as int).push(x));
                    seen = s2;
                }
                prev = Some(x);
                n = n + 1;
                j = j + 1;
            }
            proof {
                assert(bs.take(b + 1) =~= bs.take(b as int).push(bs[b as int]));
                bs.take(b as int).lemma_flatten_push(bs[b as int]);
                assert(block@.take(j as int) =~= block@);
            }
            b = b + 1;
        }
        proof {
            assert(bs.take(bs.len() as int) =~= bs);
            assert forall|i: int| 0 <= i < blocks@.len() implies 0 < #[trigger] blocks@[i]@.len()
                <= capacity by {
                assert(bs[i] == blocks@[i]@);
            }
        }
        let t = ArrayTree { comparator, ord: order, data: blocks, capacity, num_elements: n };
        Some(t)
    }

    /// A set ordered by `comparator` over the given blocks, as `from_blocks_with_order` gives
    /// it for a total order that the comparator agrees with.
    pub fn from_blocks(comparator: C, capacity: u16, blocks: Vec<Vec<T>>) -> (r: Option<
        ArrayTree<T, C>,
    >)
        requires
            is_comparator(comparator),
        ensures
            r.is_some() <==> ({
                &&& capacity >= 2
                &&& forall|i: int|
                    0 <= i < blocks@.len() ==> 0 < #[trigger] blocks@[i]@.len() <= capacity
                &&& strictly_sorted(chosen_order(comparator), block_views(blocks@).flatten())
                &&& block_views(blocks@).flatten().len() <= usize::MAX
            }),
            r matches Some(t) ==> {
                &&& t.wf()
                &&& t.order() == chosen_order(comparator)
                &&& t.comparator_spec() == comparator
                &&& t.cap() == capacity
                &&& t.blocks() == block_views(blocks@)
            },
    {
        Self::from_blocks_with_order(comparator, Ghost(chosen_order(comparator)), capacity, blocks)
    }

    /// The blocks, in order, for inspecting the layout.
    pub fn layout(&self) -> (r: &Vec<Vec<T>>)
        ensures
            block_views(r@) == self.blocks(),
    {
        &self.data
    }

    /// The number of elements.
    pub fn len(&self) -> (r: usize)
        requires
            self.wf(),
        ensures
            r == self@.len(),
    {
        self.num_elements
    }

    /// Searches the blocks' first elements for `t`: `(i, true)` where block `i` starts with an
    /// element `Equal` to `t`, else `(i, false)` with `i` the first block that starts after `t`.
    fn search_heads(&self, t: &T) -> (r: (usize, bool))
        requires
            self.wf(),
            self.blocks().len() > 0,
        ensures
            r.1 ==> r.0 < self.blocks().len() && order_of(self.order(), self.blocks()[r.0 as int][0], *t)
                == Ordering::Equal,
            !r.1 ==> r.0 <= self.blocks().len(),
            !r.1 && r.0 > 0 ==> order_of(self.order(), self.blocks()[r.0 - 1][0], *t)
                == Ordering::Less,
            !r.1 && r.0 < self.blocks().len() ==> order_of(
                self.order(),
                self.blocks()[r.0 as int][0],
                *t,
            ) == Ordering::Greater,
    {
        let ghost c = self.ord@;
        let ghost bs = self.blocks();
        let cmp = &self.comparator;
        let ord = &self.ord;
        let head_cmp = |block: &Vec<T>| -> (o: Ordering)
            requires
                block@.len() > 0,
            ensures
                o == order_of((*ord)@, block@[0], *t),
            {
                proof {
                    lemma_comparator_call(cmp, (*ord)@, block@[0], *t);
                }
                cmp(&block[0], t)
            };
        proof {
            assert forall|i: int| 0 <= i < self.data@.len() implies #[trigger] call_requires(
                head_cmp,
                (&self.data@[i],),
            ) by {
                assert(bs[i] == self.data@[i]@);
            }
            assert forall|i: int, j: int, oi: Ordering, oj: Ordering|
                0 <= i <= j < self.data@.len() && #[trigger] call_ensures(
                    head_cmp,
                    (&self.data@[i],),
                    oi,
                ) && #[trigger] call_ensures(head_cmp, (&self.data@[j],), oj) implies rank(oi)
                <= rank(oj) by {
                assert(bs[i] == self.data@[i]@ && bs[j] == self.data@[j]@);
                if i < j {
                    lemma_blocks_ordered(c, bs, i, 0, j, 0);
                }
                lemma_rank_follows(c, bs[i][0], bs[j][0], *t);
            }
        }
        let r = binary_search_by(self.data.as_slice(), head_cmp);
        proof {
            if r.1 || r.0 < bs.len() {
                assert(bs[r.0 as int] == self.data@[r.0 as int]@);
            }
            if !r.1 && r.0 > 0 {
                assert(bs[r.0 - 1] == self.data@[r.0 - 1]@);
            }
        }
        r
    }

    /// Searches block `k` for `t`: `(p, true)` where its element `p` is `Equal` to `t`, else
    /// `(p, false)` with `p` the first of its elements that comes after `t`.
    fn search_block(&self, k: usize, t: &T) -> (r: (usize, bool))
        requires
            self.wf(),
            k < self.blocks().len(),
        ensures
            r.1 ==> r.0 < self.blocks()[k as int].len() && order_of(
                self.order(),
                self.blocks()[k as int][r.0 as int],
                *t,
            ) == Ordering::Equal,
            !r.1 ==> r.0 <= self.blocks()[k as int].len(),
            !r.1 && r.0 > 0 ==> order_of(self.order(), self.blocks()[k as int][r.0 - 1], *t)
                == Ordering::Less,
            !r.1 && r.0 < self.blocks()[k as int].len() ==> order_of(
                self.order(),
                self.blocks()[k as int][r.0 as int],
                *t,
            ) == Ordering::Greater,
    {
        let ghost c = self.ord@;
        let ghost bs = self.blocks();
        let ghost blk = bs[k as int];
        proof {
            assert(blk == self.data@[k as int]@);
        }
        let cmp = &self.comparator;
        let ord = &self.ord;
        let elem_cmp = |x: &T| -> (o: Ordering)
            ensures
                o == order_of((*ord)@, *x, *t),
            {
                proof {
                    lemma_comparator_call(cmp, (*ord)@, *x, *t);
                }
                cmp(x, t)
            };
        proof {
            assert forall|a: int, b: int, oa: Ordering, ob: Ordering|
                0 <= a <= b < blk.len() && #[trigger] call_ensures(elem_cmp, (&blk[a],), oa)
                    && #[trigger] call_ensures(elem_cmp, (&blk[b],), ob) implies rank(oa) <= rank(
                ob,
            ) by {
                if a < b {
                    lemma_blocks_ordered(c, bs, k as int, a, k as int, b);
                }
                lemma_rank_follows(c, blk[a], blk[b], *t);
            }
        }
        binary_search_by(self.data[k].as_slice(), elem_cmp)
    }

    /// Splits block `k` after its first `m` elements; the rest becomes block `k + 1`.
    fn split_block(&mut self, k: usize, m: usize)
        requires
            k < old(self).blocks().len(),
            m <= old(self).blocks()[k as int].len(),
        ensures
            final(self).blocks() == old(self).blocks().update(
                k as int,
                old(self).blocks()[k as int].take(m as int),
            ).insert(k + 1, old(self).blocks()[k as int].skip(m as int)),
            final(self).order() == old(self).order(),
            final(self).comparator_spec() == old(self).comparator_spec(),
            final(self).cap() == old(self).cap(),
            final(self).count() == old(self).count(),
    {
        let ghost bs = self.blocks();
        let block_tail = self.data[k].split_off(m);
        assert(k < self.data.len());
        self.data.insert(k + 1, block_tail);
        proof {
            assert(self.blocks() =~= bs.update(k as int, bs[k as int].take(m as int)).insert(
                k + 1,
                bs[k as int].skip(m as int),
            ));
        }
    }

    /// Puts `t` at position `at` of block `k`.
    fn insert_into_block(&mut self, k: usize, at: usize, t: T)
        requires
            k < old(self).blocks().len(),
            at <= old(self).blocks()[k as int].len(),
        ensures
            final(self).blocks() == old(self).blocks().update(
                k as int,
                old(self).blocks()[k as int].insert(at as int, t),
            ),
            final(self).order() == old(self).order(),
            final(self).comparator_spec() == old(self).comparator_spec(),
            final(self).cap() == old(self).cap(),
            final(self).count() == old(self).count(),
    {
        let ghost bs = self.blocks();
        if at < self.data[k].len() {
            self.data[k].insert(at, t);
        } else {
            self.data[k].push(t);
        }
        proof {
            assert(self.data@[k as int]@ =~= bs[k as int].insert(at as int, t));
            assert(self.blocks() =~= bs.update(k as int, bs[k as int].insert(at as int, t)));
        }
    }

    /// Adds `t` unless an element `Equal` to it is present; returns whether it was added.
    /// A full block that would receive `t` is first split in two.
    #[verifier::rlimit(100)]
    pub fn insert(&mut self, t: T) -> (r: bool)
        requires
            old(self).wf(),
            old(self)@.len() < usize::MAX,
        ensures
            final(self).wf(),
            final(self).order() == old(self).order(),
            final(self).comparator_spec() == old(self).comparator_spec(),
            final(self).cap() == old(self).cap(),
            r == !contains_equal(old(self).order(), old(self)@, t),
            final(self)@ == sorted_insert(old(self).order(), old(self)@, t),
            final(self).blocks() == insert_layout(
                old(self).order(),
                old(self).cap(),
                old(self).blocks(),
                t,
            ),
    {
        let ghost c = self.ord@;
        let ghost cap = self.cap();
        let ghost bs = self.blocks();
        let ghost flat = self@;
        if self.data.len() == 0 {
            let block = self.new_block(t);
            self.data.push(block);
            self.num_elements = 1;
            proof {
                assert(bs =~= Seq::<Seq<T>>::empty());
                assert(self.blocks() =~= seq![seq![t]]);
                seq![seq![t]].lemma_flatten_one_element();
                assert(self@ =~= seq![t]);
            }
            return true;
        }
        let (idx_block, equals) = self.search_heads(&t);
        if equals {
            proof {
                let i = idx_block as int;
                lemma_block_index(bs, i, 0);
                assert(order_of(c, flat[offset(bs, i)], t) == Ordering::Equal);
                lemma_sorted_insert_equal(c, flat, offset(bs, i), t);
            }
            return false;
        }
        // From "first block whose head is greater" to "last block whose head is smaller".
        let mut idx = if idx_block > 0 {
            idx_block - 1
        } else {
            0
        };
        let ghost k = idx as int;
        let ghost blk = bs[k];
        // This search alone decides whether `t` is present. It runs before any split, so a
        // rejected value leaves the blocks as they were.
        let (pos, equals) = self.search_block(idx, &t);
        if equals {
            proof {
                lemma_block_index(bs, k, pos as int);
                assert(order_of(c, flat[offset(bs, k) + pos], t) == Ordering::Equal);
                lemma_sorted_insert_equal(c, flat, offset(bs, k) + pos, t);
            }
            return false;
        }
        let ghost q = offset(bs, k) + pos;
        proof {
            if pos > 0 {
                assert(order_of(c, blk[pos - 1], t) == Ordering::Less);
            }
            if pos < blk.len() {
                assert(order_of(c, blk[pos as int], t) == Ordering::Greater);
            }
            lemma_place_between(c, bs, t, idx_block as int, pos as int);
            lemma_sorted_insert_at(c, flat, q, t);
            lemma_layout(c, cap, bs, t, idx_block as int, pos as int);
        }
        let mut at = pos;
        let ghost m = cap / 2;
        let ghost expected = if blk.len() < cap {
            bs.update(k, blk.insert(pos as int, t))
        } else if pos > m {
            bs.update(k, blk.take(m)).insert(k + 1, blk.skip(m).insert(pos - m, t))
        } else {
            bs.update(k, blk.take(m).insert(pos as int, t)).insert(k + 1, blk.skip(m))
        };
        if self.data[idx].len() >= self.capacity as usize {
            let tail_from = (self.capacity / 2) as usize;
            self.split_block(idx, tail_from);
            proof {
                lemma_split_keeps(bs, k, tail_from as int);
                lemma_route(c, bs, k, tail_from as int, pos as int, t);
                assert(self.blocks()[k + 1][0] == blk[tail_from as int]);
                assert(self.data@[k + 1]@ == self.blocks()[k + 1]);
            }
            // `t` goes to the tail where it comes after the tail's first element.
            let tail_head = self.data[idx + 1][0];
            proof {
                lemma_comparator_call(&self.comparator, c, t, tail_head);
            }
            let o = (self.comparator)(&t, &tail_head);
            if matches!(o, Ordering::Greater) {
                idx = idx + 1;
                at = pos - tail_from;
            }
        }
        let ghost bs2 = self.blocks();
        proof {
            if idx as int == k + 1 {
                lemma_offset_grows(bs2, k, k + 1);
            }
            assert(bs2.take(k) =~= bs.take(k));
        }
        self.insert_into_block(idx, at, t);
        self.num_elements = self.num_elements + 1;
        proof {
            let kk = idx as int;
            lemma_insert_in_block(bs2, kk, at as int, t);
            assert(self.blocks() =~= expected);
        }
        true
    }

    /// Calls `f` on every element in ascending order, with its rank among all elements,
    /// passing the value each call returns on to the next; returns what the last call gave.
    pub fn traverse<S, F: Fn(S, usize, &T) -> S>(&self, init: S, f: F) -> (r: S)
        requires
            self.wf(),
            forall|s: S, i: int| 0 <= i < self@.len() ==> #[trigger] call_requires(f, (s, i as usize, &self@[i])),
        ensures
            exists|states: Seq<S>|
                {
                    &&& states.len() == self@.len() + 1
                    &&& states[0] == init
                    &&& states.last() == r
                    &&& forall|i: int|
                        0 <= i < self@.len() ==> call_ensures(
                            f,
                            (states[i], i as usize, &self@[i]),
                            #[trigger] states[i + 1],
                        )
                },
    {
        let ghost bs = self.blocks();
        let ghost flat = self@;
        let ghost mut states: Seq<S> = seq![init];
        let mut acc = init;
        let mut i: usize = 0;
        let mut b: usize = 0;
        proof {
            assert(bs.take(0) =~= Seq::<Seq<T>>::empty());
        }
        while b < self.data.len()
            invariant
                self.wf(),
                bs == self.blocks(),
                flat == self@,
                forall|s: S, m: int| 0 <= m < flat.len() ==> #[trigger] call_requires(f, (s, m as usize, &flat[m])),
                b <= bs.len(),
                i == offset(bs, b as int),
                i <= flat.len(),
                states.len() == i + 1,
                states[0] == init,
                states.last() == acc,
                forall|m: int|
                    0 <= m < i ==> call_ensures(f, (states[m], m as usize, &flat[m]), #[trigger] states[m + 1]),
            decreases bs.len() - b,
        {
            let block = &self.data[b];
            proof {
                assert(block@ == bs[b as int]);
            }
            let mut j: usize = 0;
            while j < block.len()
                invariant
                    b < bs.len(),
                    block@ == bs[b as int],
                    forall|s: S, m: int| 0 <= m < flat.len() ==> #[trigger] call_requires(f, (s, m as usize, &flat[m])),
                    flat == bs.flatten(),
                    flat.len() <= usize::MAX,
                    j <= block@.len(),
                    i == offset(bs, b as int) + j,
                    i <= flat.len(),
                    states.len() == i + 1,
                    states[0] == init,
                    states.last() == acc,
                    forall|m: int|
                        0 <= m < i ==> call_ensures(f, (states[m], m as usize, &flat[m]), #[trigger] states[m + 1]),
                decreases block@.len() - j,
            {
                proof {
                    lemma_block_index(bs, b as int, j as int);
                    assert(flat[i as int] == block@[j as int]);
                    assert(call_requires(f, (acc, (i as int) as usize, &flat[i as int])));
                }
                acc = f(acc, i, &block[j]);
                proof {
                    states = states.push(acc);
                }
                i = i + 1;
                j = j + 1;
            }
            proof {
                lemma_offset_grows(bs, b as int, b + 1);
            }
            b = b + 1;
        }
        proof {
            assert(bs.take(bs.len() as int) =~= bs);
        }
        acc
    }

    /// All elements in ascending order.
    pub fn collect(&self) -> (r: Vec<T>)
        requires
            self.wf(),
        ensures
            r@ == self@,
    {
        let ghost bs = self.blocks();
        let ghost flat = self@;
        let mut data: Vec<T> = Vec::with_capacity(self.num_elements);
        let mut b: usize = 0;
        proof {
            assert(bs.take(0) =~= Seq::<Seq<T>>::empty());
        }
        while b < self.data.len()
            invariant
                bs == self.blocks(),
                flat == bs.flatten(),
                b <= bs.len(),
                data@ == bs.take(b as int).flatten(),
            decreases bs.len() - b,
        {
            let block = &self.data[b];
            proof {
                assert(block@ == bs[b as int]);
            }
            let mut j: usize = 0;
            while j < block.len()
                invariant
                    b < bs.len(),
                    block@ == bs[b as int],
                    j <= block@.len(),
                    data@ == bs.take(b as int).flatten() + block@.take(j as int),
                decreases block@.len() - j,
            {
                data.push(block[j]);
                proof {
                    assert(block@.take(j + 1) =~= block@.take(j as int).push(block@[j as int]));
                }
                j = j + 1;
            }
            proof {
                assert(bs.take(b + 1) =~= bs.take(b as int).push(bs[b as int]));
                bs.take(b as int).lemma_flatten_push(bs[b as int]);
                assert(block@.take(j as int) =~= block@);
            }
            b = b + 1;
        }
        proof {
            assert(bs.take(bs.len() as int) =~= bs);
        }
        data
    }

    fn new_block(&self, t: T) -> (r: Vec<T>)
        ensures
            r@ == seq![t],
    {
        let mut block = Vec::with_capacity(self.capacity as usize);
        block.push(t);
        block
    }
}

} // verus!
