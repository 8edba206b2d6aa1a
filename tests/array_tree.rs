use std::cmp::Ordering;

use sorted_slot_array::binary_search_by;
use sorted_slot_array::ArrayTree;

fn int_comparator(a: &i32, b: &i32) -> Ordering {
    a.cmp(b)
}

fn new_array(capacity: u16, data: Vec<Vec<i32>>) -> ArrayTree<i32, fn(&i32, &i32) -> Ordering> {
    ArrayTree::from_blocks(int_comparator as fn(&i32, &i32) -> Ordering, capacity, data)
        .expect("blocks meet the invariant")
}

fn layout_of<C: Fn(&i32, &i32) -> Ordering>(at: &ArrayTree<i32, C>) -> Vec<Vec<i32>> {
    at.layout().clone()
}

/// A small deterministic generator for the property tests.
fn next(state: &mut u64) -> u64 {
    *state = state.wrapping_mul(6364136223846793005).wrapping_add(1442695040888963407);
    *state >> 33
}

#[test]
fn test_array_tree_prefers_push() {
    let mut at = new_array(16, vec![vec![1, 2], vec![4, 5]]);
    assert_eq!(at.len(), 4);
    at.insert(3);
    assert_eq!(layout_of(&at), [vec![1, 2, 3], vec![4, 5]]);
    assert_eq!(at.len(), 5);
}

#[test]
fn test_array_no_index_hiccup() {
    let mut at = new_array(8, vec![vec![2], vec![4], vec![6, 8]]);
    at.insert(7);
    assert_eq!(layout_of(&at), [vec![2], vec![4], vec![6, 7, 8]]);
}

#[test]
fn test_array_tree_split() {
    let mut at = new_array(2, vec![vec![2, 4], vec![6, 8]]);
    assert_eq!(at.len(), 4);
    at.insert(1);
    assert_eq!(layout_of(&at), [vec![1, 2], vec![4], vec![6, 8]]);
    assert_eq!(at.len(), 5);

    let mut at = new_array(2, vec![vec![2, 4], vec![6, 8]]);
    assert_eq!(at.len(), 4);
    at.insert(3);
    assert_eq!(layout_of(&at), [vec![2, 3], vec![4], vec![6, 8]]);
    assert_eq!(at.len(), 5);

    let mut at = new_array(2, vec![vec![2, 4], vec![6, 8]]);
    assert_eq!(at.len(), 4);
    at.insert(5);
    assert_eq!(layout_of(&at), [vec![2], vec![4, 5], vec![6, 8]]);
    assert_eq!(at.len(), 5);

    let mut at = new_array(2, vec![vec![2, 4], vec![6, 8]]);
    assert_eq!(at.len(), 4);
    at.insert(7);
    assert_eq!(layout_of(&at), [vec![2, 4], vec![6, 7], vec![8]]);
    assert_eq!(at.len(), 5);

    let mut at = new_array(2, vec![vec![2, 4], vec![6, 8]]);
    assert_eq!(at.len(), 4);
    at.insert(9);
    assert_eq!(layout_of(&at), [vec![2, 4], vec![6], vec![8, 9]]);
    assert_eq!(at.len(), 5);
}

#[test]
fn test_array_tree_collect() {
    for cap in vec![2, 3, 4, 5] {
        let mut at = ArrayTree::new(int_comparator, cap as u16);
        for x in [1, 2, 3, 4].iter() {
            at.insert(*x);
        }
        assert_eq!(at.collect(), [1, 2, 3, 4]);

        let mut at = ArrayTree::new(int_comparator, cap as u16);
        for x in [1, 2, 3, 4].iter() {
            at.insert(*x);
        }
        assert_eq!(at.collect(), [1, 2, 3, 4]);
    }
}

#[test]
fn test_failing() {
    let mut at = ArrayTree::new(|a: &f64, b: &f64| a.partial_cmp(b).unwrap(), 16);
    let vals = vec![0.6994135560499647, 0.15138991083383901, 0.17989509662598502, 0.22855960374503625, 0.7394173591733456, 0.8606810583068278, 0.025843624735059523, 0.1416162372765526, 0.9789425643425963, 0.6312677864630949, 0.34678659888024466, 0.7876614416763924, 0.6260871506068197, 0.34733559592131624, 0.5722923635764159, 0.14416998787798063, 0.839158671060864, 0.2621428817535354, 0.9334439919690996, 0.016414089291711065, 0.8795903741012259, 0.051958655798298614, 0.8313985552845266, 0.026928982020677505, 0.779969564116276, 0.6437306675337413, 0.03822809941255523, 0.777911020749552, 0.4639770428538855, 0.7039388191038694, 0.31363729764551374, 0.8111651227165783, 0.5174339383176408, 0.49384841003283086, 0.5214549475595969, 0.0823716635367353, 0.7310183483079477, 0.6196297749276181, 0.6226877845880779, 0.8987550167723078, 0.9536731852226494, 0.2719858776118911, 0.837006810218081, 0.7570466272336563, 0.9649096907962248, 0.09547804495341239, 0.26299769639555115, 0.6883529379785718, 0.23545125345269502, 0.5611223421257663, 0.81145380876482, 0.7821846165410649, 0.8385374221326543, 0.2287909449815878, 0.9938012642875733, 0.30515950398348823, 0.021945251189301795, 0.7456118789178752, 0.24917873250483202, 0.19461925257672297, 0.08596890658908873, 0.8208413553993631, 0.2799020116906893, 0.622583855342935, 0.3406868767224045, 0.7125811318179431, 0.8171813899535424, 0.9875530622413784, 0.8124194427320398, 0.27890169087536465, 0.4582999489551358, 0.8170130026270258, 0.1116683852975886, 0.9523649049789342, 0.1626401579175366, 0.7006463636943299, 0.5396656897339597, 0.73824000529768, 0.8975902131523751, 0.3138666758196337, 0.959190654990596, 0.6786382471256971, 0.8807317907186307, 0.9923109213923168, 0.7704353170122445, 0.20331717853087872, 0.9191784945915048, 0.3458975102965529, 0.44567705127366397, 0.08758863415076357, 0.8940937525362007, 0.2046747373689708, 0.1540080303289173, 0.8088614347095653, 0.09821866105193844, 0.050284880746519045, 0.9585396829998039, 0.35100273069739263, 0.8263845327940142, 0.6305932414080216];
    for (i, x) in vals.iter().enumerate() {
        at.insert(*x);
        let mut expected = vals[0..i + 1].to_vec();
        expected.sort_by(|a, b| a.partial_cmp(b).unwrap());
        assert_eq!(at.collect(), expected);
    }
}

#[test]
fn first_insert_counts_one() {
    let mut at = ArrayTree::new(int_comparator, 4);
    assert_eq!(at.len(), 0);
    assert!(at.insert(10));
    assert_eq!(at.len(), 1);
    assert_eq!(layout_of(&at), [vec![10]]);
}

#[test]
fn duplicates_are_rejected() {
    let mut at = ArrayTree::new(int_comparator, 3);
    for x in [5, 1, 9, 3, 7] {
        assert!(at.insert(x));
    }
    let before = at.collect();
    for x in [5, 1, 9, 3, 7] {
        assert!(!at.insert(x));
        assert_eq!(at.len(), 5);
        assert_eq!(at.collect(), before);
    }
}

#[test]
fn duplicate_at_split_boundary_is_rejected() {
    // The value equals the element that would start the tail half of a full block.
    let mut at = new_array(2, vec![vec![2, 4]]);
    assert!(!at.insert(4));
    assert_eq!(at.collect(), [2, 4]);
    assert_eq!(at.len(), 2);

    let mut at = new_array(3, vec![vec![2, 4, 6]]);
    assert!(!at.insert(4));
    assert!(!at.insert(6));
    assert_eq!(at.collect(), [2, 4, 6]);
    assert_eq!(layout_of(&at), [vec![2, 4, 6]]);
    assert_eq!(at.len(), 3);
}

#[test]
fn duplicate_of_a_block_head_is_rejected() {
    let mut at = new_array(2, vec![vec![2, 4], vec![6, 8]]);
    assert!(!at.insert(6));
    assert_eq!(layout_of(&at), [vec![2, 4], vec![6, 8]]);
}

#[test]
fn random_inserts_keep_a_sorted_set() {
    for cap in [2u16, 3, 4, 5, 8, 16] {
        let mut state: u64 = 7 + cap as u64;
        let mut at = ArrayTree::new(int_comparator, cap);
        let mut inserted: Vec<i32> = Vec::new();
        for _ in 0..300 {
            let x = (next(&mut state) % 200) as i32;
            let fresh = !inserted.contains(&x);
            assert_eq!(at.insert(x), fresh);
            if fresh {
                inserted.push(x);
            }
            let mut expected = inserted.clone();
            expected.sort();
            let got = at.collect();
            assert_eq!(got, expected);
            assert!(got.windows(2).all(|w| w[0] < w[1]));
            assert_eq!(at.len(), got.len());
            let layout = layout_of(&at);
            assert_eq!(layout.iter().map(|b| b.len()).sum::<usize>(), at.len());
            assert!(layout.iter().all(|b| !b.is_empty() && b.len() <= cap as usize));
        }
    }
}

#[test]
fn search_matches_linear_scan() {
    for n in 0..20i32 {
        let data: Vec<i32> = (0..n).map(|i| 2 * i + 1).collect();
        for target in -1..(2 * n + 2) {
            let (idx, found) = binary_search_by(&data, |x: &i32| x.cmp(&target));
            let linear = data.iter().position(|x| *x >= target).unwrap_or(data.len());
            let present = data.contains(&target);
            assert_eq!(found, present);
            assert_eq!(idx, linear);
        }
    }
}

#[test]
fn search_on_empty_gives_zero() {
    let data: Vec<u8> = Vec::new();
    assert_eq!(binary_search_by(&data, |x: &u8| x.cmp(&3)), (0, false));
}

#[test]
fn from_blocks_refuses_broken_layouts() {
    let c = int_comparator as fn(&i32, &i32) -> Ordering;
    assert!(ArrayTree::from_blocks(c, 1, vec![vec![1]]).is_none());
    assert!(ArrayTree::from_blocks(c, 2, vec![vec![1], vec![]]).is_none());
    assert!(ArrayTree::from_blocks(c, 2, vec![vec![1, 2, 3]]).is_none());
    assert!(ArrayTree::from_blocks(c, 4, vec![vec![1, 3], vec![2]]).is_none());
    assert!(ArrayTree::from_blocks(c, 4, vec![vec![1, 1]]).is_none());
    assert!(ArrayTree::from_blocks(c, 4, vec![vec![3, 1]]).is_none());
    let at = ArrayTree::from_blocks(c, 4, vec![vec![1, 2], vec![5]]).unwrap();
    assert_eq!(at.len(), 3);
    assert_eq!(at.collect(), [1, 2, 5]);
}

#[test]
fn traverse_visits_in_order_with_ranks() {
    let at = new_array(3, vec![vec![1, 4], vec![6, 7, 9], vec![12]]);
    let seen = at.traverse(Vec::new(), |mut acc: Vec<(usize, i32)>, i: usize, x: &i32| {
        acc.push((i, *x));
        acc
    });
    assert_eq!(seen, [(0, 1), (1, 4), (2, 6), (3, 7), (4, 9), (5, 12)]);
    let sum = at.traverse(0i64, |acc: i64, _i: usize, x: &i32| acc + *x as i64);
    assert_eq!(sum, 39);
}
