use marchrs::multi_dims::MultiDims;
use marchrs::multi_range::{MultiRangeIter, ParIter, Splittable};

fn collect_forward(mut iter: MultiRangeIter<2>) -> Vec<[usize; 2]> {
    let mut out = Vec::new();
    while let Some(idx) = iter.next() {
        out.push(idx);
    }
    out
}

#[test]
fn split_iter_0() {
    let iter = MultiRangeIter::new(MultiDims([1, 1, 1]));
    let (iter0, iter1) = iter.split_at(0);
    let len = iter.len();
    let len0 = iter0.len();
    assert_eq!(len0, 0);
    let len1 = iter1.len();
    assert_eq!(len0 + len1, len);
}

#[test]
fn flat_index_round_trip() {
    let dims = MultiDims([3, 4, 5]);
    for flat in 0..dims.len() {
        assert_eq!(dims.into_flat(dims.from_flat(flat)), flat);
    }
}

#[test]
fn from_flat_digits() {
    let dims = MultiDims([3, 4, 5]);
    assert_eq!(dims.from_flat(23), [2, 3, 1]);
    assert_eq!(dims.into_flat([2, 3, 1]), 23);
    assert_eq!(dims.from_flat(60), [0, 0, 0]);
}

#[test]
fn len_and_emptiness() {
    assert_eq!(MultiDims([3, 4, 5]).len(), 60);
    assert!(!MultiDims([3, 4, 5]).is_empty());
    assert!(MultiDims([3, 0, 5]).is_empty());
    assert_eq!(MultiDims([3, 0, 5]).len(), 0);
}

#[test]
fn min_and_max() {
    let dims = MultiDims([3, 4, 5]);
    assert_eq!(dims.min(), [0, 0, 0]);
    assert_eq!(dims.max(), [2, 3, 4]);
    assert_eq!(dims.into_flat(dims.max()), 59);
}

#[test]
fn increment_carries_and_wraps() {
    let dims = MultiDims([3, 4, 5]);
    assert_eq!(dims.increment([2, 3, 1]), [0, 0, 2]);
    assert_eq!(dims.increment([0, 0, 0]), [1, 0, 0]);
    assert_eq!(dims.increment([2, 3, 4]), [0, 0, 0]);
    for flat in 0..dims.len() - 1 {
        let next = dims.increment(dims.from_flat(flat));
        assert_eq!(dims.into_flat(next), flat + 1);
    }
}

#[test]
fn increment_is_adding_one() {
    let dims = MultiDims([3, 4, 5]);
    let one = dims.from_flat(1);
    for flat in 0..dims.len() {
        let multi = dims.from_flat(flat);
        assert_eq!(dims.increment(multi), dims.add(multi, one));
    }
}

#[test]
fn decrement_borrows_and_wraps() {
    let dims = MultiDims([3, 4, 5]);
    assert_eq!(dims.decrement([0, 0, 2]), [2, 3, 1]);
    assert_eq!(dims.decrement([0, 0, 0]), [2, 3, 4]);
    for flat in 1..dims.len() {
        let prev = dims.decrement(dims.from_flat(flat));
        assert_eq!(dims.into_flat(prev), flat - 1);
    }
}

#[test]
fn add_identity_and_wrap() {
    let dims = MultiDims([3, 4, 5]);
    for flat in 0..dims.len() {
        let multi = dims.from_flat(flat);
        assert_eq!(dims.add([0; 3], multi), multi);
    }
    assert_eq!(dims.add([2, 3, 1], [1, 0, 0]), [0, 0, 2]);
    assert_eq!(dims.add([2, 3, 4], [2, 0, 0]), [1, 0, 0]);
}

#[test]
fn sub_undoes_add() {
    let dims = MultiDims([7, 11]);
    for flat0 in 0..dims.len() {
        for flat1 in 0..dims.len() - flat0 {
            let multi0 = dims.from_flat(flat0);
            let multi1 = dims.from_flat(flat1);
            let sum = dims.add(multi0, multi1);
            assert_eq!(dims.sub(sum, multi1), multi0);
        }
    }
}

#[test]
fn sub_borrows_across_three_digits() {
    let dims = MultiDims([10, 10, 10]);
    assert_eq!(dims.sub([0, 5, 5], [1, 0, 0]), [9, 4, 5]);
    assert_eq!(dims.sub([0, 0, 0], [1, 0, 0]), [9, 9, 9]);
    assert_eq!(dims.sub([0, 1, 0], [9, 0, 0]), [1, 0, 0]);
}

#[test]
fn range_walks_first_axis_fastest() {
    let iter = MultiRangeIter::new(MultiDims([2, 3]));
    assert_eq!(iter.len(), 6);
    assert!(!iter.is_empty());
    assert_eq!(
        collect_forward(iter),
        vec![[0, 0], [1, 0], [0, 1], [1, 1], [0, 2], [1, 2]]
    );
}

#[test]
fn range_walks_backwards() {
    let mut iter = MultiRangeIter::new(MultiDims([2, 3]));
    let mut out = Vec::new();
    while let Some(idx) = iter.next_back() {
        out.push(idx);
    }
    assert_eq!(out, vec![[1, 2], [0, 2], [1, 1], [0, 1], [1, 0], [0, 0]]);
    assert!(iter.is_empty());
    assert_eq!(iter.len(), 0);
}

#[test]
fn split_keeps_every_index_once() {
    let iter = MultiRangeIter::new(MultiDims([2, 3]));
    let all = collect_forward(iter);
    for index in 0..=iter.len() {
        let (first, second) = iter.split_at(index);
        assert_eq!(first.len(), index);
        assert_eq!(second.len(), iter.len() - index);
        let mut joined = collect_forward(first);
        joined.extend(collect_forward(second));
        assert_eq!(joined, all);
    }
}

#[test]
fn split_of_a_split() {
    let iter = MultiRangeIter::new(MultiDims([4, 5]));
    let (_, rest) = iter.split_at(7);
    let (mid, tail) = rest.split_at(5);
    assert_eq!(collect_forward(mid), vec![[3, 1], [0, 2], [1, 2], [2, 2], [3, 2]]);
    assert_eq!(tail.len(), 8);
}

#[test]
fn par_iter_splits_its_inner_range() {
    let par = ParIter(MultiRangeIter::new(MultiDims([3, 3])));
    let (a, b) = par.split_at(4);
    assert_eq!(a.0.len(), 4);
    assert_eq!(b.0.len(), 5);
    assert_eq!(collect_forward(b.0)[0], [1, 1]);
}

