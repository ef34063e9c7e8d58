//! The bounded heap, for every supported pair of value and index types.
use sp_matmul_rs::index::Index;
use sp_matmul_rs::maxheap::MaxHeap;
use sp_matmul_rs::scalar::Scalar;

#[derive(Clone, Copy, Debug, PartialEq, PartialOrd)]
struct F64(f64);

impl Scalar for F64 {
    const IS_FLOAT: bool = true;

    fn spec_zero() -> Self {
        Self::zero()
    }
    fn spec_min_value() -> Self {
        Self::min_value()
    }
    fn spec_limits_min() -> Self {
        Self::cpp_numeric_limits_min()
    }
    fn spec_plus(self, other: Self) -> Self {
        self.plus(other)
    }
    fn spec_times(self, other: Self) -> Self {
        self.times(other)
    }
    fn spec_mul_add(self, b: Self, acc: Self) -> Self {
        self.mul_add(b, acc)
    }
    fn spec_max(self, other: Self) -> Self {
        self.max(other)
    }
    fn spec_less(self, other: Self) -> bool {
        self.less(other)
    }
    fn spec_equals(self, other: Self) -> bool {
        self.equals(other)
    }
    fn ordered(self) -> bool {
        !self.0.is_nan()
    }
    fn lemma_less_ordered(_: Self, _: Self) {}
    fn lemma_less_transitive(_: Self, _: Self, _: Self) {}
    fn lemma_not_less_transitive(_: Self, _: Self, _: Self) {}
    fn lemma_max_exceeds(_: Self, _: Self, _: Self) {}
    fn lemma_constants() {}
    fn lemma_limit_ties(_: Self, _: Self) {}

    fn zero() -> Self {
        F64(0.0)
    }
    fn min_value() -> Self {
        F64(f64::NEG_INFINITY)
    }
    fn cpp_numeric_limits_min() -> Self {
        F64(f64::MIN_POSITIVE)
    }
    fn plus(self, other: Self) -> Self {
        F64(self.0 + other.0)
    }
    fn times(self, other: Self) -> Self {
        F64(self.0 * other.0)
    }
    fn mul_add(self, b: Self, acc: Self) -> Self {
        F64(self.0 * b.0 + acc.0)
    }
    fn max(self, other: Self) -> Self {
        F64(self.0.max(other.0))
    }
    fn less(self, other: Self) -> bool {
        self.0 < other.0
    }
    fn equals(self, other: Self) -> bool {
        self.0 == other.0
    }
}

#[derive(Clone, Copy, Debug, PartialEq, PartialOrd)]
struct F32(f32);

impl Scalar for F32 {
    const IS_FLOAT: bool = true;

    fn spec_zero() -> Self {
        Self::zero()
    }
    fn spec_min_value() -> Self {
        Self::min_value()
    }
    fn spec_limits_min() -> Self {
        Self::cpp_numeric_limits_min()
    }
    fn spec_plus(self, other: Self) -> Self {
        self.plus(other)
    }
    fn spec_times(self, other: Self) -> Self {
        self.times(other)
    }
    fn spec_mul_add(self, b: Self, acc: Self) -> Self {
        self.mul_add(b, acc)
    }
    fn spec_max(self, other: Self) -> Self {
        self.max(other)
    }
    fn spec_less(self, other: Self) -> bool {
        self.less(other)
    }
    fn spec_equals(self, other: Self) -> bool {
        self.equals(other)
    }
    fn ordered(self) -> bool {
        !self.0.is_nan()
    }
    fn lemma_less_ordered(_: Self, _: Self) {}
    fn lemma_less_transitive(_: Self, _: Self, _: Self) {}
    fn lemma_not_less_transitive(_: Self, _: Self, _: Self) {}
    fn lemma_max_exceeds(_: Self, _: Self, _: Self) {}
    fn lemma_constants() {}
    fn lemma_limit_ties(_: Self, _: Self) {}

    fn zero() -> Self {
        F32(0.0)
    }
    fn min_value() -> Self {
        F32(f32::NEG_INFINITY)
    }
    fn cpp_numeric_limits_min() -> Self {
        F32(f32::MIN_POSITIVE)
    }
    fn plus(self, other: Self) -> Self {
        F32(self.0 + other.0)
    }
    fn times(self, other: Self) -> Self {
        F32(self.0 * other.0)
    }
    fn mul_add(self, b: Self, acc: Self) -> Self {
        F32(self.0 * b.0 + acc.0)
    }
    fn max(self, other: Self) -> Self {
        F32(self.0.max(other.0))
    }
    fn less(self, other: Self) -> bool {
        self.0 < other.0
    }
    fn equals(self, other: Self) -> bool {
        self.0 == other.0
    }
}

/// Element types that hold small numbers exactly.
trait Small: Scalar {
    fn small(x: u8) -> Self;
    fn back(self) -> u8;
}

impl Small for F64 {
    fn small(x: u8) -> Self {
        F64(x as f64)
    }
    fn back(self) -> u8 {
        self.0 as u8
    }
}

impl Small for F32 {
    fn small(x: u8) -> Self {
        F32(x as f32)
    }
    fn back(self) -> u8 {
        self.0 as u8
    }
}

impl Small for i32 {
    fn small(x: u8) -> Self {
        x as i32
    }
    fn back(self) -> u8 {
        self as u8
    }
}

impl Small for i64 {
    fn small(x: u8) -> Self {
        x as i64
    }
    fn back(self) -> u8 {
        self as u8
    }
}

fn v<V: Small>(x: u8) -> V {
    V::small(x)
}

fn push_guarded<V: Small, I: Index>(heap: &mut MaxHeap<V, I>, min: &mut V, idx: usize, val: V) {
    if min.less(val) {
        *min = heap.push_pop(I::from_usize(idx), val);
    }
}

fn values<V: Small, I: Index>(heap: &MaxHeap<V, I>) -> Vec<u8> {
    heap.entries().iter().map(|s| s.val.back()).collect()
}

fn run_push_pop_orders_top_n<V: Small, I: Index>() {
    let mut heap = MaxHeap::<V, I>::new(3, v::<V>(0));
    let mut min = v::<V>(0);
    for (i, x) in [1u8, 5, 3, 8, 2, 7].iter().enumerate() {
        push_guarded(&mut heap, &mut min, i, v::<V>(*x));
    }
    heap.sort_by_value_desc();
    assert_eq!(values(&heap), vec![8, 7, 5]);
}

fn run_threshold_filters<V: Small, I: Index>() {
    let threshold = v::<V>(4);
    let mut heap = MaxHeap::<V, I>::new(3, threshold);
    let mut min = threshold;
    for (i, x) in [1u8, 5, 3].iter().enumerate() {
        push_guarded(&mut heap, &mut min, i, v::<V>(*x));
    }
    heap.sort_by_value_desc();
    assert_eq!(values(&heap), vec![5]);
}

fn run_insertion_order_sort_preserves_column_order<V: Small, I: Index>() {
    let mut heap = MaxHeap::<V, I>::new(3, v::<V>(0));
    let mut min = v::<V>(0);
    for (idx, val) in [(10usize, 5u8), (2, 3), (7, 8)].iter() {
        push_guarded(&mut heap, &mut min, *idx, v::<V>(*val));
    }
    heap.sort_by_insertion_order();
    let got: Vec<usize> = heap.entries().iter().map(|s| s.idx.to_usize()).collect();
    assert_eq!(got, vec![10, 2, 7]);
}

fn run_reset_clears_state<V: Small, I: Index>() {
    let mut heap = MaxHeap::<V, I>::new(2, v::<V>(0));
    let mut min = v::<V>(0);
    for (i, x) in [5u8, 3].iter().enumerate() {
        push_guarded(&mut heap, &mut min, i, v::<V>(*x));
    }
    heap.sort_by_value_desc();
    assert_eq!(heap.n_set(), 2);

    let returned_init = heap.reset();
    assert_eq!(heap.n_set(), 0);
    assert!(returned_init.equals(v::<V>(0)));

    let mut min2 = returned_init;
    for (i, x) in [9u8, 1, 7].iter().enumerate() {
        push_guarded(&mut heap, &mut min2, i + 100, v::<V>(*x));
    }
    heap.sort_by_value_desc();
    assert_eq!(values(&heap), vec![9, 7]);
}

fn run_capacity_one<V: Small, I: Index>() {
    let mut heap = MaxHeap::<V, I>::new(1, v::<V>(0));
    let mut min = v::<V>(0);
    for (i, x) in [3u8, 7, 5].iter().enumerate() {
        push_guarded(&mut heap, &mut min, i, v::<V>(*x));
    }
    heap.sort_by_value_desc();
    assert_eq!(values(&heap), vec![7]);
}

#[test]
fn push_pop_orders_top_n_f32_i32() {
    run_push_pop_orders_top_n::<F32, i32>();
}

#[test]
fn threshold_filters_f32_i32() {
    run_threshold_filters::<F32, i32>();
}

#[test]
fn insertion_order_sort_preserves_column_order_f32_i32() {
    run_insertion_order_sort_preserves_column_order::<F32, i32>();
}

#[test]
fn reset_clears_state_f32_i32() {
    run_reset_clears_state::<F32, i32>();
}

#[test]
fn capacity_one_f32_i32() {
    run_capacity_one::<F32, i32>();
}

#[test]
fn push_pop_orders_top_n_f32_i64() {
    run_push_pop_orders_top_n::<F32, i64>();
}

#[test]
fn threshold_filters_f32_i64() {
    run_threshold_filters::<F32, i64>();
}

#[test]
fn insertion_order_sort_preserves_column_order_f32_i64() {
    run_insertion_order_sort_preserves_column_order::<F32, i64>();
}

#[test]
fn reset_clears_state_f32_i64() {
    run_reset_clears_state::<F32, i64>();
}

#[test]
fn capacity_one_f32_i64() {
    run_capacity_one::<F32, i64>();
}

#[test]
fn push_pop_orders_top_n_f64_i32() {
    run_push_pop_orders_top_n::<F64, i32>();
}

#[test]
fn threshold_filters_f64_i32() {
    run_threshold_filters::<F64, i32>();
}

#[test]
fn insertion_order_sort_preserves_column_order_f64_i32() {
    run_insertion_order_sort_preserves_column_order::<F64, i32>();
}

#[test]
fn reset_clears_state_f64_i32() {
    run_reset_clears_state::<F64, i32>();
}

#[test]
fn capacity_one_f64_i32() {
    run_capacity_one::<F64, i32>();
}

#[test]
fn push_pop_orders_top_n_f64_i64() {
    run_push_pop_orders_top_n::<F64, i64>();
}

#[test]
fn threshold_filters_f64_i64() {
    run_threshold_filters::<F64, i64>();
}

#[test]
fn insertion_order_sort_preserves_column_order_f64_i64() {
    run_insertion_order_sort_preserves_column_order::<F64, i64>();
}

#[test]
fn reset_clears_state_f64_i64() {
    run_reset_clears_state::<F64, i64>();
}

#[test]
fn capacity_one_f64_i64() {
    run_capacity_one::<F64, i64>();
}

#[test]
fn push_pop_orders_top_n_i32_i32() {
    run_push_pop_orders_top_n::<i32, i32>();
}

#[test]
fn threshold_filters_i32_i32() {
    run_threshold_filters::<i32, i32>();
}

#[test]
fn insertion_order_sort_preserves_column_order_i32_i32() {
    run_insertion_order_sort_preserves_column_order::<i32, i32>();
}

#[test]
fn reset_clears_state_i32_i32() {
    run_reset_clears_state::<i32, i32>();
}

#[test]
fn capacity_one_i32_i32() {
    run_capacity_one::<i32, i32>();
}

#[test]
fn push_pop_orders_top_n_i32_i64() {
    run_push_pop_orders_top_n::<i32, i64>();
}

#[test]
fn threshold_filters_i32_i64() {
    run_threshold_filters::<i32, i64>();
}

#[test]
fn insertion_order_sort_preserves_column_order_i32_i64() {
    run_insertion_order_sort_preserves_column_order::<i32, i64>();
}

#[test]
fn reset_clears_state_i32_i64() {
    run_reset_clears_state::<i32, i64>();
}

#[test]
fn capacity_one_i32_i64() {
    run_capacity_one::<i32, i64>();
}

#[test]
fn push_pop_orders_top_n_i64_i32() {
    run_push_pop_orders_top_n::<i64, i32>();
}

#[test]
fn threshold_filters_i64_i32() {
    run_threshold_filters::<i64, i32>();
}

#[test]
fn insertion_order_sort_preserves_column_order_i64_i32() {
    run_insertion_order_sort_preserves_column_order::<i64, i32>();
}

#[test]
fn reset_clears_state_i64_i32() {
    run_reset_clears_state::<i64, i32>();
}

#[test]
fn capacity_one_i64_i32() {
    run_capacity_one::<i64, i32>();
}

#[test]
fn push_pop_orders_top_n_i64_i64() {
    run_push_pop_orders_top_n::<i64, i64>();
}

#[test]
fn threshold_filters_i64_i64() {
    run_threshold_filters::<i64, i64>();
}

#[test]
fn insertion_order_sort_preserves_column_order_i64_i64() {
    run_insertion_order_sort_preserves_column_order::<i64, i64>();
}

#[test]
fn reset_clears_state_i64_i64() {
    run_reset_clears_state::<i64, i64>();
}

#[test]
fn capacity_one_i64_i64() {
    run_capacity_one::<i64, i64>();
}

/// Equal values keep the order in which they came in, in both sort orders.
#[test]
fn ties_keep_insertion_order() {
    let mut heap = MaxHeap::<i32, i32>::new(3, 0);
    let mut min = 0;
    for idx in [4usize, 9, 6] {
        push_guarded(&mut heap, &mut min, idx, 5);
    }
    // Not above the minimum any more.
    push_guarded(&mut heap, &mut min, 1, 5);
    heap.sort_by_insertion_order();
    let by_order: Vec<i32> = heap.entries().iter().map(|s| s.idx).collect();
    assert_eq!(by_order, vec![4, 9, 6]);
    heap.sort_by_value_desc();
    let by_value: Vec<i32> = heap.entries().iter().map(|s| s.idx).collect();
    assert_eq!(by_value, vec![4, 9, 6]);
}

/// `push_pop` returns the new minimum.
#[test]
fn push_pop_returns_the_minimum() {
    let mut heap = MaxHeap::<i64, i32>::new(2, 0);
    assert_eq!(heap.push_pop(0, 4), 0);
    assert_eq!(heap.push_pop(1, 9), 4);
    assert_eq!(heap.push_pop(2, 6), 6);
    assert_eq!(heap.n_set(), 2);
}

/// After every guarded push the returned root is the smallest of the largest
/// `cap` values so far, copies of the threshold included, and never decreases.
#[test]
fn guarded_pushes_return_the_smallest_of_the_largest() {
    let offered = [4i32, 9, 1, 9, 3, 12, 5, 12, 8, 2, 10, 7];
    for cap in 1..=6usize {
        let threshold = 2i32;
        let mut heap = MaxHeap::<i32, i64>::new(cap, threshold);
        let mut min = threshold;
        let mut contenders = vec![threshold; cap];
        let mut pushed: Vec<(i64, i32)> = vec![];
        for (i, &val) in offered.iter().enumerate() {
            if val > min {
                let root = heap.push_pop(i as i64, val);
                assert!(root >= min);
                min = root;
                contenders.push(val);
                pushed.push((i as i64, val));
                contenders.sort();
                assert_eq!(root, contenders[contenders.len() - cap]);
                assert_eq!(heap.n_set(), pushed.len().min(cap));
            }
        }
        heap.sort_by_value_desc();
        let kept: Vec<i32> = heap.entries().iter().map(|s| s.val).collect();
        let mut largest: Vec<i32> = pushed.iter().map(|e| e.1).collect();
        largest.sort();
        largest.reverse();
        largest.truncate(cap);
        assert_eq!(kept, largest);
        for s in heap.entries() {
            assert!(pushed.contains(&(s.idx, s.val)));
        }
    }
}
