use ordered_float::NotNan;
use quickcheck::{quickcheck, TestResult};
use radix_heap::{F32Key, Radix, RadixHeapMap};
use std::cmp::Reverse;

fn heap_of<T: Radix + Copy, V>(items: Vec<(T, V)>) -> RadixHeapMap<T, V> {
    let mut heap = RadixHeapMap::new();
    for (k, v) in items {
        heap.push(k, v);
    }
    heap
}

fn sort_prop<T: Ord + Radix + Copy>(mut xs: Vec<T>) -> bool {
    let mut heap: RadixHeapMap<_, _> = heap_of(xs.iter().enumerate().map(|(i, &d)| (d, i)).collect());

    xs.sort();

    while xs.pop() == heap.pop().map(|(k, _)| k) {
        if xs.is_empty() {
            return true;
        }
    }

    return false;
}

fn float_sort_prop(xs: Vec<f32>) -> TestResult {
    if xs.iter().any(|x| x.is_nan()) {
        return TestResult::discard();
    }

    let mut xs: Vec<_> = xs
        .into_iter()
        .map(|x| NotNan::new(x).unwrap())
        .collect();
    xs.sort();

    let mut heap: RadixHeapMap<_, _> = heap_of(
        xs.iter()
            .enumerate()
            .map(|(i, &d)| (F32Key::from_bits(d.into_inner().to_bits()), i))
            .collect(),
    );

    while xs.pop()
        == heap
            .pop()
            .map(|(k, _)| NotNan::new(f32::from_bits(k.to_bits())).unwrap())
    {
        if xs.is_empty() {
            return TestResult::passed();
        }
    }

    return TestResult::failed();
}

fn iter_prop<T: Ord + Radix + Copy>(mut xs: Vec<T>) -> TestResult {
    let heap = heap_of(xs.iter().map(|&d| (d, ())).collect());

    // Check that the iterator yields all elements inside the heap
    for (k, ()) in heap.iter() {
        for i in 0..xs.len() {
            if xs[i] == *k {
                xs.remove(i);
                break;
            }
        }
    }

    if xs.is_empty() {
        TestResult::passed()
    } else {
        TestResult::failed()
    }
}

#[test]
fn radix_dist() {
    assert!(4u32.radix_distance(&2) == 3);
    assert!(3u32.radix_distance(&2) == 1);
    assert!(2u32.radix_distance(&2) == 0);
    assert!(1u32.radix_distance(&2) == 2);
    assert!(0u32.radix_distance(&2) == 2);
}

#[test]
fn clear() {
    let mut heap = RadixHeapMap::new();
    heap.push(0u32, 'a');
    heap.clear();
    assert!(heap.pop().is_none());
}

#[test]
fn push_pop() {
    let mut heap = RadixHeapMap::new();
    heap.push(0u32, 'a');
    heap.push(3, 'b');
    heap.push(2, 'c');

    assert!(heap.len() == 3);
    assert!(!heap.is_empty());

    assert!(heap.pop() == Some((3, 'b')));
    assert!(heap.pop() == Some((2, 'c')));
    assert!(heap.pop() == Some((0, 'a')));
    assert!(heap.pop() == None);

    assert!(heap.len() == 0);
    assert!(heap.is_empty());
}

#[test]
fn rev_push_pop() {
    let mut heap = RadixHeapMap::new();
    heap.push(Reverse(0), 'a');
    heap.push(Reverse(3), 'b');
    heap.push(Reverse(2), 'c');

    assert!(heap.len() == 3);
    assert!(!heap.is_empty());

    assert!(heap.pop() == Some((Reverse(0), 'a')));
    assert!(heap.pop() == Some((Reverse(2), 'c')));
    assert!(heap.pop() == Some((Reverse(3), 'b')));
    assert!(heap.pop() == None);

    assert!(heap.len() == 0);
    assert!(heap.is_empty());
}

#[test]
fn sort() {
    quickcheck(sort_prop as fn(Vec<()>) -> bool);
    quickcheck(sort_prop as fn(Vec<u32>) -> bool);
    quickcheck(sort_prop as fn(Vec<i32>) -> bool);
    quickcheck(sort_prop as fn(Vec<(u32, i32)>) -> bool);
    quickcheck(sort_prop as fn(Vec<u8>) -> bool);
    quickcheck(sort_prop as fn(Vec<i16>) -> bool);
    quickcheck(sort_prop as fn(Vec<(i64, usize)>) -> bool);
    quickcheck(sort_prop as fn(Vec<i128>) -> bool);
    quickcheck(sort_prop as fn(Vec<u128>) -> bool);
}

#[test]
fn sort_float() {
    quickcheck(float_sort_prop as fn(Vec<f32>) -> TestResult);
}

#[test]
fn iter_yeilds_all_elements() {
    quickcheck(iter_prop as fn(Vec<u32>) -> TestResult);
    quickcheck(iter_prop as fn(Vec<i32>) -> TestResult);
    quickcheck(iter_prop as fn(Vec<(u32, i32)>) -> TestResult);
    quickcheck(iter_prop as fn(Vec<u8>) -> TestResult);
    quickcheck(iter_prop as fn(Vec<i16>) -> TestResult);
    quickcheck(iter_prop as fn(Vec<(i64, usize)>) -> TestResult);
}

#[test]
fn into_iter_inital() {
    let mut heap = RadixHeapMap::new();
    heap.push(1, 2);
    heap.push(5, 2);

    let mut vec: Vec<_> = heap.into_iter().collect();
    vec.sort();
    assert_eq!(vec, vec![(1, 2), (5, 2)]);
}

#[test]
fn into_iter() {
    let mut heap = RadixHeapMap::new();
    heap.push(1, 2);
    heap.push(5, 4);
    heap.push(7, 1);

    assert_eq!(Some((7, 1)), heap.pop());

    let mut vec: Vec<_> = heap.into_iter().collect();
    vec.sort();
    assert_eq!(vec, vec![(1, 2), (5, 4)]);
}

#[test]
fn peek() {
    let mut heap = RadixHeapMap::new();
    heap.push(1, 2);
    heap.push(5, 4);
    heap.push(7, 1);

    assert_eq!(Some(&(7, 1)), heap.peek());
    assert_eq!(Some(&(7, 1)), heap.peek());
    assert_eq!(Some((7, 1)), heap.pop());
    assert_eq!(Some(&(5, 4)), heap.peek());
    assert_eq!(Some((5, 4)), heap.pop());
    assert_eq!(Some(&(1, 2)), heap.peek());
    assert_eq!(Some((1, 2)), heap.pop());
    assert_eq!(None, heap.peek());
    assert_eq!(None, heap.pop());
}
