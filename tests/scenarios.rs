use radix_heap::{F32Key, F64Key, OutOfOrderKey, Radix, RadixHeapMap};
use std::cmp::Reverse;
use std::num::Wrapping;

#[test]
fn unset_top_pops_in_descending_order() {
    let mut heap = RadixHeapMap::new();
    heap.push(7u32, 'a');
    heap.push(2, 'b');
    heap.push(9, 'c');
    assert_eq!(heap.top(), None);
    assert_eq!(heap.pop(), Some((9, 'c')));
    assert_eq!(heap.top(), Some(9));
    assert_eq!(heap.pop(), Some((7, 'a')));
    assert_eq!(heap.top(), Some(7));
    assert_eq!(heap.pop(), Some((2, 'b')));
    assert_eq!(heap.top(), Some(2));
    assert_eq!(heap.pop(), None);
}

#[test]
fn fixed_top_then_rejects_key_above_new_top() {
    let mut heap = RadixHeapMap::new_at(100u32);
    assert_eq!(heap.top(), Some(100));
    heap.push(50, "x");
    assert_eq!(heap.pop(), Some((50, "x")));
    assert_eq!(heap.top(), Some(50));
    assert_eq!(heap.try_push(60, "y"), Err(OutOfOrderKey));
    assert_eq!(heap.len(), 0);
    assert_eq!(heap.top(), Some(50));
    assert_eq!(heap.pop(), None);
}

#[test]
fn rejected_push_keeps_contents() {
    let mut heap = RadixHeapMap::new_at(10u32);
    heap.push(4, 'p');
    heap.push(8, 'q');
    assert_eq!(heap.try_push(11, 'r'), Err(OutOfOrderKey));
    assert_eq!(heap.len(), 2);
    assert_eq!(heap.try_push(10, 's'), Ok(()));
    assert_eq!(heap.len(), 3);
    assert_eq!(heap.pop(), Some((10, 's')));
    assert_eq!(heap.pop(), Some((8, 'q')));
    assert_eq!(heap.pop(), Some((4, 'p')));
}

#[test]
fn equal_keys_pop_last_in_first() {
    let mut heap = RadixHeapMap::new();
    heap.push(5u32, 'a');
    heap.push(5, 'b');
    assert_eq!(heap.pop(), Some((5, 'b')));
    assert_eq!(heap.pop(), Some((5, 'a')));
    assert_eq!(heap.pop(), None);
}

#[test]
fn equal_keys_after_top_is_set() {
    let mut heap = RadixHeapMap::new_at(10u32);
    heap.push(5, 'a');
    heap.push(7, 'c');
    assert_eq!(heap.pop(), Some((7, 'c')));
    heap.push(5, 'b');
    assert_eq!(heap.pop(), Some((5, 'b')));
    assert_eq!(heap.pop(), Some((5, 'a')));
}

#[test]
fn len_counts_pushes_and_pops() {
    let mut heap = RadixHeapMap::new();
    assert!(heap.is_empty());
    heap.push(3i64, 0u8);
    heap.push(-4, 1);
    heap.push(3, 2);
    assert_eq!(heap.len(), 3);
    assert_eq!(heap.pop(), Some((3, 2)));
    assert_eq!(heap.len(), 2);
    heap.push(-9, 3);
    assert_eq!(heap.len(), 3);
    assert_eq!(heap.pop(), Some((3, 0)));
    assert_eq!(heap.pop(), Some((-4, 1)));
    assert_eq!(heap.pop(), Some((-9, 3)));
    assert_eq!(heap.pop(), None);
    assert_eq!(heap.len(), 0);
    assert!(heap.is_empty());
}

#[test]
fn top_never_rises() {
    let mut heap = RadixHeapMap::new();
    for k in [13u16, 2, 900, 77, 77, 0, 512] {
        heap.push(k, ());
    }
    let mut last = u16::MAX;
    while let Some((k, ())) = heap.pop() {
        let t = heap.top().unwrap();
        assert_eq!(t, k);
        assert!(t <= last);
        last = t;
    }
}

#[test]
fn clear_to_sets_top() {
    let mut heap = RadixHeapMap::new();
    heap.push(40u8, 'a');
    heap.clear_to(20);
    assert_eq!(heap.top(), Some(20));
    assert!(heap.is_empty());
    assert_eq!(heap.try_push(21, 'b'), Err(OutOfOrderKey));
    heap.push(19, 'c');
    assert_eq!(heap.pop(), Some((19, 'c')));
}

#[test]
fn clear_unsets_top() {
    let mut heap = RadixHeapMap::new_at(3u8);
    heap.push(1, 'a');
    heap.clear();
    assert_eq!(heap.top(), None);
    heap.push(200, 'b');
    assert_eq!(heap.pop(), Some((200, 'b')));
}

#[test]
fn constrain_sets_top_to_greatest() {
    let mut heap = RadixHeapMap::new();
    heap.push(6u32, 'a');
    heap.push(12, 'b');
    heap.constrain();
    assert_eq!(heap.top(), Some(12));
    assert_eq!(heap.len(), 2);
    heap.constrain();
    assert_eq!(heap.top(), Some(12));
}

#[test]
fn shrink_keeps_entries() {
    let mut heap = RadixHeapMap::new();
    for k in 0..100u32 {
        heap.push(k, k * 2);
    }
    for _ in 0..90 {
        heap.pop();
    }
    heap.shrink_to_fit();
    assert_eq!(heap.len(), 10);
    assert_eq!(heap.pop(), Some((9, 18)));
}

#[test]
fn keys_and_values_cover_all_entries() {
    let mut heap = RadixHeapMap::new();
    heap.push(3u32, 'x');
    heap.push(1, 'y');
    heap.push(3, 'z');
    assert_eq!(heap.pop(), Some((3, 'z')));
    let mut keys: Vec<u32> = heap.keys().copied().collect();
    keys.sort();
    assert_eq!(keys, vec![1, 3]);
    let mut values: Vec<char> = heap.values().copied().collect();
    values.sort();
    assert_eq!(values, vec!['x', 'y']);
    let mut pairs: Vec<(u32, char)> = heap.iter().copied().collect();
    pairs.sort();
    assert_eq!(pairs, vec![(1, 'y'), (3, 'x')]);
}

#[test]
fn distance_is_zero_for_equal_and_symmetric() {
    assert_eq!(77u8.radix_distance(&77), 0);
    assert_eq!(5u16.radix_distance(&9), 9u16.radix_distance(&5));
    assert_eq!((-3i32).radix_distance(&-3), 0);
    assert_eq!((-3i32).radix_distance(&4), 4i32.radix_distance(&-3));
}

#[test]
fn complements_are_full_width_apart() {
    assert_eq!(0u8.radix_distance(&0xff), 8);
    assert_eq!(0x0f0fu16.radix_distance(&0xf0f0), 16);
    assert_eq!(0u32.radix_distance(&u32::MAX), 32);
    assert_eq!(0u64.radix_distance(&u64::MAX), 64);
    assert_eq!(0u128.radix_distance(&u128::MAX), 128);
    assert_eq!(i32::MIN.radix_distance(&i32::MAX), 32);
    assert_eq!(i128::MIN.radix_distance(&i128::MAX), 128);
    assert_eq!(0usize.radix_distance(&usize::MAX), usize::BITS);
    assert_eq!(isize::MIN.radix_distance(&isize::MAX), usize::BITS);
}

#[test]
fn radix_bits_per_type() {
    assert_eq!(<u8 as Radix>::radix_bits(), 8);
    assert_eq!(<i16 as Radix>::radix_bits(), 16);
    assert_eq!(<u128 as Radix>::radix_bits(), 128);
    assert_eq!(<() as Radix>::radix_bits(), 0);
    assert_eq!(<(u8, i32) as Radix>::radix_bits(), 40);
    assert_eq!(<(u8, u8, u16) as Radix>::radix_bits(), 32);
    assert_eq!(<Reverse<u64> as Radix>::radix_bits(), 64);
    assert_eq!(<Wrapping<i8> as Radix>::radix_bits(), 8);
}

#[test]
fn signed_distances() {
    assert_eq!((-1i8).radix_distance(&0), 8);
    assert_eq!((-1i8).radix_distance(&-2), 1);
    assert_eq!(5i64.radix_distance(&4), 1);
    assert_eq!((-5i128).radix_distance(&-8), 2);
    assert_eq!((1i128 << 100).radix_distance(&0), 101);
    assert_eq!(5isize.radix_distance(&4), 1);
}

#[test]
fn wide_distances() {
    assert_eq!((1u128 << 70).radix_distance(&0), 71);
    assert_eq!((1u128 << 70).radix_distance(&(1u128 << 70 | 1)), 1);
    assert_eq!(3u128.radix_distance(&1), 2);
    assert_eq!(4u128.radix_similarity(&2), 125);
}

#[test]
fn tuple_distances() {
    // The first component decides while it differs.
    assert_eq!((4u8, 0u8).radix_distance(&(2, 0)), 11);
    assert_eq!((4u8, 0u8).radix_similarity(&(2, 9)), 5);
    // Equal first components: the second decides.
    assert_eq!((4u8, 1u8).radix_distance(&(4, 0)), 1);
    assert_eq!((4u8, 1u8).radix_similarity(&(4, 0)), 15);
    assert_eq!((1u8, 2u8, 3u8).radix_distance(&(1, 2, 3)), 0);
    assert_eq!((1u8, 2u8, 3u8).radix_distance(&(1, 3, 3)), 9);
    assert_eq!((1u8, 2u8, 3u8).radix_distance(&(1, 2, 2)), 1);
    assert_eq!((1u8, 2u8, 3u8).radix_distance(&(0, 2, 3)), 17);
    assert_eq!(().radix_distance(&()), 0);
}

#[test]
fn wrapper_distances() {
    assert_eq!(Reverse(4u32).radix_distance(&Reverse(2)), 3);
    assert_eq!(Wrapping(4u32).radix_distance(&Wrapping(2)), 3);
    assert!(Reverse(4u32).radix_le(&Reverse(2)));
    assert!(!Reverse(2u32).radix_le(&Reverse(4)));
    assert!(Wrapping(2u32).radix_le(&Wrapping(4)));
}

#[test]
fn key_order_matches_ord() {
    assert!((-5i32).radix_le(&3));
    assert!(!(3i32).radix_le(&-5));
    assert!((1u8, 9u8).radix_le(&(2, 0)));
    assert!(!(2u8, 0u8).radix_le(&(1, 9)));
    assert!((2u8, 0u8, 5u8).radix_le(&(2, 0, 5)));
    assert!(!(2u8, 1u8, 0u8).radix_le(&(2, 0, 5)));
    assert!(i128::MIN.radix_le(&-1));
}

#[test]
fn tuple_keys_pop_lexicographically() {
    let mut heap = RadixHeapMap::new();
    heap.push((1u32, -4i32), 'a');
    heap.push((1, 7), 'b');
    heap.push((0, 100), 'c');
    heap.push((2, -100), 'd');
    assert_eq!(heap.pop(), Some(((2, -100), 'd')));
    assert_eq!(heap.pop(), Some(((1, 7), 'b')));
    assert_eq!(heap.pop(), Some(((1, -4), 'a')));
    assert_eq!(heap.pop(), Some(((0, 100), 'c')));
}

#[test]
fn wrapping_keys_pop() {
    let mut heap = RadixHeapMap::new();
    heap.push(Wrapping(3u8), 1);
    heap.push(Wrapping(250u8), 2);
    assert_eq!(heap.pop(), Some((Wrapping(250), 2)));
    assert_eq!(heap.pop(), Some((Wrapping(3), 1)));
}

#[test]
fn extreme_keys() {
    let mut heap = RadixHeapMap::new();
    heap.push(i64::MIN, 'a');
    heap.push(i64::MAX, 'b');
    heap.push(0, 'c');
    heap.push(-1, 'd');
    assert_eq!(heap.pop(), Some((i64::MAX, 'b')));
    assert_eq!(heap.pop(), Some((0, 'c')));
    assert_eq!(heap.pop(), Some((-1, 'd')));
    assert_eq!(heap.pop(), Some((i64::MIN, 'a')));
}

#[test]
fn float_keys_rank_as_floats() {
    let key = |x: f32| F32Key::from_bits(x.to_bits());
    assert!(key(-2.0).radix_le(&key(-1.5)));
    assert!(!key(-1.5).radix_le(&key(-2.0)));
    assert!(key(-0.0).radix_le(&key(0.0)));
    assert!(key(0.5).radix_le(&key(3.0)));
    assert!(!key(1.0).radix_le(&key(-1.0)));
    assert_eq!(key(1.0).radix_distance(&key(-1.0)), 32);
    assert_eq!(key(-1.0).radix_distance(&key(-1.0)), 0);
    // -1.0 and -1.5 differ in the 23rd bit from the bottom.
    assert_eq!(key(-1.0).radix_distance(&key(-1.5)), 23);
    let wide = |x: f64| F64Key::from_bits(x.to_bits());
    assert!(wide(-1e300).radix_le(&wide(1e-300)));
    assert_eq!(wide(2.0).radix_distance(&wide(-2.0)), 64);
    assert_eq!(F64Key::from_bits(7).to_bits(), 7);
}

#[test]
fn float_keys_pop_greatest_first() {
    let mut heap = RadixHeapMap::new();
    for x in [0.25f64, -3.5, 1e10, -0.0, 7.0, -1e-10] {
        heap.push(F64Key::from_bits(x.to_bits()), x);
    }
    let mut out = Vec::new();
    while let Some((_, x)) = heap.pop() {
        out.push(x);
    }
    assert_eq!(out, vec![1e10, 7.0, 0.25, -0.0, -1e-10, -3.5]);
}

#[test]
fn clone_is_independent() {
    let mut heap = RadixHeapMap::new();
    heap.push(4u32, 'a');
    heap.push(9, 'b');
    let mut copy = heap.clone();
    assert_eq!(heap.pop(), Some((9, 'b')));
    assert_eq!(copy.len(), 2);
    assert_eq!(copy.pop(), Some((9, 'b')));
    assert_eq!(copy.pop(), Some((4, 'a')));
    assert_eq!(heap.pop(), Some((4, 'a')));
}

#[test]
fn from_iter_and_extend_push_in_order() {
    let mut heap = RadixHeapMap::from_iter(vec![(3u8, 'a'), (8, 'b'), (3, 'c')]);
    assert_eq!(heap.len(), 3);
    assert_eq!(heap.top(), None);
    assert_eq!(heap.pop(), Some((8, 'b')));
    heap.extend(vec![(5, 'd'), (3, 'e')]);
    assert_eq!(heap.pop(), Some((5, 'd')));
    assert_eq!(heap.pop(), Some((3, 'e')));
    assert_eq!(heap.pop(), Some((3, 'c')));
    assert_eq!(heap.pop(), Some((3, 'a')));
    assert_eq!(heap.pop(), None);
}

#[test]
fn empty_heap_edges() {
    let mut heap: RadixHeapMap<i32, ()> = RadixHeapMap::new();
    heap.constrain();
    assert_eq!(heap.top(), None);
    assert_eq!(heap.peek(), None);
    assert_eq!(heap.pop(), None);
    assert_eq!(heap.iter().count(), 0);
    assert_eq!(heap.into_iter().count(), 0);
    let mut fixed: RadixHeapMap<i32, ()> = RadixHeapMap::new_at(i32::MIN);
    fixed.push(i32::MIN, ());
    assert_eq!(fixed.try_push(i32::MIN + 1, ()), Err(OutOfOrderKey));
    assert_eq!(fixed.pop(), Some((i32::MIN, ())));
}
