use mru::atomic::{TaggedPtr, ADDR_MASK, ADDR_SPAN};
use mru::heap::Heap;

#[test]
fn nil_has_no_address_and_tag_zero() {
    let p = TaggedPtr::nil();
    assert!(p.is_nil());
    assert_eq!(p.get(), 0);
    assert_eq!(p.get_tag(), 0);
    assert_eq!(p.value(), 0);
    assert_eq!(p.to_u64(), 0);
}

#[test]
fn word_splits_into_address_and_tag() {
    let p = TaggedPtr::from_raw(0xabcd_0000_1234_5678);
    assert_eq!(p.get(), 0x0000_0000_1234_5678);
    assert_eq!(p.get_tag(), 0xabcd);
    assert_eq!(p.value(), 0xabcd_0000_1234_5678);
    assert_eq!(p.to_u64(), 0xabcd_0000_1234_5678);
    assert!(!p.is_nil());
}

#[test]
fn largest_address_and_tag() {
    let p = TaggedPtr::from_raw(u64::MAX);
    assert_eq!(p.get(), ADDR_MASK);
    assert_eq!(p.get(), ADDR_SPAN - 1);
    assert_eq!(p.get_tag(), 0xffff);
}

#[test]
fn is_nil_looks_at_the_address_only() {
    let p = TaggedPtr::from_raw(0x0007_0000_0000_0000);
    assert!(p.is_nil());
    assert_eq!(p.get_tag(), 7);
    let q = TaggedPtr::from_raw(1);
    assert!(!q.is_nil());
}

#[test]
fn set_replaces_the_whole_word() {
    let mut p = TaggedPtr::from_raw(0x0001_0000_0000_0002);
    p.set(0x0003_0000_0000_0004);
    assert_eq!(p.value(), 0x0003_0000_0000_0004);
}

#[test]
fn set_tag_keeps_the_address() {
    let mut p = TaggedPtr::from_raw(0x1111_0000_0000_0042);
    p.set_tag(0x2222);
    assert_eq!(p.value(), 0x2222_0000_0000_0042);
    assert_eq!(p.get(), 0x42);
    assert_eq!(p.get_tag(), 0x2222);
    p.set_tag(0);
    assert_eq!(p.value(), 0x42);
}

#[test]
fn increment_tag_adds_one() {
    let mut p = TaggedPtr::from_raw(0x0000_0000_0000_0042);
    p.increment_tag();
    assert_eq!(p.value(), 0x0001_0000_0000_0042);
    p.increment_tag();
    assert_eq!(p.get_tag(), 2);
    assert_eq!(p.get(), 0x42);
}

#[test]
fn increment_tag_wraps_to_zero() {
    let mut p = TaggedPtr::from_raw(0xffff_0000_0000_0042);
    p.increment_tag();
    assert_eq!(p.get_tag(), 0);
    assert_eq!(p.value(), 0x42);
}

#[test]
fn compare_and_set_installs_on_equal_words() {
    let mut cell = TaggedPtr::from_raw(0x0001_0000_0000_0010);
    let expected = TaggedPtr::from_raw(0x0001_0000_0000_0010);
    let desired = TaggedPtr::from_raw(0x0002_0000_0000_0020);
    assert!(cell.compare_and_set(&expected, &desired));
    assert_eq!(cell.value(), 0x0002_0000_0000_0020);
}

#[test]
fn compare_and_set_refuses_another_tag() {
    let mut cell = TaggedPtr::from_raw(0x0003_0000_0000_0010);
    let expected = TaggedPtr::from_raw(0x0001_0000_0000_0010);
    let desired = TaggedPtr::from_raw(0x0002_0000_0000_0020);
    assert!(!cell.compare_and_set(&expected, &desired));
    assert_eq!(cell.value(), 0x0003_0000_0000_0010);
}

#[test]
fn compare_and_set_refuses_another_address() {
    let mut cell = TaggedPtr::from_raw(0x0001_0000_0000_0011);
    let expected = TaggedPtr::from_raw(0x0001_0000_0000_0010);
    let desired = TaggedPtr::nil();
    assert!(!cell.compare_and_set(&expected, &desired));
    assert_eq!(cell.value(), 0x0001_0000_0000_0011);
}

#[test]
fn clone_and_equality_go_by_the_word() {
    let p = TaggedPtr::from_raw(0x0005_0000_0000_0009);
    let q = p.clone();
    assert!(p == q);
    assert_eq!(q.value(), 0x0005_0000_0000_0009);
    let mut r = p.clone();
    r.increment_tag();
    assert!(p != r);
    assert_eq!(r.get(), p.get());
}

#[test]
fn recycled_address_is_told_apart_by_its_tag() {
    let mut cell = TaggedPtr::from_raw(0x0005_0000_0000_0009);
    let stale = cell.clone();
    let mut via = TaggedPtr::from_raw(0x0c);
    via.set_tag(cell.get_tag());
    via.increment_tag();
    let seen = cell.clone();
    assert!(cell.compare_and_set(&seen, &via));
    let mut back = TaggedPtr::from_raw(0x09);
    back.set_tag(cell.get_tag());
    back.increment_tag();
    let seen = cell.clone();
    assert!(cell.compare_and_set(&seen, &back));
    assert_eq!(cell.get(), stale.get());
    assert_eq!(cell.get_tag(), 7);
    let desired = TaggedPtr::nil();
    assert!(!cell.compare_and_set(&stale, &desired));
    assert_eq!(cell.value(), 0x0007_0000_0000_0009);
}

#[test]
fn from_box_and_to_box_move_the_object() {
    let mut heap: Heap<u32> = Heap::new();
    let mut p = TaggedPtr::from_box(Box::new(42u32), &mut heap);
    assert!(!p.is_nil());
    assert_eq!(p.get_tag(), 0);
    assert!(heap.contains(p.get()));
    assert_eq!(*heap.get(p.get()), 42);
    assert_eq!(heap.len(), 1);
    let b = p.to_box(&mut heap);
    assert_eq!(b, Some(Box::new(42u32)));
    assert!(p.is_nil());
    assert_eq!(p.value(), 0);
    assert_eq!(heap.len(), 0);
}

#[test]
fn to_box_of_nil_is_none() {
    let mut heap: Heap<u32> = Heap::new();
    let mut p = TaggedPtr::from_raw(0x0004_0000_0000_0000);
    assert_eq!(p.to_box(&mut heap), None);
    assert_eq!(p.value(), 0x0004_0000_0000_0000);
}

#[test]
fn heap_gives_distinct_addresses_and_reuses_released_ones() {
    let mut heap: Heap<u32> = Heap::new();
    let a = heap.adopt(Box::new(1));
    let b = heap.adopt(Box::new(2));
    let c = heap.adopt(Box::new(3));
    assert!(a != 0 && b != 0 && c != 0);
    assert!(a != b && b != c && a != c);
    assert_eq!(heap.len(), 3);
    assert_eq!(heap.release(b), Some(Box::new(2)));
    assert!(!heap.contains(b));
    assert_eq!(heap.release(b), None);
    assert_eq!(heap.len(), 2);
    let d = heap.adopt(Box::new(4));
    assert_eq!(d, b);
    assert_eq!(*heap.get(d), 4);
    assert_eq!(*heap.get(a), 1);
    assert_eq!(*heap.get(c), 3);
    assert_eq!(heap.len(), 3);
}

#[test]
fn heap_knows_no_address_zero_and_none_beyond_its_slots() {
    let mut heap: Heap<u32> = Heap::new();
    assert!(!heap.contains(0));
    assert!(!heap.contains(1));
    assert_eq!(heap.release(0), None);
    assert_eq!(heap.release(7), None);
    let a = heap.adopt(Box::new(9));
    assert!(heap.contains(a));
    assert!(!heap.contains(a + 1));
    *heap.get_mut(a) = 10;
    assert_eq!(*heap.get(a), 10);
}
