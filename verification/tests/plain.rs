use shared_hashmap::codec::Storable;
use shared_hashmap::plain::{Bucket, InlineKey, SharedMemoryHashMap};
use shared_hashmap::Error;
use std::mem::size_of;

fn made<K: InlineKey, V: Storable>(size: usize) -> SharedMemoryHashMap<K, V> {
    SharedMemoryHashMap::new(size)
}

#[test]
fn test_insert_too_long() {
    let mut map = made(128);
    let insert = map.try_insert(1, String::from("Hello").repeat(100));
    assert_eq!(insert, Err(Error::TooLargeError));

    let fixed_size = size_of::<u8>() + size_of::<usize>();
    let item_size = size_of::<Bucket<u8, u8>>() + 4;
    let mut map = made(fixed_size + item_size);
    map.try_insert(1, 1).unwrap();
    let insert = map.try_insert(2, 2);
    assert_eq!(insert, Err(Error::TooLargeError));
}

#[test]
fn test_used() {
    let mut map = made(1024);
    map.insert(1, 1);
    assert_eq!(map.used(), 20);
    map.insert(2, 2);
    assert_eq!(map.used(), 40);
}

#[test]
fn test_free() {
    let mut map = made(1024);
    map.insert(1, 1);
    assert_eq!(map.free(), 1024 - 20);
}

#[test]
fn plain_insert() {
    let mut map = made(1024);
    assert_eq!(map.insert(1, 1), Some(()));
    assert_eq!(map.get(&1), Some(1));

    assert_eq!(map.get(&2), None);
    map.insert(2, 2);
    assert_eq!(map.get(&2), Some(2));
    map.insert(-1, -7);
    assert_eq!(map.get(&-1), Some(-7));
    assert_eq!(map.len(), 3);
}

#[test]
fn plain_insert_slice_and_string() {
    let mut map = made(1024);
    map.insert(1, [1, 2, 3]);
    map.insert(2, [3, 4, 5]);
    assert_eq!(map.get(&1), Some([1, 2, 3]));
    assert_eq!(map.get(&2), Some([3, 4, 5]));
    let mut map = made(1024);
    map.insert(1u8, String::from("Hello"));
    map.insert(2u8, String::from("World"));
    assert_eq!(map.get(&1u8), Some(String::from("Hello")));
    assert_eq!(map.get(&2u8), Some(String::from("World")));
}

#[test]
fn plain_remove() {
    let mut map = made(1024);
    map.insert(1, String::from("one"));
    map.insert(2, String::from("two"));
    map.insert(3, String::from("three"));
    assert_eq!(map.remove(&1), None);
    assert_eq!(map.get(&1), None);
    assert_eq!(map.get(&2), Some(String::from("two")));
    assert_eq!(map.get(&3), Some(String::from("three")));
    assert_eq!(map.len(), 2);
    // Nothing is subtracted before the next insertion.
    assert_eq!(map.used(), 3 * 24 + 11);

    map.remove(&3);
    assert_eq!(map.get(&2), Some(String::from("two")));
    assert_eq!(map.contains_key(&3), false);
    assert_eq!(map.len(), 1);
    map.insert(4, String::from("four"));
    assert_eq!(map.used(), 2 * 24 + 7);

    map.remove(&2);
    map.remove(&4);
    map.remove(&4);
    assert_eq!(map.is_empty(), true);
}

#[test]
fn plain_same_key_hides_the_new_entry() {
    let mut map = made(1024);
    map.insert(1u64, 10);
    map.insert(1u64, 11);
    assert_eq!(map.len(), 2);
    assert_eq!(map.get(&1u64), Some(10));
    map.remove(&1u64);
    assert_eq!(map.get(&1u64), Some(11));
}

#[test]
fn plain_clear() {
    let mut map = made(1024);
    map.insert(1, 1);
    map.insert(2, 2);
    map.clear();
    assert_eq!(map.get(&1), None);
    assert_eq!(map.get(&2), None);
    assert_eq!(map.len(), 0);
    assert_eq!(map.used(), 40);
    map.insert(3, 3);
    assert_eq!(map.get(&3), Some(3));
    assert_eq!(map.used(), 20);
}

#[test]
fn plain_dump() {
    let mut map = made(1024);
    map.insert(258, 5);
    let mut expected: Vec<u8> = vec![2, 1, 0, 0, 0, 0, 0, 0];
    expected.extend_from_slice(&4u64.to_le_bytes());
    expected.extend_from_slice(&5i32.to_le_bytes());
    assert_eq!(map.dump_data(), expected);
}

#[test]
fn plain_walk() {
    let mut map = made(1024);
    map.insert(7, 1);
    map.insert(8, 2);
    let mut iter = map.bucket_iter();
    assert_eq!(iter.next().map(|(at, bucket)| (at, bucket.key, bucket.value_size)), Some((0, 7, 4)));
    assert_eq!(iter.next().map(|(at, bucket)| (at, bucket.key, bucket.value_size)), Some((20, 8, 4)));
    assert_eq!(iter.next().is_none(), true);
}

#[test]
fn plain_image_is_read_back() {
    let mut map = made(1024);
    map.insert(1, String::from("one"));
    map.insert(2, String::from("two"));
    let image = map.image();
    assert_eq!(image.len(), 1024 - 9 + 16);
    assert_eq!(image[0..8], 2u64.to_le_bytes());
    assert_eq!(image[8..16], (2 * 27u64).to_le_bytes());
    let again: SharedMemoryHashMap<i32, String> = SharedMemoryHashMap::load(&image).unwrap();
    assert_eq!(again.get(&2), Some(String::from("two")));
    assert_eq!(again.len(), 2);
    assert_eq!(again.used(), 54);
    assert_eq!(again.image(), image);

    let mut broken = image;
    broken[0] = 99;
    assert_eq!(SharedMemoryHashMap::<i32, String>::load(&broken).is_none(), true);
    assert_eq!(SharedMemoryHashMap::<i32, String>::load(&[0u8; 15]).is_none(), true);
}

#[test]
fn plain_keys_of_other_widths() {
    let mut map = made(1024);
    map.insert(-1i8, 1);
    assert_eq!(map.get(&-1i8), Some(1));
    assert_eq!(map.get(&1i8), None);
    let mut map = made(1024);
    map.insert(-1i16, 1);
    assert_eq!(map.get(&-1i16), Some(1));
    let mut map = made(1024);
    map.insert(i64::MIN, 1);
    map.insert(-1i64, 2);
    assert_eq!(map.get(&i64::MIN), Some(1));
    assert_eq!(map.get(&-1i64), Some(2));
    let mut map = made(1024);
    map.insert(7u16, 1);
    assert_eq!(map.contains_key(&7u16), true);
    let mut map = made(1024);
    map.insert(7u32, 1);
    assert_eq!(map.contains_key(&8u32), false);
    let mut map = made(1024);
    map.insert(7usize, 1);
    assert_eq!(map.get(&7usize), Some(1));
}
