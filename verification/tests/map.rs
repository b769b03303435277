use shared_hashmap::clock::since;
use shared_hashmap::codec::Storable;
use shared_hashmap::memory::round_to_boundary;
use shared_hashmap::{Bucket, Encoded, Error, SharedMemoryContents, SharedMemoryHashMap, Timestamp};
use std::mem::size_of;
use std::time::Instant;

const LOCK: usize = 40;

fn map_of<K: Storable, V: Storable>(size: usize) -> SharedMemoryHashMap<K, V> {
    match SharedMemoryHashMap::new(size, size, LOCK) {
        Ok(map) => map,
        Err(e) => panic!("{:?}", e),
    }
}

/// A map with room for `n` entries of two integers each.
fn map_for(n: usize) -> SharedMemoryHashMap<i32, i32> {
    map_of(LOCK + 24 + n * 40)
}

fn at(secs: u64) -> Timestamp {
    Timestamp { secs, nanos: 0 }
}

fn entries(map: &SharedMemoryHashMap<i32, i32>) -> Vec<(i32, i32)> {
    let mut all = vec![];
    let mut iter = map.iter();
    while let Some(entry) = iter.next() {
        all.push(entry);
    }
    all
}

#[test]
fn test_insert() {
    let mut map = map_of(1024);
    map.insert(1, 1);
    assert_eq!(map.get(&1), Some(1));

    assert_eq!(map.get(&2), None);
    map.insert(2, 2);
    assert_eq!(map.get(&2), Some(2));
}

#[test]
fn test_insert_slice() {
    let mut map = map_of(1024);
    map.insert(1, [1, 2, 3]);
    map.insert(2, [3, 4, 5]);
    assert_eq!(map.get(&1), Some([1, 2, 3]));
    assert_eq!(map.get(&2), Some([3, 4, 5]));
}

#[test]
fn test_insert_string() {
    let mut map = map_of(1024);
    map.insert(1, String::from("Hello"));
    map.insert(2, String::from("World"));
    assert_eq!(map.get(&1), Some(String::from("Hello")));
    assert_eq!(map.get(&2), Some(String::from("World")));
}

#[test]
fn test_remove() {
    let mut map = map_of(1024);
    map.insert(1, 1);
    map.insert(2, 2);
    map.insert(3, 3);
    map.remove(&1);
    assert_eq!(map.get(&1), None);
    assert_eq!(map.get(&2), Some(2));
    assert_eq!(map.get(&3), Some(3));
    assert_eq!(map.len(), 2);

    map.remove(&3);
    assert_eq!(map.get(&1), None);
    assert_eq!(map.get(&2), Some(2));
    assert_eq!(map.get(&3), None);
    assert_eq!(map.len(), 1);

    map.remove(&2);
    assert_eq!(map.get(&1), None);
    assert_eq!(map.get(&2), None);
    assert_eq!(map.get(&3), None);
    assert_eq!(map.len(), 0);
}

#[test]
fn test_contains_key() {
    let mut map = map_of(1024);
    map.insert(1, 1);
    assert_eq!(map.contains_key(&1), true);
    assert_eq!(map.contains_key(&2), false);
}

#[test]
fn test_clear() {
    let mut map = map_of(1024);
    map.insert(1, 1);
    map.insert(2, 2);
    map.insert(3, 3);
    map.clear();
    assert_eq!(map.get(&1), None);
    assert_eq!(map.get(&2), None);
    assert_eq!(map.get(&3), None);
    assert_eq!(map.len(), 0);
}

#[test]
fn rounding() {
    assert_eq!(round_to_boundary(0, 8), 0);
    assert_eq!(round_to_boundary(1, 8), 8);
    assert_eq!(round_to_boundary(8, 8), 8);
    assert_eq!(round_to_boundary(13, 8), 16);
    assert_eq!(round_to_boundary(10, 4), 12);
}

#[test]
fn header_has_its_size() {
    assert_eq!(size_of::<Bucket<i32, String>>(), 32);
}

#[test]
fn too_small_for_the_lock_and_the_header() {
    let made: Result<SharedMemoryHashMap<i32, i32>, Error> =
        SharedMemoryHashMap::new(LOCK + 23, LOCK + 23, LOCK);
    assert_eq!(made.err(), Some(Error::TooLargeError));
    let made: Result<SharedMemoryHashMap<i32, i32>, Error> =
        SharedMemoryHashMap::new(LOCK - 1, LOCK - 1, LOCK);
    assert_eq!(made.err(), Some(Error::TooLargeError));
    let made: Result<SharedMemoryHashMap<i32, i32>, Error> =
        SharedMemoryHashMap::new(LOCK + 24, LOCK + 24, LOCK);
    assert_eq!(made.is_ok(), true);
}

#[test]
fn mapped_memory_counts() {
    let map: SharedMemoryHashMap<i32, i32> = match SharedMemoryHashMap::new(100, 4096, LOCK) {
        Ok(map) => map,
        Err(e) => panic!("{:?}", e),
    };
    assert_eq!(map.free(), 4096 - LOCK - 24);
}

#[test]
fn bytes_in_use() {
    let mut map: SharedMemoryHashMap<i32, i32> = map_of(1024);
    assert_eq!(map.used(), LOCK + 24);
    assert_eq!(map.free(), 1024 - LOCK - 24);
    map.insert(1, 1);
    assert_eq!(SharedMemoryHashMap::size_of(&1, &1), 40);
    assert_eq!(map.used(), LOCK + 24 + 40);
    assert_eq!(map.free(), 1024 - LOCK - 24 - 40);
    map.insert(2, 2);
    assert_eq!(map.used(), LOCK + 24 + 80);
    map.insert(1, 3);
    assert_eq!(map.used(), LOCK + 24 + 80);
    map.remove(&2);
    assert_eq!(map.used(), LOCK + 24 + 40);
}

#[test]
fn size_of_counts_the_padding() {
    assert_eq!(SharedMemoryHashMap::size_of(&1, &String::from("")), 32 + 16);
    assert_eq!(SharedMemoryHashMap::size_of(&1, &String::from("Hello")), 32 + 24);
    assert_eq!(SharedMemoryHashMap::size_of(&1, &[1, 2, 3]), 32 + 16);
}

#[test]
fn same_key_is_replaced() {
    let mut map = map_of(1024);
    assert_eq!(map.try_insert(1, 10), Ok(None));
    assert_eq!(map.try_insert(2, 20), Ok(None));
    assert_eq!(map.try_insert(1, 11), Ok(None));
    assert_eq!(map.len(), 2);
    assert_eq!(entries(&map), vec![(2, 20), (1, 11)]);
}

#[test]
fn negative_integers() {
    let mut map = map_of(1024);
    map.insert(-1, i32::MIN);
    map.insert(i32::MAX, -2);
    assert_eq!(map.get(&-1), Some(i32::MIN));
    assert_eq!(map.get(&i32::MAX), Some(-2));
    assert_eq!(map.get(&1), None);
}

#[test]
fn string_keys() {
    let mut map = map_of(1024);
    map.insert(String::from("grün"), String::from("green"));
    map.insert(String::from(""), String::from("nothing"));
    assert_eq!(map.get(&String::from("grün")), Some(String::from("green")));
    assert_eq!(map.get(&String::from("")), Some(String::from("nothing")));
    assert_eq!(map.get(&String::from("gr")), None);
}

#[test]
fn oldest_leaves_first() {
    let mut map = map_for(2);
    assert_eq!(map.try_insert_at(1, 10, at(1)), Ok(None));
    assert_eq!(map.try_insert_at(2, 20, at(2)), Ok(None));
    assert_eq!(map.get_lru(), Some((1, 10)));
    assert_eq!(map.get_at(&1, at(3)), Some(10));
    assert_eq!(map.get_lru(), Some((2, 20)));
    assert_eq!(map.try_insert_at(3, 30, at(4)), Ok(Some(20)));
    assert_eq!(entries(&map), vec![(1, 10), (3, 30)]);
    assert_eq!(map.len(), 2);
}

#[test]
fn nanoseconds_decide() {
    let mut map = map_for(3);
    map.try_insert_at(1, 10, Timestamp { secs: 5, nanos: 7 }).unwrap();
    map.try_insert_at(2, 20, Timestamp { secs: 5, nanos: 6 }).unwrap();
    map.try_insert_at(3, 30, Timestamp { secs: 4, nanos: 9 }).unwrap();
    assert_eq!(map.get_lru(), Some((3, 30)));
    map.remove(&3);
    assert_eq!(map.get_lru(), Some((2, 20)));
}

#[test]
fn first_of_equally_old_leaves() {
    let mut map = map_for(2);
    map.try_insert_at(1, 10, at(1)).unwrap();
    map.try_insert_at(2, 20, at(1)).unwrap();
    assert_eq!(map.get_lru(), Some((1, 10)));
    assert_eq!(map.try_insert_at(3, 30, at(1)), Ok(Some(10)));
    assert_eq!(entries(&map), vec![(2, 20), (3, 30)]);
}

#[test]
fn several_leave_for_a_large_one() {
    let mut map: SharedMemoryHashMap<i32, String> = map_of(LOCK + 24 + 3 * 56);
    map.try_insert_at(1, String::from("a"), at(1)).unwrap();
    map.try_insert_at(2, String::from("b"), at(2)).unwrap();
    map.try_insert_at(3, String::from("c"), at(3)).unwrap();
    assert_eq!(map.used(), LOCK + 24 + 3 * 48);
    let large = String::from("x").repeat(70);
    // Of those that leave, the last one's value is returned.
    assert_eq!(map.try_insert_at(4, large.clone(), at(4)), Ok(Some(String::from("b"))));
    assert_eq!(map.contains_key(&1), false);
    assert_eq!(map.contains_key(&2), false);
    assert_eq!(map.peak(&3), Some(String::from("c")));
    assert_eq!(map.peak(&4), Some(large));
}

#[test]
fn peak_is_no_access() {
    let mut map = map_for(2);
    map.try_insert_at(1, 10, at(1)).unwrap();
    map.try_insert_at(2, 20, at(2)).unwrap();
    assert_eq!(map.peak(&1), Some(10));
    assert_eq!(map.peak(&5), None);
    assert_eq!(map.get_lru(), Some((1, 10)));
}

#[test]
fn empty_map_has_no_lru() {
    let map = map_for(2);
    assert_eq!(map.get_lru(), None);
    assert_eq!(map.is_empty(), true);
    assert_eq!(entries(&map), vec![]);
}

#[test]
fn remove_returns_the_value() {
    let mut map = map_for(3);
    map.insert(1, 10);
    map.insert(2, 20);
    map.insert(3, 30);
    assert_eq!(map.remove(&4), None);
    assert_eq!(map.remove(&1), Some(10));
    assert_eq!(map.remove(&3), Some(30));
    assert_eq!(map.remove(&2), Some(20));
    assert_eq!(map.remove(&2), None);
}

#[test]
fn larger_than_all_of_the_memory() {
    let mut map: SharedMemoryHashMap<i32, String> = map_of(128);
    map.insert(1, String::from("a"));
    let insert = map.try_insert(2, String::from("Hello").repeat(100));
    assert_eq!(insert, Err(Error::TooLargeError));
    assert_eq!(map.insert(2, String::from("Hello").repeat(100)), None);
    assert_eq!(map.get(&1), Some(String::from("a")));
    assert_eq!(map.len(), 1);
}

#[test]
fn refused_when_all_have_left() {
    // 104 bytes behind the lock: 84 are needed, and the header takes 24.
    let mut map: SharedMemoryHashMap<i32, String> = map_of(LOCK + 104);
    map.insert(1, String::from("a"));
    let insert = map.try_insert(2, String::from("x").repeat(40));
    assert_eq!(insert, Err(Error::TooLargeError));
    assert_eq!(map.len(), 0);
    assert_eq!(map.used(), LOCK + 24);
    assert_eq!(map.try_insert(2, String::from("x").repeat(36)), Ok(None));
}

#[test]
fn padding_needs_no_memory() {
    // The bucket takes 45 bytes and counts as 48.
    let mut map: SharedMemoryHashMap<i32, String> = map_of(LOCK + 24 + 45);
    assert_eq!(map.try_insert(1, String::from("a")), Ok(None));
    assert_eq!(map.used(), LOCK + 24 + 48);
    assert_eq!(map.get(&1), Some(String::from("a")));
    assert_eq!(map.try_insert(2, String::from("b")), Ok(Some(String::from("a"))));
    assert_eq!(map.get(&2), Some(String::from("b")));
    let mut map: SharedMemoryHashMap<i32, String> = map_of(LOCK + 24 + 44);
    assert_eq!(map.try_insert(1, String::from("a")), Err(Error::TooLargeError));
}

#[test]
fn cleared_map_is_as_a_new_one() {
    let mut map = map_for(2);
    map.try_insert_at(1, 10, at(1)).unwrap();
    map.try_insert_at(2, 20, at(2)).unwrap();
    map.clear();
    let mut fresh = map_for(2);
    assert_eq!(map.used(), LOCK + 24);
    assert_eq!(map.used(), fresh.used());
    assert_eq!(map.free(), fresh.free());
    assert_eq!(map.is_empty(), true);
    assert_eq!(entries(&map), vec![]);
    for (key, value, secs) in [(3, 30, 3), (4, 40, 4), (3, 31, 5), (5, 50, 6)] {
        assert_eq!(
            map.try_insert_at(key, value, at(secs)),
            fresh.try_insert_at(key, value, at(secs))
        );
        assert_eq!(map.get_lru(), fresh.get_lru());
        assert_eq!(map.used(), fresh.used());
        assert_eq!(entries(&map), entries(&fresh));
    }
    assert_eq!(map.get(&5), Some(50));
    assert_eq!(entries(&map), vec![(3, 31), (5, 50)]);
}

#[test]
fn insert_again_makes_no_one_leave() {
    let mut map: SharedMemoryHashMap<i32, String> = map_of(LOCK + 24 + 2 * 48);
    map.try_insert_at(1, String::from("a"), at(1)).unwrap();
    map.try_insert_at(2, String::from("b"), at(2)).unwrap();
    assert_eq!(map.free(), 0);
    // 4 + 8 + 4 bytes are as many as 4 + 8 + 1, rounded up.
    assert_eq!(map.try_insert_at(2, String::from("bbbb"), at(3)), Ok(None));
    assert_eq!(map.len(), 2);
    assert_eq!(map.free(), 0);
    assert_eq!(map.peak(&1), Some(String::from("a")));
    assert_eq!(map.peak(&2), Some(String::from("bbbb")));
}

#[test]
fn order_does_not_change_the_bytes_in_use() {
    let mut a: SharedMemoryHashMap<i32, String> = map_of(1024);
    let mut b: SharedMemoryHashMap<i32, String> = map_of(1024);
    a.insert(1, String::from("one"));
    a.insert(2, String::from("a longer one"));
    b.insert(3, String::from("three"));
    b.insert(2, String::from("short"));
    b.insert(2, String::from("a longer one"));
    b.remove(&3);
    b.insert(1, String::from("one"));
    assert_eq!(a.used(), b.used());
    let one = SharedMemoryHashMap::size_of(&1, &String::from("one"));
    let two = SharedMemoryHashMap::size_of(&2, &String::from("a longer one"));
    assert_eq!(a.used(), LOCK + 24 + one + two);
}

#[test]
fn last_access_lies_furthest_back() {
    let mut map = map_for(3);
    map.try_insert_at(1, 10, at(1)).unwrap();
    map.try_insert_at(2, 20, at(2)).unwrap();
    map.try_insert_at(3, 30, at(3)).unwrap();
    map.get_at(&1, at(4));
    map.try_insert_at(2, 21, at(5)).unwrap();
    assert_eq!(map.get_at(&9, at(6)), None);
    assert_eq!(map.peak(&3), Some(30));
    assert_eq!(map.get_lru(), Some((3, 30)));
    assert_eq!(map.remove(&3), Some(30));
    assert_eq!(map.get_lru(), Some((1, 10)));
    map.get_at(&1, at(7));
    assert_eq!(map.get_lru(), Some((2, 21)));
}

#[test]
fn key_in_place_of_another() {
    let mut map: SharedMemoryHashMap<Encoded, Encoded> = map_of(LOCK + 24 + 80);
    map.insert(Encoded(vec![1]), Encoded(vec![10]));
    map.insert(Encoded(vec![2]), Encoded(vec![20]));
    let result =
        map.try_insert_in_place_of(&Encoded(vec![1]), Encoded(vec![1, 1]), Encoded(vec![11]));
    assert_eq!(result.map(|v| v.is_none()), Ok(true));
    assert_eq!(map.len(), 2);
    assert_eq!(map.contains_key(&Encoded(vec![1])), false);
    assert_eq!(map.peak(&Encoded(vec![1, 1])).map(|v| v.0), Some(vec![11]));
    assert_eq!(map.peak(&Encoded(vec![2])).map(|v| v.0), Some(vec![20]));
    let large = Encoded(vec![0; 100]);
    let result = map.try_insert_in_place_of(&Encoded(vec![2]), Encoded(vec![2, 2]), large);
    assert_eq!(result.err(), Some(Error::TooLargeError));
    assert_eq!(map.len(), 2);
    assert_eq!(map.contains_key(&Encoded(vec![2])), true);
}

#[test]
fn never_more_than_the_memory() {
    let mut map: SharedMemoryHashMap<i32, String> = map_of(LOCK + 24 + 120);
    for i in 0..50 {
        let value = String::from("v").repeat((i * 7 % 60) as usize);
        map.try_insert_at(i, value, at(i as u64)).unwrap();
        assert_eq!(map.used() <= LOCK + 24 + 120, true);
        assert_eq!(map.used() + map.free(), LOCK + 24 + 120);
    }
}

#[test]
fn clock_moves_on() {
    let mut map = map_for(2);
    map.insert(1, 10);
    std::hint::black_box(&map);
    let start = Instant::now();
    while start.elapsed().as_micros() < 50 {}
    map.insert(2, 20);
    assert_eq!(map.get_lru(), Some((1, 10)));
    while start.elapsed().as_micros() < 150 {}
    assert_eq!(map.get(&1), Some(10));
    assert_eq!(map.get_lru(), Some((2, 20)));
    assert_eq!(map.insert(3, 30), Some(20));
    assert_eq!(entries(&map), vec![(1, 10), (3, 30)]);
}

#[test]
fn readings_count_from_the_epoch() {
    let epoch = Instant::now();
    let first = since(&epoch);
    while epoch.elapsed().as_micros() < 100 {}
    let second = since(&epoch);
    assert_eq!(first.before(&second), true);
    assert_eq!(second.secs > 0 || second.nanos >= 100_000, true);
    assert_eq!(second.nanos < 1_000_000_000, true);
    let later = Instant::now();
    let fresh = since(&later);
    assert_eq!(fresh.before(&since(&epoch)), true);
}

#[test]
fn memory_image() {
    let mut map: SharedMemoryHashMap<i32, String> = map_of(LOCK + 24 + 64);
    map.try_insert_at(-2, String::from("Hi"), Timestamp { secs: 258, nanos: 3 }).unwrap();
    let mut expected: Vec<u8> = vec![];
    expected.extend_from_slice(&1u64.to_le_bytes());
    expected.extend_from_slice(&48u64.to_le_bytes());
    expected.extend_from_slice(&88u64.to_le_bytes());
    expected.extend_from_slice(&10u64.to_le_bytes());
    expected.extend_from_slice(&4u64.to_le_bytes());
    expected.extend_from_slice(&258u64.to_le_bytes());
    expected.extend_from_slice(&3u32.to_le_bytes());
    expected.extend_from_slice(&[0; 4]);
    expected.extend_from_slice(&(-2i32).to_le_bytes());
    expected.extend_from_slice(&2u64.to_le_bytes());
    expected.extend_from_slice(b"Hi");
    expected.resize(88, 0);
    assert_eq!(map.image(), expected);
}

#[test]
fn attached_map_is_the_same() {
    let mut map = map_for(3);
    map.try_insert_at(1, 10, at(1)).unwrap();
    map.try_insert_at(2, 20, at(2)).unwrap();
    let image = map.image();
    let mut other: SharedMemoryHashMap<i32, i32> =
        match SharedMemoryHashMap::attach(&image, LOCK, map.epoch()) {
            Some(other) => other,
            None => panic!("not intact"),
        };
    assert_eq!(other.epoch(), map.epoch());
    assert_eq!(other.used(), map.used());
    assert_eq!(entries(&other), vec![(1, 10), (2, 20)]);
    assert_eq!(other.get_at(&1, at(5)), Some(10));
    assert_eq!(other.try_insert_at(3, 30, at(6)), Ok(None));
    assert_eq!(other.try_insert_at(4, 40, at(7)), Ok(Some(20)));
    assert_eq!(entries(&other), vec![(1, 10), (3, 30), (4, 40)]);
    assert_eq!(entries(&map), vec![(1, 10), (2, 20)]);
}

/// A handle to a block of memory: it reads the block, works on it, and writes
/// it back.
fn with_block<R>(
    block: &mut Vec<u8>,
    epoch: Instant,
    work: impl FnOnce(&mut SharedMemoryHashMap<i32, i32>) -> R,
) -> R {
    let mut map = SharedMemoryHashMap::attach(block, LOCK, epoch).unwrap();
    let result = work(&mut map);
    *block = map.image();
    result
}

#[test]
fn test_clone() {
    let map = map_of::<i32, i32>(1024);
    let epoch = map.epoch();
    let mut block = map.image();
    with_block(&mut block, epoch, |map| map.insert(1, 1));
    assert_eq!(with_block(&mut block, epoch, |map2| map2.get(&1)), Some(1));

    with_block(&mut block, epoch, |map2| map2.clear());
    assert_eq!(with_block(&mut block, epoch, |map| map.len()), 0);
    assert_eq!(with_block(&mut block, epoch, |map2| map2.len()), 0);
}

fn intact(image: &[u8]) -> bool {
    let loaded: Option<SharedMemoryContents<i32, String>> = SharedMemoryContents::load(image);
    loaded.is_some()
}

#[test]
fn broken_memory_is_refused() {
    let mut map: SharedMemoryHashMap<i32, String> = map_of(LOCK + 24 + 64);
    map.insert(1, String::from("Hi"));
    let image = map.image();
    assert_eq!(intact(&image), true);
    assert_eq!(intact(&image[..23]), false);
    assert_eq!(intact(&image[..image.len() - 1]), false);
    for (place, byte) in [
        (0, 2),   // a bucket that is not there
        (8, 40),  // the next bucket would be written over the last one
        (8, 72),  // bytes in use that there are not
        (16, 89), // more memory than there is
        (24, 60), // a value that ends behind the memory
        (32, 3),  // a key that is too short
        (60, 3),  // a string that is too long for the value
        (68, 255), // a string that is not UTF-8
    ] {
        let mut broken = image.clone();
        broken[place] = byte;
        assert_eq!(intact(&broken), false);
    }
}

#[test]
fn encodings() {
    assert_eq!(Storable::serialize(&-1i32), vec![255, 255, 255, 255]);
    assert_eq!(Storable::serialize(&258i32), vec![2, 1, 0, 0]);
    assert_eq!(Storable::serialized_size(&258i32), 4);
    assert_eq!(Storable::serialize(&[1i32, 2, -1]), vec![1, 0, 0, 0, 2, 0, 0, 0, 255, 255, 255, 255]);
    assert_eq!(Storable::serialized_size(&[1i32, 2, -1]), 12);
    let word = String::from("aé");
    assert_eq!(Storable::serialize(&word), vec![3, 0, 0, 0, 0, 0, 0, 0, 97, 195, 169]);
    assert_eq!(Storable::serialized_size(&word), 11);

    let short: Option<i32> = Storable::deserialize(&[1, 2, 3]);
    assert_eq!(short, None);
    let longer: Option<i32> = Storable::deserialize(&[1, 0, 0, 0, 9]);
    assert_eq!(longer, Some(1));
    let short: Option<[i32; 3]> = Storable::deserialize(&[0; 11]);
    assert_eq!(short, None);
    let zeros: Option<[i32; 3]> = Storable::deserialize(&[0; 12]);
    assert_eq!(zeros, Some([0, 0, 0]));
    let bad: Option<String> = Storable::deserialize(&[1, 0, 0, 0, 0, 0, 0, 0, 195]);
    assert_eq!(bad, None);
    let good: Option<String> = Storable::deserialize(&[1, 0, 0, 0, 0, 0, 0, 0, 97, 195]);
    assert_eq!(good, Some(String::from("a")));
    let cut: Option<String> = Storable::deserialize(&[2, 0, 0, 0, 0, 0, 0, 0, 97]);
    assert_eq!(cut, None);
}

#[test]
fn encoded_entries() {
    let mut map: SharedMemoryHashMap<Encoded, Encoded> = map_of(1024);
    map.insert(Encoded(vec![1, 2]), Encoded(vec![3]));
    map.insert(Encoded(vec![1]), Encoded(vec![]));
    map.insert(Encoded(vec![]), Encoded(vec![9, 9]));
    assert_eq!(map.used(), LOCK + 24 + 3 * 40);
    assert_eq!(map.get(&Encoded(vec![1, 2])).map(|v| v.0), Some(vec![3]));
    assert_eq!(map.get(&Encoded(vec![1])).map(|v| v.0), Some(vec![]));
    assert_eq!(map.get(&Encoded(vec![])).map(|v| v.0), Some(vec![9, 9]));
    assert_eq!(map.get(&Encoded(vec![2, 1])).is_none(), true);
    assert_eq!(map.get(&Encoded(vec![1, 2, 3])).is_none(), true);
}

#[test]
fn contents_alone() {
    let mut contents: SharedMemoryContents<i32, i32> = SharedMemoryContents::new(24 + 80);
    assert_eq!(contents.used(), 24);
    assert_eq!(contents.free(), 80);
    assert_eq!(contents.evict(), None);
    assert_eq!(contents.try_insert(1, 10, at(1)), Ok(None));
    assert_eq!(contents.try_insert(2, 20, at(2)), Ok(None));
    assert_eq!(contents.free(), 0);
    assert_eq!(contents.get(&1, at(3)), Some(10));
    assert_eq!(contents.evict(), Some(20));
    assert_eq!(contents.len(), 1);
    assert_eq!(contents.peak(&1), Some(10));
    let mut iter = contents.bucket_iter();
    match iter.next() {
        Some((place, bucket)) => {
            assert_eq!(place, 0);
            assert_eq!(bucket.key_size, 4);
            assert_eq!(bucket.value_size, 4);
            assert_eq!(bucket.last_accessed, at(3));
        }
        None => panic!("no bucket"),
    }
    assert_eq!(iter.next().is_none(), true);
    contents.clear();
    assert_eq!(contents.is_empty(), true);
    assert_eq!(contents.contains_key(&1), false);
}
