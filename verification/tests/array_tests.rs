use wasm_shim::arena::Arena;
use wasm_shim::array::{bsearch, qsort};
use wasm_shim::heap::{calloc, free, malloc};

fn int_at(bytes: &[u8]) -> i32 {
    i32::from_le_bytes([bytes[0], bytes[1], bytes[2], bytes[3]])
}

fn ascending(a: &[u8], b: &[u8]) -> i32 {
    let (x, y) = (int_at(a), int_at(b));
    if x < y {
        -1
    } else if x > y {
        1
    } else {
        0
    }
}

fn descending(a: &[u8], b: &[u8]) -> i32 {
    ascending(b, a)
}

fn by_first_byte(a: &[u8], b: &[u8]) -> i32 {
    i32::from(a[0]) - i32::from(b[0])
}

fn store_ints(arena: &mut Arena, at: usize, values: &[i32]) {
    for (i, v) in values.iter().enumerate() {
        assert!(arena.write(at + 4 * i, &v.to_le_bytes()));
    }
}

fn load_ints(arena: &Arena, at: usize, count: usize) -> Vec<i32> {
    let bytes = arena.read(at, 4 * count).unwrap();
    bytes.chunks(4).map(int_at).collect()
}

#[test]
fn sort_and_search_ten_integers() {
    let mut arena = Arena::new(1024);
    let array = calloc(&mut arena, 10, 4);
    assert_ne!(array, 0);
    store_ints(&mut arena, array, &[5, 3, 8, 1, 9, 2, 7, 4, 6, 0]);
    qsort(&mut arena, array, 10, 4, ascending);
    assert_eq!(load_ints(&arena, array, 10), vec![0, 1, 2, 3, 4, 5, 6, 7, 8, 9]);

    let key = malloc(&mut arena, 4);
    assert_ne!(key, 0);
    store_ints(&mut arena, key, &[7]);
    assert_eq!(bsearch(&arena, key, array, 10, 4, ascending), array + 7 * 4);
    assert_eq!(load_ints(&arena, array + 7 * 4, 1), vec![7]);

    store_ints(&mut arena, key, &[42]);
    assert_eq!(bsearch(&arena, key, array, 10, 4, ascending), 0);

    free(&mut arena, array);
    assert_ne!(malloc(&mut arena, 40), 0);
}

#[test]
fn sort_orders_every_adjacent_pair() {
    let mut arena = Arena::new(1024);
    let values = [12, -4, 7, 7, 0, 100, -50, 3, 3, 3, 99, -1];
    let array = malloc(&mut arena, 4 * values.len());
    store_ints(&mut arena, array, &values);
    qsort(&mut arena, array, values.len(), 4, ascending);
    let sorted = load_ints(&arena, array, values.len());
    for pair in sorted.windows(2) {
        assert!(ascending(&pair[0].to_le_bytes(), &pair[1].to_le_bytes()) <= 0);
    }
    assert_eq!(sorted, vec![-50, -4, -1, 0, 3, 3, 3, 7, 7, 12, 99, 100]);
}

#[test]
fn sort_follows_the_comparator() {
    let mut arena = Arena::new(1024);
    let array = malloc(&mut arena, 20);
    store_ints(&mut arena, array, &[1, 5, 2, 4, 3]);
    qsort(&mut arena, array, 5, 4, descending);
    assert_eq!(load_ints(&arena, array, 5), vec![5, 4, 3, 2, 1]);
}

#[test]
fn sort_keeps_the_records_whole() {
    // records of three bytes, ordered by the first byte only
    let mut arena = Arena::new(256);
    let array = malloc(&mut arena, 12);
    assert!(arena.write(array, &[3, 30, 31, 1, 10, 11, 4, 40, 41, 2, 20, 21]));
    qsort(&mut arena, array, 4, 3, by_first_byte);
    assert_eq!(
        arena.read(array, 12),
        Some(vec![1, 10, 11, 2, 20, 21, 3, 30, 31, 4, 40, 41])
    );
}

#[test]
fn sort_touches_nothing_outside_the_array() {
    let mut arena = Arena::new(256);
    let block = malloc(&mut arena, 16);
    let other = malloc(&mut arena, 4);
    store_ints(&mut arena, block, &[-7, 9, 8, -7]);
    store_ints(&mut arena, other, &[0]);
    // sort the two records in the middle only
    qsort(&mut arena, block + 4, 2, 4, ascending);
    assert_eq!(load_ints(&arena, block, 4), vec![-7, 8, 9, -7]);
    assert_eq!(load_ints(&arena, other, 1), vec![0]);
    assert_eq!(arena.payload_size(block), Some(16));
}

#[test]
fn sort_of_one_record_or_none_changes_nothing() {
    let mut arena = Arena::new(256);
    let array = malloc(&mut arena, 8);
    store_ints(&mut arena, array, &[9, 1]);
    let before = arena.read(array, 8);
    qsort(&mut arena, array, 1, 4, ascending);
    assert_eq!(arena.read(array, 8), before);
    qsort(&mut arena, array, 0, 4, ascending);
    assert_eq!(arena.read(array, 8), before);
}

#[test]
fn sort_ignores_degenerate_arguments() {
    let mut arena = Arena::new(256);
    let array = malloc(&mut arena, 8);
    store_ints(&mut arena, array, &[9, 1]);
    let before = arena.read(array, 8);
    // null base
    qsort(&mut arena, 0, 2, 4, ascending);
    // zero stride
    qsort(&mut arena, array, 2, 0, ascending);
    // more records than the block holds
    qsort(&mut arena, array, 3, 4, ascending);
    // a byte count that overflows
    qsort(&mut arena, array, usize::MAX, 4, ascending);
    // an address in no block
    qsort(&mut arena, 200, 2, 4, ascending);
    assert_eq!(arena.read(array, 8), before);
}

#[test]
fn sort_ignores_a_block_that_was_freed() {
    let mut arena = Arena::new(256);
    let array = malloc(&mut arena, 8);
    store_ints(&mut arena, array, &[9, 1]);
    free(&mut arena, array);
    qsort(&mut arena, array, 2, 4, ascending);
    let again = malloc(&mut arena, 8);
    assert_eq!(again, array);
    assert_eq!(load_ints(&arena, again, 2), vec![9, 1]);
}

#[test]
fn search_finds_a_match_in_an_unsorted_array() {
    let mut arena = Arena::new(256);
    let array = malloc(&mut arena, 20);
    store_ints(&mut arena, array, &[8, 3, 5, 1, 9]);
    let key = malloc(&mut arena, 4);
    store_ints(&mut arena, key, &[1]);
    assert_eq!(bsearch(&arena, key, array, 5, 4, ascending), array + 12);
    store_ints(&mut arena, key, &[8]);
    assert_eq!(bsearch(&arena, key, array, 5, 4, ascending), array);
    store_ints(&mut arena, key, &[9]);
    assert_eq!(bsearch(&arena, key, array, 5, 4, ascending), array + 16);
}

#[test]
fn search_returns_the_first_of_several_matches() {
    let mut arena = Arena::new(256);
    let array = malloc(&mut arena, 16);
    store_ints(&mut arena, array, &[4, 6, 6, 6]);
    let key = malloc(&mut arena, 4);
    store_ints(&mut arena, key, &[6]);
    assert_eq!(bsearch(&arena, key, array, 4, 4, ascending), array + 4);
}

#[test]
fn search_for_a_missing_key_returns_null() {
    let mut arena = Arena::new(256);
    let array = malloc(&mut arena, 12);
    store_ints(&mut arena, array, &[1, 2, 3]);
    let key = malloc(&mut arena, 4);
    store_ints(&mut arena, key, &[4]);
    assert_eq!(bsearch(&arena, key, array, 3, 4, ascending), 0);
    // the match lies just past the records that are scanned
    store_ints(&mut arena, key, &[3]);
    assert_eq!(bsearch(&arena, key, array, 2, 4, ascending), 0);
    assert_eq!(bsearch(&arena, key, array, 0, 4, ascending), 0);
}

#[test]
fn search_ignores_degenerate_arguments() {
    let mut arena = Arena::new(256);
    let array = malloc(&mut arena, 8);
    store_ints(&mut arena, array, &[1, 2]);
    let key = malloc(&mut arena, 4);
    store_ints(&mut arena, key, &[2]);
    assert_eq!(bsearch(&arena, key, array, 2, 4, ascending), array + 4);
    // null key, null base, zero stride
    assert_eq!(bsearch(&arena, 0, array, 2, 4, ascending), 0);
    assert_eq!(bsearch(&arena, key, 0, 2, 4, ascending), 0);
    assert_eq!(bsearch(&arena, key, array, 2, 0, ascending), 0);
    // records outside the block, key outside any block
    assert_eq!(bsearch(&arena, key, array, 3, 4, ascending), 0);
    assert_eq!(bsearch(&arena, 200, array, 2, 4, ascending), 0);
    assert_eq!(bsearch(&arena, key, array, usize::MAX, 4, ascending), 0);
}

#[test]
fn search_hands_the_key_over_up_to_the_end_of_its_block() {
    // the key is longer than a record: the comparator sees all of it
    let mut arena = Arena::new(256);
    let array = malloc(&mut arena, 3);
    assert!(arena.write(array, &[10, 20, 30]));
    let key = malloc(&mut arena, 2);
    assert!(arena.write(key, &[20, 1]));
    let by_first_and_length = |k: &[u8], e: &[u8]| -> i32 {
        if k.len() == 2 && e.len() == 1 {
            i32::from(k[0]) - i32::from(e[0])
        } else {
            1
        }
    };
    assert_eq!(bsearch(&arena, key, array, 3, 1, by_first_and_length), array + 1);
    // from the second byte of the key on, only one byte is left
    assert_eq!(bsearch(&arena, key + 1, array, 3, 1, by_first_and_length), 0);
}

#[test]
fn comparator_is_handed_records_of_the_array_only() {
    let mut arena = Arena::new(256);
    let guard = malloc(&mut arena, 4);
    store_ints(&mut arena, guard, &[-1]);
    let array = malloc(&mut arena, 24);
    let values = [40, 10, 60, 20, 50, 30];
    store_ints(&mut arena, array, &values);
    let after = malloc(&mut arena, 4);
    store_ints(&mut arena, after, &[-2]);
    let only_records = |a: &[u8], b: &[u8]| -> i32 {
        assert_eq!(a.len(), 4);
        assert_eq!(b.len(), 4);
        assert!(values.contains(&int_at(a)));
        assert!(values.contains(&int_at(b)));
        ascending(a, b)
    };
    qsort(&mut arena, array, 6, 4, only_records);
    assert_eq!(load_ints(&arena, array, 6), vec![10, 20, 30, 40, 50, 60]);
    let key_and_records = |k: &[u8], e: &[u8]| -> i32 {
        assert_eq!(int_at(k), -2);
        assert!(values.contains(&int_at(e)));
        i32::from(int_at(e) != 50)
    };
    assert_eq!(bsearch(&arena, after, array, 6, 4, key_and_records), array + 16);
}
