use wasm_shim::arena::Arena;
use wasm_shim::heap::{calloc, free, malloc};
use wasm_shim::layout::{allocation_layout, read_word, word_size, write_word, Layout};

#[test]
fn layout_adds_one_header_width() {
    let width = word_size();
    assert_eq!(width, std::mem::size_of::<usize>());
    assert_eq!(allocation_layout(40), Some(Layout { size: 40 + width, align: width }));
    assert_eq!(allocation_layout(1), Some(Layout { size: 1 + width, align: width }));
}

#[test]
fn layout_of_empty_payload_is_one_header() {
    let width = word_size();
    assert_eq!(allocation_layout(0), Some(Layout { size: width, align: width }));
}

#[test]
fn layout_fails_on_overflow() {
    assert_eq!(allocation_layout(usize::MAX), None);
    assert_eq!(allocation_layout(usize::MAX - word_size() + 1), None);
    assert_eq!(
        allocation_layout(usize::MAX - word_size()),
        Some(Layout { size: usize::MAX, align: word_size() })
    );
}

#[test]
fn header_word_is_little_endian() {
    let mut memory = vec![0xaau8; 32];
    write_word(&mut memory, 8, 0x0102_0304);
    assert_eq!(read_word(&memory, 8), 0x0102_0304);
    assert_eq!(&memory[8..12], &[0x04, 0x03, 0x02, 0x01]);
    assert_eq!(memory[7], 0xaa);
    assert_eq!(memory[8 + word_size()], 0xaa);
    for k in 12..8 + word_size() {
        assert_eq!(memory[k], 0);
    }
}

#[test]
fn header_word_round_trips_extremes() {
    let mut memory = vec![0u8; 16];
    write_word(&mut memory, 0, usize::MAX);
    assert_eq!(read_word(&memory, 0), usize::MAX);
    assert!(memory[..word_size()].iter().all(|b| *b == 0xff));
    write_word(&mut memory, 0, 0);
    assert_eq!(read_word(&memory, 0), 0);
}

#[test]
fn new_arena_is_zeroed_and_empty() {
    let arena = Arena::new(64);
    assert_eq!(arena.capacity(), 64);
    assert!(!arena.accessible(0, 0));
    assert!(!arena.accessible(8, 1));
    assert_eq!(arena.read(8, 4), None);
    assert_eq!(arena.locate(8), None);
    assert_eq!(arena.find(8), None);
}

#[test]
fn malloc_returns_aligned_payload_behind_header() {
    let width = word_size();
    let mut arena = Arena::new(1024);
    let p = malloc(&mut arena, 40);
    assert_eq!(p, width);
    assert_eq!(p % width, 0);
    assert_eq!(arena.payload_size(p), Some(40));
    assert!(arena.accessible(p, 40));
    assert!(!arena.accessible(p, 41));
    assert_eq!(arena.find(p), Some(0));
}

#[test]
fn malloc_places_blocks_one_after_another() {
    let width = word_size();
    let mut arena = Arena::new(1024);
    let p = malloc(&mut arena, 5);
    let q = malloc(&mut arena, 16);
    assert_eq!(p, width);
    // the first block ends at 5 + width; the next starts on the next boundary
    let second_base = (5 + width + width - 1) / width * width;
    assert_eq!(q, second_base + width);
    assert_eq!(q % width, 0);
    assert_eq!(arena.payload_size(q), Some(16));
    assert_eq!(arena.find(q), Some(1));
}

#[test]
fn payload_is_writable_and_readable() {
    let mut arena = Arena::new(256);
    let p = malloc(&mut arena, 8);
    assert_ne!(p, 0);
    assert!(arena.write(p, &[1, 2, 3, 4, 5, 6, 7, 8]));
    assert_eq!(arena.read(p, 8), Some(vec![1, 2, 3, 4, 5, 6, 7, 8]));
    assert_eq!(arena.read(p + 2, 3), Some(vec![3, 4, 5]));
    assert!(arena.write(p + 1, &[99]));
    assert_eq!(arena.read(p, 3), Some(vec![1, 99, 3]));
    assert!(arena.write(p + 8, &[]));
    assert_eq!(arena.read(p + 8, 0), Some(vec![]));
}

#[test]
fn writes_do_not_reach_adjacent_blocks() {
    let width = word_size();
    let mut arena = Arena::new(256);
    let p = malloc(&mut arena, 8);
    let q = malloc(&mut arena, 8);
    let r = malloc(&mut arena, 8);
    assert!(arena.write(p, &[0x11; 8]));
    assert!(arena.write(r, &[0x33; 8]));
    assert!(arena.write(q, &[0x22; 8]));
    assert_eq!(arena.read(p, 8), Some(vec![0x11; 8]));
    assert_eq!(arena.read(q, 8), Some(vec![0x22; 8]));
    assert_eq!(arena.read(r, 8), Some(vec![0x33; 8]));
    assert_eq!(arena.payload_size(p), Some(8));
    assert_eq!(arena.payload_size(q), Some(8));
    assert_eq!(arena.payload_size(r), Some(8));
}

#[test]
fn write_outside_a_payload_is_refused() {
    let width = word_size();
    let mut arena = Arena::new(256);
    let p = malloc(&mut arena, 8);
    // one byte too many
    assert!(!arena.write(p, &[7; 9]));
    assert_eq!(arena.read(p, 8), Some(vec![0; 8]));
    // into the header
    assert!(!arena.write(p - 1, &[7]));
    assert_eq!(arena.payload_size(p), Some(8));
    // past every block
    assert!(!arena.write(200, &[7]));
    assert_eq!(arena.read(p, 9), None);
    assert_eq!(arena.read(0, 1), None);
}

#[test]
fn tail_reaches_to_the_end_of_the_payload() {
    let mut arena = Arena::new(256);
    let p = malloc(&mut arena, 6);
    assert!(arena.write(p, &[1, 2, 3, 4, 5, 6]));
    assert_eq!(arena.tail(p), Some(&[1u8, 2, 3, 4, 5, 6][..]));
    assert_eq!(arena.tail(p + 4), Some(&[5u8, 6][..]));
    assert_eq!(arena.tail(p + 6), Some(&[][..]));
    assert_eq!(arena.tail(p + 7), None);
    assert_eq!(arena.tail(0), None);
}

#[test]
fn zero_size_allocation_is_a_block_of_its_own() {
    let width = word_size();
    let mut arena = Arena::new(64);
    let p = malloc(&mut arena, 0);
    let q = malloc(&mut arena, 0);
    assert_eq!(p, width);
    assert_eq!(q, 2 * width);
    assert_eq!(arena.payload_size(p), Some(0));
    assert!(arena.accessible(p, 0));
    assert!(!arena.accessible(p, 1));
    free(&mut arena, p);
    assert_eq!(arena.find(p), None);
    assert_eq!(arena.find(q), Some(1));
    assert_eq!(malloc(&mut arena, 0), p);
}

#[test]
fn malloc_fails_on_overflowing_size() {
    let mut arena = Arena::new(64);
    assert_eq!(malloc(&mut arena, usize::MAX), 0);
    assert_eq!(malloc(&mut arena, usize::MAX - word_size() + 1), 0);
    // nothing was carved
    assert_eq!(malloc(&mut arena, 8), word_size());
}

#[test]
fn malloc_fails_when_the_arena_is_exhausted() {
    let width = word_size();
    let mut arena = Arena::new(64);
    assert_eq!(malloc(&mut arena, 64), 0);
    assert_eq!(malloc(&mut arena, 64 - width + 1), 0);
    let p = malloc(&mut arena, 64 - width);
    assert_eq!(p, width);
    assert_eq!(malloc(&mut arena, 0), 0);
    assert!(arena.accessible(p, 64 - width));
}

#[test]
fn free_then_malloc_of_the_same_size_succeeds() {
    let width = word_size();
    let mut arena = Arena::new(64);
    let p = malloc(&mut arena, 64 - width);
    assert_ne!(p, 0);
    assert_eq!(malloc(&mut arena, 64 - width), 0);
    free(&mut arena, p);
    assert!(!arena.accessible(p, 1));
    let q = malloc(&mut arena, 64 - width);
    assert_eq!(q, p);
    assert_eq!(arena.payload_size(q), Some(64 - width));
}

#[test]
fn freed_block_is_reused_only_for_its_own_size() {
    let width = word_size();
    let mut arena = Arena::new(256);
    let p = malloc(&mut arena, 16);
    let q = malloc(&mut arena, 16);
    free(&mut arena, p);
    // another size goes to fresh memory
    let r = malloc(&mut arena, 8);
    assert_eq!(r, q + 16 + width);
    // the same size takes the freed block
    let s = malloc(&mut arena, 16);
    assert_eq!(s, p);
}

#[test]
fn free_of_null_changes_nothing() {
    let width = word_size();
    let mut arena = Arena::new(64);
    let p = malloc(&mut arena, 4);
    assert!(arena.write(p, &[9, 8, 7, 6]));
    free(&mut arena, 0);
    assert_eq!(arena.find(p), Some(0));
    assert_eq!(arena.read(p, 4), Some(vec![9, 8, 7, 6]));
    assert_eq!(arena.payload_size(p), Some(4));
}

#[test]
fn free_of_an_address_that_is_no_payload_changes_nothing() {
    let mut arena = Arena::new(64);
    let p = malloc(&mut arena, 8);
    free(&mut arena, p + 1);
    free(&mut arena, p - 1);
    free(&mut arena, 60);
    free(&mut arena, usize::MAX);
    assert_eq!(arena.find(p), Some(0));
    assert!(arena.accessible(p, 8));
}

#[test]
fn free_twice_is_harmless() {
    let mut arena = Arena::new(64);
    let p = malloc(&mut arena, 8);
    let q = malloc(&mut arena, 8);
    free(&mut arena, p);
    free(&mut arena, p);
    assert_eq!(arena.find(p), None);
    assert_eq!(arena.find(q), Some(1));
    assert_eq!(malloc(&mut arena, 8), p);
}

#[test]
fn calloc_returns_zeroed_payload() {
    let width = word_size();
    let mut arena = Arena::new(256);
    // dirty the memory first
    let p = malloc(&mut arena, 40);
    assert!(arena.write(p, &[0xff; 40]));
    free(&mut arena, p);
    let q = calloc(&mut arena, 10, 4);
    assert_eq!(q, p);
    assert_eq!(arena.payload_size(q), Some(40));
    assert_eq!(arena.read(q, 40), Some(vec![0u8; 40]));
}

#[test]
fn malloc_leaves_payload_bytes_as_they_were() {
    let mut arena = Arena::new(256);
    let p = malloc(&mut arena, 4);
    assert!(arena.write(p, &[1, 2, 3, 4]));
    free(&mut arena, p);
    let q = malloc(&mut arena, 4);
    assert_eq!(q, p);
    assert_eq!(arena.read(q, 4), Some(vec![1, 2, 3, 4]));
}

#[test]
fn calloc_fails_on_overflowing_product() {
    let mut arena = Arena::new(256);
    assert_eq!(calloc(&mut arena, usize::MAX, 2), 0);
    assert_eq!(calloc(&mut arena, usize::MAX / 2 + 1, 2), 0);
    assert_eq!(calloc(&mut arena, 2, usize::MAX), 0);
    // a product that fits but whose header overflows
    assert_eq!(calloc(&mut arena, 1, usize::MAX), 0);
    // nothing was carved
    assert_eq!(calloc(&mut arena, 2, 2), word_size());
}

#[test]
fn calloc_of_nothing_is_a_valid_block() {
    let mut arena = Arena::new(64);
    let p = calloc(&mut arena, 0, 16);
    assert_eq!(p, word_size());
    assert!(arena.accessible(p, 0));
    let q = calloc(&mut arena, 16, 0);
    assert_eq!(q, 2 * word_size());
    free(&mut arena, p);
    free(&mut arena, q);
}

#[test]
fn payload_size_is_read_from_the_header() {
    let mut arena = Arena::new(256);
    let p = malloc(&mut arena, 40);
    let q = malloc(&mut arena, 0);
    assert_eq!(arena.payload_size(p), Some(40));
    assert_eq!(arena.payload_size(q), Some(0));
    assert_eq!(arena.payload_size(p + 1), None);
    assert_eq!(arena.payload_size(0), None);
    free(&mut arena, p);
    assert_eq!(arena.payload_size(p), None);
}
