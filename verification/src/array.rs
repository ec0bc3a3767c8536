//! Comparator-driven sort and search over fixed-stride records that lie in
//! the payload of a block of an [`Arena`].
//!
//! A comparator is any function of two records, given as byte slices, that
//! returns a negative number, zero or a positive number when the first
//! record is less than, equal to or greater than the second.

use crate::arena::{lemma_accessible_in_memory, lemma_accessible_within, Arena, ArenaView};
use vstd::prelude::*;

verus! {

/// Whether `r` is an answer that `compar` can give when asked about the
/// records `a` and `b`.
pub open spec fn may_answer<F: Fn(&[u8], &[u8]) -> i32>(
    compar: F,
    a: Seq<u8>,
    b: Seq<u8>,
    r: i32,
) -> bool {
    exists|x: &[u8], y: &[u8]| x@ == a && y@ == b && #[trigger] call_ensures(compar, (x, y), r)
}

/// `compar` computes `order` on records of `size` bytes: whatever it returns
/// for two such records is the value of `order` on their bytes.
pub open spec fn computes<F: Fn(&[u8], &[u8]) -> i32>(
    compar: F,
    order: spec_fn(Seq<u8>, Seq<u8>) -> int,
    size: nat,
) -> bool {
    forall|x: &[u8], y: &[u8], r: i32|
        x@.len() == size && y@.len() == size && #[trigger] call_ensures(compar, (x, y), r) ==> r
            == order(x@, y@)
}

/// `compar` computes `order` wherever `key` is compared with a record of
/// `size` bytes.
pub open spec fn computes_for_key<F: Fn(&[u8], &[u8]) -> i32>(
    compar: F,
    order: spec_fn(Seq<u8>, Seq<u8>) -> int,
    key: Seq<u8>,
    size: nat,
) -> bool {
    forall|x: &[u8], y: &[u8], r: i32|
        x@ == key && y@.len() == size && #[trigger] call_ensures(compar, (x, y), r) ==> r
            == order(x@, y@)
}

/// `order` orders all records of `size` bytes totally, where a value that
/// is negative, zero or positive says that the first record is less than,
/// equal to or greater than the second: of any two records one does not
/// come after the other, and not coming after is transitive. Records that
/// differ may still compare equal.
pub open spec fn total_order(order: spec_fn(Seq<u8>, Seq<u8>) -> int, size: nat) -> bool {
    &&& forall|a: Seq<u8>, b: Seq<u8>|
        a.len() == size && b.len() == size && #[trigger] order(a, b) > 0 ==> order(b, a) <= 0
    &&& forall|a: Seq<u8>, b: Seq<u8>, c: Seq<u8>|
        a.len() == size && b.len() == size && c.len() == size && #[trigger] order(a, b) <= 0
            && #[trigger] order(b, c) <= 0 ==> order(a, c) <= 0
}

/// `compar` computes the total order `order` on records of `size` bytes.
pub open spec fn arranges<F: Fn(&[u8], &[u8]) -> i32>(
    compar: F,
    order: spec_fn(Seq<u8>, Seq<u8>) -> int,
    size: nat,
) -> bool {
    computes(compar, order, size) && total_order(order, size)
}

/// Record `i` of an array of `size`-byte records that starts at `base`.
pub open spec fn record(memory: Seq<u8>, base: int, size: int, i: int) -> Seq<u8> {
    memory.subrange(base + i * size, base + i * size + size)
}

/// The `count` records of `size` bytes each that start at `base`.
pub open spec fn records(memory: Seq<u8>, base: int, count: int, size: int) -> Seq<Seq<u8>> {
    Seq::new(count as nat, |i: int| record(memory, base, size, i))
}

/// No record comes after a later one under `order`.
pub open spec fn sorted(order: spec_fn(Seq<u8>, Seq<u8>) -> int, recs: Seq<Seq<u8>>) -> bool {
    forall|p: int, q: int| 0 <= p < q < recs.len() ==> #[trigger] order(recs[p], recs[q]) <= 0
}

/// `recs` with the records at `i` and `j` exchanged.
pub open spec fn exchanged(recs: Seq<Seq<u8>>, i: int, j: int) -> Seq<Seq<u8>> {
    recs.update(i, recs[j]).update(j, recs[i])
}

/// `memory` with the `len` bytes at `a` and the `len` bytes at `b` exchanged.
pub open spec fn swapped(memory: Seq<u8>, a: int, b: int, len: int) -> Seq<u8> {
    Seq::new(
        memory.len(),
        |i: int|
            if a <= i < a + len {
                memory[i - a + b]
            } else if b <= i < b + len {
                memory[i - b + a]
            } else {
                memory[i]
            },
    )
}

/// Whether `qsort` has anything to order: the base is not null, there are at
/// least two records, the stride is not zero, and the records lie in one
/// payload that is handed out.
pub open spec fn sortable(arena: ArenaView, base: usize, nmemb: usize, size: usize) -> bool {
    &&& base != 0
    &&& nmemb > 1
    &&& size != 0
    &&& nmemb * size <= usize::MAX
    &&& arena.accessible(base, (nmemb * size) as usize)
}

/// Whether `bsearch` has anything to scan: neither the key nor the base is
/// null, the stride is not zero, the key lies in a payload that is handed
/// out, and so do the records.
pub open spec fn searchable(
    arena: ArenaView,
    key: usize,
    base: usize,
    nmemb: usize,
    size: usize,
) -> bool {
    &&& key != 0
    &&& base != 0
    &&& size != 0
    &&& nmemb * size <= usize::MAX
    &&& arena.owner(key) is Some
    &&& arena.accessible(base, (nmemb * size) as usize)
}

/// Index of the first record at or after `from` that `order` finds equal
/// to `key`, the key standing first.
pub open spec fn first_match(
    order: spec_fn(Seq<u8>, Seq<u8>) -> int,
    key: Seq<u8>,
    recs: Seq<Seq<u8>>,
    from: int,
) -> Option<int>
    decreases recs.len() - from,
{
    if from < 0 || from >= recs.len() {
        None
    } else if order(key, recs[from]) == 0 {
        Some(from)
    } else {
        first_match(order, key, recs, from + 1)
    }
}

/// Slot `i` of `count` slots of `size` bytes lies inside the array.
pub proof fn lemma_slot_bounds(i: int, count: int, size: int)
    by (nonlinear_arith)
    requires
        0 <= i < count,
        0 < size,
    ensures
        0 <= i * size,
        i * size + size <= count * size,
        (i + 1) * size == i * size + size,
{
}

/// An earlier slot ends before a later one starts.
pub proof fn lemma_slots_apart(p: int, q: int, size: int)
    by (nonlinear_arith)
    requires
        0 <= p < q,
        0 < size,
    ensures
        0 <= p * size,
        p * size + size <= q * size,
{
}

/// Exchanging two records does not change which records there are.
pub proof fn lemma_exchanged_multiset(recs: Seq<Seq<u8>>, i: int, j: int)
    requires
        0 <= i < recs.len(),
        0 <= j < recs.len(),
    ensures
        exchanged(recs, i, j).to_multiset() == recs.to_multiset(),
{
    broadcast use vstd::seq_lib::to_multiset_update;

    recs.to_multiset_ensures();
    let mid = recs.update(i, recs[j]);
    assert(mid.to_multiset() == recs.to_multiset().insert(recs[j]).remove(recs[i]));
    assert(mid[j] == recs[j]);
    assert(exchanged(recs, i, j).to_multiset() == mid.to_multiset().insert(recs[i]).remove(
        recs[j],
    ));
    assert(exchanged(recs, i, j).to_multiset() =~= recs.to_multiset());
}

/// Every record of an array that lies inside the memory has `size` bytes.
pub proof fn lemma_record_len(memory: Seq<u8>, base: int, count: int, size: int)
    requires
        0 <= base,
        0 < size,
        0 <= count,
        base + count * size <= memory.len(),
    ensures
        forall|p: int|
            0 <= p < count ==> (#[trigger] records(memory, base, count, size)[p]).len() == size,
{
    assert forall|p: int| 0 <= p < count implies (#[trigger] records(
        memory,
        base,
        count,
        size,
    )[p]).len() == size by {
        lemma_slot_bounds(p, count, size);
    }
}

/// Exchanging the bytes of two neighbouring slots exchanges those two
/// records and leaves every other record and every byte outside the two
/// slots as it was.
pub proof fn lemma_swapped_records(memory: Seq<u8>, base: int, count: int, size: int, j: int)
    requires
        0 <= base,
        0 < size,
        0 <= j,
        j + 1 < count,
        base + count * size <= memory.len(),
    ensures
        records(
            swapped(memory, base + j * size, base + j * size + size, size),
            base,
            count,
            size,
        ) == exchanged(records(memory, base, count, size), j, j + 1),
        forall|i: int|
            0 <= i < memory.len() && !(base <= i < base + count * size) ==> swapped(
                memory,
                base + j * size,
                base + j * size + size,
                size,
            )[i] == memory[i],
{
    let a = base + j * size;
    let b = a + size;
    let next = swapped(memory, a, b, size);
    let before = records(memory, base, count, size);
    let after = records(next, base, count, size);
    let expected = exchanged(before, j, j + 1);
    lemma_slot_bounds(j, count, size);
    lemma_slot_bounds(j + 1, count, size);
    assert forall|p: int| 0 <= p < count implies after[p] == expected[p] by {
        lemma_slot_bounds(p, count, size);
        if p < j {
            lemma_slots_apart(p, j, size);
        } else if p > j + 1 {
            lemma_slots_apart(j + 1, p, size);
        }
        assert(after[p] =~= expected[p]);
    }
    assert(after =~= expected);
}

/// No record before `from` comes after a record at or past `from`, and the
/// records from `from` on are in order.
pub open spec fn settled(
    order: spec_fn(Seq<u8>, Seq<u8>) -> int,
    recs: Seq<Seq<u8>>,
    from: int,
) -> bool {
    forall|p: int, q: int|
        0 <= p < q < recs.len() && from <= q ==> #[trigger] order(recs[p], recs[q]) <= 0
}

/// The record at `j` comes after none of the records up to it.
pub open spec fn bubbled(order: spec_fn(Seq<u8>, Seq<u8>) -> int, recs: Seq<Seq<u8>>, j: int) -> bool {
    forall|p: int| 0 <= p <= j ==> #[trigger] order(recs[p], recs[j]) <= 0
}

/// One step of a bubbling pass. Records from `from` on are in their final
/// places and no earlier record comes after them; the record at `j` comes
/// after none of the records before it. After the records at `j` and `j + 1`
/// are exchanged where the first comes after the second, the same holds
/// with `j + 1` in place of `j`.
pub proof fn lemma_bubble_step(
    order: spec_fn(Seq<u8>, Seq<u8>) -> int,
    recs: Seq<Seq<u8>>,
    size: nat,
    j: int,
    from: int,
)
    requires
        total_order(order, size),
        forall|p: int| 0 <= p < recs.len() ==> (#[trigger] recs[p]).len() == size,
        0 <= j,
        j + 1 < from <= recs.len(),
        settled(order, recs, from),
        bubbled(order, recs, j),
    ensures
        ({
            let next = if order(recs[j], recs[j + 1]) > 0 {
                exchanged(recs, j, j + 1)
            } else {
                recs
            };
            settled(order, next, from) && bubbled(order, next, j + 1)
        }),
{
    let first = recs[j];
    let second = recs[j + 1];
    let r = order(first, second);
    assert(order(first, first) <= 0);
    assert(order(second, second) <= 0);
    if r > 0 {
        let next = exchanged(recs, j, j + 1);
        assert(order(second, first) <= 0);
        assert forall|p: int| 0 <= p <= j + 1 implies #[trigger] order(next[p], next[j + 1])
            <= 0 by {
            if p < j {
                assert(order(recs[p], recs[j]) <= 0);
            }
        }
        assert forall|p: int, q: int| 0 <= p < q < next.len() && from <= q implies #[trigger] order(
            next[p],
            next[q],
        ) <= 0 by {
            if p == j {
                assert(order(recs[j + 1], recs[q]) <= 0);
            } else if p == j + 1 {
                assert(order(recs[j], recs[q]) <= 0);
            } else {
                assert(order(recs[p], recs[q]) <= 0);
            }
        }
    } else {
        assert forall|p: int| 0 <= p <= j + 1 implies #[trigger] order(recs[p], recs[j + 1])
            <= 0 by {
            if p <= j {
                assert(order(recs[p], first) <= 0);
                assert(order(first, second) <= 0);
            }
        }
    }
}

/// What `first_match` finds is the first record from `from` on that `order`
/// finds equal to `key`.
pub proof fn lemma_first_match(
    order: spec_fn(Seq<u8>, Seq<u8>) -> int,
    key: Seq<u8>,
    recs: Seq<Seq<u8>>,
    from: int,
)
    requires
        0 <= from,
    ensures
        match first_match(order, key, recs, from) {
            Some(i) => from <= i < recs.len() && order(key, recs[i]) == 0 && forall|j: int|
                from <= j < i ==> #[trigger] order(key, recs[j]) != 0,
            None => forall|j: int| from <= j < recs.len() ==> #[trigger] order(key, recs[j]) != 0,
        },
    decreases recs.len() - from,
{
    if from < recs.len() && order(key, recs[from]) != 0 {
        lemma_first_match(order, key, recs, from + 1);
    }
}

/// In a sorted array no record comes after its right neighbour.
pub proof fn lemma_sorted_adjacent(
    order: spec_fn(Seq<u8>, Seq<u8>) -> int,
    recs: Seq<Seq<u8>>,
    i: int,
)
    requires
        sorted(order, recs),
        0 <= i,
        i + 1 < recs.len(),
    ensures
        order(recs[i], recs[i + 1]) <= 0,
{
}

/// A key that matches exactly one record is found at that record.
pub proof fn lemma_search_unique(
    order: spec_fn(Seq<u8>, Seq<u8>) -> int,
    key: Seq<u8>,
    recs: Seq<Seq<u8>>,
    i: int,
)
    requires
        0 <= i < recs.len(),
        order(key, recs[i]) == 0,
        forall|j: int| 0 <= j < recs.len() && j != i ==> #[trigger] order(key, recs[j]) != 0,
    ensures
        first_match(order, key, recs, 0) == Some(i),
{
    lemma_first_match(order, key, recs, 0);
}

/// A key that matches no record is not found.
pub proof fn lemma_search_absent(
    order: spec_fn(Seq<u8>, Seq<u8>) -> int,
    key: Seq<u8>,
    recs: Seq<Seq<u8>>,
)
    requires
        forall|j: int| 0 <= j < recs.len() ==> #[trigger] order(key, recs[j]) != 0,
    ensures
        first_match(order, key, recs, 0) is None,
{
    lemma_first_match(order, key, recs, 0);
}

/// A key that matches a record anywhere in the array, sorted or not, is
/// found: at the first record that matches it.
pub proof fn lemma_search_present(
    order: spec_fn(Seq<u8>, Seq<u8>) -> int,
    key: Seq<u8>,
    recs: Seq<Seq<u8>>,
    i: int,
)
    requires
        0 <= i < recs.len(),
        order(key, recs[i]) == 0,
    ensures
        first_match(order, key, recs, 0) is Some,
        first_match(order, key, recs, 0)->0 <= i,
        order(key, recs[first_match(order, key, recs, 0)->0]) == 0,
{
    lemma_first_match(order, key, recs, 0);
}

/// Exchanges the `size` bytes at `a` with the `size` bytes at `b`, byte by
/// byte.
fn swap_records(arena: &mut Arena, a: usize, b: usize, size: usize)
    requires
        old(arena).wf(),
        old(arena)@.accessible(a, size),
        old(arena)@.accessible(b, size),
        a + size <= b,
    ensures
        final(arena).wf(),
        final(arena)@.blocks == old(arena)@.blocks,
        final(arena)@.memory == swapped(old(arena)@.memory, a as int, b as int, size as int),
{
    proof {
        lemma_accessible_in_memory(arena@, a, size);
        lemma_accessible_in_memory(arena@, b, size);
        assert(arena@.memory =~= swapped(old(arena)@.memory, a as int, b as int, 0));
    }
    let mut k: usize = 0;
    while k < size
        invariant
            k <= size,
            arena.wf(),
            old(arena).wf(),
            arena@.blocks == old(arena)@.blocks,
            old(arena)@.accessible(a, size),
            old(arena)@.accessible(b, size),
            a + size <= b,
            b + size <= old(arena)@.memory.len(),
            arena@.memory == swapped(old(arena)@.memory, a as int, b as int, k as int),
        decreases size - k,
    {
        proof {
            lemma_accessible_within(old(arena)@, a, size, (a + k) as usize, 1);
            lemma_accessible_within(old(arena)@, b, size, (b + k) as usize, 1);
        }
        let pa = a + k;
        let pb = b + k;
        let tmp = arena.load(pa);
        let other = arena.load(pb);
        arena.store(pa, other);
        arena.store(pb, tmp);
        k = k + 1;
        proof {
            assert(arena@.memory =~= swapped(old(arena)@.memory, a as int, b as int, k as int));
        }
    }
}

/// Sorts the `nmemb` records of `size` bytes each that start at `base`, in
/// place, so that no record comes after a later one under `compar`.
///
/// Nothing happens when `base` is null, `nmemb` is at most one, `size` is
/// zero, or the records do not lie in one payload that is handed out.
/// Otherwise the records are rearranged among themselves: the array holds
/// the same records as before, each as often as before, and no byte
/// outside the array changes. Where `compar` computes a total order, the
/// result is sorted under that order. Records that compare equal may end in
/// any order. The comparator is handed records of the array only.
pub fn qsort<F: Fn(&[u8], &[u8]) -> i32>(
    arena: &mut Arena,
    base: usize,
    nmemb: usize,
    size: usize,
    compar: F,
)
    requires
        old(arena).wf(),
        sortable(old(arena)@, base, nmemb, size) ==> forall|x: &[u8], y: &[u8]|
            records(old(arena)@.memory, base as int, nmemb as int, size as int).contains(x@)
                && records(old(arena)@.memory, base as int, nmemb as int, size as int).contains(
                y@,
            ) ==> call_requires(compar, (x, y)),
    ensures
        final(arena).wf(),
        final(arena)@.blocks == old(arena)@.blocks,
        final(arena)@.memory.len() == old(arena)@.memory.len(),
        !sortable(old(arena)@, base, nmemb, size) ==> final(arena)@ == old(arena)@,
        nmemb <= 1 ==> final(arena)@ == old(arena)@,
        sortable(old(arena)@, base, nmemb, size) ==> {
            &&& forall|i: int|
                0 <= i < old(arena)@.memory.len() && !(base <= i < base + nmemb * size)
                    ==> final(arena)@.memory[i] == old(arena)@.memory[i]
            &&& records(final(arena)@.memory, base as int, nmemb as int, size as int).to_multiset()
                == records(old(arena)@.memory, base as int, nmemb as int, size as int).to_multiset()
            &&& forall|order: spec_fn(Seq<u8>, Seq<u8>) -> int| #[trigger]
                arranges(compar, order, size as nat) ==> sorted(
                    order,
                    records(final(arena)@.memory, base as int, nmemb as int, size as int),
                )
        },
{
    if base == 0 || nmemb <= 1 || size == 0 {
        return ;
    }
    let total = match nmemb.checked_mul(size) {
        Some(total) => total,
        None => {
            return ;
        },
    };
    if !arena.accessible(base, total) {
        return ;
    }
    let ghost before = arena@;
    proof {
        lemma_accessible_in_memory(before, base, total);
    }
    let mut i: usize = 0;
    while i < nmemb
        invariant
            i <= nmemb,
            1 < nmemb,
            0 < size,
            total == nmemb * size,
            before == old(arena)@,
            before.wf(),
            before.accessible(base, total),
            base + total <= before.memory.len(),
            forall|x: &[u8], y: &[u8]|
                records(before.memory, base as int, nmemb as int, size as int).contains(x@)
                    && records(before.memory, base as int, nmemb as int, size as int).contains(
                    y@,
                ) ==> call_requires(compar, (x, y)),
            arena.wf(),
            arena@.blocks == before.blocks,
            arena@.memory.len() == before.memory.len(),
            forall|t: int|
                0 <= t < before.memory.len() && !(base <= t < base + total) ==> arena@.memory[t]
                    == before.memory[t],
            records(arena@.memory, base as int, nmemb as int, size as int).to_multiset()
                == records(before.memory, base as int, nmemb as int, size as int).to_multiset(),
            forall|order: spec_fn(Seq<u8>, Seq<u8>) -> int| #[trigger]
                arranges(compar, order, size as nat) ==> settled(
                    order,
                    records(arena@.memory, base as int, nmemb as int, size as int),
                    nmemb - i,
                ),
        decreases nmemb - i,
    {
        let mut j: usize = 0;
        proof {
            let recs = records(arena@.memory, base as int, nmemb as int, size as int);
            lemma_record_len(arena@.memory, base as int, nmemb as int, size as int);
            assert forall|order: spec_fn(Seq<u8>, Seq<u8>) -> int| #[trigger]
                arranges(compar, order, size as nat) implies bubbled(order, recs, 0) by {
                assert(order(recs[0], recs[0]) <= 0);
            }
        }
        while j < nmemb - 1 - i
            invariant
                i < nmemb,
                j <= nmemb - 1 - i,
                0 < size,
                total == nmemb * size,
                before.wf(),
                before.accessible(base, total),
                base + total <= before.memory.len(),
                forall|x: &[u8], y: &[u8]|
                    records(before.memory, base as int, nmemb as int, size as int).contains(x@)
                        && records(
                        before.memory,
                        base as int,
                        nmemb as int,
                        size as int,
                    ).contains(y@) ==> call_requires(compar, (x, y)),
                arena.wf(),
                arena@.blocks == before.blocks,
                arena@.memory.len() == before.memory.len(),
                forall|t: int|
                    0 <= t < before.memory.len() && !(base <= t < base + total)
                        ==> arena@.memory[t] == before.memory[t],
                records(arena@.memory, base as int, nmemb as int, size as int).to_multiset()
                    == records(
                    before.memory,
                    base as int,
                    nmemb as int,
                    size as int,
                ).to_multiset(),
                forall|order: spec_fn(Seq<u8>, Seq<u8>) -> int| #[trigger]
                    arranges(compar, order, size as nat) ==> settled(
                        order,
                        records(arena@.memory, base as int, nmemb as int, size as int),
                        nmemb - i,
                    ) && bubbled(
                        order,
                        records(arena@.memory, base as int, nmemb as int, size as int),
                        j as int,
                    ),
            decreases nmemb - 1 - i - j,
        {
            let ghost here = arena@;
            let ghost recs = records(here.memory, base as int, nmemb as int, size as int);
            proof {
                lemma_slot_bounds(j as int, nmemb as int, size as int);
                lemma_slot_bounds(j + 1, nmemb as int, size as int);
                lemma_record_len(here.memory, base as int, nmemb as int, size as int);
            }
            let a = base + j * size;
            let b = a + size;
            proof {
                lemma_accessible_within(here, base, total, a, size);
                lemma_accessible_within(here, base, total, b, size);
            }
            let first = arena.slice(a, size);
            let second = arena.slice(b, size);
            proof {
                let start = records(before.memory, base as int, nmemb as int, size as int);
                assert(first@ == recs[j as int]);
                assert(second@ =~= recs[j + 1]);
                recs.to_multiset_ensures();
                start.to_multiset_ensures();
                assert(recs.contains(recs[j as int]));
                assert(recs.contains(recs[j + 1]));
                assert(recs.to_multiset().count(recs[j as int]) > 0);
                assert(recs.to_multiset().count(recs[j + 1]) > 0);
                assert(start.to_multiset().count(recs[j as int]) > 0);
                assert(start.to_multiset().count(recs[j + 1]) > 0);
                assert(start.contains(recs[j as int]));
                assert(start.contains(recs[j + 1]));
                assert(start.contains(first@));
                assert(start.contains(second@));
            }
            let r = compar(first, second);
            proof {
                assert forall|order: spec_fn(Seq<u8>, Seq<u8>) -> int| #[trigger]
                    arranges(compar, order, size as nat) implies r == order(
                    recs[j as int],
                    recs[j + 1],
                ) by {
                    assert(call_ensures(compar, (first, second), r));
                }
            }
            if r > 0 {
                swap_records(arena, a, b, size);
                proof {
                    lemma_swapped_records(
                        here.memory,
                        base as int,
                        nmemb as int,
                        size as int,
                        j as int,
                    );
                    lemma_exchanged_multiset(recs, j as int, j + 1);
                }
            }
            proof {
                let next = records(arena@.memory, base as int, nmemb as int, size as int);
                assert forall|order: spec_fn(Seq<u8>, Seq<u8>) -> int| #[trigger]
                    arranges(compar, order, size as nat) implies settled(order, next, nmemb - i)
                    && bubbled(order, next, j + 1) by {
                    assert(r == order(recs[j as int], recs[j + 1]));
                    lemma_bubble_step(order, recs, size as nat, j as int, nmemb - i);
                }
            }
            j = j + 1;
        }
        i = i + 1;
    }
}

/// Scans the `nmemb` records of `size` bytes each that start at `base` for
/// one that matches the key stored at `key`, and returns the address of the
/// first such record, or the null address `0` when there is none.
///
/// A record matches when `compar`, called with the key first and the record
/// second, returns zero. The key is handed to `compar` as the bytes from
/// `key` to the end of the payload that contains it. The records need not be
/// sorted; the comparator is handed the key and records of the array only.
/// The null address is returned without a scan when `key` or `base`
/// is null, `size` is zero, or the key or the records do not lie in a
/// payload that is handed out.
pub fn bsearch<F: Fn(&[u8], &[u8]) -> i32>(
    arena: &Arena,
    key: usize,
    base: usize,
    nmemb: usize,
    size: usize,
    compar: F,
) -> (found: usize)
    requires
        arena.wf(),
        searchable(arena@, key, base, nmemb, size) ==> forall|x: &[u8], y: &[u8]|
            x@ == arena@.tail(key) && records(
                arena@.memory,
                base as int,
                nmemb as int,
                size as int,
            ).contains(y@) ==> call_requires(compar, (x, y)),
    ensures
        !searchable(arena@, key, base, nmemb, size) ==> found == 0,
        found != 0 ==> exists|i: int|
            0 <= i < nmemb && found == base + i * size && #[trigger] may_answer(
                compar,
                arena@.tail(key),
                record(arena@.memory, base as int, size as int, i),
                0,
            ),
        searchable(arena@, key, base, nmemb, size) ==> forall|
            order: spec_fn(Seq<u8>, Seq<u8>) -> int,
        | #[trigger]
            computes_for_key(compar, order, arena@.tail(key), size as nat) ==> found
                == match first_match(
                order,
                arena@.tail(key),
                records(arena@.memory, base as int, nmemb as int, size as int),
                0,
            ) {
                Some(i) => base + i * size,
                None => 0,
            },
{
    if key == 0 || base == 0 || size == 0 {
        return 0;
    }
    let total = match nmemb.checked_mul(size) {
        Some(total) => total,
        None => {
            return 0;
        },
    };
    let wanted = match arena.tail(key) {
        Some(wanted) => wanted,
        None => {
            return 0;
        },
    };
    if !arena.accessible(base, total) {
        return 0;
    }
    let ghost recs = records(arena@.memory, base as int, nmemb as int, size as int);
    proof {
        lemma_accessible_in_memory(arena@, base, total);
    }
    let mut i: usize = 0;
    while i < nmemb
        invariant
            i <= nmemb,
            0 < size,
            base != 0,
            key != 0,
            arena@.owner(key) is Some,
            total == nmemb * size,
            arena.wf(),
            arena@.accessible(base, total),
            base + total <= arena@.memory.len(),
            wanted@ == arena@.tail(key),
            recs == records(arena@.memory, base as int, nmemb as int, size as int),
            forall|x: &[u8], y: &[u8]|
                x@ == arena@.tail(key) && recs.contains(y@) ==> call_requires(compar, (x, y)),
            forall|order: spec_fn(Seq<u8>, Seq<u8>) -> int| #[trigger]
                computes_for_key(compar, order, wanted@, size as nat) ==> first_match(
                    order,
                    wanted@,
                    recs,
                    0,
                ) == first_match(order, wanted@, recs, i as int),
        decreases nmemb - i,
    {
        proof {
            lemma_slot_bounds(i as int, nmemb as int, size as int);
        }
        let current = base + i * size;
        proof {
            lemma_accessible_within(arena@, base, total, current, size);
        }
        let slot = arena.slice(current, size);
        proof {
            assert(slot@ == recs[i as int]);
            assert(recs.contains(slot@));
        }
        let r = compar(wanted, slot);
        proof {
            assert(call_ensures(compar, (wanted, slot), r));
            assert(may_answer(compar, wanted@, recs[i as int], r));
            assert forall|order: spec_fn(Seq<u8>, Seq<u8>) -> int| #[trigger]
                computes_for_key(compar, order, wanted@, size as nat) implies r == order(
                wanted@,
                recs[i as int],
            ) by {
                assert(call_ensures(compar, (wanted, slot), r));
            }
        }
        if r == 0 {
            return current;
        }
        i = i + 1;
    }
    0
}

} // verus!
