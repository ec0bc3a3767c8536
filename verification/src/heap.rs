//! The heap allocator: `malloc`, `calloc` and `free` over an [`Arena`].
//!
//! Every block that is handed out starts with a header word that holds the
//! size of its payload, so that `free` needs nothing but the payload address.

use crate::arena::{
    first_fit, lemma_accessible_in_memory, lemma_acquired_placed, lemma_first_fit,
    lemma_owner_from, lemma_owner_unique, lemma_retired_wf, lemma_top_bounds, Arena, ArenaView,
    Block,
};
use crate::layout::{
    allocation_layout, header_width, layout_for, lemma_word_bytes_len, lemma_word_limit,
    lemma_word_round_trip, splice, word_bytes, word_size,
};
use vstd::prelude::*;

verus! {

/// `len` zero bytes.
pub open spec fn zeros(len: nat) -> Seq<u8> {
    Seq::new(len, |i: int| 0u8)
}

impl ArenaView {
    /// Index of the block that a request for `total` bytes receives, when
    /// there is a place for it.
    pub open spec fn slot(self, total: int) -> int {
        match first_fit(self.blocks, total, 0) {
            Some(i) => i,
            None => self.blocks.len() as int,
        }
    }

    /// The arena after `malloc(size)`, and the address that `malloc` returns.
    ///
    /// The request fails, returning the null address and leaving the arena
    /// as it was, when header and payload together overflow the address
    /// range or the arena has no place for the block. Otherwise the block is
    /// placed, `size` is written into its header and the address right after
    /// the header is returned.
    pub open spec fn allocated(self, size: usize) -> (ArenaView, usize) {
        match layout_for(size as nat) {
            None => (self, 0usize),
            Some(layout) => match self.place(layout.size as int) {
                None => (self, 0usize),
                Some(base) => (
                    ArenaView {
                        memory: splice(
                            self.memory,
                            base,
                            word_bytes(size as nat, header_width()),
                        ),
                        blocks: self.acquired(layout.size as int).blocks,
                    },
                    (base + header_width()) as usize,
                ),
            },
        }
    }

    /// The arena after `calloc(count, size)`, and the address that `calloc`
    /// returns.
    ///
    /// The request fails when `count * size` overflows or `malloc` of the
    /// product fails. Otherwise the whole payload is set to zero.
    pub open spec fn zero_allocated(self, count: usize, size: usize) -> (ArenaView, usize) {
        if count * size > usize::MAX {
            (self, 0usize)
        } else {
            let (next, ptr) = self.allocated((count * size) as usize);
            if ptr == 0 {
                (next, ptr)
            } else {
                (next.written(ptr, zeros((count * size) as nat)), ptr)
            }
        }
    }

    /// The arena after `free(ptr)`: the block whose payload starts at `ptr`
    /// is taken back; an address at which no payload that is handed out
    /// starts, the null address among them, changes nothing.
    pub open spec fn released(self, ptr: usize) -> ArenaView {
        match self.find(ptr) {
            Some(i) => self.retired(i),
            None => self,
        }
    }
}

/// What a successful allocation establishes: the arena stays well formed,
/// and the returned address is not null, is aligned to the header width, was
/// not handed out before, and now is, with a payload of exactly `size`
/// accessible bytes in the block that `slot` names.
pub proof fn lemma_allocated(arena: ArenaView, size: usize)
    requires
        arena.wf(),
    ensures
        ({
            let (next, ptr) = arena.allocated(size);
            let total = size + header_width();
            &&& next.wf()
            &&& next.memory.len() == arena.memory.len()
            &&& ptr != 0 <==> total <= usize::MAX && arena.place(total) is Some
            &&& ptr == 0 ==> next == arena
            &&& ptr != 0 ==> {
                &&& ptr as int % header_width() as int == 0
                &&& !arena.is_live(ptr)
                &&& next.find(ptr) == Some(arena.slot(total))
                &&& next.payload_size(ptr) == size
                &&& next.accessible(ptr, size)
                &&& next.blocks == arena.acquired(total).blocks
                &&& next.blocks[arena.slot(total)].base + header_width() == ptr
            }
        }),
{
    lemma_word_limit();
    let (next, ptr) = arena.allocated(size);
    let total = size + header_width();
    if total <= usize::MAX && arena.place(total) is Some {
        let base = arena.place(total)->0;
        let n = arena.slot(total);
        let mid = arena.acquired(total);
        let word = word_bytes(size as nat, header_width());
        lemma_first_fit(arena.blocks, total, 0);
        lemma_top_bounds(arena);
        lemma_acquired_placed(arena, total);
        lemma_word_bytes_len(size as nat, header_width());
        lemma_word_round_trip(size as nat, header_width());
        assert(0 <= n < mid.blocks.len());
        assert(mid.well_placed(n));
        assert(mid.blocks[n].base == base);
        assert(mid.blocks[n].size == total);
        assert(mid.blocks[n].live);
        assert(next.blocks =~= mid.blocks);
        assert forall|i: int| 0 <= i < next.blocks.len() implies #[trigger] next.well_placed(i) by {
            assert(mid.well_placed(i));
        }
        assert forall|i: int, j: int| 0 <= i < j < next.blocks.len() implies (
        #[trigger] next.blocks[i]).end() <= (#[trigger] next.blocks[j]).base by {
            assert(mid.blocks[i].end() <= mid.blocks[j].base);
        }
        assert forall|i: int| 0 <= i < next.blocks.len() implies #[trigger] next.header_intact(i) by {
            let b = next.blocks[i];
            assert(mid.well_placed(i));
            if i == n {
                assert(next.memory.subrange(b.base as int, b.payload()) =~= word);
            } else if b.live {
                assert(i < arena.blocks.len());
                assert(arena.blocks[i] == b);
                assert(arena.header_intact(i));
                if i < n {
                    assert(mid.blocks[i].end() <= mid.blocks[n].base);
                } else {
                    assert(mid.blocks[n].end() <= mid.blocks[i].base);
                }
                assert(next.memory.subrange(b.base as int, b.payload())
                    =~= arena.memory.subrange(b.base as int, b.payload()));
            }
        }
        assert(next.blocks[n].holds(ptr as int));
        lemma_owner_unique(next, ptr, n);
        assert(!arena.is_live(ptr)) by {
            lemma_owner_from(arena.blocks, ptr as int, 0);
            if arena.find(ptr) is Some {
                let j = arena.find(ptr)->0;
                assert(arena.well_placed(j));
                assert(arena.blocks[j].base == base);
                assert(arena.blocks[j].end() <= arena.top());
                if n < arena.blocks.len() {
                    assert(arena.well_placed(n));
                    if j < n {
                        assert(arena.blocks[j].end() <= arena.blocks[n].base);
                    } else if n < j {
                        assert(arena.blocks[n].end() <= arena.blocks[j].base);
                    }
                }
            }
        }
    }
}

/// An allocation leaves every block that was handed out before as it was:
/// still handed out, of the same size, with the same payload bytes.
pub proof fn lemma_allocated_keeps(arena: ArenaView, size: usize, other: usize)
    requires
        arena.wf(),
        arena.is_live(other),
    ensures
        ({
            let (next, ptr) = arena.allocated(size);
            &&& other != ptr
            &&& next.find(other) == arena.find(other)
            &&& next.payload_size(other) == arena.payload_size(other)
            &&& next.payload(other) == arena.payload(other)
        }),
{
    lemma_word_limit();
    lemma_allocated(arena, size);
    let (next, ptr) = arena.allocated(size);
    let total = size + header_width();
    if ptr != 0 {
        let n = arena.slot(total);
        let j = arena.find(other)->0;
        lemma_owner_from(arena.blocks, other as int, 0);
        lemma_first_fit(arena.blocks, total, 0);
        lemma_top_bounds(arena);
        lemma_word_bytes_len(size as nat, header_width());
        assert(j != n);
        assert(next.blocks[j] == arena.blocks[j]);
        lemma_owner_unique(next, other, j);
        assert(next.well_placed(j));
        assert(next.well_placed(n));
        if j < n {
            assert(next.blocks[j].end() <= next.blocks[n].base);
        } else {
            assert(next.blocks[n].end() <= next.blocks[j].base);
        }
        assert(next.payload(other) =~= arena.payload(other));
    }
}

/// Taking back a block that is handed out keeps the arena well formed and
/// leaves a free block of the same size behind.
pub proof fn lemma_released(arena: ArenaView, ptr: usize)
    requires
        arena.wf(),
    ensures
        arena.released(ptr).wf(),
        arena.released(ptr).memory == arena.memory,
        !arena.released(ptr).is_live(ptr),
        !arena.is_live(ptr) ==> arena.released(ptr) == arena,
        arena.is_live(ptr) ==> first_fit(
            arena.released(ptr).blocks,
            (arena.payload_size(ptr) + header_width()) as int,
            0,
        ) is Some,
{
    lemma_word_limit();
    let next = arena.released(ptr);
    lemma_owner_from(arena.blocks, ptr as int, 0);
    if arena.find(ptr) is Some {
        let i = arena.find(ptr)->0;
        lemma_retired_wf(arena, i);
        assert(arena.well_placed(i));
        lemma_first_fit(next.blocks, (arena.payload_size(ptr) + header_width()) as int, 0);
        assert(!next.blocks[i].live);
        lemma_owner_from(next.blocks, ptr as int, 0);
        if next.find(ptr) is Some {
            let j = next.find(ptr)->0;
            assert(j != i);
            assert(arena.blocks[j] == next.blocks[j]);
            lemma_owner_unique(arena, ptr, j);
        }
    }
}

/// After a block is given back, a request for a payload of the same size
/// succeeds.
pub proof fn lemma_release_then_allocate(arena: ArenaView, ptr: usize)
    requires
        arena.wf(),
        arena.is_live(ptr),
    ensures
        arena.released(ptr).allocated(arena.payload_size(ptr) as usize).1 != 0,
{
    lemma_word_limit();
    lemma_released(arena, ptr);
    lemma_owner_from(arena.blocks, ptr as int, 0);
    let i = arena.find(ptr)->0;
    assert(arena.well_placed(i));
    lemma_allocated(arena.released(ptr), arena.payload_size(ptr) as usize);
}

/// A request that succeeded succeeds again once its block was given back:
/// `free(malloc(s))` leaves the arena able to satisfy `malloc(s)`.
pub proof fn lemma_allocate_release_allocate(arena: ArenaView, size: usize)
    requires
        arena.wf(),
        arena.allocated(size).1 != 0,
    ensures
        ({
            let (next, ptr) = arena.allocated(size);
            next.released(ptr).allocated(size).1 != 0
        }),
{
    lemma_allocated(arena, size);
    let (next, ptr) = arena.allocated(size);
    lemma_release_then_allocate(next, ptr);
}

/// A zeroed allocation that succeeds hands out a payload of `count * size`
/// zero bytes and keeps the arena well formed; one whose byte count
/// overflows fails and changes nothing.
pub proof fn lemma_zero_allocated(arena: ArenaView, count: usize, size: usize)
    requires
        arena.wf(),
    ensures
        ({
            let (next, ptr) = arena.zero_allocated(count, size);
            &&& next.wf()
            &&& count * size > usize::MAX ==> ptr == 0
            &&& ptr == 0 ==> next == arena
            &&& ptr != 0 ==> next.is_live(ptr) && next.payload_size(ptr) == count * size
                && next.payload(ptr) == zeros((count * size) as nat)
        }),
{
    if count * size <= usize::MAX {
        let total = (count * size) as usize;
        lemma_allocated(arena, total);
        let (mid, ptr) = arena.allocated(total);
        if ptr != 0 {
            crate::arena::lemma_written_reads_back(mid, ptr, zeros(total as nat));
        }
    }
}

/// Allocates a block with a payload of `size` bytes and returns the address
/// of the payload, or the null address `0` when the request cannot be met.
///
/// The request fails only when header and payload together overflow the
/// address range or the arena has no place for the block; the arena is then
/// unchanged. On success `size` is written into the block's header. The
/// payload bytes are left as they were in memory.
pub fn malloc(arena: &mut Arena, size: usize) -> (ptr: usize)
    requires
        old(arena).wf(),
    ensures
        final(arena).wf(),
        final(arena)@ == old(arena)@.allocated(size).0,
        ptr == old(arena)@.allocated(size).1,
        ptr != 0 <==> size + header_width() <= usize::MAX && old(arena)@.place(
            size + header_width(),
        ) is Some,
        ptr != 0 ==> ptr as int % header_width() as int == 0 && !old(arena)@.is_live(ptr)
            && final(arena)@.is_live(ptr) && final(arena)@.payload_size(ptr) == size
            && final(arena)@.accessible(ptr, size),
{
    proof {
        lemma_allocated(arena@, size);
        lemma_word_limit();
    }
    let layout = match allocation_layout(size) {
        Some(layout) => layout,
        None => {
            return 0;
        },
    };
    let base = match arena.acquire(layout) {
        Some(base) => base,
        None => {
            return 0;
        },
    };
    arena.set_header(base, size);
    base + word_size()
}

/// Allocates a block for `count` elements of `size` bytes each, sets every
/// payload byte to zero and returns the payload address, or the null address
/// `0` when `count * size` overflows or `malloc` of the product fails.
pub fn calloc(arena: &mut Arena, count: usize, size: usize) -> (ptr: usize)
    requires
        old(arena).wf(),
    ensures
        final(arena).wf(),
        final(arena)@ == old(arena)@.zero_allocated(count, size).0,
        ptr == old(arena)@.zero_allocated(count, size).1,
        count * size > usize::MAX ==> ptr == 0,
        ptr == 0 ==> final(arena)@ == old(arena)@,
        ptr != 0 ==> final(arena)@.is_live(ptr) && final(arena)@.payload_size(ptr) == count * size
            && final(arena)@.payload(ptr) == zeros((count * size) as nat),
{
    let total = match count.checked_mul(size) {
        Some(total) => total,
        None => {
            return 0;
        },
    };
    proof {
        lemma_allocated(arena@, total);
    }
    let ptr = malloc(arena, total);
    if ptr != 0 {
        let ghost mid = arena@;
        arena.fill(ptr, total, 0);
        proof {
            lemma_accessible_in_memory(mid, ptr, total);
            assert(arena@.payload(ptr) =~= zeros(total as nat));
        }
    }
    ptr
}

/// Gives the block whose payload starts at `ptr` back to the arena.
///
/// The null address, and any other address at which no payload that is
/// handed out starts, changes nothing. Otherwise the payload size is read
/// from the header in front of `ptr`, the block's layout is computed from it
/// again, and the whole block, header included, returns to the arena.
pub fn free(arena: &mut Arena, ptr: usize)
    requires
        old(arena).wf(),
    ensures
        final(arena).wf(),
        final(arena)@ == old(arena)@.released(ptr),
        ptr == 0 ==> final(arena)@ == old(arena)@,
        !final(arena)@.is_live(ptr),
{
    proof {
        lemma_released(arena@, ptr);
        lemma_owner_from(arena@.blocks, ptr as int, 0);
        lemma_word_limit();
    }
    if ptr == 0 {
        return ;
    }
    let width = word_size();
    let index = match arena.find(ptr) {
        Some(index) => index,
        None => {
            return ;
        },
    };
    proof {
        assert(arena@.well_placed(index as int));
        assert(arena@.header_intact(index as int));
    }
    let base = ptr - width;
    let payload_size = arena.header(base);
    let layout = match allocation_layout(payload_size) {
        Some(layout) => layout,
        None => {
            return ;
        },
    };
    arena.release(base, layout);
}

} // verus!
