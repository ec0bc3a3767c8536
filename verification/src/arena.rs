//! The arena: a fixed range of byte-addressed memory and the table of raw
//! blocks carved out of it.
//!
//! Addresses are offsets into the arena's memory. Address `0` is the null
//! address: no payload ever starts there, because every payload is preceded
//! by its header.

use crate::layout::{
    header_width, read_word, splice, word_bytes, word_size, word_value, write_word, Layout,
};
use vstd::prelude::*;
use vstd::slice::{slice_subrange, slice_to_vec};

verus! {

/// One raw block carved out of the arena's memory.
#[derive(Clone, Copy, Debug, PartialEq, Eq, Structural)]
pub struct Block {
    /// Address of the block's first byte, where its header starts.
    pub base: usize,
    /// Number of bytes the block occupies, header included.
    pub size: usize,
    /// Whether the block is currently handed out.
    pub live: bool,
}

impl Block {
    /// Address of the first payload byte.
    pub open spec fn payload(self) -> int {
        self.base + header_width()
    }

    /// Address one past the block's last byte.
    pub open spec fn end(self) -> int {
        self.base + self.size
    }

    /// Whether `addr` lies in the payload of this block while it is handed
    /// out. The address one past the payload counts, so that an empty range
    /// at the end of a payload belongs to it.
    pub open spec fn holds(self, addr: int) -> bool {
        self.live && self.payload() <= addr <= self.end()
    }
}

/// Index of the first block at or after `from` that holds `addr`.
pub open spec fn owner_from(blocks: Seq<Block>, addr: int, from: int) -> Option<int>
    decreases blocks.len() - from,
{
    if from < 0 || from >= blocks.len() {
        None
    } else if blocks[from].holds(addr) {
        Some(from)
    } else {
        owner_from(blocks, addr, from + 1)
    }
}

/// Index of the first block at or after `from` that is free and occupies
/// exactly `total` bytes.
pub open spec fn first_fit(blocks: Seq<Block>, total: int, from: int) -> Option<int>
    decreases blocks.len() - from,
{
    if from < 0 || from >= blocks.len() {
        None
    } else if !blocks[from].live && blocks[from].size == total {
        Some(from)
    } else {
        first_fit(blocks, total, from + 1)
    }
}

/// The least multiple of the header width that is not below `addr`.
pub open spec fn align_up(addr: int) -> int {
    let width = header_width() as int;
    if addr % width == 0 {
        addr
    } else {
        addr + width - addr % width
    }
}

/// What an arena is, mathematically: its memory and its block table.
pub struct ArenaView {
    /// The byte at every address of the arena.
    pub memory: Seq<u8>,
    /// The blocks carved so far, in address order.
    pub blocks: Seq<Block>,
}

impl ArenaView {
    /// An arena of `capacity` zero bytes from which nothing has been carved.
    pub open spec fn empty(capacity: nat) -> ArenaView {
        ArenaView { memory: Seq::new(capacity, |i: int| 0u8), blocks: Seq::empty() }
    }

    /// Block `i` starts on a header-width boundary, has room for its header
    /// and lies inside the memory.
    pub open spec fn well_placed(self, i: int) -> bool {
        let b = self.blocks[i];
        &&& b.base as int % header_width() as int == 0
        &&& b.size >= header_width()
        &&& b.end() <= self.memory.len()
    }

    /// The header of block `i`, if the block is handed out, holds the size
    /// of its payload.
    pub open spec fn header_intact(self, i: int) -> bool {
        let b = self.blocks[i];
        b.live ==> word_value(self.memory.subrange(b.base as int, b.payload())) + header_width()
            == b.size
    }

    /// The blocks are well placed and follow each other without overlap.
    pub open spec fn placed(self) -> bool {
        &&& self.memory.len() <= usize::MAX
        &&& forall|i: int| 0 <= i < self.blocks.len() ==> #[trigger] self.well_placed(i)
        &&& forall|i: int, j: int|
            0 <= i < j < self.blocks.len() ==> (#[trigger] self.blocks[i]).end()
                <= (#[trigger] self.blocks[j]).base
    }

    /// The arena's invariant: blocks are placed without overlap, and every
    /// block that is handed out carries its payload size in its header.
    pub open spec fn wf(self) -> bool {
        &&& self.placed()
        &&& forall|i: int| 0 <= i < self.blocks.len() ==> #[trigger] self.header_intact(i)
    }

    /// Address one past the last block carved so far.
    pub open spec fn top(self) -> int {
        if self.blocks.len() == 0 {
            0
        } else {
            self.blocks.last().end()
        }
    }

    /// Index of the block whose payload contains `addr`, if one is handed out.
    pub open spec fn owner(self, addr: usize) -> Option<int> {
        owner_from(self.blocks, addr as int, 0)
    }

    /// Whether the `len` bytes from `addr` on lie in one payload that is
    /// handed out.
    pub open spec fn accessible(self, addr: usize, len: usize) -> bool {
        match self.owner(addr) {
            Some(i) => addr + len <= self.blocks[i].end(),
            None => false,
        }
    }

    /// Index of the block whose payload starts at `ptr`, if it is handed out.
    pub open spec fn find(self, ptr: usize) -> Option<int> {
        match self.owner(ptr) {
            Some(i) => if self.blocks[i].payload() == ptr {
                Some(i)
            } else {
                None
            },
            None => None,
        }
    }

    /// Whether `ptr` is the payload address of a block that is handed out.
    pub open spec fn is_live(self, ptr: usize) -> bool {
        self.find(ptr) is Some
    }

    /// Payload size of the block handed out at `ptr`.
    pub open spec fn payload_size(self, ptr: usize) -> nat {
        match self.find(ptr) {
            Some(i) => (self.blocks[i].size - header_width()) as nat,
            None => 0,
        }
    }

    /// The `len` bytes stored from `addr` on.
    pub open spec fn bytes(self, addr: usize, len: usize) -> Seq<u8> {
        self.memory.subrange(addr as int, addr + len)
    }

    /// The payload of the block handed out at `ptr`.
    pub open spec fn payload(self, ptr: usize) -> Seq<u8> {
        self.memory.subrange(ptr as int, ptr + self.payload_size(ptr))
    }

    /// The bytes from `addr` to the end of the payload that contains it.
    pub open spec fn tail(self, addr: usize) -> Seq<u8> {
        match self.owner(addr) {
            Some(i) => self.memory.subrange(addr as int, self.blocks[i].end()),
            None => Seq::empty(),
        }
    }

    /// Address at which fresh memory would be carved next.
    pub open spec fn fresh_base(self) -> int {
        align_up(self.top())
    }

    /// Base address of the raw block that a request for `total` bytes
    /// receives: the first free block of exactly that size, else fresh memory
    /// past the last block. `None` when there is neither.
    pub open spec fn place(self, total: int) -> Option<int> {
        match first_fit(self.blocks, total, 0) {
            Some(i) => Some(self.blocks[i].base as int),
            None => if self.fresh_base() + total <= self.memory.len() {
                Some(self.fresh_base())
            } else {
                None
            },
        }
    }

    /// The arena after a raw block of `total` bytes was handed out where
    /// `place` says; unchanged when there is no place for it.
    pub open spec fn acquired(self, total: int) -> ArenaView {
        match first_fit(self.blocks, total, 0) {
            Some(i) => ArenaView {
                memory: self.memory,
                blocks: self.blocks.update(
                    i,
                    Block { base: self.blocks[i].base, size: self.blocks[i].size, live: true },
                ),
            },
            None => if self.fresh_base() + total <= self.memory.len() {
                ArenaView {
                    memory: self.memory,
                    blocks: self.blocks.push(
                        Block { base: self.fresh_base() as usize, size: total as usize, live: true },
                    ),
                }
            } else {
                self
            },
        }
    }

    /// The arena after block `i` was taken back.
    pub open spec fn retired(self, i: int) -> ArenaView {
        ArenaView {
            memory: self.memory,
            blocks: self.blocks.update(
                i,
                Block { base: self.blocks[i].base, size: self.blocks[i].size, live: false },
            ),
        }
    }

    /// The arena after the raw block of `total` bytes at `base` was given
    /// back; unchanged when no such block is handed out.
    pub open spec fn given_back(self, base: usize, total: usize) -> ArenaView {
        match self.owner((base + header_width()) as usize) {
            Some(i) => if self.blocks[i].base == base && self.blocks[i].size == total {
                self.retired(i)
            } else {
                self
            },
            None => self,
        }
    }

    /// The arena after `data` has been stored from `addr` on.
    pub open spec fn written(self, addr: usize, data: Seq<u8>) -> ArenaView {
        ArenaView { memory: splice(self.memory, addr as int, data), blocks: self.blocks }
    }
}

/// What `owner_from` finds is the first block from `from` on that holds `addr`.
pub proof fn lemma_owner_from(blocks: Seq<Block>, addr: int, from: int)
    requires
        0 <= from,
    ensures
        match owner_from(blocks, addr, from) {
            Some(i) => from <= i < blocks.len() && blocks[i].holds(addr) && forall|j: int|
                from <= j < i ==> !(#[trigger] blocks[j]).holds(addr),
            None => forall|j: int| from <= j < blocks.len() ==> !(#[trigger] blocks[j]).holds(addr),
        },
    decreases blocks.len() - from,
{
    if from < blocks.len() && !blocks[from].holds(addr) {
        lemma_owner_from(blocks, addr, from + 1);
    }
}

/// In a well-formed arena at most one block holds an address, so a block
/// that holds it is its owner.
pub proof fn lemma_owner_unique(arena: ArenaView, addr: usize, i: int)
    requires
        arena.placed(),
        0 <= i < arena.blocks.len(),
        arena.blocks[i].holds(addr as int),
    ensures
        arena.owner(addr) == Some(i),
{
    lemma_owner_from(arena.blocks, addr as int, 0);
    let found = arena.owner(addr);
    assert(found is Some);
    let j = found->0;
    if j < i {
        assert(arena.well_placed(j));
        assert(arena.well_placed(i));
        assert(arena.blocks[j].end() <= arena.blocks[i].base);
    }
}

/// A range inside an accessible range is accessible.
pub proof fn lemma_accessible_within(
    arena: ArenaView,
    addr: usize,
    len: usize,
    inner: usize,
    inner_len: usize,
)
    requires
        arena.placed(),
        arena.accessible(addr, len),
        addr <= inner,
        inner + inner_len <= addr + len,
    ensures
        arena.accessible(inner, inner_len),
        arena.owner(inner) == arena.owner(addr),
{
    lemma_owner_from(arena.blocks, addr as int, 0);
    let i = arena.owner(addr)->0;
    lemma_owner_unique(arena, inner, i);
}

/// An accessible range lies inside the memory and clear of every header.
pub proof fn lemma_accessible_in_memory(arena: ArenaView, addr: usize, len: usize)
    requires
        arena.placed(),
        arena.accessible(addr, len),
    ensures
        header_width() <= addr,
        addr + len <= arena.memory.len(),
        forall|j: int|
            0 <= j < arena.blocks.len() ==> (#[trigger] arena.blocks[j]).payload() <= addr
                || addr + len <= arena.blocks[j].base,
{
    lemma_owner_from(arena.blocks, addr as int, 0);
    let i = arena.owner(addr)->0;
    assert(arena.well_placed(i));
    assert forall|j: int| 0 <= j < arena.blocks.len() implies (#[trigger] arena.blocks[j]).payload()
        <= addr || addr + len <= arena.blocks[j].base by {
        assert(arena.well_placed(j));
        if j < i {
            assert(arena.blocks[j].end() <= arena.blocks[i].base);
        } else if i < j {
            assert(arena.blocks[i].end() <= arena.blocks[j].base);
        }
    }
}

/// Storing into an accessible range keeps the arena well formed.
pub proof fn lemma_written_wf(arena: ArenaView, addr: usize, data: Seq<u8>)
    requires
        arena.wf(),
        data.len() <= usize::MAX,
        arena.accessible(addr, data.len() as usize),
    ensures
        arena.written(addr, data).wf(),
{
    let next = arena.written(addr, data);
    lemma_accessible_in_memory(arena, addr, data.len() as usize);
    assert forall|i: int| 0 <= i < next.blocks.len() implies #[trigger] next.well_placed(i) by {
        assert(arena.well_placed(i));
    }
    assert forall|i: int| 0 <= i < next.blocks.len() implies #[trigger] next.header_intact(i) by {
        let b = arena.blocks[i];
        assert(arena.well_placed(i));
        assert(arena.header_intact(i));
        assert(b.payload() <= addr || addr + data.len() <= b.base);
        assert(next.memory.subrange(b.base as int, b.payload()) =~= arena.memory.subrange(
            b.base as int,
            b.payload(),
        ));
    }
}

/// What is stored into an accessible range is what is read from it afterwards.
pub proof fn lemma_written_reads_back(arena: ArenaView, addr: usize, data: Seq<u8>)
    requires
        arena.wf(),
        data.len() <= usize::MAX,
        arena.accessible(addr, data.len() as usize),
    ensures
        arena.written(addr, data).wf(),
        arena.written(addr, data).blocks == arena.blocks,
        arena.written(addr, data).accessible(addr, data.len() as usize),
        arena.written(addr, data).bytes(addr, data.len() as usize) == data,
{
    lemma_written_wf(arena, addr, data);
    lemma_accessible_in_memory(arena, addr, data.len() as usize);
    assert(arena.written(addr, data).bytes(addr, data.len() as usize) =~= data);
}

/// Storing into the payload of one block leaves the payload of every other
/// block that is handed out as it was.
pub proof fn lemma_written_keeps(arena: ArenaView, addr: usize, data: Seq<u8>, other: usize)
    requires
        arena.wf(),
        data.len() <= usize::MAX,
        arena.accessible(addr, data.len() as usize),
        arena.is_live(other),
        arena.owner(addr) != arena.find(other),
    ensures
        arena.written(addr, data).find(other) == arena.find(other),
        arena.written(addr, data).payload_size(other) == arena.payload_size(other),
        arena.written(addr, data).payload(other) == arena.payload(other),
{
    let next = arena.written(addr, data);
    lemma_owner_from(arena.blocks, addr as int, 0);
    lemma_owner_from(arena.blocks, other as int, 0);
    let i = arena.owner(addr)->0;
    let j = arena.find(other)->0;
    assert(arena.well_placed(i));
    assert(arena.well_placed(j));
    if i < j {
        assert(arena.blocks[i].end() <= arena.blocks[j].base);
    } else {
        assert(arena.blocks[j].end() <= arena.blocks[i].base);
    }
    assert(next.payload(other) =~= arena.payload(other));
}

/// What `first_fit` finds is the first free block of `total` bytes from
/// `from` on.
pub proof fn lemma_first_fit(blocks: Seq<Block>, total: int, from: int)
    requires
        0 <= from,
    ensures
        match first_fit(blocks, total, from) {
            Some(i) => from <= i < blocks.len() && !blocks[i].live && blocks[i].size == total,
            None => forall|j: int|
                from <= j < blocks.len() ==> (#[trigger] blocks[j]).live || blocks[j].size != total,
        },
    decreases blocks.len() - from,
{
    if from < blocks.len() && !(!blocks[from].live && blocks[from].size == total) {
        lemma_first_fit(blocks, total, from + 1);
    }
}

/// No block reaches past the top.
pub proof fn lemma_top_bounds(arena: ArenaView)
    requires
        arena.placed(),
    ensures
        0 <= arena.top() <= arena.memory.len(),
        arena.top() <= arena.fresh_base() < arena.top() + header_width(),
        arena.fresh_base() % header_width() as int == 0,
        forall|j: int| 0 <= j < arena.blocks.len() ==> (#[trigger] arena.blocks[j]).end() <= arena.top(),
{
    crate::layout::lemma_word_limit();
    if arena.blocks.len() > 0 {
        let last = arena.blocks.len() - 1;
        assert(arena.well_placed(last));
        assert forall|j: int| 0 <= j < arena.blocks.len() implies (#[trigger] arena.blocks[j]).end()
            <= arena.top() by {
            assert(arena.well_placed(j));
            if j < last {
                assert(arena.blocks[j].end() <= arena.blocks[last].base);
            }
        }
    }
}

/// Handing out a raw block keeps the blocks placed without overlap.
pub proof fn lemma_acquired_placed(arena: ArenaView, total: int)
    requires
        arena.placed(),
        header_width() <= total <= usize::MAX,
    ensures
        arena.acquired(total).placed(),
{
    let next = arena.acquired(total);
    lemma_first_fit(arena.blocks, total, 0);
    lemma_top_bounds(arena);
    assert forall|i: int| 0 <= i < next.blocks.len() implies #[trigger] next.well_placed(i) by {
        if i < arena.blocks.len() {
            assert(arena.well_placed(i));
        }
    }
    assert forall|i: int, j: int| 0 <= i < j < next.blocks.len() implies (
    #[trigger] next.blocks[i]).end() <= (#[trigger] next.blocks[j]).base by {
        if j < arena.blocks.len() {
            assert(arena.blocks[i].end() <= arena.blocks[j].base);
        } else {
            assert(arena.blocks[i].end() <= arena.top());
        }
    }
}

/// Taking a block back keeps the arena well formed.
pub proof fn lemma_retired_wf(arena: ArenaView, i: int)
    requires
        arena.wf(),
        0 <= i < arena.blocks.len(),
    ensures
        arena.retired(i).wf(),
{
    let next = arena.retired(i);
    assert forall|k: int| 0 <= k < next.blocks.len() implies #[trigger] next.well_placed(k) by {
        assert(arena.well_placed(k));
    }
    assert forall|k: int, j: int| 0 <= k < j < next.blocks.len() implies (
    #[trigger] next.blocks[k]).end() <= (#[trigger] next.blocks[j]).base by {
        assert(arena.blocks[k].end() <= arena.blocks[j].base);
    }
    assert forall|k: int| 0 <= k < next.blocks.len() implies #[trigger] next.header_intact(k) by {
        assert(arena.header_intact(k));
    }
}

/// A fixed range of memory together with the blocks carved out of it.
#[derive(Debug)]
pub struct Arena {
    memory: Vec<u8>,
    blocks: Vec<Block>,
}

impl View for Arena {
    type V = ArenaView;

    closed spec fn view(&self) -> ArenaView {
        ArenaView { memory: self.memory@, blocks: self.blocks@ }
    }
}

impl Arena {
    /// The arena's invariant, which every operation preserves.
    pub open spec fn wf(&self) -> bool {
        self@.wf()
    }

    /// Creates an arena of `capacity` zero bytes with no blocks.
    pub fn new(capacity: usize) -> (arena: Arena)
        ensures
            arena.wf(),
            arena@ == ArenaView::empty(capacity as nat),
    {
        let memory = vec![0u8; capacity];
        let arena = Arena { memory, blocks: Vec::new() };
        proof {
            assert(arena@.memory =~= ArenaView::empty(capacity as nat).memory);
            assert(arena@.blocks =~= ArenaView::empty(capacity as nat).blocks);
        }
        arena
    }

    /// Number of bytes of memory the arena spans.
    pub fn capacity(&self) -> (capacity: usize)
        ensures
            capacity == self@.memory.len(),
    {
        self.memory.len()
    }

    /// Finds the block whose payload contains `addr`.
    pub fn locate(&self, addr: usize) -> (found: Option<usize>)
        ensures
            match found {
                Some(i) => self@.owner(addr) == Some(i as int) && i < self@.blocks.len()
                    && self@.blocks[i as int].holds(addr as int),
                None => self@.owner(addr) is None,
            },
    {
        let width = word_size();
        let mut k: usize = 0;
        while k < self.blocks.len()
            invariant
                k <= self.blocks.len(),
                width == header_width(),
                owner_from(self.blocks@, addr as int, 0) == owner_from(
                    self.blocks@,
                    addr as int,
                    k as int,
                ),
            decreases self.blocks.len() - k,
        {
            let b = self.blocks[k];
            if b.live && addr >= b.base && addr - b.base >= width && addr - b.base <= b.size {
                return Some(k);
            }
            k = k + 1;
        }
        None
    }

    /// Whether the `len` bytes from `addr` on lie in one payload that is
    /// handed out.
    pub fn accessible(&self, addr: usize, len: usize) -> (ok: bool)
        ensures
            ok == self@.accessible(addr, len),
    {
        match self.locate(addr) {
            Some(i) => {
                let b = self.blocks[i];
                len <= b.size - (addr - b.base)
            },
            None => false,
        }
    }

    /// Borrows the `len` bytes stored from `addr` on.
    pub(crate) fn slice(&self, addr: usize, len: usize) -> (bytes: &[u8])
        requires
            self.wf(),
            self@.accessible(addr, len),
        ensures
            bytes@ == self@.bytes(addr, len),
    {
        proof {
            lemma_accessible_in_memory(self@, addr, len);
            assert(addr + len <= self.memory.len());
        }
        slice_subrange(self.memory.as_slice(), addr, addr + len)
    }

    /// Borrows the bytes from `addr` to the end of the payload that contains
    /// it, or `None` when no payload that is handed out contains `addr`.
    pub fn tail(&self, addr: usize) -> (bytes: Option<&[u8]>)
        requires
            self.wf(),
        ensures
            match bytes {
                Some(bytes) => self@.owner(addr) is Some && bytes@ == self@.tail(addr),
                None => self@.owner(addr) is None,
            },
    {
        match self.locate(addr) {
            Some(i) => {
                let b = self.blocks[i];
                proof {
                    assert(self@.well_placed(i as int));
                    assert(b.base + b.size <= self.memory.len());
                }
                Some(slice_subrange(self.memory.as_slice(), addr, b.base + b.size))
            },
            None => None,
        }
    }

    /// Copies out the `len` bytes stored from `addr` on, or returns `None`
    /// when they do not lie in one payload that is handed out.
    pub fn read(&self, addr: usize, len: usize) -> (bytes: Option<Vec<u8>>)
        requires
            self.wf(),
        ensures
            match bytes {
                Some(bytes) => self@.accessible(addr, len) && bytes@ == self@.bytes(addr, len),
                None => !self@.accessible(addr, len),
            },
    {
        if self.accessible(addr, len) {
            Some(slice_to_vec(self.slice(addr, len)))
        } else {
            None
        }
    }

    /// Stores one byte at an accessible address.
    pub(crate) fn store(&mut self, addr: usize, value: u8)
        requires
            old(self).wf(),
            old(self)@.accessible(addr, 1),
        ensures
            final(self).wf(),
            final(self)@ == old(self)@.written(addr, seq![value]),
    {
        proof {
            lemma_accessible_in_memory(self@, addr, 1);
            lemma_written_wf(self@, addr, seq![value]);
        }
        self.memory.set(addr, value);
        proof {
            assert(self@.memory =~= old(self)@.written(addr, seq![value]).memory);
        }
    }

    /// Reads the byte at an accessible address.
    pub(crate) fn load(&self, addr: usize) -> (value: u8)
        requires
            self.wf(),
            self@.accessible(addr, 1),
        ensures
            value == self@.memory[addr as int],
    {
        proof {
            lemma_accessible_in_memory(self@, addr, 1);
        }
        self.memory[addr]
    }

    /// Stores `data` from `addr` on if the whole range lies in one payload
    /// that is handed out, and says whether it did. Nothing outside the
    /// range changes; a refused store changes nothing at all.
    pub fn write(&mut self, addr: usize, data: &[u8]) -> (done: bool)
        requires
            old(self).wf(),
        ensures
            final(self).wf(),
            done == old(self)@.accessible(addr, data@.len() as usize),
            done ==> final(self)@ == old(self)@.written(addr, data@),
            !done ==> final(self)@ == old(self)@,
    {
        let len = data.len();
        if !self.accessible(addr, len) {
            return false;
        }
        proof {
            lemma_accessible_in_memory(self@, addr, len);
            lemma_written_wf(self@, addr, data@);
        }
        let mut k: usize = 0;
        while k < len
            invariant
                k <= len,
                len == data@.len(),
                addr + len <= self.memory.len(),
                self.blocks == old(self).blocks,
                self.memory@ == splice(old(self).memory@, addr as int, data@.take(k as int)),
            decreases len - k,
        {
            self.memory.set(addr + k, data[k]);
            k = k + 1;
            proof {
                assert(self.memory@ =~= splice(
                    old(self).memory@,
                    addr as int,
                    data@.take(k as int),
                ));
            }
        }
        proof {
            assert(data@.take(len as int) =~= data@);
        }
        true
    }

    /// Finds the block that is handed out with its payload at `ptr`.
    pub fn find(&self, ptr: usize) -> (found: Option<usize>)
        ensures
            match found {
                Some(i) => self@.find(ptr) == Some(i as int) && i < self@.blocks.len(),
                None => self@.find(ptr) is None,
            },
    {
        let width = word_size();
        match self.locate(ptr) {
            Some(i) => if ptr - self.blocks[i].base == width {
                Some(i)
            } else {
                None
            },
            None => None,
        }
    }

    /// Reads the payload size that the header in front of `ptr` holds, or
    /// returns `None` when no payload that is handed out starts at `ptr`.
    pub fn payload_size(&self, ptr: usize) -> (size: Option<usize>)
        requires
            self.wf(),
        ensures
            match size {
                Some(n) => self@.is_live(ptr) && n == self@.payload_size(ptr),
                None => !self@.is_live(ptr),
            },
    {
        match self.find(ptr) {
            Some(i) => {
                proof {
                    lemma_owner_from(self@.blocks, ptr as int, 0);
                    assert(self@.well_placed(i as int));
                    assert(self@.header_intact(i as int));
                }
                Some(self.header(ptr - word_size()))
            },
            None => None,
        }
    }

    /// Hands out a raw block of `layout.size` bytes: the first free block of
    /// exactly that size, else fresh memory past the last block. Returns the
    /// block's base address, or `None` when the arena has no room for it.
    /// The memory itself is left as it is.
    pub(crate) fn acquire(&mut self, layout: Layout) -> (base: Option<usize>)
        requires
            old(self)@.placed(),
            layout.size >= header_width(),
            layout.align == header_width(),
        ensures
            final(self)@.placed(),
            final(self)@ == old(self)@.acquired(layout.size as int),
            match old(self)@.place(layout.size as int) {
                Some(b) => base == Some(b as usize) && b % layout.align as int == 0 && b
                    + layout.size <= old(self)@.memory.len(),
                None => base is None,
            },
    {
        let width = word_size();
        proof {
            lemma_acquired_placed(self@, layout.size as int);
            lemma_first_fit(self.blocks@, layout.size as int, 0);
            lemma_top_bounds(self@);
        }
        let mut k: usize = 0;
        while k < self.blocks.len()
            invariant
                k <= self.blocks.len(),
                self.blocks == old(self).blocks,
                self.memory == old(self).memory,
                old(self)@.placed(),
                old(self)@.acquired(layout.size as int).placed(),
                layout.size >= header_width(),
                layout.align == header_width(),
                first_fit(self.blocks@, layout.size as int, 0) == first_fit(
                    self.blocks@,
                    layout.size as int,
                    k as int,
                ),
            decreases self.blocks.len() - k,
        {
            let b = self.blocks[k];
            if !b.live && b.size == layout.size {
                proof {
                    assert(old(self)@.well_placed(k as int));
                    assert(first_fit(old(self)@.blocks, layout.size as int, 0) == Some(k as int));
                }
                self.blocks.set(k, Block { base: b.base, size: b.size, live: true });
                return Some(b.base);
            }
            k = k + 1;
        }
        let count = self.blocks.len();
        let top = if count == 0 {
            0
        } else {
            let last = self.blocks[count - 1];
            proof {
                assert(self@.well_placed(count - 1));
            }
            last.base + last.size
        };
        let pad = (width - top % width) % width;
        let capacity = self.memory.len();
        if pad > capacity - top || layout.size > capacity - top - pad {
            return None;
        }
        let base = top + pad;
        self.blocks.push(Block { base, size: layout.size, live: true });
        Some(base)
    }

    /// Takes back the raw block of `layout.size` bytes at `base`. Does
    /// nothing when no such block is handed out.
    pub(crate) fn release(&mut self, base: usize, layout: Layout)
        requires
            old(self).wf(),
            base + header_width() <= usize::MAX,
        ensures
            final(self).wf(),
            final(self)@ == old(self)@.given_back(base, layout.size),
    {
        let width = word_size();
        match self.locate(base + width) {
            Some(i) => {
                let b = self.blocks[i];
                if b.base == base && b.size == layout.size {
                    proof {
                        lemma_retired_wf(self@, i as int);
                    }
                    self.blocks.set(i, Block { base: b.base, size: b.size, live: false });
                }
            },
            None => {},
        }
    }

    /// Reads the header word of the block at `base`.
    pub(crate) fn header(&self, base: usize) -> (value: usize)
        requires
            base + header_width() <= self@.memory.len(),
        ensures
            value == word_value(self@.memory.subrange(base as int, base + header_width())),
    {
        read_word(&self.memory, base)
    }

    /// Writes `value` into the header word of the block at `base`.
    pub(crate) fn set_header(&mut self, base: usize, value: usize)
        requires
            base + header_width() <= old(self)@.memory.len(),
        ensures
            final(self)@ == (ArenaView {
                memory: splice(
                    old(self)@.memory,
                    base as int,
                    word_bytes(value as nat, header_width()),
                ),
                blocks: old(self)@.blocks,
            }),
    {
        write_word(&mut self.memory, base, value);
    }

    /// Sets the `len` bytes from `addr` on to `value`.
    pub(crate) fn fill(&mut self, addr: usize, len: usize, value: u8)
        requires
            old(self).wf(),
            old(self)@.accessible(addr, len),
        ensures
            final(self).wf(),
            final(self)@ == old(self)@.written(addr, Seq::new(len as nat, |i: int| value)),
    {
        let ghost data = Seq::new(len as nat, |i: int| value);
        proof {
            lemma_accessible_in_memory(self@, addr, len);
            lemma_written_wf(self@, addr, data);
        }
        let mut k: usize = 0;
        while k < len
            invariant
                k <= len,
                data == Seq::new(len as nat, |i: int| value),
                addr + len <= self.memory.len(),
                self.blocks == old(self).blocks,
                self.memory@ == splice(old(self).memory@, addr as int, data.take(k as int)),
            decreases len - k,
        {
            self.memory.set(addr + k, value);
            k = k + 1;
            proof {
                assert(self.memory@ =~= splice(old(self).memory@, addr as int, data.take(k as int)));
            }
        }
        proof {
            assert(data.take(len as int) =~= data);
        }
    }
}

} // verus!
