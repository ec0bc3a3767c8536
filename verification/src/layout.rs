//! Layout calculation: how many bytes a block occupies once the size header
//! is put in front of its payload, and how the header word is laid out.

use vstd::prelude::*;

verus! {

/// Size and alignment of a raw block, header included.
#[derive(Clone, Copy, Debug, PartialEq, Eq, Structural)]
pub struct Layout {
    pub size: usize,
    pub align: usize,
}

/// Number of bytes reserved in front of every payload to store its size:
/// one machine word.
pub open spec fn header_width() -> nat {
    (usize::BITS / 8) as nat
}

/// `256` to the power `width`: the number of values a word of `width` bytes can hold.
pub open spec fn word_limit(width: nat) -> nat
    decreases width,
{
    if width == 0 {
        1
    } else {
        256 * word_limit((width - 1) as nat)
    }
}

/// A header word holds exactly the values of `usize`.
pub proof fn lemma_word_limit()
    ensures
        header_width() == 4 || header_width() == 8,
        word_limit(header_width()) == usize::MAX + 1,
{
    reveal_with_fuel(word_limit, 9);
    if usize::BITS == 32 {
        assert(usize::MAX == 0xffff_ffff);
    } else {
        assert(usize::BITS == 64);
        assert(usize::MAX == 0xffff_ffff_ffff_ffff);
    }
}

/// The header width as a machine value.
pub fn word_size() -> (width: usize)
    ensures
        width == header_width(),
        width == 4 || width == 8,
{
    (usize::BITS / 8) as usize
}

/// The layout of a block whose payload is `payload_size` bytes long, or
/// `None` when header and payload together exceed the address range.
pub open spec fn layout_for(payload_size: nat) -> Option<Layout> {
    if payload_size + header_width() <= usize::MAX {
        Some(
            Layout {
                size: (payload_size + header_width()) as usize,
                align: header_width() as usize,
            },
        )
    } else {
        None
    }
}

/// Computes the header-inclusive layout for a payload of `payload_size` bytes.
///
/// Fails only when adding the header overflows `usize`. A zero-byte payload
/// still occupies one header width.
pub fn allocation_layout(payload_size: usize) -> (layout: Option<Layout>)
    ensures
        layout == layout_for(payload_size as nat),
{
    let width = word_size();
    match payload_size.checked_add(width) {
        Some(total) => Some(Layout { size: if total < width { width } else { total }, align: width }),
        None => None,
    }
}

/// Little-endian bytes of `value` in a word of `width` bytes.
pub open spec fn word_bytes(value: nat, width: nat) -> Seq<u8>
    decreases width,
{
    if width == 0 {
        Seq::empty()
    } else {
        seq![(value % 256) as u8] + word_bytes(value / 256, (width - 1) as nat)
    }
}

/// The number that the little-endian bytes `bytes` stand for.
pub open spec fn word_value(bytes: Seq<u8>) -> nat
    decreases bytes.len(),
{
    if bytes.len() == 0 {
        0
    } else {
        bytes[0] as nat + 256 * word_value(bytes.drop_first())
    }
}

/// A word of `width` bytes has `width` bytes.
pub proof fn lemma_word_bytes_len(value: nat, width: nat)
    ensures
        word_bytes(value, width).len() == width,
    decreases width,
{
    if width > 0 {
        lemma_word_bytes_len(value / 256, (width - 1) as nat);
    }
}

/// Every byte string decodes to a number below the limit of its width.
pub proof fn lemma_word_value_bound(bytes: Seq<u8>)
    ensures
        word_value(bytes) < word_limit(bytes.len()),
    decreases bytes.len(),
{
    if bytes.len() > 0 {
        lemma_word_value_bound(bytes.drop_first());
    }
}

/// Decoding undoes encoding for every value that fits in the word.
pub proof fn lemma_word_round_trip(value: nat, width: nat)
    requires
        value < word_limit(width),
    ensures
        word_value(word_bytes(value, width)) == value,
    decreases width,
{
    if width > 0 {
        let rest = word_bytes(value / 256, (width - 1) as nat);
        let bytes = word_bytes(value, width);
        lemma_word_bytes_len(value / 256, (width - 1) as nat);
        assert(bytes.drop_first() =~= rest);
        lemma_word_round_trip(value / 256, (width - 1) as nat);
    }
}

/// The sequence `memory` with `data` written over it from index `at` on.
pub open spec fn splice(memory: Seq<u8>, at: int, data: Seq<u8>) -> Seq<u8> {
    Seq::new(
        memory.len(),
        |i: int|
            if at <= i < at + data.len() {
                data[i - at]
            } else {
                memory[i]
            },
    )
}

/// Writes `value` as a header word into `memory` at offset `at`.
pub fn write_word(memory: &mut Vec<u8>, at: usize, value: usize)
    requires
        at + header_width() <= old(memory).len(),
    ensures
        final(memory)@ == splice(old(memory)@, at as int, word_bytes(value as nat, header_width())),
{
    let width = word_size();
    let ghost before = memory@;
    let ghost word = word_bytes(value as nat, width as nat);
    let mut rest: usize = value;
    let mut k: usize = 0;
    proof {
        lemma_word_bytes_len(value as nat, width as nat);
        assert(memory@.subrange(at as int, at as int) + word_bytes(rest as nat, width as nat) =~= word);
    }
    while k < width
        invariant
            k <= width,
            width == header_width(),
            at + width <= memory.len(),
            memory@.len() == before.len(),
            word == word_bytes(value as nat, width as nat),
            word.len() == width,
            forall|i: int| 0 <= i < before.len() && !(at <= i < at + k) ==> memory@[i] == before[i],
            memory@.subrange(at as int, at + k) + word_bytes(rest as nat, (width - k) as nat) == word,
        decreases width - k,
    {
        let ghost prefix = memory@.subrange(at as int, at + k);
        let ghost tail = word_bytes((rest / 256) as nat, (width - k - 1) as nat);
        memory.set(at + k, (rest % 256) as u8);
        proof {
            assert(word_bytes(rest as nat, (width - k) as nat) == seq![(rest % 256) as u8] + tail);
            assert(memory@.subrange(at as int, at + k + 1) =~= prefix + seq![(rest % 256) as u8]);
            assert(memory@.subrange(at as int, at + k + 1) + tail =~= prefix + (seq![
                (rest % 256) as u8,
            ] + tail));
        }
        rest = rest / 256;
        k = k + 1;
    }
    proof {
        assert(memory@.subrange(at as int, at + width) =~= word);
        assert(memory@ =~= splice(before, at as int, word));
    }
}

/// Reads the header word stored in `memory` at offset `at`.
pub fn read_word(memory: &Vec<u8>, at: usize) -> (value: usize)
    requires
        at + header_width() <= memory.len(),
    ensures
        value == word_value(memory@.subrange(at as int, at + header_width())),
{
    let width = word_size();
    let ghost word = memory@.subrange(at as int, at + width);
    let mut value: usize = 0;
    let mut k: usize = width;
    while k > 0
        invariant
            k <= width,
            width == header_width(),
            at + width <= memory.len(),
            word == memory@.subrange(at as int, at + width),
            value == word_value(word.subrange(k as int, width as int)),
        decreases k,
    {
        let ghost upper = word.subrange(k as int, width as int);
        let ghost whole = word.subrange(k - 1, width as int);
        proof {
            assert(whole.drop_first() =~= upper);
            assert(whole[0] == memory@[at + k - 1]);
            lemma_word_value_bound(whole);
            lemma_word_limit_grows((width - k + 1) as nat, width as nat);
            lemma_word_limit();
        }
        k = k - 1;
        value = value * 256 + memory[at + k] as usize;
    }
    proof {
        assert(word.subrange(0, width as int) =~= word);
    }
    value
}

/// A wider word holds at least as many values.
pub proof fn lemma_word_limit_grows(narrow: nat, wide: nat)
    requires
        narrow <= wide,
    ensures
        0 < word_limit(narrow) <= word_limit(wide),
    decreases wide,
{
    if wide == 0 {
    } else if narrow < wide {
        lemma_word_limit_grows(narrow, (wide - 1) as nat);
    } else {
        lemma_word_limit_grows((narrow - 1) as nat, (wide - 1) as nat);
    }
}

} // verus!
