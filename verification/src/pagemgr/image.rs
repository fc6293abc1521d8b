//! Words inside the bytes of a store.
//!
//! A store keeps its words as the machine has them in memory, so their bytes
//! stand in one of two orders.

use vstd::bytes::*;
use vstd::prelude::*;
use vstd::slice::*;

verus! {

/// The order of the bytes of a word.
#[derive(Clone, Copy, Debug, PartialEq, Eq, Structural)]
pub enum ByteOrder {
    /// The byte with the lowest value comes first.
    Little,
    /// The byte with the highest value comes first.
    Big,
}

/// `u16::from_ne_bytes`: the number that two bytes make in the order of the
/// machine. One of the two orders applies; which one it is depends on the
/// machine and is left open.
#[verifier::external_body]
fn native_number(first: u8, second: u8) -> (r: u16)
    ensures
        r == first + 256 * second || r == 256 * first + second,
{
    u16::from_ne_bytes([first, second])
}

impl ByteOrder {
    /// The order in which the bytes 1 and 0 make this number.
    pub fn of_probe(probe: u16) -> (r: ByteOrder)
        requires
            probe == 1 || probe == 256,
        ensures
            r == ByteOrder::Little <==> probe == 1,
            r == ByteOrder::Big <==> probe == 256,
    {
        if probe == 1 {
            ByteOrder::Little
        } else {
            ByteOrder::Big
        }
    }

    /// The order of the machine.
    pub(crate) fn native() -> ByteOrder {
        ByteOrder::of_probe(native_number(1, 0))
    }

    /// Some bytes in this order, given with the lowest value first, or the other
    /// way round.
    pub open spec fn arranged(self, bytes: Seq<u8>) -> Seq<u8> {
        match self {
            ByteOrder::Little => bytes,
            ByteOrder::Big => bytes.reverse(),
        }
    }
}

/// The eight-byte word at an offset.
pub open spec fn word(o: ByteOrder, b: Seq<u8>, off: int) -> int {
    spec_u64_from_le_bytes(o.arranged(b.subrange(off, off + 8))) as int
}

/// The four-byte word at an offset.
pub open spec fn half(o: ByteOrder, b: Seq<u8>, off: int) -> int {
    spec_u32_from_le_bytes(o.arranged(b.subrange(off, off + 4))) as int
}

/// Whether two byte sequences hold the same bytes from `from` up to `to`.
pub open spec fn agree(a: Seq<u8>, b: Seq<u8>, from: int, to: int) -> bool {
    forall|i: int| from <= i < to ==> #[trigger] a[i] == b[i]
}

/// `b` with the bytes from `off` on replaced by `new`.
pub open spec fn patch(b: Seq<u8>, off: int, new: Seq<u8>) -> Seq<u8> {
    Seq::new(
        b.len(),
        |i: int|
            if off <= i < off + new.len() {
                new[i - off]
            } else {
                b[i]
            },
    )
}

/// `b` with the `n` bytes from `off` on taken out and `new` put in their place.
pub open spec fn spliced(b: Seq<u8>, off: int, n: int, new: Seq<u8>) -> Seq<u8> {
    b.subrange(0, off) + new + b.subrange(off + n, b.len() as int)
}

/// A word is determined by the bytes it is made of.
pub proof fn lemma_word_agrees(o: ByteOrder, a: Seq<u8>, b: Seq<u8>, off: int)
    requires
        0 <= off,
        off + 8 <= a.len(),
        off + 8 <= b.len(),
        agree(a, b, off, off + 8),
    ensures
        word(o, a, off) == word(o, b, off),
{
    assert(a.subrange(off, off + 8) =~= b.subrange(off, off + 8));
}

/// A four-byte word is determined by the bytes it is made of.
pub proof fn lemma_half_agrees(o: ByteOrder, a: Seq<u8>, b: Seq<u8>, off: int)
    requires
        0 <= off,
        off + 4 <= a.len(),
        off + 4 <= b.len(),
        agree(a, b, off, off + 4),
    ensures
        half(o, a, off) == half(o, b, off),
{
    assert(a.subrange(off, off + 4) =~= b.subrange(off, off + 4));
}

/// Eight bytes that are all zero are the word zero.
pub proof fn lemma_zero_word(o: ByteOrder, b: Seq<u8>, off: int)
    requires
        0 <= off,
        off + 8 <= b.len(),
        forall|i: int| off <= i < off + 8 ==> b[i] == 0,
    ensures
        word(o, b, off) == 0,
{
    let x = 0u64;
    lemma_auto_spec_u64_to_from_le_bytes();
    spec_u64_to_le_bytes_to_open(x);
    assert(x & 0xff == 0 && (x >> 8) & 0xff == 0 && (x >> 16) & 0xff == 0 && (x >> 24) & 0xff == 0
        && (x >> 32) & 0xff == 0 && (x >> 40) & 0xff == 0 && (x >> 48) & 0xff == 0 && (x >> 56)
        & 0xff == 0) by (bit_vector)
        requires
            x == 0,
    ;
    assert(o.arranged(b.subrange(off, off + 8)) =~= spec_u64_to_le_bytes(x));
}

/// A word is made of its eight bytes: each counts 256 times as much as the one
/// in front of it, or as the one behind it.
pub proof fn bytes_of_a_word_count_in_order(o: ByteOrder, b: Seq<u8>, off: int)
    requires
        0 <= off,
        off + 8 <= b.len(),
    ensures
        o == ByteOrder::Little ==> word(o, b, off) == b[off] + 0x100 * b[off + 1] + 0x1_0000 * b[off
            + 2] + 0x100_0000 * b[off + 3] + 0x1_0000_0000 * b[off + 4] + 0x100_0000_0000 * b[off
            + 5] + 0x1_0000_0000_0000 * b[off + 6] + 0x100_0000_0000_0000 * b[off + 7],
        o == ByteOrder::Big ==> word(o, b, off) == b[off + 7] + 0x100 * b[off + 6] + 0x1_0000
            * b[off + 5] + 0x100_0000 * b[off + 4] + 0x1_0000_0000 * b[off + 3] + 0x100_0000_0000
            * b[off + 2] + 0x1_0000_0000_0000 * b[off + 1] + 0x100_0000_0000_0000 * b[off],
{
    let s = o.arranged(b.subrange(off, off + 8));
    let x = spec_u64_from_le_bytes(s);
    lemma_auto_spec_u64_to_from_le_bytes();
    assert(s.len() == 8);
    assert(spec_u64_to_le_bytes(x) == s);
    spec_u64_to_le_bytes_to_open(x);
    assert(x & 0xff <= 0xff && (x >> 8) & 0xff <= 0xff && (x >> 16) & 0xff <= 0xff && (x >> 24)
        & 0xff <= 0xff && (x >> 32) & 0xff <= 0xff && (x >> 40) & 0xff <= 0xff && (x >> 48) & 0xff
        <= 0xff && (x >> 56) & 0xff <= 0xff && x == (x & 0xff) + 0x100 * ((x >> 8) & 0xff)
        + 0x1_0000 * ((x >> 16) & 0xff) + 0x100_0000 * ((x >> 24) & 0xff) + 0x1_0000_0000 * ((x
        >> 32) & 0xff) + 0x100_0000_0000 * ((x >> 40) & 0xff) + 0x1_0000_0000_0000 * ((x >> 48)
        & 0xff) + 0x100_0000_0000_0000 * ((x >> 56) & 0xff)) by (bit_vector);
    match o {
        ByteOrder::Little => {
            assert(forall|i: int| 0 <= i < 8 ==> s[i] == #[trigger] b[off + i]);
            assert(b[off] == s[0]);
        },
        ByteOrder::Big => {
            assert forall|i: int| 0 <= i < 8 implies s[7 - i] == #[trigger] b[off + i] by {}
            assert(b[off] == s[7]);
        },
    }
}

/// Some bytes in this order, or the other way round.
fn arrange(o: ByteOrder, bytes: &[u8]) -> (r: Vec<u8>)
    ensures
        r@ == o.arranged(bytes@),
{
    let n: usize = bytes.len();
    let mut r: Vec<u8> = Vec::new();
    let mut i: usize = 0;
    while i < n
        invariant
            n == bytes@.len(),
            i <= n,
            r@ == o.arranged(bytes@).take(i as int),
        decreases n - i,
    {
        let byte: u8 = match o {
            ByteOrder::Little => bytes[i],
            ByteOrder::Big => bytes[n - 1 - i],
        };
        r.push(byte);
        i = i + 1;
        assert(r@ =~= o.arranged(bytes@).take(i as int));
    }
    assert(o.arranged(bytes@).take(n as int) =~= o.arranged(bytes@));
    r
}

fn overwrite(image: &mut Vec<u8>, off: usize, new: &Vec<u8>)
    requires
        off + new@.len() <= old(image)@.len(),
    ensures
        final(image)@ == patch(old(image)@, off as int, new@),
{
    let n: usize = new.len();
    let mut i: usize = 0;
    while i < n
        invariant
            n == new@.len(),
            i <= n,
            off + n <= image@.len(),
            image@ == patch(old(image)@, off as int, new@.take(i as int)),
        decreases n - i,
    {
        assert(off + n <= image.len());
        image.set(off + i, new[i]);
        i = i + 1;
        assert(image@ =~= patch(old(image)@, off as int, new@.take(i as int)));
    }
    assert(new@.take(n as int) =~= new@);
}

/// Reads the eight-byte word at an offset.
pub fn read_word(o: ByteOrder, image: &Vec<u8>, off: usize) -> (v: u64)
    requires
        off + 8 <= image@.len(),
    ensures
        v == word(o, image@, off as int),
{
    assert(off + 8 <= image.len());
    let bytes: Vec<u8> = arrange(o, slice_subrange(image.as_slice(), off, off + 8));
    u64_from_le_bytes(bytes.as_slice())
}

/// Reads the four-byte word at an offset.
pub fn read_half(o: ByteOrder, image: &Vec<u8>, off: usize) -> (v: u32)
    requires
        off + 4 <= image@.len(),
    ensures
        v == half(o, image@, off as int),
{
    assert(off + 4 <= image.len());
    let bytes: Vec<u8> = arrange(o, slice_subrange(image.as_slice(), off, off + 4));
    u32_from_le_bytes(bytes.as_slice())
}

/// Writes the eight-byte word at an offset.
pub fn write_word(o: ByteOrder, image: &mut Vec<u8>, off: usize, v: u64)
    requires
        off + 8 <= old(image)@.len(),
    ensures
        final(image)@ == patch(
            old(image)@,
            off as int,
            o.arranged(spec_u64_to_le_bytes(v)),
        ),
        final(image)@.len() == old(image)@.len(),
        word(o, final(image)@, off as int) == v,
        agree(old(image)@, final(image)@, 0, off as int),
        agree(old(image)@, final(image)@, off + 8, old(image)@.len() as int),
{
    let plain: Vec<u8> = u64_to_le_bytes(v);
    proof {
        lemma_auto_spec_u64_to_from_le_bytes();
        assert(plain@.len() == 8);
    }
    let bytes: Vec<u8> = arrange(o, plain.as_slice());
    overwrite(image, off, &bytes);
    proof {
        assert(image@.subrange(off as int, off + 8) =~= bytes@);
        assert(o.arranged(bytes@) =~= plain@);
    }
}

/// Writes the four-byte word at an offset.
pub fn write_half(o: ByteOrder, image: &mut Vec<u8>, off: usize, v: u32)
    requires
        off + 4 <= old(image)@.len(),
    ensures
        final(image)@ == patch(
            old(image)@,
            off as int,
            o.arranged(spec_u32_to_le_bytes(v)),
        ),
        final(image)@.len() == old(image)@.len(),
        half(o, final(image)@, off as int) == v,
        agree(old(image)@, final(image)@, 0, off as int),
        agree(old(image)@, final(image)@, off + 4, old(image)@.len() as int),
{
    let plain: Vec<u8> = u32_to_le_bytes(v);
    proof {
        lemma_auto_spec_u32_to_from_le_bytes();
        assert(plain@.len() == 4);
    }
    let bytes: Vec<u8> = arrange(o, plain.as_slice());
    overwrite(image, off, &bytes);
    proof {
        assert(image@.subrange(off as int, off + 4) =~= bytes@);
        assert(o.arranged(bytes@) =~= plain@);
    }
}

/// The bytes from `off` on, `n` of them, for reading.
pub fn window(image: &Vec<u8>, off: usize, n: usize) -> (r: &[u8])
    requires
        off + n <= image@.len(),
    ensures
        r@ == image@.subrange(off as int, off + n),
{
    assert(off + n <= image.len());
    slice_subrange(image.as_slice(), off, off + n)
}

/// The bytes from `off` on, `n` of them, for writing.
pub fn window_mut(image: &mut Vec<u8>, off: usize, n: usize) -> (r: &mut [u8])
    requires
        off + n <= old(image)@.len(),
    ensures
        r@ == old(image)@.subrange(off as int, off + n),
        final(image)@ == spliced(old(image)@, off as int, n as int, final(r)@),
{
    let (_, rest) = image.as_mut_slice().split_at_mut(off);
    let (r, _) = rest.split_at_mut(n);
    r
}

} // verus!
