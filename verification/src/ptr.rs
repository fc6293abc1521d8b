//! Pointers that carry a 16-bit tag in their unused upper bits.
//!
//! An address is a 64-bit integer. The lower 48 bits of a packed word hold the
//! address, the upper 16 bits hold the tag.

use core::marker::PhantomData;
use vstd::prelude::*;

verus! {

/// Mask of the bits that hold the address.
pub const LOWER_48_BITS_SET: u64 = 0xffff_ffff_ffff;

/// Position of the tag inside the packed word.
pub const TAG_SHIFT: u64 = 48;

/// Number of addresses that fit below the tag.
pub open spec fn address_space() -> int {
    0x1_0000_0000_0000
}

/// The address half of a packed word.
pub open spec fn addr_of(inner: u64) -> int {
    inner as int % address_space()
}

/// The tag half of a packed word.
pub open spec fn tag_of(inner: u64) -> int {
    inner as int / address_space()
}

/// The word that packs `ptr` and `tag`. The bits of an address that does not
/// fit below the tag are merged into the tag.
pub open spec fn packed(ptr: u64, tag: u16) -> u64 {
    ((tag as u64) << 48u64) | ptr
}

/// Packing an address that fits keeps both halves apart: the word is the tag
/// scaled by the size of the address space plus the address, so both come back.
pub proof fn packed_keeps_address_and_tag(ptr: u64, tag: u16)
    requires
        ptr < address_space(),
    ensures
        packed(ptr, tag) == tag * address_space() + ptr,
        addr_of(packed(ptr, tag)) == ptr,
        tag_of(packed(ptr, tag)) == tag,
{
    let t: u64 = tag as u64;
    assert((t << 48u64) | ptr == t * 0x1_0000_0000_0000u64 + ptr) by (bit_vector)
        requires
            t <= 0xffffu64,
            ptr < 0x1_0000_0000_0000u64,
    ;
    assert(packed(ptr, tag) == tag * address_space() + ptr);
}

/// Splitting a word and packing the halves again gives the word back.
pub proof fn packed_inverts_split(inner: u64)
    ensures
        0 <= addr_of(inner) < address_space(),
        0 <= tag_of(inner) <= u16::MAX,
        packed(addr_of(inner) as u64, tag_of(inner) as u16) == inner,
{
    packed_keeps_address_and_tag(addr_of(inner) as u64, tag_of(inner) as u16);
}

/// The address takes the lower 48 bits of a word and the tag the upper 16, so
/// every word is one address and one tag, and every address below 2^48 can carry
/// every tag.
pub proof fn halves_fill_the_word(inner: u64)
    ensures
        inner == tag_of(inner) * 0x1_0000_0000_0000 + addr_of(inner),
        0 <= addr_of(inner) < 0x1_0000_0000_0000,
        0 <= tag_of(inner) < 0x1_0000,
        address_space() == 0x1_0000_0000_0000,
{
}

/// The bits of an address that does not fit below the tag are merged into the
/// tag; the bits below are kept.
pub proof fn oversized_address_runs_into_the_tag(ptr: u64, tag: u16)
    ensures
        addr_of(packed(ptr, tag)) == ptr as int % 0x1_0000_0000_0000,
        tag_of(packed(ptr, tag)) == (tag as u64 | ptr / 0x1_0000_0000_0000u64),
{
    let t: u64 = tag as u64;
    let w: u64 = (t << 48u64) | ptr;
    assert(w % 0x1_0000_0000_0000u64 == ptr % 0x1_0000_0000_0000u64) by (bit_vector)
        requires
            t <= 0xffffu64,
            w == (t << 48u64) | ptr,
    ;
    assert(w / 0x1_0000_0000_0000u64 == t | (ptr / 0x1_0000_0000_0000u64)) by (bit_vector)
        requires
            t <= 0xffffu64,
            w == (t << 48u64) | ptr,
    ;
}

/// Splits a packed word into its address and its tag.
pub fn tagged_to_ptr_tag(inner: u64) -> (r: (u64, u16))
    ensures
        r.0 == addr_of(inner),
        r.1 == tag_of(inner),
{
    let ptr: u64 = inner & LOWER_48_BITS_SET;
    let high: u64 = inner >> TAG_SHIFT;
    assert(inner & 0xffff_ffff_ffffu64 == inner % 0x1_0000_0000_0000u64) by (bit_vector);
    assert(inner >> 48u64 == inner / 0x1_0000_0000_0000u64) by (bit_vector);
    (ptr, high as u16)
}

/// Packs an address and a tag into one word.
pub fn ptr_tag_to_tagged(ptr: u64, tag: u16) -> (r: u64)
    ensures
        r == packed(ptr, tag),
{
    ((tag as u64) << TAG_SHIFT) | ptr
}

/// An address of a `T` together with a tag.
pub struct TaggedPtr<T> {
    pub inner: u64,
    pub target: PhantomData<T>,
}

impl<T> Clone for TaggedPtr<T> {
    fn clone(&self) -> (r: Self)
        ensures
            r == *self,
    {
        *self
    }
}

impl<T> Copy for TaggedPtr<T> {

}

impl<T> TaggedPtr<T> {
    /// The address.
    pub open spec fn addr(self) -> int {
        addr_of(self.inner)
    }

    /// The tag.
    pub open spec fn tag(self) -> int {
        tag_of(self.inner)
    }

    pub fn new(ptr: u64, tag: u16) -> (r: TaggedPtr<T>)
        ensures
            r.inner == packed(ptr, tag),
            ptr < address_space() ==> r.addr() == ptr && r.tag() == tag,
    {
        proof {
            if ptr < address_space() {
                packed_keeps_address_and_tag(ptr, tag);
            }
        }
        TaggedPtr { inner: ptr_tag_to_tagged(ptr, tag), target: PhantomData }
    }

    /// The address, without the tag.
    pub fn ptr(&self) -> (r: u64)
        ensures
            r == self.addr(),
            r < address_space(),
    {
        let (ptr, _) = tagged_to_ptr_tag(self.inner);
        ptr
    }

    /// Moves the address up by `n` bytes and keeps the tag.
    pub fn byte_add<P>(self, n: u64) -> (r: TaggedPtr<P>)
        requires
            self.addr() + n <= u64::MAX,
        ensures
            r.inner == packed((self.addr() + n) as u64, self.tag() as u16),
            self.addr() + n < address_space() ==> r.addr() == self.addr() + n && r.tag()
                == self.tag(),
    {
        let (ptr, tag) = tagged_to_ptr_tag(self.inner);
        let new_ptr: u64 = ptr + n;
        proof {
            if new_ptr < address_space() {
                packed_keeps_address_and_tag(new_ptr, tag);
            }
        }
        TaggedPtr { inner: ptr_tag_to_tagged(new_ptr, tag), target: PhantomData }
    }

    /// Moves the address down by `n` bytes and keeps the tag.
    pub fn byte_sub<P>(self, n: u64) -> (r: TaggedPtr<P>)
        requires
            n <= self.addr(),
        ensures
            r.inner == packed((self.addr() - n) as u64, self.tag() as u16),
            r.addr() == self.addr() - n,
            r.tag() == self.tag(),
    {
        let (ptr, tag) = tagged_to_ptr_tag(self.inner);
        let new_ptr: u64 = ptr - n;
        proof {
            packed_keeps_address_and_tag(new_ptr, tag);
        }
        TaggedPtr { inner: ptr_tag_to_tagged(new_ptr, tag), target: PhantomData }
    }

    /// Adds `rhs` to the tag, modulo the range of the tag, and keeps the
    /// address.
    pub fn wrapping_add_tag(&mut self, rhs: u16)
        ensures
            final(self).addr() == old(self).addr(),
            final(self).tag() == (old(self).tag() + rhs) % 0x1_0000,
            final(self).inner == packed(
                old(self).addr() as u64,
                ((old(self).tag() + rhs) % 0x1_0000) as u16,
            ),
    {
        let (ptr, tag) = tagged_to_ptr_tag(self.inner);
        let new_tag: u16 = tag.wrapping_add(rhs);
        proof {
            packed_keeps_address_and_tag(ptr, new_tag);
        }
        self.inner = ptr_tag_to_tagged(ptr, new_tag);
    }
}

/// Moving a tagged pointer up and down again by the same distance gives back
/// the same word, as long as the address stays below the tag.
pub proof fn byte_moves_cancel(inner: u64, n: u64)
    requires
        addr_of(inner) + n < address_space(),
    ensures
        ({
            let up = packed((addr_of(inner) + n) as u64, tag_of(inner) as u16);
            packed((addr_of(up) - n) as u64, tag_of(up) as u16) == inner
        }),
{
    packed_keeps_address_and_tag((addr_of(inner) + n) as u64, tag_of(inner) as u16);
    packed_inverts_split(inner);
}

/// Two words with the same address differ as soon as their tags differ, so a
/// stale tag can not pass for the current one.
pub proof fn distinct_tags_make_distinct_words(ptr: u64, a: u16, b: u16)
    requires
        ptr < address_space(),
        a != b,
    ensures
        packed(ptr, a) != packed(ptr, b),
{
    packed_keeps_address_and_tag(ptr, a);
    packed_keeps_address_and_tag(ptr, b);
}

/// A shared cell that holds a tagged pointer.
pub struct AtomicTagged<T> {
    pub inner: u64,
    pub target: PhantomData<T>,
}

impl<T> AtomicTagged<T> {
    pub fn new(v: TaggedPtr<T>) -> (r: AtomicTagged<T>)
        ensures
            r.inner == v.inner,
    {
        AtomicTagged { inner: v.inner, target: PhantomData }
    }

    /// The tagged pointer that the cell holds.
    pub fn load(&self) -> (r: TaggedPtr<T>)
        ensures
            r.inner == self.inner,
    {
        TaggedPtr { inner: self.inner, target: PhantomData }
    }

    /// Replaces the tagged pointer.
    pub fn store(&mut self, ptr: TaggedPtr<T>)
        ensures
            final(self).inner == ptr.inner,
    {
        self.inner = ptr.inner;
    }

    /// Replaces the tagged pointer by `new` if the cell holds exactly
    /// `current`, address and tag. Either way the value found is returned.
    pub fn compare_exchange_weak(
        &mut self,
        current: TaggedPtr<T>,
        new: TaggedPtr<T>,
    ) -> (r: Result<TaggedPtr<T>, TaggedPtr<T>>)
        ensures
            r is Ok <==> old(self).inner == current.inner,
            r matches Ok(found) ==> found.inner == old(self).inner && final(self).inner
                == new.inner,
            r matches Err(found) ==> found.inner == old(self).inner && final(self).inner == old(
                self,
            ).inner,
    {
        let found: TaggedPtr<T> = self.load();
        if found.inner == current.inner {
            self.inner = new.inner;
            Ok(found)
        } else {
            Err(found)
        }
    }
}

} // verus!
