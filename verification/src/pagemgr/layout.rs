//! Geometry of a data page: how many slots of a size class fit behind the page
//! header and the bitmap that tracks them.

use crate::num;
use vstd::arithmetic::div_mod::*;
use vstd::arithmetic::mul::*;
use vstd::arithmetic::power2::*;
use vstd::bits::*;
use vstd::prelude::*;

verus! {

/// Size of the header that every data page starts with.
pub const HEADER_BYTES: usize = 24;

/// Derived geometry of a data page for a given logical page size and class.
#[derive(Clone, Copy, Debug, PartialEq, Eq, Structural)]
pub struct PageLayout {
    pub class_id: usize,
    pub slot_size: usize,
    pub slot_count: usize,
    pub bitmap_bytes: usize,
    /// Byte offset from the start of the page to slot 0.
    pub payload_off: usize,
}

/// Where slot 0 starts if a page holds `slot_count` slots.
pub open spec fn payload_offset(slot_size: int, slot_count: int) -> int {
    num::round_up(HEADER_BYTES + num::ceil_div(slot_count, 8), slot_size)
}

/// How many bytes the header, the bitmap, the padding and the slots take.
pub open spec fn bytes_needed(slot_size: int, slot_count: int) -> int {
    payload_offset(slot_size, slot_count) + slot_count * slot_size
}

/// Whether a page has room for `slot_count` slots.
pub open spec fn fits(page_size: int, slot_size: int, slot_count: int) -> bool {
    bytes_needed(slot_size, slot_count) <= page_size
}

/// Whether `n` is the number of slots of a page: they fit, one more does not.
pub open spec fn is_slot_count(page_size: int, slot_size: int, n: int) -> bool {
    1 <= n && fits(page_size, slot_size, n) && !fits(page_size, slot_size, n + 1)
}

/// Whether a page of this size has any room for slots of this class.
pub open spec fn class_fits(page_size: int, class_id: int) -> bool {
    0 <= class_id < usize::BITS && fits(page_size, pow2(class_id as nat) as int, 1)
}

/// The geometry of a page of a class that fits.
pub open spec fn layout_of(page_size: int, class_id: int) -> PageLayout {
    let slot_size = pow2(class_id as nat) as int;
    let n = choose|n: int| is_slot_count(page_size, slot_size, n);
    PageLayout {
        class_id: class_id as usize,
        slot_size: slot_size as usize,
        slot_count: n as usize,
        bitmap_bytes: num::ceil_div(n, 8) as usize,
        payload_off: payload_offset(slot_size, n) as usize,
    }
}

/// More slots need more bytes.
pub proof fn lemma_bytes_needed_grows(slot_size: int, a: int, b: int)
    requires
        slot_size > 0,
        0 <= a < b,
    ensures
        bytes_needed(slot_size, a) < bytes_needed(slot_size, b),
{
    lemma_div_is_ordered(a + 7, b + 7, 8);
    num::lemma_round_up_ordered(
        HEADER_BYTES + num::ceil_div(a, 8),
        HEADER_BYTES + num::ceil_div(b, 8),
        slot_size,
    );
    lemma_mul_strict_inequality(a, b, slot_size);
}

/// There is only one number of slots.
pub proof fn slot_count_is_unique(page_size: int, slot_size: int, a: int, b: int)
    requires
        slot_size > 0,
        is_slot_count(page_size, slot_size, a),
        is_slot_count(page_size, slot_size, b),
    ensures
        a == b,
{
    if a < b {
        if a + 1 < b {
            lemma_bytes_needed_grows(slot_size, a + 1, b);
        }
    } else if b < a {
        if b + 1 < a {
            lemma_bytes_needed_grows(slot_size, b + 1, a);
        }
    }
}

/// A page with room for one slot has a number of slots.
proof fn lemma_slot_count_exists(page_size: int, slot_size: int, from: int)
    requires
        slot_size > 0,
        from >= 1,
        fits(page_size, slot_size, from),
    ensures
        exists|n: int| is_slot_count(page_size, slot_size, n),
    decreases page_size - bytes_needed(slot_size, from),
{
    if fits(page_size, slot_size, from + 1) {
        lemma_bytes_needed_grows(slot_size, from, from + 1);
        lemma_slot_count_exists(page_size, slot_size, from + 1);
    } else {
        assert(is_slot_count(page_size, slot_size, from));
    }
}

/// What the geometry of a class that fits guarantees: the header, the bitmap
/// and the slots follow one another inside the page, every slot has a bit, and
/// no further slot would fit.
pub proof fn lemma_layout(page_size: int, class_id: int)
    requires
        page_size <= usize::MAX,
        class_fits(page_size, class_id),
    ensures
        ({
            let l = layout_of(page_size, class_id);
            &&& l.class_id == class_id
            &&& l.slot_size == pow2(class_id as nat)
            &&& l.slot_size >= 1
            &&& is_slot_count(page_size, l.slot_size as int, l.slot_count as int)
            &&& l.bitmap_bytes == num::ceil_div(l.slot_count as int, 8)
            &&& l.slot_count <= 8 * l.bitmap_bytes
            &&& l.payload_off == payload_offset(l.slot_size as int, l.slot_count as int)
            &&& HEADER_BYTES + l.bitmap_bytes <= l.payload_off
            &&& l.payload_off + l.slot_count * l.slot_size <= page_size
            &&& l.payload_off as int % l.slot_size as int == 0
        }),
{
    let slot_size = pow2(class_id as nat) as int;
    lemma_pow2_pos(class_id as nat);
    lemma_usize_pow2_no_overflow(class_id as nat);
    lemma_slot_count_exists(page_size, slot_size, 1);
    let n = choose|n: int| is_slot_count(page_size, slot_size, n);
    assert(is_slot_count(page_size, slot_size, n));
    num::lemma_round_up(HEADER_BYTES + num::ceil_div(n, 8), slot_size);
    assert(n <= n * slot_size) by (nonlinear_arith)
        requires
            n >= 1,
            slot_size >= 1,
    ;
}

/// A page holds as many slots as it can: however slots are placed behind the 24
/// bytes of the header and one bit for each of them, at a multiple of their size,
/// there are not more than the page has.
pub proof fn page_holds_as_many_slots_as_it_can(
    page_size: int,
    class_id: int,
    count: int,
    off: int,
)
    requires
        page_size <= usize::MAX,
        0 <= class_id < usize::BITS,
        count >= 1,
        off % (pow2(class_id as nat) as int) == 0,
        24 * 8 + count <= 8 * off,
        off + count * pow2(class_id as nat) <= page_size,
    ensures
        class_fits(page_size, class_id),
        count <= layout_of(page_size, class_id).slot_count,
{
    let size = pow2(class_id as nat) as int;
    lemma_pow2_pos(class_id as nat);
    num::groups_are_just_enough(count, 8);
    num::lemma_round_up_least(HEADER_BYTES + num::ceil_div(count, 8), size, off);
    assert(fits(page_size, size, count));
    if count > 1 {
        lemma_bytes_needed_grows(size, 1, count);
    }
    lemma_layout(page_size, class_id);
    let n = layout_of(page_size, class_id).slot_count as int;
    if n + 1 < count {
        lemma_bytes_needed_grows(size, n + 1, count);
    }
}

/// The parts of a page follow one another without gaps but for the padding that
/// the slots need: the 24 bytes of the header, as many bytes as it takes for one
/// bit for each slot, and the slots from the next multiple of their size on. A
/// class for which there is room has at least one slot.
pub proof fn parts_of_a_page_follow_one_another(page_size: int, class_id: int)
    requires
        page_size <= usize::MAX,
        class_fits(page_size, class_id),
    ensures
        ({
            let l = layout_of(page_size, class_id);
            &&& l.class_id == class_id
            &&& l.slot_size == pow2(class_id as nat)
            &&& l.slot_count >= 1
            &&& 8 * (l.bitmap_bytes - 1) < l.slot_count <= 8 * l.bitmap_bytes
            &&& 24 + l.bitmap_bytes <= l.payload_off < 24 + l.bitmap_bytes + l.slot_size
            &&& l.payload_off as int % l.slot_size as int == 0
            &&& l.payload_off + l.slot_count * l.slot_size <= page_size
        }),
{
    lemma_layout(page_size, class_id);
    let l = layout_of(page_size, class_id);
    num::groups_are_just_enough(l.slot_count as int, 8);
    num::lemma_round_up(
        HEADER_BYTES + num::ceil_div(l.slot_count as int, 8),
        l.slot_size as int,
    );
}

/// Size-class index `i` for a power-of-two `slot_size` (`2^i`).
pub fn size_class(slot_size: usize) -> (class_id: usize)
    requires
        num::power_of_two(slot_size as int),
    ensures
        slot_size == pow2(class_id as nat),
        class_id < usize::BITS,
{
    proof {
        lemma2_to64();
        num::lemma_small_powers();
        num::lemma_word_count();
    }
    let mut class_id: usize = 0;
    let mut size: usize = 1;
    while size < slot_size
        invariant
            size == pow2(class_id as nat),
            num::power_of_two(slot_size as int),
            size <= slot_size,
            class_id < usize::BITS,
        decreases slot_size - size,
    {
        proof {
            num::lemma_next_power(size as int, slot_size as int);
            lemma_pow2_pos(class_id as nat);
            lemma_pow2_unfold((class_id + 1) as nat);
            num::lemma_word_count();
            if class_id + 1 >= usize::BITS {
                assert(pow2((class_id + 1) as nat) == num::word_count());
            }
        }
        size = size * 2;
        class_id = class_id + 1;
    }
    class_id
}

/// A class determines its slot size and the other way round.
pub proof fn lemma_class_injective(a: nat, b: nat)
    requires
        pow2(a) == pow2(b),
    ensures
        a == b,
{
    if a < b {
        lemma_pow2_strictly_increases(a, b);
    } else if b < a {
        lemma_pow2_strictly_increases(b, a);
    }
}

/// The smaller of a number and the largest word.
pub open spec fn saturated(x: int) -> int {
    if x > usize::MAX {
        usize::MAX as int
    } else {
        x
    }
}

fn ceil_div(n: usize, d: usize) -> (r: usize)
    requires
        d > 0,
    ensures
        r == num::ceil_div(n as int, d as int),
{
    let q: usize = n / d;
    let rem: usize = n % d;
    proof {
        lemma_fundamental_div_mod(n as int, d as int);
        let e = if rem == 0 {
            q as int
        } else {
            q + 1
        };
        let rest = n + d - 1 - d * e;
        assert(d * (q + 1) == d * q + d) by (nonlinear_arith);
        lemma_fundamental_div_mod_converse(n + d - 1, d as int, e, rest);
        if rem != 0 {
            assert(q < usize::MAX) by {
                assert(q <= n) by (nonlinear_arith)
                    requires
                        n == d * q + rem,
                        d >= 1,
                        rem >= 0,
                ;
                if d == 1 {
                    assert(n as int % 1 == 0);
                } else if q == usize::MAX {
                    assert(d * q >= 2 * q) by (nonlinear_arith)
                        requires
                            d >= 2,
                            q >= 0,
                    ;
                }
            }
        }
    }
    if rem == 0 {
        q
    } else {
        q + 1
    }
}

fn saturating_mul(a: usize, b: usize) -> (r: usize)
    ensures
        r == saturated(a * b),
{
    match a.checked_mul(b) {
        Some(p) => p,
        None => usize::MAX,
    }
}

/// Whether `slot_count` slots of `slot_size` bytes fit into a page, computed
/// with saturating arithmetic.
pub fn layout_fits(page_size: usize, slot_size: usize, slot_count: usize) -> (r: bool)
    requires
        slot_size > 0,
    ensures
        r == (saturated(payload_offset(slot_size as int, slot_count as int)) + saturated(
            slot_count * slot_size,
        ) <= page_size),
        slot_count > 0 || page_size < usize::MAX ==> r == fits(
            page_size as int,
            slot_size as int,
            slot_count as int,
        ),
{
    let bitmap_bytes: usize = ceil_div(slot_count, 8);
    let prefix: usize = HEADER_BYTES + bitmap_bytes;
    let payload_off: usize = saturating_mul(ceil_div(prefix, slot_size), slot_size);
    proof {
        num::lemma_round_up(prefix as int, slot_size as int);
        if slot_count > 0 {
            assert(slot_count * slot_size > 0) by (nonlinear_arith)
                requires
                    slot_count > 0,
                    slot_size > 0,
            ;
        } else {
            assert(slot_count * slot_size == 0) by (nonlinear_arith)
                requires
                    slot_count == 0,
            ;
        }
    }
    match payload_off.checked_add(saturating_mul(slot_count, slot_size)) {
        Some(total) => total <= page_size,
        None => false,
    }
}

/// Computes data-page geometry for `page_size` + size `class_id`.
///
/// Finds the largest number of slots that fits behind the header and the
/// bitmap. Returns `None` if not even one slot fits.
pub fn page_layout(page_size: usize, class_id: usize) -> (r: Option<PageLayout>)
    ensures
        r is Some <==> class_fits(page_size as int, class_id as int),
        r matches Some(l) ==> l == layout_of(page_size as int, class_id as int),
{
    if class_id >= usize::BITS as usize {
        return None;
    }
    proof {
        lemma_usize_pow2_no_overflow(class_id as nat);
        lemma_pow2_pos(class_id as nat);
        lemma_mul_basics(pow2(class_id as nat) as int);
        lemma_usize_shl_is_mul(1, class_id);
    }
    let slot_size: usize = 1usize << class_id;
    let ghost ps = page_size as int;
    let ghost ss = slot_size as int;
    proof {
        num::lemma_round_up(HEADER_BYTES + num::ceil_div(1, 8), ss);
        lemma_mul_basics(ss);
    }
    if HEADER_BYTES >= page_size {
        return None;
    }
    proof {
        lemma_div_is_ordered_by_denominator(ps - HEADER_BYTES, 1, ss);
    }
    let mut lo: usize = 0;
    let mut hi: usize = (page_size - HEADER_BYTES) / slot_size + 1;
    proof {
        assert forall|n: int| n > hi implies !fits(ps, ss, n) by {
            num::lemma_round_up(HEADER_BYTES + num::ceil_div(n, 8), ss);
            let q = (ps - HEADER_BYTES) / ss;
            lemma_fundamental_div_mod(ps - HEADER_BYTES, ss);
            assert(n * ss >= ss * q + ss) by (nonlinear_arith)
                requires
                    n >= q + 1,
                    ss > 0,
            ;
        }
    }
    while lo < hi
        invariant
            slot_size == ss,
            page_size == ps,
            slot_size > 0,
            lo <= hi <= usize::MAX - HEADER_BYTES + 1,
            lo > 0 ==> fits(ps, ss, lo as int),
            forall|n: int| n > hi ==> !fits(ps, ss, n),
        decreases hi - lo,
    {
        let mid: usize = lo + (hi - lo + 1) / 2;
        if layout_fits(page_size, slot_size, mid) {
            lo = mid;
        } else {
            proof {
                assert forall|n: int| n > mid - 1 implies !fits(ps, ss, n) by {
                    if n > mid {
                        lemma_bytes_needed_grows(ss, mid as int, n);
                    }
                }
            }
            hi = mid - 1;
        }
    }
    if lo == 0 {
        return None;
    }
    proof {
        assert(fits(ps, ss, 1)) by {
            if lo > 1 {
                lemma_bytes_needed_grows(ss, 1, lo as int);
            }
        }
        assert(is_slot_count(ps, ss, lo as int));
        lemma_layout(ps, class_id as int);
        slot_count_is_unique(
            ps,
            ss,
            lo as int,
            layout_of(ps, class_id as int).slot_count as int,
        );
    }
    let bitmap_bytes: usize = ceil_div(lo, 8);
    let prefix: usize = HEADER_BYTES + bitmap_bytes;
    let payload_off: usize = ceil_div(prefix, slot_size) * slot_size;
    Some(PageLayout { class_id, slot_size, slot_count: lo, bitmap_bytes, payload_off })
}

} // verus!
