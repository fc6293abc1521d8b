//! Size and alignment of a block of memory.

use crate::num;
use vstd::prelude::*;

verus! {

/// A block of memory: its size and its alignment, both in bytes.
#[derive(Clone, Copy, Debug, PartialEq, Eq, Structural)]
pub struct Layout {
    pub size: usize,
    pub align: usize,
}

/// The parameters given for a layout are out of range.
#[derive(Clone, Copy, Debug, PartialEq, Eq, Structural)]
pub struct LayoutError;

/// Whether a block may have this size and alignment: the alignment is a power
/// of two, and the size, rounded up to a multiple of it, does not overflow
/// `isize`.
pub open spec fn valid(size: int, align: int) -> bool {
    num::power_of_two(align) && num::round_up(size, align) <= isize::MAX
}

/// Rounding up to a power of two stays below the largest one exactly where one
/// alignment is left over.
proof fn lemma_valid_size(size: int, align: int)
    requires
        num::power_of_two(align),
        align <= num::largest_power(),
    ensures
        num::round_up(size, align) <= isize::MAX <==> size <= num::largest_power() - align,
{
    let top = num::largest_power();
    num::lemma_word_count();
    num::lemma_small_powers();
    num::lemma_power_divides(align, top);
    num::lemma_round_up(size, align);
    num::lemma_multiples(top, align);
    if size <= top - align {
        num::lemma_round_up_least(size, align, top - align);
    }
    if num::round_up(size, align) < top {
        num::lemma_multiples_apart(num::round_up(size, align), top, align);
    }
}

/// A block is valid exactly if its alignment is a power of two and some multiple
/// of the alignment from its size on fits into `isize`.
pub proof fn valid_blocks_fit(size: int, align: int, end: int)
    requires
        size >= 0,
    ensures
        num::power_of_two(align) && end % align == 0 && size <= end <= isize::MAX ==> valid(
            size,
            align,
        ),
        valid(size, align) ==> num::power_of_two(align) && size <= isize::MAX,
        valid(size, align) ==> exists|m: int|
            #![trigger m % align]
            m % align == 0 && size <= m <= isize::MAX,
{
    num::lemma_small_powers();
    if num::power_of_two(align) {
        num::lemma_round_up(size, align);
        if end % align == 0 && size <= end {
            num::lemma_round_up_least(size, align, end);
        }
        assert(num::round_up(size, align) % align == 0);
    }
}

/// A block of eight bytes may be aligned to eight.
pub proof fn lemma_eight()
    ensures
        valid(8, 8),
{
    num::lemma_word_count();
    num::lemma_small_powers();
    num::lemma_doubled_power(2);
    num::lemma_doubled_power(4);
    num::lemma_round_up(8, 8);
}

impl Layout {
    /// Whether this layout is a valid one.
    pub open spec fn wf(self) -> bool {
        valid(self.size as int, self.align as int)
    }

    /// A layout with a given size and alignment.
    ///
    /// # Errors
    ///
    /// Fails if `align` is not a power of two, or if `size`, when rounded up to
    /// a multiple of it, overflows `isize`.
    pub fn from_size_align(size: usize, align: usize) -> (r: Result<Layout, LayoutError>)
        ensures
            r is Ok <==> valid(size as int, align as int),
            r matches Ok(l) ==> l.size == size && l.align == align,
    {
        if !num::is_power_of_two(align as u64) {
            return Err(LayoutError);
        }
        proof {
            num::lemma_word_count();
            num::lemma_small_powers();
            if align > num::largest_power() {
                num::lemma_next_power(num::largest_power(), align as int);
            }
            lemma_valid_size(size as int, align as int);
        }
        if size > isize::MAX as usize + 1 - align {
            return Err(LayoutError);
        }
        Ok(Layout { size, align })
    }

    /// The layout of a record: a block of this layout followed by one of the
    /// layout `next`, with the padding that `next` needs in between, and the
    /// offset at which `next` starts.
    ///
    /// # Errors
    ///
    /// Fails if the record is too large.
    pub fn extend(&self, next: Layout) -> (r: Result<(Layout, usize), LayoutError>)
        requires
            self.wf(),
            next.wf(),
        ensures
            ({
                let offset = num::round_up(self.size as int, next.align as int);
                let align = if self.align >= next.align {
                    self.align
                } else {
                    next.align
                };
                &&& r is Ok <==> valid(offset + next.size, align as int)
                &&& r matches Ok(record) ==> {
                    &&& record.0.size == offset + next.size
                    &&& record.0.align == align
                    &&& record.1 == offset
                }
            }),
    {
        proof {
            num::lemma_word_count();
            num::lemma_small_powers();
            num::lemma_round_up(self.size as int, self.align as int);
            num::lemma_round_up(self.size as int, next.align as int);
            num::lemma_round_up(next.size as int, next.align as int);
            if next.align > num::largest_power() {
                num::lemma_next_power(num::largest_power(), next.align as int);
            }
        }
        let rest: usize = self.size % next.align;
        let pad: usize = if rest == 0 {
            0
        } else {
            next.align - rest
        };
        proof {
            num::lemma_padding(self.size as int, next.align as int);
        }
        let offset: usize = self.size + pad;
        let align: usize = if self.align >= next.align {
            self.align
        } else {
            next.align
        };
        match offset.checked_add(next.size) {
            None => {
                proof {
                    num::lemma_round_up(offset + next.size, align as int);
                }
                Err(LayoutError)
            },
            Some(size) => {
                match Layout::from_size_align(size, align) {
                    Err(e) => Err(e),
                    Ok(record) => Ok((record, offset)),
                }
            },
        }
    }
}

} // verus!
