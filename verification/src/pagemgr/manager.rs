//! The page manager: slots of power-of-two sizes in a growing run of pages.
//!
//! Each size class (slots of `2^i` bytes) owns a list of data pages. An
//! allocation takes the first free slot of the first page of the list that has
//! one; where none has, a page is appended and linked in front of the list.
//!
//! The manager works on the bytes of the store. Growing the file and writing
//! pages back are left to the caller, who says how they went: whether the
//! store could be grown, and how many of the dirty pages were synced.

use super::bitmap;
use super::image;
use super::image::ByteOrder;
use super::layout;
use super::layout::{PageLayout, HEADER_BYTES};
use super::store;
use super::store::{
    PageView, StoreView, CLASSES, CLASS_OFF, HEADS_OFF, LARGEST_SLOT, META_BYTES, NEXT_OFF,
    THRESHOLD_OFF,
};
use crate::num;
use crate::order;
use vstd::arithmetic::div_mod::*;
use vstd::arithmetic::mul::*;
use vstd::arithmetic::power2::*;
use vstd::layout::*;
use vstd::prelude::*;

verus! {

/// Default size of a page in a new store (4 KiB).
///
/// This is part of the format of the store, not the page size of the host: a
/// store keeps the page size that it was created with.
pub const DEFAULT_PAGE_SIZE: usize = 4096;

/// Link meaning "no page" (page 0 is always metadata).
pub const NO_PAGE: usize = 0;

/// Index of a page in the store (`0` = metadata page).
#[derive(Clone, Copy, Debug, PartialEq, Eq, Structural, Hash)]
pub struct PageId(pub usize);

/// Index of a slot inside a data page.
#[derive(Clone, Copy, Debug, PartialEq, Eq, Structural, Hash)]
pub struct SlotId(pub usize);

/// Handle returned by [`PageManager::alloc_for`], identifying a slot.
#[derive(Clone, Copy, Debug, PartialEq, Eq, Structural, Hash)]
pub struct AllocId {
    /// Power-of-two slot size (bytes) used for this allocation.
    pub size: usize,
    pub page_id: PageId,
    pub slot_id: SlotId,
}

impl AllocId {
    /// Power-of-two slot size reserved for this allocation.
    #[must_use]
    pub fn size(&self) -> (r: usize)
        ensures
            r == self.size,
    {
        self.size
    }

    /// Page that owns the slot.
    #[must_use]
    pub fn page_id(&self) -> (r: PageId)
        ensures
            r == self.page_id,
    {
        self.page_id
    }

    /// Slot index within the page.
    #[must_use]
    pub fn slot_id(&self) -> (r: SlotId)
        ensures
            r == self.slot_id,
    {
        self.slot_id
    }
}

/// Why a store cannot be created.
#[derive(Clone, Copy, Debug, PartialEq, Eq, Structural)]
pub enum OptionsError {
    /// The page size is not a power of two.
    NotPowerOfTwo,
    /// A page has no room for the metadata.
    NoRoomForMetadata,
    /// A page has no room for a slot of eight bytes.
    NoRoomForSlot,
    /// The number of dirty pages before a flush is zero.
    NoThreshold,
}

/// Why a run of bytes is not a store.
#[derive(Clone, Copy, Debug, PartialEq, Eq, Structural)]
pub enum OpenError {
    /// There are fewer bytes than the metadata has.
    TooSmall,
    /// The stored page size is not a power of two, or too small for the
    /// metadata.
    InvalidPageSize,
    /// The bytes are not a whole number of pages.
    NotWholePages,
}

/// Why a flush failed.
#[derive(Clone, Copy, Debug, PartialEq, Eq, Structural)]
pub enum FlushError {
    /// The offset of the page does not fit into a word.
    OffsetOverflow,
    /// There is no such page.
    OutOfRange,
    /// The bytes could not be synced.
    NotSynced,
}

/// Pool of size-classed slots over the bytes of one store.
#[derive(Debug)]
pub struct PageManager {
    pub image: Vec<u8>,
    /// The order of the bytes of a word in the image.
    pub order: ByteOrder,
    pub dirty: Vec<PageId>,
}

impl View for PageManager {
    type V = StoreView;

    open spec fn view(&self) -> StoreView {
        store::decode(self.order, self.image@)
    }
}

/// A list of dirty pages after a page has been recorded.
pub open spec fn recorded(dirty: Seq<PageId>, page: int) -> Seq<PageId> {
    if dirty.contains(PageId(page as usize)) {
        dirty
    } else {
        dirty.push(PageId(page as usize))
    }
}

/// The outcome of an allocation of a slot of `slot_size` bytes, in a store `s`
/// with the dirty list `d`: the result, the new store and the new dirty list.
///
/// The slot is the first free one of the first page of its class with room.
/// Where no page of the class has room, it is the first slot of a new page, if
/// the store can grow.
pub open spec fn after_alloc(
    s: StoreView,
    d: Seq<PageId>,
    slot_size: int,
    grown: bool,
    r: Option<AllocId>,
    t: StoreView,
    e: Seq<PageId>,
) -> bool {
    let c = store::class_of(slot_size);
    let grows = (s.page_count() + 1) * s.page_size <= usize::MAX && grown;
    if !layout::class_fits(s.page_size, c) {
        r is None && t == s && e == d
    } else {
        match s.first_with_room(c) {
            Some(p) => {
                &&& r matches Some(aid)
                &&& aid.size == slot_size
                &&& aid.page_id.0 == p
                &&& s.page(p).is_first_free(aid.slot_id.0 as int)
                &&& t == s.marked(p, aid.slot_id.0 as int, true)
                &&& e == recorded(d, p)
            },
            None => if grows {
                let p = s.page_count();
                &&& r matches Some(aid)
                &&& aid.size == slot_size
                &&& aid.page_id.0 == p
                &&& aid.slot_id.0 == 0
                &&& t == s.grown(c).marked(p, 0, true)
                &&& e == recorded(recorded(d, p), 0)
            } else {
                r is None && t == s && e == d
            },
        }
    }
}

/// Whether `aid` names a slot of the store `s`.
pub open spec fn names(s: StoreView, aid: AllocId) -> bool {
    let p = aid.page_id.0 as int;
    &&& num::power_of_two(aid.size as int)
    &&& s.has_page(p)
    &&& s.page(p).class_id == store::class_of(aid.size as int)
    &&& aid.slot_id.0 < s.page(p).used.len()
}

/// The slot size that a `T` needs: the smallest power of two that is neither
/// below its size nor below its alignment.
pub open spec fn slot_size_for<T>() -> int {
    num::next_power(
        if size_of::<T>() >= align_of::<T>() {
            size_of::<T>() as int
        } else {
            align_of::<T>() as int
        },
    )
}

/// A slot for a `T` has room for it: it is neither smaller than the type nor than
/// its alignment, and no smaller power of two is as large as both.
pub proof fn slot_has_room_for_the_type<T>()
    ensures
        num::power_of_two(slot_size_for::<T>()),
        slot_size_for::<T>() >= size_of::<T>(),
        slot_size_for::<T>() >= align_of::<T>(),
        forall|q: int|
            num::power_of_two(q) && q >= size_of::<T>() && q >= align_of::<T>()
                ==> slot_size_for::<T>() <= q,
{
    num::next_power_is_the_least(
        if size_of::<T>() >= align_of::<T>() {
            size_of::<T>() as int
        } else {
            align_of::<T>() as int
        },
    );
}

/// The slot size that a `T` needs.
pub fn slot_size_of<T>() -> (r: usize)
    ensures
        r == slot_size_for::<T>(),
        num::power_of_two(r as int),
        r >= size_of::<T>(),
        r >= align_of::<T>(),
        forall|q: int|
            num::power_of_two(q) && q >= size_of::<T>() && q >= align_of::<T>() ==> r <= q,
{
    layout_for_type_is_valid::<T>();
    let size: usize = core::mem::size_of::<T>();
    let align: usize = core::mem::align_of::<T>();
    proof {
        num::lemma_word_count();
        num::lemma_small_powers();
        num::lemma_library_power(align as int);
        if align > num::largest_power() {
            num::lemma_next_power(num::largest_power(), align as int);
        }
        let m = isize::MAX as int;
        lemma_mod_bound(m, align as int);
    }
    let a: usize = num::next_power_of_two(if size > 1 { size } else { 1 });
    let b: usize = num::next_power_of_two(align);
    let r: usize = if a > b { a } else { b };
    proof {
        let n = if size >= align {
            size as int
        } else {
            align as int
        };
        assert(num::rounds_up_to(n, r as int));
        num::lemma_next_power_unique(n, r as int);
    }
    r
}

/// What opening a run of bytes comes to, with words in the order `o`: the
/// store, or the first reason why the bytes are none.
pub open spec fn opened(o: ByteOrder, image: Seq<u8>, r: Result<PageManager, OpenError>) -> bool {
    let page_size = image::word(o, image, 0);
    if image.len() < META_BYTES {
        r == Err::<PageManager, OpenError>(OpenError::TooSmall)
    } else if !num::power_of_two(page_size) || page_size < META_BYTES {
        r == Err::<PageManager, OpenError>(OpenError::InvalidPageSize)
    } else if image.len() < page_size || image.len() as int % page_size != 0 {
        r == Err::<PageManager, OpenError>(OpenError::NotWholePages)
    } else {
        &&& r matches Ok(m)
        &&& m.image@ == image
        &&& m.order == o
        &&& m.dirty@.len() == 0
        &&& store::shaped(m.order, m.image@)
    }
}

impl PageManager {
    /// The bytes are a store whose page lists are consistent.
    pub open spec fn consistent(&self) -> bool {
        store::shaped(self.order, self.image@) && self@.linked()
    }

    /// The store is consistent, and the dirty list names pages of it, each
    /// once.
    pub open spec fn wf(&self) -> bool {
        &&& self.consistent()
        &&& self.dirty@.no_duplicates()
        &&& forall|i: int| 0 <= i < self.dirty@.len() ==> (#[trigger] self.dirty@[i]).0
            < self@.page_count()
    }

    /// Whether `aid` names a slot of this store.
    pub open spec fn names_slot(&self, aid: AllocId) -> bool {
        names(self@, aid)
    }

    /// Whether `aid` names a slot of this store.
    #[must_use]
    pub fn is_slot(&self, aid: AllocId) -> (r: bool)
        requires
            self.wf(),
        ensures
            r == self.names_slot(aid),
    {
        if !num::is_power_of_two(aid.size as u64) {
            return false;
        }
        if aid.page_id.0 == NO_PAGE || aid.page_id.0 >= self.page_count() {
            return false;
        }
        let class: usize = layout::size_class(aid.size);
        proof {
            store::lemma_class_of(aid.size as int, class as nat);
            assert(self@.page_ok(aid.page_id.0 as int));
        }
        if self.stored_class(aid.page_id) as u64 != class as u64 {
            return false;
        }
        match layout::page_layout(self.page_size(), class) {
            None => false,
            Some(layout) => aid.slot_id.0 < layout.slot_count,
        }
    }

    /// Checks the options for a new store.
    ///
    /// # Errors
    ///
    /// Tells the first reason why there can be no such store.
    pub fn check_options(page_size: usize, dirties_before_flush: usize) -> (r: Result<
        (),
        OptionsError,
    >)
        ensures
            r == if !num::power_of_two(page_size as int) {
                Err::<(), OptionsError>(OptionsError::NotPowerOfTwo)
            } else if page_size < META_BYTES {
                Err(OptionsError::NoRoomForMetadata)
            } else if !layout::class_fits(page_size as int, 3) {
                Err(OptionsError::NoRoomForSlot)
            } else if dirties_before_flush == 0 {
                Err(OptionsError::NoThreshold)
            } else {
                Ok(())
            },
    {
        if !num::is_power_of_two(page_size as u64) {
            return Err(OptionsError::NotPowerOfTwo);
        }
        if page_size < META_BYTES {
            return Err(OptionsError::NoRoomForMetadata);
        }
        if layout::page_layout(page_size, 3).is_none() {
            return Err(OptionsError::NoRoomForSlot);
        }
        if dirties_before_flush == 0 {
            return Err(OptionsError::NoThreshold);
        }
        Ok(())
    }

    /// A new store: one page, no slots. Its words are in the order of the
    /// machine.
    pub fn create(page_size: usize, dirties_before_flush: usize) -> (r: Self)
        requires
            num::power_of_two(page_size as int),
            META_BYTES <= page_size,
            layout::class_fits(page_size as int, 3),
            dirties_before_flush > 0,
        ensures
            r.wf(),
            r@.page_size == page_size,
            r@.threshold == dirties_before_flush,
            r@.heads == Seq::new(CLASSES as nat, |c: int| 0int),
            r@.pages.len() == 0,
            r.image@.len() == page_size,
            r.dirty@.len() == 0,
    {
        Self::create_in(ByteOrder::native(), page_size, dirties_before_flush)
    }

    /// A new store: one page, no slots. Its words are in the given order.
    pub fn create_in(order: ByteOrder, page_size: usize, dirties_before_flush: usize) -> (r: Self)
        requires
            num::power_of_two(page_size as int),
            META_BYTES <= page_size,
            layout::class_fits(page_size as int, 3),
            dirties_before_flush > 0,
        ensures
            r.wf(),
            r.order == order,
            r@.page_size == page_size,
            r@.threshold == dirties_before_flush,
            r@.heads == Seq::new(CLASSES as nat, |c: int| 0int),
            r@.pages.len() == 0,
            r.image@.len() == page_size,
            r.dirty@.len() == 0,
    {
        let mut image: Vec<u8> = Vec::new();
        image.resize(page_size, 0u8);
        let ghost zeros = image@;
        image::write_word(order, &mut image, 0, page_size as u64);
        let ghost sized = image@;
        image::write_word(order, &mut image, THRESHOLD_OFF, dirties_before_flush as u64);
        proof {
            image::lemma_word_agrees(order, sized, image@, 0);
            assert forall|c: int| 0 <= c < CLASSES implies #[trigger] store::decode(order, image@).heads[c]
                == 0 by {
                let off = HEADS_OFF + 8 * c;
                assert forall|i: int| off <= i < off + 8 implies image@[i] == 0 by {
                    assert(zeros[i] == sized[i]);
                    assert(sized[i] == image@[i]);
                }
                image::lemma_zero_word(order, image@, off);
            }
            lemma_mod_self_0(page_size as int);
            lemma_div_by_self(page_size as int);
            store::lemma_page_count(order, image@);
            assert forall|c: int| 0 <= c < CLASSES implies #[trigger] store::decode(
                order, image@,
            ).has_list(c) by {
                assert(store::decode(order, image@).lists(c, Seq::empty()));
            }
        }
        PageManager { image, order, dirty: Vec::new() }
    }

    /// The store that a run of bytes holds, as it was left, with its words in
    /// the order of the machine.
    ///
    /// The sizes are checked; [`Self::is_consistent`] tells whether the page
    /// lists are in order too.
    pub fn open_existing(image: Vec<u8>) -> (r: Result<Self, OpenError>)
        ensures
            exists|o: ByteOrder| #[trigger] opened(o, image@, r),
            (forall|o: ByteOrder| #[trigger] store::shaped(o, image@)) ==> r is Ok,
            r matches Ok(m) ==> m.image@ == image@ && store::shaped(m.order, image@)
                && m.dirty@.len() == 0,
    {
        let order: ByteOrder = ByteOrder::native();
        assert((forall|o: ByteOrder| #[trigger] store::shaped(o, image@)) ==> store::shaped(
            order,
            image@,
        ));
        Self::open_existing_in(order, image)
    }

    /// The store that a run of bytes holds, as it was left, with its words in
    /// the given order.
    ///
    /// The sizes are checked; [`Self::is_consistent`] tells whether the page
    /// lists are in order too.
    pub fn open_existing_in(order: ByteOrder, image: Vec<u8>) -> (r: Result<Self, OpenError>)
        ensures
            opened(order, image@, r),
            r is Ok <==> store::shaped(order, image@),
            r matches Ok(m) ==> m.image@ == image@ && m.order == order && m.dirty@.len() == 0,
            r == Err::<PageManager, OpenError>(OpenError::TooSmall) <==> image@.len() < 272,
    {
        if image.len() < META_BYTES {
            return Err(OpenError::TooSmall);
        }
        let page_size: u64 = image::read_word(order, &image, 0);
        if !num::is_power_of_two(page_size) || page_size < META_BYTES as u64 {
            return Err(OpenError::InvalidPageSize);
        }
        proof {
            num::lemma_small_powers();
        }
        let len: u64 = image.len() as u64;
        if len < page_size || len % page_size != 0 {
            return Err(OpenError::NotWholePages);
        }
        Ok(PageManager { image, order, dirty: Vec::new() })
    }

    /// Size of a page in bytes.
    #[must_use]
    pub fn page_size(&self) -> (r: usize)
        requires
            store::shaped(self.order, self.image@),
        ensures
            r == self@.page_size,
    {
        assert(self.image@.len() == self.image.len());
        image::read_word(self.order, &self.image, 0) as usize
    }

    /// Number of pages (including the metadata page).
    #[must_use]
    pub fn page_count(&self) -> (r: usize)
        requires
            store::shaped(self.order, self.image@),
        ensures
            r == self@.page_count(),
    {
        proof {
            store::lemma_page_count(self.order, self.image@);
        }
        self.image.len() / self.page_size()
    }

    /// Where a page starts.
    pub(crate) fn page_byte_offset(&self, page: PageId) -> (r: usize)
        requires
            store::shaped(self.order, self.image@),
            page.0 < self@.page_count(),
        ensures
            r == page.0 * self@.page_size,
            r + self@.page_size <= self.image@.len() <= usize::MAX,
    {
        proof {
            assert(self.image@.len() == self.image.len());
            store::lemma_page_count(self.order, self.image@);
            store::lemma_page_range(self.image@.len() as int, self@.page_size, page.0 as int);
        }
        page.0 * self.page_size()
    }

    /// The first page of the list of a class, as stored.
    pub(crate) fn stored_head(&self, class: usize) -> (r: u64)
        requires
            store::shaped(self.order, self.image@),
            class < CLASSES,
        ensures
            r == self@.heads[class as int],
    {
        image::read_word(self.order, &self.image, HEADS_OFF + 8 * class)
    }

    /// The `next` link of a page, as stored.
    pub(crate) fn stored_next(&self, page: PageId) -> (r: u64)
        requires
            store::shaped(self.order, self.image@),
            self@.has_page(page.0 as int),
        ensures
            r == self@.page(page.0 as int).next,
    {
        image::read_word(self.order, &self.image, self.page_byte_offset(page) + NEXT_OFF)
    }

    /// The `previous` link of a page, as stored.
    pub(crate) fn stored_previous(&self, page: PageId) -> (r: u64)
        requires
            store::shaped(self.order, self.image@),
            self@.has_page(page.0 as int),
        ensures
            r == self@.page(page.0 as int).previous,
    {
        image::read_word(self.order, &self.image, self.page_byte_offset(page))
    }

    /// The class of a page, as stored.
    pub(crate) fn stored_class(&self, page: PageId) -> (r: u32)
        requires
            store::shaped(self.order, self.image@),
            self@.has_page(page.0 as int),
        ensures
            r == self@.page(page.0 as int).class_id,
    {
        image::read_half(self.order, &self.image, self.page_byte_offset(page) + CLASS_OFF)
    }

    /// The flush threshold, as stored.
    pub(crate) fn stored_threshold(&self) -> (r: u64)
        requires
            store::shaped(self.order, self.image@),
        ensures
            r == self@.threshold,
    {
        image::read_word(self.order, &self.image, THRESHOLD_OFF)
    }

    /// Follows the list of a class and records which pages it visits. Tells
    /// whether every page on it is one of the class and stands between its
    /// neighbours.
    fn walk_list(&self, class: usize, seen: &mut Vec<bool>) -> (r: bool)
        requires
            store::shaped(self.order, self.image@),
            class < CLASSES,
            old(seen)@.len() == self@.page_count(),
        ensures
            final(seen)@.len() == self@.page_count(),
            !r ==> forall|l: Seq<int>| !#[trigger] self@.lists(class as int, l),
            r ==> {
                let l = self@.list(class as int);
                &&& self@.heads[class as int] == store::entry(l, 0)
                &&& forall|i: int|
                    0 <= i < l.len() ==> #[trigger] self@.in_place(class as int, l, i)
                &&& forall|p: int|
                    0 <= p < final(seen)@.len() ==> #[trigger] final(seen)@[p] == (old(seen)@[p]
                        || l.contains(p))
            },
    {
        let count: usize = self.page_count();
        let ghost s = self@;
        let ghost c = class as int;
        let ghost n = s.page_count() as nat;
        let ghost before = seen@;
        let ghost mut walked: Seq<int> = Seq::empty();
        let mut previous: u64 = NO_PAGE as u64;
        let mut page: u64 = self.stored_head(class);
        let mut steps: usize = 0;
        assert(walked + s.chain(page as int, n) =~= s.list(c));
        while page != NO_PAGE as u64
            invariant
                store::shaped(self.order, self.image@),
                s == self@,
                c == class,
                count == s.page_count(),
                n == s.page_count(),
                class < CLASSES,
                steps < count,
                steps == walked.len(),
                seen@.len() == count,
                before.len() == count,
                previous == store::entry(walked, steps - 1),
                s.heads[c] == if steps == 0 {
                    page as int
                } else {
                    walked[0]
                },
                forall|i: int|
                    0 <= i < steps ==> s.has_page(#[trigger] walked[i]) && s.page(
                        walked[i],
                    ).class_id == c && s.page(walked[i]).previous == store::entry(walked, i - 1)
                        && s.page(walked[i]).next == if i + 1 < steps {
                        walked[i + 1]
                    } else {
                        page as int
                    },
                walked + s.chain(page as int, (n - steps) as nat) == s.list(c),
                forall|l: Seq<int>| #[trigger]
                    s.lists(c, l) ==> steps <= l.len() && l.take(steps as int) == walked && page
                        == store::entry(l, steps as int),
                forall|p: int|
                    0 <= p < seen@.len() ==> #[trigger] seen@[p] == (before[p] || walked.contains(
                        p,
                    )),
            decreases count - steps,
        {
            if page >= count as u64 || steps + 1 >= count {
                proof {
                    assert forall|l: Seq<int>| !#[trigger] s.lists(c, l) by {
                        if s.lists(c, l) {
                            store::lemma_list_len(s, c, l);
                            assert(steps < l.len());
                            assert(s.in_place(c, l, steps as int));
                        }
                    }
                }
                return false;
            }
            let id: PageId = PageId(page as usize);
            if self.stored_class(id) as usize != class || self.stored_previous(id) != previous {
                proof {
                    assert forall|l: Seq<int>| !#[trigger] s.lists(c, l) by {
                        if s.lists(c, l) {
                            assert(steps < l.len());
                            assert(s.in_place(c, l, steps as int));
                            assert(store::entry(l, steps - 1) == store::entry(walked, steps - 1)) by {
                                if steps > 0 {
                                    assert(l.take(steps as int)[steps - 1] == l[steps - 1]);
                                }
                            }
                        }
                    }
                }
                return false;
            }
            seen.set(page as usize, true);
            let next: u64 = self.stored_next(id);
            proof {
                let more = walked.push(page as int);
                assert forall|l: Seq<int>| #[trigger] s.lists(c, l) implies steps + 1 <= l.len()
                    && l.take(steps + 1) == more && next == store::entry(l, steps + 1) by {
                    assert(steps < l.len());
                    assert(s.in_place(c, l, steps as int));
                    assert(l.take(steps + 1) =~= l.take(steps as int).push(l[steps as int]));
                }
                assert(s.chain(page as int, (n - steps) as nat) == seq![page as int] + s.chain(
                    next as int,
                    (n - steps - 1) as nat,
                ));
                assert(more + s.chain(next as int, (n - steps - 1) as nat) =~= walked + (
                seq![page as int] + s.chain(next as int, (n - steps - 1) as nat)));
                assert forall|p: int| 0 <= p < seen@.len() implies #[trigger] seen@[p] == (
                before[p] || more.contains(p)) by {
                    if p == page {
                        assert(more[steps as int] == p);
                    } else if walked.contains(p) {
                        let i = choose|i: int| 0 <= i < walked.len() && walked[i] == p;
                        assert(more[i] == p);
                    } else if more.contains(p) {
                        let i = choose|i: int| 0 <= i < more.len() && more[i] == p;
                        assert(walked[i] == p);
                    }
                }
                walked = more;
            }
            previous = page;
            page = next;
            steps = steps + 1;
        }
        proof {
            assert(walked + Seq::<int>::empty() =~= walked);
            assert(s.list(c) == walked);
            assert forall|i: int| 0 <= i < walked.len() implies #[trigger] s.in_place(
                c,
                walked,
                i,
            ) by {
                assert(s.has_page(walked[i]));
            }
        }
        true
    }

    /// Whether the pages and their lists are in order: every page is of a class
    /// that fits, and the list of every class is a doubly linked list of all
    /// pages of this class.
    pub fn is_consistent(&self) -> (r: bool)
        ensures
            r == (META_BYTES <= self.image@.len() && self.consistent()),
    {
        if self.image.len() < META_BYTES {
            return false;
        }
        let stored: u64 = image::read_word(self.order, &self.image, 0);
        if !num::is_power_of_two(stored) || stored < META_BYTES as u64 {
            return false;
        }
        let len: u64 = self.image.len() as u64;
        if len < stored || len % stored != 0 {
            return false;
        }
        let page_size: usize = self.page_size();
        let page_count: usize = self.page_count();
        let mut seen: Vec<bool> = Vec::new();
        seen.resize(page_count, false);
        let mut c: usize = 0;
        while c < CLASSES
            invariant
                store::shaped(self.order, self.image@),
                page_count == self@.page_count(),
                seen@.len() == page_count,
                c <= CLASSES,
                forall|d: int|
                    0 <= d < c ==> {
                        let l = self@.list(d);
                        &&& #[trigger] self@.heads[d] == store::entry(l, 0)
                        &&& forall|i: int| 0 <= i < l.len() ==> #[trigger] self@.in_place(d, l, i)
                    },
                forall|p: int|
                    0 <= p < seen@.len() && #[trigger] seen@[p] ==> exists|d: int|
                        0 <= d < c && (#[trigger] self@.list(d)).contains(p),
                forall|p: int, d: int|
                    0 <= p < seen@.len() && 0 <= d < c && (#[trigger] self@.list(d)).contains(p)
                        ==> #[trigger] seen@[p],
            decreases CLASSES - c,
        {
            let ghost before = seen@;
            if !self.walk_list(c, &mut seen) {
                proof {
                    assert(0 <= c < CLASSES);
                    assert(!self@.has_list(c as int));
                }
                return false;
            }
            proof {
                assert forall|p: int| 0 <= p < seen@.len() && #[trigger] seen@[p] implies exists|
                    d: int,
                |
                    0 <= d < c + 1 && (#[trigger] self@.list(d)).contains(p) by {
                    if before[p] {
                        let d = choose|d: int| 0 <= d < c && (#[trigger] self@.list(d)).contains(p);
                        assert(self@.list(d).contains(p));
                    } else {
                        assert(self@.list(c as int).contains(p));
                    }
                }
                assert forall|p: int, d: int|
                    0 <= p < seen@.len() && 0 <= d < c + 1 && (#[trigger] self@.list(d)).contains(
                        p,
                    ) implies #[trigger] seen@[p] by {
                    if d < c {
                        assert(before[p]);
                    }
                }
            }
            c = c + 1;
        }
        let mut p: usize = 1;
        while p < page_count
            invariant
                store::shaped(self.order, self.image@),
                page_count == self@.page_count(),
                page_size == self@.page_size,
                seen@.len() == page_count,
                1 <= p <= page_count,
                forall|x: int, d: int|
                    0 <= x < seen@.len() && 0 <= d < CLASSES && (#[trigger] self@.list(d)).contains(
                        x,
                    ) ==> #[trigger] seen@[x],
                forall|q: int| 1 <= q < p ==> #[trigger] self@.page_ok(q),
                forall|q: int| 1 <= q < p ==> #[trigger] seen@[q],
            decreases page_count - p,
        {
            let class: u32 = self.stored_class(PageId(p));
            if class >= CLASSES as u32 || layout::page_layout(page_size, class as usize).is_none() {
                assert(!self@.page_ok(p as int));
                return false;
            }
            if !seen[p] {
                proof {
                    if self@.linked() {
                        let d = class as int;
                        store::lemma_list(self@, d);
                        assert(self@.page(p as int).class_id == d);
                        assert(self@.list(d).contains(p as int));
                    }
                }
                return false;
            }
            p = p + 1;
        }
        proof {
            assert forall|d: int| 0 <= d < CLASSES implies #[trigger] self@.has_list(d) by {
                let l = self@.list(d);
                assert(self@.heads[d] == store::entry(l, 0));
                assert forall|q: int|
                    self@.has_page(q) && (#[trigger] self@.page(q)).class_id == d implies l.contains(
                    q,
                ) by {
                    assert(seen@[q]);
                    let e = choose|e: int|
                        0 <= e < CLASSES && (#[trigger] self@.list(e)).contains(q);
                    let m = self@.list(e);
                    assert(self@.heads[e] == store::entry(m, 0));
                    let i = choose|i: int| 0 <= i < m.len() && m[i] == q;
                    assert(self@.in_place(e, m, i));
                }
                assert(self@.lists(d, l));
            }
        }
        true
    }

    /// The first free slot of a page.
    fn find_free_slot(&self, page: PageId, layout: &PageLayout) -> (r: Option<SlotId>)
        requires
            store::shaped(self.order, self.image@),
            self@.has_page(page.0 as int),
            layout::class_fits(self@.page_size, self@.page(page.0 as int).class_id),
            *layout == layout::layout_of(self@.page_size, self@.page(page.0 as int).class_id),
        ensures
            r is None <==> !self@.page(page.0 as int).has_room(),
            r matches Some(s) ==> self@.page(page.0 as int).is_first_free(s.0 as int),
    {
        let base: usize = self.page_byte_offset(page);
        let ghost view = self@.page(page.0 as int);
        proof {
            layout::lemma_layout(self@.page_size, view.class_id);
            lemma_mul_nonnegative(layout.slot_count as int, layout.slot_size as int);
        }
        let bits: &[u8] = image::window(&self.image, base + HEADER_BYTES, layout.bitmap_bytes);
        let mut i: usize = 0;
        while i < layout.slot_count
            invariant
                i <= layout.slot_count,
                layout.slot_count <= 8 * layout.bitmap_bytes,
                bits@.len() == layout.bitmap_bytes,
                view.used.len() == layout.slot_count,
                forall|s: int|
                    0 <= s < layout.slot_count ==> #[trigger] view.used[s] == bitmap::bit(bits@, s),
                forall|s: int| 0 <= s < i ==> #[trigger] view.used[s],
                view == self@.page(page.0 as int),
            decreases layout.slot_count - i,
        {
            if !bitmap::bit_is_set(bits, i) {
                assert(!view.used[i as int]);
                return Some(SlotId(i));
            }
            i = i + 1;
        }
        None
    }

    /// Sets or clears the bit of a slot.
    fn mark_slot(&mut self, page: PageId, layout: &PageLayout, slot: SlotId, used: bool)
        requires
            store::shaped(old(self).order, old(self).image@),
            old(self)@.has_page(page.0 as int),
            layout::class_fits(old(self)@.page_size, old(self)@.page(page.0 as int).class_id),
            *layout == layout::layout_of(
                old(self)@.page_size,
                old(self)@.page(page.0 as int).class_id,
            ),
            slot.0 < layout.slot_count,
        ensures
            store::shaped(final(self).order, final(self).image@),
            final(self)@ == old(self)@.marked(page.0 as int, slot.0 as int, used),
            final(self).order == old(self).order,
            final(self).dirty == old(self).dirty,
    {
        let base: usize = self.page_byte_offset(page);
        let ghost before = self.image@;
        proof {
            layout::lemma_layout(self@.page_size, self@.page(page.0 as int).class_id);
            lemma_mul_nonnegative(layout.slot_count as int, layout.slot_size as int);
        }
        let bits: &mut [u8] = image::window_mut(
            &mut self.image,
            base + HEADER_BYTES,
            layout.bitmap_bytes,
        );
        if used {
            bitmap::set_bit(bits, slot.0);
        } else {
            bitmap::clear_bit(bits, slot.0);
        }
        proof {
            let from = base + HEADER_BYTES;
            assert(self.image@.subrange(from, from + layout.bitmap_bytes) =~= bitmap::with_bit(
                before.subrange(from, from + layout.bitmap_bytes),
                slot.0 as int,
                used,
            ));
            store::lemma_bit_changed(self.order, before, self.image@, page.0 as int, slot.0 as int, used);
        }
    }

    /// Marks a slot as used.
    fn mark_slot_used(&mut self, page: PageId, layout: &PageLayout, slot: SlotId)
        requires
            store::shaped(old(self).order, old(self).image@),
            old(self)@.has_page(page.0 as int),
            layout::class_fits(old(self)@.page_size, old(self)@.page(page.0 as int).class_id),
            *layout == layout::layout_of(
                old(self)@.page_size,
                old(self)@.page(page.0 as int).class_id,
            ),
            slot.0 < layout.slot_count,
        ensures
            store::shaped(final(self).order, final(self).image@),
            final(self)@ == old(self)@.marked(page.0 as int, slot.0 as int, true),
            final(self).order == old(self).order,
            final(self).dirty == old(self).dirty,
    {
        self.mark_slot(page, layout, slot, true);
    }

    /// Marks a slot as free.
    fn mark_slot_free(&mut self, page: PageId, layout: &PageLayout, slot: SlotId)
        requires
            store::shaped(old(self).order, old(self).image@),
            old(self)@.has_page(page.0 as int),
            layout::class_fits(old(self)@.page_size, old(self)@.page(page.0 as int).class_id),
            *layout == layout::layout_of(
                old(self)@.page_size,
                old(self)@.page(page.0 as int).class_id,
            ),
            slot.0 < layout.slot_count,
        ensures
            store::shaped(final(self).order, final(self).image@),
            final(self)@ == old(self)@.marked(page.0 as int, slot.0 as int, false),
            final(self).order == old(self).order,
            final(self).dirty == old(self).dirty,
    {
        self.mark_slot(page, layout, slot, false);
    }

    /// Records a page as dirty.
    fn mark_dirty(&mut self, page: PageId)
        requires
            old(self).dirty@.no_duplicates(),
        ensures
            final(self).image == old(self).image,
            final(self).order == old(self).order,
            final(self).dirty@ == recorded(old(self).dirty@, page.0 as int),
            final(self).dirty@.no_duplicates(),
    {
        let mut i: usize = 0;
        while i < self.dirty.len()
            invariant
                i <= self.dirty@.len(),
                old(self).dirty@.no_duplicates(),
                forall|j: int| 0 <= j < i ==> #[trigger] self.dirty@[j] != page,
                *self == *old(self),
            decreases self.dirty@.len() - i,
        {
            if self.dirty[i] == page {
                assert(self.dirty@.contains(page));
                return;
            }
            i = i + 1;
        }
        assert(!self.dirty@.contains(page));
        self.dirty.push(page);
    }

    /// Makes the list of a class start at a page.
    fn set_head(&mut self, class: usize, page: PageId)
        requires
            store::shaped(old(self).order, old(self).image@),
            class < CLASSES,
        ensures
            store::shaped(final(self).order, final(self).image@),
            final(self)@ == old(self)@.headed(class as int, page.0 as int),
            final(self).order == old(self).order,
            final(self).dirty == old(self).dirty,
    {
        let ghost before = self.image@;
        assert(self.image@.len() == self.image.len());
        image::write_word(self.order, &mut self.image, HEADS_OFF + 8 * class, page.0 as u64);
        proof {
            store::lemma_head_changed(self.order, before, self.image@, class as int, page.0 as int);
        }
    }

    /// Changes the `previous` link of a page.
    fn set_previous(&mut self, page: PageId, link: u64)
        requires
            store::shaped(old(self).order, old(self).image@),
            old(self)@.has_page(page.0 as int),
        ensures
            store::shaped(final(self).order, final(self).image@),
            final(self)@ == old(self)@.with_previous(page.0 as int, link as int),
            final(self).order == old(self).order,
            final(self).dirty == old(self).dirty,
    {
        let base: usize = self.page_byte_offset(page);
        let ghost before = self.image@;
        image::write_word(self.order, &mut self.image, base, link);
        proof {
            store::lemma_previous_changed(self.order, before, self.image@, page.0 as int, link as int);
        }
    }

    /// Changes the `next` link of a page.
    fn set_next(&mut self, page: PageId, link: u64)
        requires
            store::shaped(old(self).order, old(self).image@),
            old(self)@.has_page(page.0 as int),
        ensures
            store::shaped(final(self).order, final(self).image@),
            final(self)@ == old(self)@.with_next(page.0 as int, link as int),
            final(self).order == old(self).order,
            final(self).dirty == old(self).dirty,
    {
        let base: usize = self.page_byte_offset(page);
        let ghost before = self.image@;
        image::write_word(self.order, &mut self.image, base + NEXT_OFF, link);
        proof {
            store::lemma_next_changed(self.order, before, self.image@, page.0 as int, link as int);
        }
    }

    /// Moves a page to the front of the list of its class.
    fn move_to_front(&mut self, class: usize, page: PageId)
        requires
            store::shaped(old(self).order, old(self).image@),
            old(self)@.linked(),
            class < CLASSES,
            old(self)@.has_page(page.0 as int),
            old(self)@.page(page.0 as int).class_id == class,
        ensures
            store::shaped(final(self).order, final(self).image@),
            final(self)@ == old(self)@.fronted(class as int, page.0 as int),
            final(self).order == old(self).order,
            final(self).dirty == old(self).dirty,
    {
        let ghost s = self@;
        let ghost p = page.0 as int;
        let head: u64 = self.stored_head(class);
        if head == page.0 as u64 {
            return;
        }
        proof {
            store::lemma_fronted_page(s, class as int, p, p);
            assert(self.image@.len() == self.image.len());
            store::lemma_page_count(self.order, self.image@);
        }
        let before: u64 = self.stored_previous(page);
        let after: u64 = self.stored_next(page);
        self.set_next(PageId(before as usize), after);
        if after != NO_PAGE as u64 {
            self.set_previous(PageId(after as usize), before);
        }
        self.set_previous(PageId(head as usize), page.0 as u64);
        self.set_previous(page, NO_PAGE as u64);
        self.set_next(page, head);
        self.set_head(class, page);
    }

    /// Puts a page in front of the list of its class.
    fn prepend(&mut self, class: usize, page: PageId)
        requires
            store::shaped(old(self).order, old(self).image@),
            class < CLASSES,
            old(self)@.has_page(page.0 as int),
            old(self)@.heads[class as int] == 0 || old(self)@.has_page(
                old(self)@.heads[class as int],
            ),
        ensures
            store::shaped(final(self).order, final(self).image@),
            final(self)@ == old(self)@.prepended(class as int, page.0 as int),
            final(self).order == old(self).order,
            final(self).dirty == old(self).dirty,
    {
        proof {
            assert(self.image@.len() == self.image.len());
            store::lemma_page_count(self.order, self.image@);
        }
        let head: u64 = self.stored_head(class);
        self.set_previous(page, NO_PAGE as u64);
        self.set_next(page, head);
        if head != NO_PAGE as u64 {
            self.set_previous(PageId(head as usize), page.0 as u64);
        }
        self.set_head(class, page);
    }

    /// Empties all page lists.
    fn clear_lists(&mut self)
        requires
            store::shaped(old(self).order, old(self).image@),
        ensures
            store::shaped(final(self).order, final(self).image@),
            final(self)@ == (StoreView {
                heads: Seq::new(CLASSES as nat, |c: int| 0int),
                ..old(self)@
            }),
            final(self).order == old(self).order,
            final(self).dirty == old(self).dirty,
    {
        let ghost s = self@;
        let mut c: usize = 0;
        while c < CLASSES
            invariant
                c <= CLASSES,
                store::shaped(self.order, self.image@),
                self.order == old(self).order,
                self.dirty == old(self).dirty,
                s.heads.len() == CLASSES,
                self@ == (StoreView { heads: self@.heads, ..s }),
                self@.heads.len() == CLASSES,
                forall|d: int| 0 <= d < c ==> #[trigger] self@.heads[d] == 0,
            decreases CLASSES - c,
        {
            self.set_head(c, PageId(NO_PAGE));
            c = c + 1;
        }
        assert(self@.heads =~= Seq::new(CLASSES as nat, |c: int| 0int));
    }

    /// Whether every page is of a class that has a list and fits into a page.
    fn has_sound_pages(&self) -> (r: bool)
        requires
            store::shaped(self.order, self.image@),
        ensures
            r == self@.pages_ok(),
    {
        let page_size: usize = self.page_size();
        let page_count: usize = self.page_count();
        let mut p: usize = 1;
        while p < page_count
            invariant
                store::shaped(self.order, self.image@),
                page_count == self@.page_count(),
                page_size == self@.page_size,
                1 <= p <= page_count,
                forall|q: int| 1 <= q < p ==> #[trigger] self@.page_ok(q),
            decreases page_count - p,
        {
            let class: u32 = self.stored_class(PageId(p));
            if class >= CLASSES as u32 || layout::page_layout(page_size, class as usize).is_none() {
                assert(!self@.page_ok(p as int));
                return false;
            }
            p = p + 1;
        }
        true
    }

    /// Builds the page lists anew from the classes of the pages, where every
    /// page is of a class that has a list and fits; tells whether that is so. In
    /// every list the page at the head stays there, and all others follow, the
    /// newest one first.
    pub fn rebuild_lists(&mut self) -> (r: bool)
        requires
            store::shaped(old(self).order, old(self).image@),
        ensures
            r == old(self)@.pages_ok(),
            final(self).order == old(self).order,
            final(self).dirty == old(self).dirty,
            !r ==> final(self).image@ == old(self).image@,
            r ==> {
                &&& final(self).consistent()
                &&& final(self)@.same_but_lists(old(self)@)
                &&& forall|c: int|
                    0 <= c < CLASSES ==> #[trigger] final(self)@.list(c) == old(
                        self,
                    )@.rebuilt_list(c)
            },
    {
        let ghost s = self@;
        if !self.has_sound_pages() {
            return false;
        }
        let page_count: usize = self.page_count();
        let mut heads: Vec<u64> = Vec::new();
        let mut c: usize = 0;
        while c < CLASSES
            invariant
                c <= CLASSES,
                store::shaped(self.order, self.image@),
                self@ == s,
                heads@.len() == c,
                forall|d: int| 0 <= d < c ==> #[trigger] heads@[d] == s.heads[d],
            decreases CLASSES - c,
        {
            heads.push(self.stored_head(c));
            c = c + 1;
        }
        self.clear_lists();
        assert(self@.lists_below(s, 1));
        let mut p: usize = 1;
        while p < page_count
            invariant
                1 <= p <= page_count,
                page_count == s.page_count(),
                store::shaped(self.order, self.image@),
                self.order == old(self).order,
                self.dirty == old(self).dirty,
                s.pages_ok(),
                self@.lists_below(s, p as int),
            decreases page_count - p,
        {
            proof {
                assert(s.page_ok(p as int));
                assert(self@.page(p as int).class_id == s.page(p as int).class_id);
                store::lemma_prepended(s, self@, p as int);
            }
            let class: usize = self.stored_class(PageId(p)) as usize;
            self.prepend(class, PageId(p));
            p = p + 1;
        }
        proof {
            store::lemma_all_listed(s, self@);
        }
        c = 0;
        while c < CLASSES
            invariant
                c <= CLASSES,
                page_count == s.page_count(),
                store::shaped(self.order, self.image@),
                self.order == old(self).order,
                self.dirty == old(self).dirty,
                s.pages_ok(),
                heads@.len() == CLASSES,
                forall|d: int| 0 <= d < CLASSES ==> #[trigger] heads@[d] == s.heads[d],
                self@.linked(),
                self@.same_but_lists(s),
                forall|d: int| 0 <= d < c ==> #[trigger] self@.list(d) == s.rebuilt_list(d),
                forall|d: int|
                    c <= d < CLASSES ==> #[trigger] self@.list(d) == s.pages_below(
                        d,
                        s.page_count(),
                    ),
            decreases CLASSES - c,
        {
            let head: u64 = heads[c];
            let ghost before = self@;
            proof {
                store::lemma_pages_below(s, c as int, s.page_count());
                assert(before.list(c as int) == s.pages_below(c as int, s.page_count()));
            }
            if head != NO_PAGE as u64 && head < page_count as u64 {
                let page: PageId = PageId(head as usize);
                assert(self@.page(head as int).class_id == s.page(head as int).class_id);
                if self.stored_class(page) as usize == c {
                    proof {
                        store::lemma_fronted_linked(before, c as int, head as int);
                    }
                    self.move_to_front(c, page);
                    proof {
                        assert forall|q: int| s.has_page(q) implies (#[trigger] self@.page(
                            q,
                        )).class_id == s.page(q).class_id && self@.page(q).used == s.page(q).used
                            && self@.page(q).payload == s.page(q).payload by {
                            assert(before.page(q).class_id == s.page(q).class_id);
                        }
                    }
                }
            }
            c = c + 1;
        }
        true
    }

    /// Appends a page of zeros for a class and links it in front of the list of
    /// this class.
    fn alloc_free_page(&mut self, class: usize) -> (r: PageId)
        requires
            store::shaped(old(self).order, old(self).image@),
            old(self)@.linked(),
            class < CLASSES,
            layout::class_fits(old(self)@.page_size, class as int),
            (old(self)@.page_count() + 1) * old(self)@.page_size <= usize::MAX,
        ensures
            r.0 == old(self)@.page_count(),
            store::shaped(final(self).order, final(self).image@),
            final(self)@ == old(self)@.grown(class as int),
            final(self).order == old(self).order,
            final(self).dirty == old(self).dirty,
    {
        let page_size: usize = self.page_size();
        let new_id: usize = self.page_count();
        let old_head: u64 = self.stored_head(class);
        let ghost before = self.image@;
        let ghost view = self@;
        proof {
            store::lemma_page_count(self.order, before);
            layout::lemma_layout(view.page_size, class as int);
            assert((new_id + 1) * page_size == new_id * page_size + page_size)
                by (nonlinear_arith);
        }
        let start: usize = self.image.len();
        self.image.resize(start + page_size, 0u8);
        let ghost longer = self.image@;
        image::write_word(self.order, &mut self.image, start + NEXT_OFF, old_head);
        let ghost with_next = self.image@;
        image::write_half(self.order, &mut self.image, start + CLASS_OFF, class as u32);
        let ghost added = self.image@;
        proof {
            assert forall|i: int| 0 <= i < start implies #[trigger] before[i] == added[i] by {
                assert(longer[i] == before[i]);
                assert(longer[i] == with_next[i]);
                assert(with_next[i] == added[i]);
            }
            assert forall|i: int|
                start <= i < start + 8 || start + HEADER_BYTES <= i < added.len() implies added[i]
                == 0 by {
                assert(longer[i] == 0);
                assert(longer[i] == with_next[i]);
                assert(with_next[i] == added[i]);
            }
            image::lemma_word_agrees(self.order, with_next, added, start + NEXT_OFF);
            store::lemma_page_added(self.order, before, added, class as int);
            store::lemma_list(view, class as int);
            let l = view.list(class as int);
            if l.len() > 0 {
                assert(view.in_place(class as int, l, 0));
            }
        }
        if old_head != 0 {
            self.set_previous(PageId(old_head as usize), new_id as u64);
        }
        self.set_head(class, PageId(new_id));
        proof {
            if old_head != 0 {
                let head = old_head as int;
                let relinked = PageView { previous: new_id as int, ..view.page(head) };
                assert(self@.pages =~= view.pages.push(view.fresh_page(class as int)).update(
                    head - 1,
                    relinked,
                ));
                assert(self@.pages =~= view.grown(class as int).pages);
            } else {
                assert(self@.pages =~= view.grown(class as int).pages);
            }
        }
        PageId(new_id)
    }

    /// Whether an allocation of this size would have to grow the store, and to
    /// how many bytes.
    ///
    /// Returns `None` where a listed page has a free slot, where no page can
    /// hold such a slot, and where the grown store could not be addressed.
    pub fn needed_len(&self, slot_size: usize) -> (r: Option<usize>)
        requires
            self.wf(),
            num::power_of_two(slot_size as int),
            slot_size <= LARGEST_SLOT || !layout::class_fits(
                self@.page_size,
                store::class_of(slot_size as int),
            ),
        ensures
            r is Some <==> {
                let c = store::class_of(slot_size as int);
                &&& layout::class_fits(self@.page_size, c)
                &&& self@.first_with_room(c) is None
                &&& (self@.page_count() + 1) * self@.page_size <= usize::MAX
            },
            r matches Some(len) ==> len == (self@.page_count() + 1) * self@.page_size,
    {
        let class: usize = layout::size_class(slot_size);
        proof {
            store::lemma_class_of(slot_size as int, class as nat);
            if slot_size <= LARGEST_SLOT {
                store::lemma_class_listed(class as nat);
            }
        }
        match layout::page_layout(self.page_size(), class) {
            None => None,
            Some(layout) => {
                match self.find_page(class, &layout) {
                    Some(_) => None,
                    None => self.grown_len(),
                }
            },
        }
    }

    /// The length of the store with one more page, if it fits into a word.
    fn grown_len(&self) -> (r: Option<usize>)
        requires
            store::shaped(self.order, self.image@),
        ensures
            r is Some <==> (self@.page_count() + 1) * self@.page_size <= usize::MAX,
            r matches Some(len) ==> len == (self@.page_count() + 1) * self@.page_size,
    {
        proof {
            store::lemma_page_count(self.order, self.image@);
            let n = self@.page_count();
            let ps = self@.page_size;
            assert(n < n * ps) by (nonlinear_arith)
                requires
                    n >= 1,
                    ps >= META_BYTES,
            ;
            assert(self.image@.len() == self.image.len());
        }
        (self.page_count() + 1).checked_mul(self.page_size())
    }

    /// The first page of the list of a class that has a free slot, with its
    /// first free slot.
    fn find_page(&self, class: usize, layout: &PageLayout) -> (r: Option<(PageId, SlotId)>)
        requires
            store::shaped(self.order, self.image@),
            self@.linked(),
            class < CLASSES,
            layout::class_fits(self@.page_size, class as int),
            *layout == layout::layout_of(self@.page_size, class as int),
        ensures
            r is Some <==> self@.first_with_room(class as int) is Some,
            r matches Some(found) ==> {
                &&& self@.first_with_room(class as int) == Some(found.0.0 as int)
                &&& self@.has_page(found.0.0 as int)
                &&& self@.page(found.0.0 as int).class_id == class
                &&& self@.page(found.0.0 as int).is_first_free(found.1.0 as int)
            },
    {
        let ghost c = class as int;
        let ghost l = self@.list(c);
        let ghost mut i: int = 0;
        let mut page_id: u64 = self.stored_head(class);
        proof {
            store::lemma_list(self@, c);
            assert(l.skip(0) =~= l);
            assert(self.image@.len() == self.image.len());
            store::lemma_page_count(self.order, self.image@);
        }
        while page_id != NO_PAGE as u64
            invariant
                store::shaped(self.order, self.image@),
                self.image@.len() <= usize::MAX,
                self@.page_count() <= self.image@.len(),
                c == class,
                layout::class_fits(self@.page_size, c),
                *layout == layout::layout_of(self@.page_size, c),
                l == self@.list(c),
                self@.lists(c, l),
                0 <= i <= l.len(),
                page_id == store::entry(l, i),
                self@.room_in(l.skip(i)) == self@.first_with_room(c),
            decreases l.len() - i,
        {
            assert(i < l.len()) by {
                if i == l.len() {
                    assert(store::entry(l, i) == 0);
                }
            }
            assert(self@.in_place(c, l, i));
            let page: PageId = PageId(page_id as usize);
            assert(l.skip(i)[0] == l[i]);
            if let Some(slot) = self.find_free_slot(page, layout) {
                return Some((page, slot));
            }
            proof {
                assert(l.skip(i).drop_first() =~= l.skip(i + 1));
                i = i + 1;
            }
            page_id = self.stored_next(page);
        }
        proof {
            if i < l.len() {
                assert(self@.in_place(c, l, i));
            }
        }
        None
    }

    /// Allocates one slot of exactly `slot_size` bytes (a power of two).
    ///
    /// `grown` says whether the store can be grown by a page; it matters only
    /// where [`Self::needed_len`] asks for it. Returns `None` if no page can
    /// hold such a slot, or if a page is needed and cannot be had.
    ///
    /// The bytes of the slot are left as they are.
    pub fn alloc_slot(&mut self, slot_size: usize, grown: bool) -> (r: Option<AllocId>)
        requires
            old(self).wf(),
            num::power_of_two(slot_size as int),
            slot_size <= LARGEST_SLOT || !layout::class_fits(
                old(self)@.page_size,
                store::class_of(slot_size as int),
            ),
        ensures
            final(self).order == old(self).order,
            final(self).wf(),
            after_alloc(
                old(self)@,
                old(self).dirty@,
                slot_size as int,
                grown,
                r,
                final(self)@,
                final(self).dirty@,
            ),
            r matches Some(aid) ==> final(self).names_slot(aid),
    {
        let class: usize = layout::size_class(slot_size);
        proof {
            store::lemma_class_of(slot_size as int, class as nat);
            if slot_size <= LARGEST_SLOT {
                store::lemma_class_listed(class as nat);
            }
        }
        let layout: PageLayout = match layout::page_layout(self.page_size(), class) {
            None => return None,
            Some(layout) => layout,
        };
        let ghost s = self@;
        if let Some((page_id, slot_id)) = self.find_page(class, &layout) {
            proof {
                assert(s.page_ok(page_id.0 as int));
                store::lemma_marked_linked(s, page_id.0 as int, slot_id.0 as int, true);
            }
            self.mark_slot_used(page_id, &layout, slot_id);
            self.mark_dirty(page_id);
            return Some(AllocId { size: slot_size, page_id, slot_id });
        }
        if self.grown_len().is_none() || !grown {
            return None;
        }
        let page_id: PageId = self.alloc_free_page(class);
        proof {
            layout::lemma_layout(s.page_size, class as int);
            store::lemma_grown_linked(s, class as int);
            store::lemma_marked_linked(self@, page_id.0 as int, 0, true);
        }
        let slot_id: SlotId = SlotId(0);
        self.mark_slot_used(page_id, &layout, slot_id);
        self.mark_dirty(page_id);
        self.mark_dirty(PageId(0));
        Some(AllocId { size: slot_size, page_id, slot_id })
    }

    /// Releases a slot: it is free again, and its page moves to the front of the
    /// list of its class. The page and the metadata are recorded as dirty.
    pub fn dealloc(&mut self, aid: AllocId)
        requires
            old(self).wf(),
            old(self).names_slot(aid),
        ensures
            final(self).order == old(self).order,
            final(self).wf(),
            final(self)@ == old(self)@.marked(
                aid.page_id.0 as int,
                aid.slot_id.0 as int,
                false,
            ).fronted(store::class_of(aid.size as int), aid.page_id.0 as int),
            final(self).dirty@ == recorded(
                recorded(old(self).dirty@, aid.page_id.0 as int),
                0,
            ),
    {
        let class: usize = layout::size_class(aid.size);
        let ghost s = self@;
        let ghost p = aid.page_id.0 as int;
        proof {
            store::lemma_class_of(aid.size as int, class as nat);
            assert(s.page_ok(p));
            assert(self.image@.len() == self.image.len());
            layout::lemma_layout(s.page_size, class as int);
            store::lemma_marked_linked(s, p, aid.slot_id.0 as int, false);
            store::lemma_fronted_linked(
                s.marked(p, aid.slot_id.0 as int, false),
                class as int,
                p,
            );
        }
        if let Some(layout) = layout::page_layout(self.page_size(), class) {
            self.mark_slot_free(aid.page_id, &layout, aid.slot_id);
            self.move_to_front(class, aid.page_id);
            self.mark_dirty(aid.page_id);
            self.mark_dirty(PageId(0));
        }
    }

    /// Allocates a slot large enough for `T` and returns its [`AllocId`].
    ///
    /// Returns `None` if `T` cannot fit in a data page (header + one aligned
    /// slot would exceed the page size), or if a page is needed and cannot be
    /// had (see [`Self::alloc_slot`]).
    pub fn alloc_for<T: Copy>(&mut self, grown: bool) -> (r: Option<AllocId>)
        requires
            old(self).wf(),
            slot_size_for::<T>() <= LARGEST_SLOT || !layout::class_fits(
                old(self)@.page_size,
                store::class_of(slot_size_for::<T>()),
            ),
        ensures
            final(self).order == old(self).order,
            final(self).wf(),
            after_alloc(
                old(self)@,
                old(self).dirty@,
                slot_size_for::<T>(),
                grown,
                r,
                final(self)@,
                final(self).dirty@,
            ),
            r matches Some(aid) ==> {
                &&& final(self).names_slot(aid)
                &&& aid.size >= size_of::<T>()
                &&& aid.size >= align_of::<T>()
                &&& forall|q: int|
                    num::power_of_two(q) && q >= size_of::<T>() && q >= align_of::<T>()
                        ==> aid.size <= q
            },
    {
        let slot_size: usize = slot_size_of::<T>();
        self.alloc_slot(slot_size, grown)
    }

    /// Whether a `T` fits into the slot of an allocation.
    pub fn fits_slot<T: Copy>(aid: AllocId) -> (r: bool)
        ensures
            r == (slot_size_for::<T>() <= aid.size),
            r ==> size_of::<T>() <= aid.size && align_of::<T>() <= aid.size,
            num::power_of_two(aid.size as int) && size_of::<T>() <= aid.size && align_of::<T>()
                <= aid.size ==> r,
    {
        slot_size_of::<T>() <= aid.size
    }

    /// Where the slot of an allocation starts, in bytes from the start of the
    /// store.
    #[must_use]
    pub fn slot_offset(&self, aid: AllocId) -> (r: usize)
        requires
            self.wf(),
            self.names_slot(aid),
        ensures
            r == self@.slot_start(aid.page_id.0 as int, aid.slot_id.0 as int),
            r + aid.size <= self.image@.len() <= usize::MAX,
            r as int % aid.size as int == 0,
    {
        let class: usize = layout::size_class(aid.size);
        let base: usize = self.page_byte_offset(aid.page_id);
        let page_size: usize = self.page_size();
        proof {
            store::lemma_class_of(aid.size as int, class as nat);
            assert(self@.page_ok(aid.page_id.0 as int));
            store::lemma_slot_inside(self@, aid.page_id.0 as int, aid.slot_id.0 as int);
        }
        match layout::page_layout(page_size, class) {
            None => 0,
            Some(layout) => base + layout.payload_off + aid.slot_id.0 * aid.size,
        }
    }

    /// The bytes of the slot of an allocation.
    #[must_use]
    pub fn slot_bytes(&self, aid: AllocId) -> (r: &[u8])
        requires
            self.wf(),
            self.names_slot(aid),
        ensures
            r@ == self@.slot_bytes(aid.page_id.0 as int, aid.slot_id.0 as int),
            r@.len() == aid.size,
    {
        let start: usize = self.slot_offset(aid);
        proof {
            let p = aid.page_id.0 as int;
            assert(self@.page_ok(p));
            store::lemma_slot_of_image(self.order, self.image@, p, aid.slot_id.0 as int);
            let k = choose|k: nat| aid.size == #[trigger] pow2(k);
            store::lemma_class_of(aid.size as int, k);
            layout::lemma_layout(self@.page_size, k as int);
        }
        image::window(&self.image, start, aid.size)
    }

    /// The bytes of the slot of an allocation, for writing.
    pub fn slot_bytes_mut(&mut self, aid: AllocId) -> (r: &mut [u8])
        requires
            old(self).wf(),
            old(self).names_slot(aid),
        ensures
            final(self).order == old(self).order,
            r@ == old(self)@.slot_bytes(aid.page_id.0 as int, aid.slot_id.0 as int),
            r@.len() == aid.size,
            final(self).order == old(self).order,
            final(self).dirty == old(self).dirty,
            final(r)@.len() == aid.size ==> {
                &&& final(self).wf()
                &&& final(self)@ == old(self)@.written(
                    aid.page_id.0 as int,
                    aid.slot_id.0 as int,
                    final(r)@,
                )
            },
    {
        let start: usize = self.slot_offset(aid);
        let ghost before = self.image@;
        proof {
            let p = aid.page_id.0 as int;
            let slot = aid.slot_id.0 as int;
            assert(self@.page_ok(p));
            let k = choose|k: nat| aid.size == #[trigger] pow2(k);
            store::lemma_class_of(aid.size as int, k);
            layout::lemma_layout(self@.page_size, k as int);
            store::lemma_slot_of_image(self.order, before, p, slot);
            assert forall|new: Seq<u8>|
                #![trigger image::spliced(before, start as int, aid.size as int, new)]
                new.len() == aid.size implies {
                let after = image::spliced(before, start as int, aid.size as int, new);
                &&& store::shaped(self.order, after)
                &&& store::decode(self.order, after) == self@.written(p, slot, new)
                &&& store::decode(self.order, after).linked()
            } by {
                store::lemma_slot_written(self.order, before, p, slot, new);
            }
        }
        image::window_mut(&mut self.image, start, aid.size)
    }

    /// Writes every byte through. `synced` says whether that went well.
    ///
    /// # Errors
    ///
    /// Fails if the bytes could not be synced; the dirty list is then kept.
    pub fn flush_all(&mut self, synced: bool) -> (r: Result<(), FlushError>)
        ensures
            final(self).image@ == old(self).image@,
            final(self).order == old(self).order,
            r == if synced {
                Ok::<(), FlushError>(())
            } else {
                Err(FlushError::NotSynced)
            },
            final(self).dirty@ == if synced {
                Seq::empty()
            } else {
                old(self).dirty@
            },
    {
        if !synced {
            return Err(FlushError::NotSynced);
        }
        self.dirty.clear();
        Ok(())
    }

    /// Writes a single page through. `synced` says whether that went well; it
    /// matters only where the page exists.
    ///
    /// # Errors
    ///
    /// Fails if there is no such page, or if its bytes could not be synced.
    pub fn flush_page(&mut self, page: PageId, synced: bool) -> (r: Result<(), FlushError>)
        requires
            old(self).wf(),
        ensures
            final(self).wf(),
            final(self).image@ == old(self).image@,
            final(self).order == old(self).order,
            r == if page.0 * old(self)@.page_size > usize::MAX {
                Err::<(), FlushError>(FlushError::OffsetOverflow)
            } else if page.0 >= old(self)@.page_count() {
                Err(FlushError::OutOfRange)
            } else if !synced {
                Err(FlushError::NotSynced)
            } else {
                Ok(())
            },
            final(self).dirty@ == if r is Ok {
                old(self).dirty@.filter(|q: PageId| q != page)
            } else {
                old(self).dirty@
            },
    {
        if page.0.checked_mul(self.page_size()).is_none() {
            return Err(FlushError::OffsetOverflow);
        }
        if page.0 >= self.page_count() {
            return Err(FlushError::OutOfRange);
        }
        if !synced {
            return Err(FlushError::NotSynced);
        }
        let mut kept: Vec<PageId> = Vec::new();
        let mut i: usize = 0;
        while i < self.dirty.len()
            invariant
                i <= self.dirty@.len(),
                *self == *old(self),
                kept@ == self.dirty@.take(i as int).filter(|q: PageId| q != page),
            decreases self.dirty@.len() - i,
        {
            let q: PageId = self.dirty[i];
            proof {
                let keep = |q: PageId| q != page;
                assert(self.dirty@.take(i + 1) =~= self.dirty@.take(i as int).push(q));
                assert(self.dirty@.take(i + 1).drop_last() =~= self.dirty@.take(i as int));
                reveal(Seq::filter);
            }
            if q != page {
                kept.push(q);
            }
            i = i + 1;
        }
        proof {
            assert(self.dirty@.take(i as int) =~= self.dirty@);
            let keep = |q: PageId| q != page;
            lemma_kept(self.dirty@, keep, self@.page_count());
        }
        self.dirty = kept;
        Ok(())
    }

    /// Writes the dirty pages through, one after the other in the order of the
    /// dirty list. `synced` says how many went well before the first failure.
    ///
    /// # Errors
    ///
    /// Fails if not all could be synced; the dirty list then starts with the
    /// page that failed.
    pub fn flush_dirty(&mut self, synced: usize) -> (r: Result<(), FlushError>)
        requires
            old(self).wf(),
        ensures
            final(self).wf(),
            final(self).image@ == old(self).image@,
            final(self).order == old(self).order,
            r == if synced < old(self).dirty@.len() {
                Err::<(), FlushError>(FlushError::NotSynced)
            } else {
                Ok(())
            },
            final(self).dirty@ == if synced < old(self).dirty@.len() {
                old(self).dirty@.skip(synced as int)
            } else {
                Seq::empty()
            },
    {
        if synced >= self.dirty.len() {
            self.dirty.clear();
            return Ok(());
        }
        let kept: Vec<PageId> = self.dirty.split_off(synced);
        self.dirty = kept;
        Err(FlushError::NotSynced)
    }

    /// Whether so many pages are dirty that they should be written through.
    pub fn flush_due(&self) -> (r: bool)
        requires
            store::shaped(self.order, self.image@),
        ensures
            r == (self.dirty@.len() >= self@.threshold),
    {
        self.dirty.len() as u64 >= self.stored_threshold()
    }

    /// Writes the dirty pages through if enough of them have accumulated, as
    /// [`Self::flush_dirty`] does; a failure is passed over.
    pub fn maybe_flush_by_threshold(&mut self, synced: usize)
        requires
            old(self).wf(),
        ensures
            final(self).wf(),
            final(self).image@ == old(self).image@,
            final(self).order == old(self).order,
            final(self).dirty@ == if old(self).dirty@.len() < old(self)@.threshold {
                old(self).dirty@
            } else if synced < old(self).dirty@.len() {
                old(self).dirty@.skip(synced as int)
            } else {
                Seq::empty()
            },
    {
        if self.flush_due() {
            let _ = self.flush_dirty(synced);
        }
    }

    /// Page indices of the list that starts at `head`.
    pub(crate) fn page_chain(&self, head: usize) -> (r: Vec<u64>)
        requires
            store::shaped(self.order, self.image@),
            self@.walkable(),
            self@.is_link(head as int),
        ensures
            order::ints(r@) == self@.chain(
                head as int,
                (self@.page_count() + 1) as nat,
            ),
    {
        let count: usize = self.page_count();
        let ghost limit = (count + 1) as nat;
        proof {
            store::lemma_page_count(self.order, self.image@);
            let n = self@.page_count();
            let ps = self@.page_size;
            assert(n < n * ps) by (nonlinear_arith)
                requires
                    n >= 1,
                    ps >= META_BYTES,
            ;
            assert(self.image@.len() == self.image.len());
        }
        let mut chain: Vec<u64> = Vec::new();
        let mut cur: usize = head;
        let mut guard: usize = 0;
        assert(order::ints(chain@) + self@.chain(cur as int, limit)
            =~= self@.chain(head as int, limit));
        while cur != NO_PAGE && guard < count + 1
            invariant
                store::shaped(self.order, self.image@),
                self@.walkable(),
                count == self@.page_count(),
                count < usize::MAX,
                limit == count + 1,
                guard <= limit,
                self@.is_link(cur as int),
                order::ints(chain@) + self@.chain(
                    cur as int,
                    (limit - guard) as nat,
                ) == self@.chain(head as int, limit),
            decreases limit - guard,
        {
            let ghost done = order::ints(chain@);
            let ghost at = cur as int;
            chain.push(cur as u64);
            cur = self.stored_next(PageId(cur)) as usize;
            guard = guard + 1;
            proof {
                assert(order::ints(chain@) =~= done.push(at));
                assert(done.push(at) + self@.chain(cur as int, (limit - guard) as nat) =~= done
                    + (seq![at] + self@.chain(cur as int, (limit - guard) as nat)));
            }
        }
        assert(order::ints(chain@) + Seq::<int>::empty()
            =~= order::ints(chain@));
        chain
    }
}

/// What remains of a dirty list without a page still names pages, each once.
proof fn lemma_kept(dirty: Seq<PageId>, keep: spec_fn(PageId) -> bool, count: int)
    requires
        dirty.no_duplicates(),
        forall|i: int| 0 <= i < dirty.len() ==> (#[trigger] dirty[i]).0 < count,
    ensures
        dirty.filter(keep).no_duplicates(),
        forall|i: int| 0 <= i < dirty.filter(keep).len() ==> (#[trigger] dirty.filter(keep)[i]).0
            < count,
        forall|i: int| 0 <= i < dirty.filter(keep).len() ==> dirty.contains(
            #[trigger] dirty.filter(keep)[i],
        ),
    decreases dirty.len(),
{
    reveal(Seq::filter);
    if dirty.len() > 0 {
        let rest = dirty.drop_last();
        assert forall|i: int| 0 <= i < rest.len() implies (#[trigger] rest[i]).0 < count by {
            assert(rest[i] == dirty[i]);
        }
        lemma_kept(rest, keep, count);
        assert(dirty.last() == dirty[dirty.len() - 1]);
        assert forall|i: int| 0 <= i < dirty.filter(keep).len() implies dirty.contains(
            #[trigger] dirty.filter(keep)[i],
        ) by {
            if i < rest.filter(keep).len() {
                assert(rest.contains(rest.filter(keep)[i]));
                let j = choose|j: int| 0 <= j < rest.len() && rest[j] == rest.filter(keep)[i];
                assert(dirty[j] == rest[j]);
            }
        }
        if keep(dirty.last()) {
            assert forall|i: int| 0 <= i < rest.filter(keep).len() implies rest.filter(keep)[i]
                != dirty.last() by {
                assert(rest.contains(rest.filter(keep)[i]));
                let j = choose|j: int| 0 <= j < rest.len() && rest[j] == rest.filter(keep)[i];
                assert(dirty[j] == rest[j]);
            }
        }
    }
}

} // verus!
