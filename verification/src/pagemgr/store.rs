//! What the bytes of a store mean.
//!
//! ```text
//! page 0:    [page_size][heads of the 32 page lists][flush threshold]
//! page N:    [previous][next][class_id][pad][bitmap][align pad][slot 0][slot 1]
//! ```
//!
//! Every number is a word of eight bytes, but for `class_id` and `pad`, which
//! have four; the bytes of a word stand in the order of the machine that made
//! the store. The number of slots of a page and the length of its
//! bitmap are not stored: they follow from the page size and the class.

use super::bitmap;
use super::image;
use super::image::ByteOrder;
use super::layout;
use super::layout::HEADER_BYTES;
use crate::num;
use vstd::arithmetic::div_mod::*;
use vstd::arithmetic::mul::*;
use vstd::arithmetic::power2::*;
use vstd::prelude::*;
use vstd::set_lib::*;

verus! {

/// How many size classes have a page list.
pub const CLASSES: usize = 32;

/// Size of the slots of the largest class.
pub const LARGEST_SLOT: u64 = 0x8000_0000;

/// Where the list heads start in page 0.
pub const HEADS_OFF: usize = 8;

/// Where the flush threshold stands in page 0.
pub const THRESHOLD_OFF: usize = 264;

/// Size of the metadata at the start of page 0.
pub const META_BYTES: usize = 272;

/// Where the `next` link stands in a data page.
pub const NEXT_OFF: usize = 8;

/// Where the class stands in a data page.
pub const CLASS_OFF: usize = 16;

/// A data page.
#[verifier::ext_equal]
pub struct PageView {
    /// The page in front of this one in the list, 0 at its start.
    pub previous: int,
    /// The next page of the list, 0 at its end.
    pub next: int,
    /// The size class.
    pub class_id: int,
    /// Which slots are in use.
    pub used: Seq<bool>,
    /// Everything behind the header and the bitmap, slots first.
    pub payload: Seq<u8>,
}

/// Entry `i` of a list of pages, 0 where there is none.
pub open spec fn entry(l: Seq<int>, i: int) -> int {
    if 0 <= i < l.len() {
        l[i]
    } else {
        0
    }
}

/// A whole store.
#[verifier::ext_equal]
pub struct StoreView {
    /// Size of a page in bytes.
    pub page_size: int,
    /// How many dirty pages make a flush due.
    pub threshold: int,
    /// For every size class the first page of its list, 0 for none.
    pub heads: Seq<int>,
    /// The data pages; page `p` stands at index `p - 1`.
    pub pages: Seq<PageView>,
}

impl PageView {
    /// Whether a slot is free.
    pub open spec fn has_room(self) -> bool {
        exists|s: int| 0 <= s < self.used.len() && !#[trigger] self.used[s]
    }

    /// Whether `s` is the first free slot.
    pub open spec fn is_first_free(self, s: int) -> bool {
        &&& 0 <= s < self.used.len()
        &&& !self.used[s]
        &&& forall|j: int| 0 <= j < s ==> #[trigger] self.used[j]
    }

    /// This page with a slot marked.
    pub open spec fn marked(self, slot: int, used: bool) -> PageView {
        PageView { used: self.used.update(slot, used), ..self }
    }
}

impl StoreView {
    /// How many pages there are, page 0 included.
    pub open spec fn page_count(self) -> int {
        self.pages.len() as int + 1
    }

    /// Whether `p` is a data page.
    pub open spec fn has_page(self, p: int) -> bool {
        1 <= p < self.page_count()
    }

    /// Data page `p`.
    pub open spec fn page(self, p: int) -> PageView {
        self.pages[p - 1]
    }

    /// Whether `p` is a link: a data page, or 0 for none.
    pub open spec fn is_link(self, p: int) -> bool {
        0 <= p < self.page_count()
    }

    /// Whether all links stay inside the store.
    pub open spec fn walkable(self) -> bool {
        &&& self.heads.len() == CLASSES
        &&& forall|c: int| 0 <= c < CLASSES ==> self.is_link(#[trigger] self.heads[c])
        &&& forall|p: int| self.has_page(p) ==> self.is_link((#[trigger] self.page(p)).next)
    }

    /// Whether a data page is as it should be: its class has a list and fits
    /// into a page.
    pub open spec fn page_ok(self, p: int) -> bool {
        &&& 0 <= self.page(p).class_id < CLASSES
        &&& layout::class_fits(self.page_size, self.page(p).class_id)
    }

    /// Whether entry `i` of the list `l` of class `c` is in place: it is a page
    /// of this class, between its neighbours.
    pub open spec fn in_place(self, c: int, l: Seq<int>, i: int) -> bool {
        &&& self.has_page(l[i])
        &&& self.page(l[i]).class_id == c
        &&& self.page(l[i]).previous == entry(l, i - 1)
        &&& self.page(l[i]).next == entry(l, i + 1)
    }

    /// Whether `l` is the list of class `c`: a doubly linked list of all pages
    /// of this class.
    pub open spec fn lists(self, c: int, l: Seq<int>) -> bool {
        &&& self.heads[c] == entry(l, 0)
        &&& forall|i: int| 0 <= i < l.len() ==> #[trigger] self.in_place(c, l, i)
        &&& forall|p: int|
            self.has_page(p) && (#[trigger] self.page(p)).class_id == c ==> l.contains(p)
    }

    /// Whether class `c` has a list.
    pub open spec fn has_list(self, c: int) -> bool {
        exists|l: Seq<int>| #[trigger] self.lists(c, l)
    }

    /// Whether the pages are in order, and every class has its list.
    pub open spec fn linked(self) -> bool {
        &&& self.heads.len() == CLASSES
        &&& forall|p: int| self.has_page(p) ==> #[trigger] self.page_ok(p)
        &&& forall|c: int| 0 <= c < CLASSES ==> #[trigger] self.has_list(c)
    }

    /// The pages of class `c`, in the order of their list.
    pub open spec fn list(self, c: int) -> Seq<int> {
        self.chain(self.heads[c], self.page_count() as nat)
    }

    /// The first of some pages that has a free slot.
    pub open spec fn room_in(self, l: Seq<int>) -> Option<int>
        decreases l.len(),
    {
        if l.len() == 0 {
            None
        } else if self.page(l[0]).has_room() {
            Some(l[0])
        } else {
            self.room_in(l.drop_first())
        }
    }

    /// The first page of the list of class `c` that has a free slot.
    pub open spec fn first_with_room(self, c: int) -> Option<int> {
        self.room_in(self.list(c))
    }

    /// The pages of a list from page `p` on, at most `limit` of them.
    pub open spec fn chain(self, p: int, limit: nat) -> Seq<int>
        decreases limit,
    {
        if p == 0 || limit == 0 {
            Seq::empty()
        } else {
            seq![p] + self.chain(self.page(p).next, (limit - 1) as nat)
        }
    }

    /// The store after a slot has been marked used or free.
    pub open spec fn marked(self, p: int, slot: int, used: bool) -> StoreView {
        StoreView { pages: self.pages.update(p - 1, self.page(p).marked(slot, used)), ..self }
    }

    /// The store after the list of class `c` has been made to start at `p`.
    pub open spec fn headed(self, c: int, p: int) -> StoreView {
        StoreView { heads: self.heads.update(c, p), ..self }
    }

    /// The store with the `previous` link of a page changed.
    pub open spec fn with_previous(self, p: int, v: int) -> StoreView {
        StoreView {
            pages: self.pages.update(p - 1, (PageView { previous: v, ..self.page(p) })),
            ..self
        }
    }

    /// The store with the `next` link of a page changed.
    pub open spec fn with_next(self, p: int, v: int) -> StoreView {
        StoreView {
            pages: self.pages.update(p - 1, (PageView { next: v, ..self.page(p) })),
            ..self
        }
    }

    /// The store after page `p` has been taken out of its list, and its
    /// neighbours have been joined.
    pub open spec fn joined(self, p: int) -> StoreView {
        let before = self.page(p).previous;
        let after = self.page(p).next;
        let t = self.with_next(before, after);
        if after == 0 {
            t
        } else {
            t.with_previous(after, before)
        }
    }

    /// The store after page `p` has been moved to the front of the list of its
    /// class `c`.
    pub open spec fn fronted(self, c: int, p: int) -> StoreView {
        let head = self.heads[c];
        if head == p {
            self
        } else {
            self.joined(p).with_previous(head, p).with_previous(p, 0).with_next(p, head).headed(
                c,
                p,
            )
        }
    }

    /// Whether every page is of a class that has a list and fits into a page.
    pub open spec fn pages_ok(self) -> bool {
        &&& self.heads.len() == CLASSES
        &&& forall|p: int| self.has_page(p) ==> #[trigger] self.page_ok(p)
    }

    /// The pages of class `c` below `p`, the newest one first.
    pub open spec fn pages_below(self, c: int, p: int) -> Seq<int>
        decreases p,
    {
        if p <= 1 {
            Seq::empty()
        } else if self.page(p - 1).class_id == c {
            seq![p - 1] + self.pages_below(c, p - 1)
        } else {
            self.pages_below(c, p - 1)
        }
    }

    /// The list of class `c` after it has been built anew: all pages of the
    /// class, the newest one first, but for the page that stood at the head,
    /// which stays there.
    pub open spec fn rebuilt_list(self, c: int) -> Seq<int> {
        let l = self.pages_below(c, self.page_count());
        if l.contains(self.heads[c]) {
            moved_to_front(l, l.index_of(self.heads[c]))
        } else {
            l
        }
    }

    /// Whether this store differs from `s` at most in its lists.
    pub open spec fn same_but_lists(self, s: StoreView) -> bool {
        &&& self.page_size == s.page_size
        &&& self.threshold == s.threshold
        &&& self.heads.len() == s.heads.len()
        &&& self.pages.len() == s.pages.len()
        &&& forall|p: int|
            s.has_page(p) ==> {
                &&& (#[trigger] self.page(p)).class_id == s.page(p).class_id
                &&& self.page(p).used == s.page(p).used
                &&& self.page(p).payload == s.page(p).payload
            }
    }

    /// Whether the lists hold the pages below `p` of the store `s`, and these
    /// only.
    pub open spec fn lists_below(self, s: StoreView, p: int) -> bool {
        &&& self.same_but_lists(s)
        &&& forall|c: int|
            0 <= c < CLASSES ==> #[trigger] self.heads[c] == entry(s.pages_below(c, p), 0)
        &&& forall|c: int, i: int|
            0 <= c < CLASSES && 0 <= i < s.pages_below(c, p).len() ==> #[trigger] self.in_place(
                c,
                s.pages_below(c, p),
                i,
            )
    }

    /// The store with page `p` put in front of the list of class `c`.
    pub open spec fn prepended(self, c: int, p: int) -> StoreView {
        let head = self.heads[c];
        let t = self.with_previous(p, 0).with_next(p, head);
        if head == 0 {
            t.headed(c, p)
        } else {
            t.with_previous(head, p).headed(c, p)
        }
    }

    /// A page of class `c` that has just been added: nothing in use, all bytes
    /// zero, in front of the list.
    pub open spec fn fresh_page(self, c: int) -> PageView {
        let l = layout::layout_of(self.page_size, c);
        PageView {
            previous: 0,
            next: self.heads[c],
            class_id: c,
            used: Seq::new(l.slot_count as nat, |s: int| false),
            payload: Seq::new((self.page_size - l.payload_off) as nat, |i: int| 0u8),
        }
    }

    /// The store after a page of class `c` has been added at the end and linked
    /// in front of the list of its class.
    pub open spec fn grown(self, c: int) -> StoreView {
        let head = self.heads[c];
        let linked = if head == 0 {
            self.pages
        } else {
            self.pages.update(
                head - 1,
                (PageView { previous: self.page_count(), ..self.page(head) }),
            )
        };
        StoreView {
            heads: self.heads.update(c, self.page_count()),
            pages: linked.push(self.fresh_page(c)),
            ..self
        }
    }

    /// Whether a slot is in use.
    pub open spec fn live(self, p: int, slot: int) -> bool {
        self.has_page(p) && 0 <= slot < self.page(p).used.len() && self.page(p).used[slot]
    }

    /// Where a slot of page `p` starts, in bytes from the start of the store.
    pub open spec fn slot_start(self, p: int, slot: int) -> int {
        let l = layout::layout_of(self.page_size, self.page(p).class_id);
        p * self.page_size + l.payload_off + slot * l.slot_size
    }

    /// The store after the bytes of a slot have been replaced.
    pub open spec fn written(self, p: int, slot: int, new: Seq<u8>) -> StoreView {
        let size = layout::layout_of(self.page_size, self.page(p).class_id).slot_size;
        let page = PageView {
            payload: image::patch(self.page(p).payload, slot * size, new),
            ..self.page(p)
        };
        StoreView { pages: self.pages.update(p - 1, page), ..self }
    }

    /// The bytes of a slot.
    pub open spec fn slot_bytes(self, p: int, slot: int) -> Seq<u8> {
        let size = layout::layout_of(self.page_size, self.page(p).class_id).slot_size;
        self.page(p).payload.subrange(slot * size, slot * size + size)
    }
}

/// The size class of a power of two.
pub open spec fn class_of(slot_size: int) -> int {
    (choose|k: nat| slot_size == #[trigger] pow2(k)) as int
}

/// The data page that a run of bytes holds.
pub open spec fn decode_page(o: ByteOrder, b: Seq<u8>, page_size: int, p: int) -> PageView {
    let base = p * page_size;
    let c = image::half(o, b, base + CLASS_OFF);
    let l = layout::layout_of(page_size, c);
    let fits = layout::class_fits(page_size, c);
    PageView {
        previous: image::word(o, b, base),
        next: image::word(o, b, base + NEXT_OFF),
        class_id: c,
        used: if fits {
            Seq::new(
                l.slot_count as nat,
                |s: int|
                    bitmap::bit(
                        b.subrange(base + HEADER_BYTES, base + HEADER_BYTES + l.bitmap_bytes),
                        s,
                    ),
            )
        } else {
            Seq::empty()
        },
        payload: b.subrange(
            if fits {
                base + l.payload_off
            } else {
                base + HEADER_BYTES
            },
            base + page_size,
        ),
    }
}

/// The store that a run of bytes holds.
pub open spec fn decode(o: ByteOrder, b: Seq<u8>) -> StoreView {
    let page_size = image::word(o, b, 0);
    StoreView {
        page_size,
        threshold: image::word(o, b, THRESHOLD_OFF as int),
        heads: Seq::new(CLASSES as nat, |c: int| image::word(o, b, HEADS_OFF + 8 * c)),
        pages: Seq::new(
            (b.len() as int / page_size - 1) as nat,
            |k: int| decode_page(o, b, page_size, k + 1),
        ),
    }
}

/// Whether a run of bytes has the size of a store: whole pages, each a power
/// of two in size and large enough for the metadata.
pub open spec fn shaped(o: ByteOrder, b: Seq<u8>) -> bool {
    let page_size = image::word(o, b, 0);
    &&& num::power_of_two(page_size)
    &&& META_BYTES <= page_size <= b.len()
    &&& b.len() as int % page_size == 0
}

/// Page `p` lies inside the store, and the pages do not overlap.
pub proof fn lemma_page_range(len: int, page_size: int, p: int)
    requires
        page_size > 0,
        len % page_size == 0,
        0 <= p < len / page_size,
    ensures
        0 <= p * page_size,
        (p + 1) * page_size == p * page_size + page_size,
        p * page_size + page_size <= len,
        p >= 1 ==> page_size <= p * page_size,
        len == (len / page_size) * page_size,
{
    lemma_fundamental_div_mod(len, page_size);
    let n = len / page_size;
    assert(n * page_size == page_size * n) by (nonlinear_arith);
    assert((p + 1) * page_size == p * page_size + page_size) by (nonlinear_arith);
    assert((p + 1) * page_size <= n * page_size) by (nonlinear_arith)
        requires
            p + 1 <= n,
            page_size > 0,
    ;
    assert(0 <= p * page_size) by (nonlinear_arith)
        requires
            0 <= p,
            page_size > 0,
    ;
    if p >= 1 {
        assert(page_size <= p * page_size) by (nonlinear_arith)
            requires
                1 <= p,
                page_size > 0,
        ;
    }
}

/// The bytes of a store are its pages.
pub proof fn lemma_page_count(o: ByteOrder, b: Seq<u8>)
    requires
        shaped(o, b),
    ensures
        decode(o, b).page_count() == b.len() as int / decode(o, b).page_size,
        decode(o, b).page_count() >= 1,
        b.len() == decode(o, b).page_count() * decode(o, b).page_size,
{
    let ps = image::word(o, b, 0);
    let n = b.len() as int / ps;
    lemma_fundamental_div_mod(b.len() as int, ps);
    assert(n * ps == ps * n) by (nonlinear_arith);
    assert(n >= 1) by (nonlinear_arith)
        requires
            ps * n == b.len(),
            b.len() >= ps,
            ps > 0,
    ;
}

/// Different pages occupy different bytes.
pub proof fn lemma_pages_apart(page_size: int, p: int, q: int)
    requires
        page_size > 0,
        p < q,
    ensures
        p * page_size + page_size <= q * page_size,
{
    assert(p * page_size + page_size == (p + 1) * page_size) by (nonlinear_arith);
    assert((p + 1) * page_size <= q * page_size) by (nonlinear_arith)
        requires
            p + 1 <= q,
            page_size > 0,
    ;
}

/// A data page is determined by its bytes.
pub proof fn lemma_page_agrees(o: ByteOrder, a: Seq<u8>, b: Seq<u8>, page_size: int, p: int)
    requires
        META_BYTES <= page_size <= usize::MAX,
        1 <= p,
        p * page_size + page_size <= a.len(),
        p * page_size + page_size <= b.len(),
        image::agree(a, b, p * page_size, p * page_size + page_size),
    ensures
        decode_page(o, a, page_size, p) == decode_page(o, b, page_size, p),
{
    let base = p * page_size;
    assert(base >= 0) by (nonlinear_arith)
        requires
            base == p * page_size,
            p >= 1,
            page_size >= 0,
    ;
    image::lemma_word_agrees(o, a, b, base);
    image::lemma_word_agrees(o, a, b, base + NEXT_OFF);
    image::lemma_half_agrees(o, a, b, base + CLASS_OFF);
    let c = image::half(o, a, base + CLASS_OFF);
    if layout::class_fits(page_size, c) {
        layout::lemma_layout(page_size, c);
        let l = layout::layout_of(page_size, c);
        lemma_mul_nonnegative(l.slot_count as int, l.slot_size as int);
        assert(a.subrange(base + HEADER_BYTES, base + HEADER_BYTES + l.bitmap_bytes)
            =~= b.subrange(base + HEADER_BYTES, base + HEADER_BYTES + l.bitmap_bytes));
        assert(a.subrange(base + l.payload_off, base + page_size) =~= b.subrange(
            base + l.payload_off,
            base + page_size,
        ));
    } else {
        assert(a.subrange(base + HEADER_BYTES, base + page_size) =~= b.subrange(
            base + HEADER_BYTES,
            base + page_size,
        ));
    }
    assert(decode_page(o, a, page_size, p) =~= decode_page(o, b, page_size, p));
}

/// Two stores with the same metadata bytes and the same bytes in every data
/// page but page `p` differ at most in page `p`.
pub proof fn lemma_other_pages_agree(o: ByteOrder, a: Seq<u8>, b: Seq<u8>, p: int)
    requires
        shaped(o, a),
        a.len() == b.len(),
        a.len() <= usize::MAX,
        decode(o, a).has_page(p),
        image::agree(a, b, 0, META_BYTES as int),
        image::agree(a, b, image::word(o, a, 0), p * image::word(o, a, 0)),
        image::agree(a, b, p * image::word(o, a, 0) + image::word(o, a, 0), a.len() as int),
    ensures
        shaped(o, b),
        decode(o, b) == (StoreView {
            pages: decode(o, a).pages.update(p - 1, decode_page(o, b, image::word(o, a, 0), p)),
            ..decode(o, a)
        }),
{
    let ps = image::word(o, a, 0);
    lemma_page_count(o, a);
    image::lemma_word_agrees(o, a, b, 0);
    image::lemma_word_agrees(o, a, b, THRESHOLD_OFF as int);
    assert forall|c: int| 0 <= c < CLASSES implies decode(o, b).heads[c] == #[trigger] decode(o, a).heads[c] by {
        image::lemma_word_agrees(o, a, b, HEADS_OFF + 8 * c);
    }
    assert(decode(o, a).heads =~= decode(o, b).heads);
    assert forall|k: int|
        0 <= k < decode(o, a).pages.len() && k != p - 1 implies decode(o, b).pages[k] == #[trigger] decode(
        o, a,
    ).pages[k] by {
        let q = k + 1;
        lemma_page_range(a.len() as int, ps, q);
        lemma_page_range(a.len() as int, ps, p);
        if q < p {
            lemma_pages_apart(ps, q, p);
        } else {
            lemma_pages_apart(ps, p, q);
        }
        lemma_page_agrees(o, a, b, ps, q);
    }
    assert(decode(o, b).pages =~= decode(o, a).pages.update(p - 1, decode_page(o, b, ps, p)));
}

/// Changing one bit of the bitmap of a page marks this slot and changes
/// nothing else.
pub proof fn lemma_bit_changed(o: ByteOrder, a: Seq<u8>, b: Seq<u8>, p: int, slot: int, set: bool)
    requires
        shaped(o, a),
        a.len() == b.len(),
        a.len() <= usize::MAX,
        decode(o, a).has_page(p),
        layout::class_fits(decode(o, a).page_size, decode(o, a).page(p).class_id),
        0 <= slot < decode(o, a).page(p).used.len(),
        ({
            let ps = decode(o, a).page_size;
            let l = layout::layout_of(ps, decode(o, a).page(p).class_id);
            let from = p * ps + HEADER_BYTES;
            &&& image::agree(a, b, 0, from)
            &&& image::agree(a, b, from + l.bitmap_bytes, a.len() as int)
            &&& b.subrange(from, from + l.bitmap_bytes) == bitmap::with_bit(
                a.subrange(from, from + l.bitmap_bytes),
                slot,
                set,
            )
        }),
    ensures
        shaped(o, b),
        decode(o, b) == decode(o, a).marked(p, slot, set),
{
    let ps = decode(o, a).page_size;
    let c = decode(o, a).page(p).class_id;
    let l = layout::layout_of(ps, c);
    let base = p * ps;
    let from = base + HEADER_BYTES;
    lemma_page_count(o, a);
    layout::lemma_layout(ps, c);
    lemma_mul_nonnegative(l.slot_count as int, l.slot_size as int);
    lemma_page_range(a.len() as int, ps, p);
    lemma_other_pages_agree(o, a, b, p);
    image::lemma_word_agrees(o, a, b, base);
    image::lemma_word_agrees(o, a, b, base + NEXT_OFF);
    image::lemma_half_agrees(o, a, b, base + CLASS_OFF);
    let bits = a.subrange(from, from + l.bitmap_bytes);
    assert forall|s: int| 0 <= s < l.slot_count implies #[trigger] bitmap::bit(
        bitmap::with_bit(bits, slot, set),
        s,
    ) == decode(o, a).page(p).used.update(slot, set)[s] by {
        bitmap::with_bit_changes_one_bit(bits, slot, set, s);
    }
    assert(decode_page(o, b, ps, p).used =~= decode(o, a).page(p).used.update(slot, set));
    assert(decode_page(o, b, ps, p).payload =~= decode(o, a).page(p).payload);
    assert(decode_page(o, b, ps, p) =~= decode(o, a).page(p).marked(slot, set));
    assert(decode(o, b).pages =~= decode(o, a).marked(p, slot, set).pages);
}

/// Changing one list head changes this head and nothing else.
pub proof fn lemma_head_changed(o: ByteOrder, a: Seq<u8>, b: Seq<u8>, c: int, p: int)
    requires
        shaped(o, a),
        a.len() == b.len(),
        a.len() <= usize::MAX,
        0 <= c < CLASSES,
        image::agree(a, b, 0, HEADS_OFF + 8 * c),
        image::word(o, b, HEADS_OFF + 8 * c) == p,
        image::agree(a, b, HEADS_OFF + 8 * c + 8, a.len() as int),
    ensures
        shaped(o, b),
        decode(o, b) == decode(o, a).headed(c, p),
{
    let ps = image::word(o, a, 0);
    lemma_page_count(o, a);
    image::lemma_word_agrees(o, a, b, 0);
    image::lemma_word_agrees(o, a, b, THRESHOLD_OFF as int);
    assert forall|d: int| 0 <= d < CLASSES && d != c implies decode(o, b).heads[d] == #[trigger] decode(o, a).heads[d] by {
        image::lemma_word_agrees(o, a, b, HEADS_OFF + 8 * d);
    }
    assert(decode(o, b).heads =~= decode(o, a).heads.update(c, p));
    assert forall|k: int| 0 <= k < decode(o, a).pages.len() implies decode(o, b).pages[k] == #[trigger] decode(
        o, a,
    ).pages[k] by {
        lemma_page_range(a.len() as int, ps, k + 1);
        lemma_page_agrees(o, a, b, ps, k + 1);
    }
    assert(decode(o, b).pages =~= decode(o, a).pages);
}

/// Changing the `previous` link of a page changes this link and nothing else.
pub proof fn lemma_previous_changed(o: ByteOrder, a: Seq<u8>, b: Seq<u8>, p: int, v: int)
    requires
        shaped(o, a),
        a.len() == b.len(),
        a.len() <= usize::MAX,
        decode(o, a).has_page(p),
        image::agree(a, b, 0, p * decode(o, a).page_size),
        image::word(o, b, p * decode(o, a).page_size) == v,
        image::agree(a, b, p * decode(o, a).page_size + 8, a.len() as int),
    ensures
        shaped(o, b),
        decode(o, b) == decode(o, a).with_previous(p, v),
{
    let ps = decode(o, a).page_size;
    let base = p * ps;
    lemma_page_count(o, a);
    lemma_page_range(a.len() as int, ps, p);
    lemma_other_pages_agree(o, a, b, p);
    image::lemma_word_agrees(o, a, b, base + NEXT_OFF);
    image::lemma_half_agrees(o, a, b, base + CLASS_OFF);
    let c = decode(o, a).page(p).class_id;
    if layout::class_fits(ps, c) {
        layout::lemma_layout(ps, c);
        let l = layout::layout_of(ps, c);
        lemma_mul_nonnegative(l.slot_count as int, l.slot_size as int);
        assert(a.subrange(base + HEADER_BYTES, base + HEADER_BYTES + l.bitmap_bytes)
            =~= b.subrange(base + HEADER_BYTES, base + HEADER_BYTES + l.bitmap_bytes));
    }
    assert(decode_page(o, b, ps, p).used =~= decode(o, a).page(p).used);
    assert(decode_page(o, b, ps, p).payload =~= decode(o, a).page(p).payload);
    assert(decode(o, b).pages =~= decode(o, a).pages.update(
        p - 1,
        (PageView { previous: v, ..decode(o, a).page(p) }),
    ));
}

/// Changing the `next` link of a page changes this link and nothing else.
pub proof fn lemma_next_changed(o: ByteOrder, a: Seq<u8>, b: Seq<u8>, p: int, v: int)
    requires
        shaped(o, a),
        a.len() == b.len(),
        a.len() <= usize::MAX,
        decode(o, a).has_page(p),
        image::agree(a, b, 0, p * decode(o, a).page_size + NEXT_OFF),
        image::word(o, b, p * decode(o, a).page_size + NEXT_OFF) == v,
        image::agree(a, b, p * decode(o, a).page_size + NEXT_OFF + 8, a.len() as int),
    ensures
        shaped(o, b),
        decode(o, b) == decode(o, a).with_next(p, v),
{
    let ps = decode(o, a).page_size;
    let base = p * ps;
    lemma_page_count(o, a);
    lemma_page_range(a.len() as int, ps, p);
    lemma_other_pages_agree(o, a, b, p);
    image::lemma_word_agrees(o, a, b, base);
    image::lemma_half_agrees(o, a, b, base + CLASS_OFF);
    let c = decode(o, a).page(p).class_id;
    if layout::class_fits(ps, c) {
        layout::lemma_layout(ps, c);
        let l = layout::layout_of(ps, c);
        lemma_mul_nonnegative(l.slot_count as int, l.slot_size as int);
        assert(a.subrange(base + HEADER_BYTES, base + HEADER_BYTES + l.bitmap_bytes)
            =~= b.subrange(base + HEADER_BYTES, base + HEADER_BYTES + l.bitmap_bytes));
    }
    assert(decode_page(o, b, ps, p).used =~= decode(o, a).page(p).used);
    assert(decode_page(o, b, ps, p).payload =~= decode(o, a).page(p).payload);
    assert(decode(o, b).pages =~= decode(o, a).pages.update(
        p - 1,
        (PageView { next: v, ..decode(o, a).page(p) }),
    ));
}

/// Appending a page whose bytes are zero but for its link and its class adds a
/// page with nothing in use and changes nothing else.
pub proof fn lemma_page_added(o: ByteOrder, a: Seq<u8>, b: Seq<u8>, c: int)
    requires
        shaped(o, a),
        b.len() == a.len() + decode(o, a).page_size,
        b.len() <= usize::MAX,
        0 <= c < CLASSES,
        layout::class_fits(decode(o, a).page_size, c),
        image::agree(a, b, 0, a.len() as int),
        forall|i: int| a.len() <= i < a.len() + 8 ==> b[i] == 0,
        image::word(o, b, a.len() + NEXT_OFF) == decode(o, a).heads[c],
        image::half(o, b, a.len() + CLASS_OFF) == c,
        forall|i: int| a.len() + HEADER_BYTES <= i < b.len() ==> b[i] == 0,
    ensures
        shaped(o, b),
        decode(o, b) == (StoreView {
            pages: decode(o, a).pages.push(decode(o, a).fresh_page(c)),
            ..decode(o, a)
        }),
{
    let ps = decode(o, a).page_size;
    let n = decode(o, a).page_count();
    lemma_page_count(o, a);
    image::lemma_word_agrees(o, a, b, 0);
    image::lemma_word_agrees(o, a, b, THRESHOLD_OFF as int);
    lemma_mod_add_multiples_vanish(a.len() as int, ps);
    lemma_page_count(o, b);
    assert(b.len() == (n + 1) * ps) by {
        assert((n + 1) * ps == n * ps + ps) by (nonlinear_arith);
    }
    assert(decode(o, b).page_count() == n + 1) by {
        lemma_div_multiples_vanish(n + 1, ps);
        assert(ps * (n + 1) == (n + 1) * ps) by (nonlinear_arith);
    }
    assert forall|d: int| 0 <= d < CLASSES implies decode(o, b).heads[d] == #[trigger] decode(o, a).heads[d] by {
        image::lemma_word_agrees(o, a, b, HEADS_OFF + 8 * d);
    }
    assert(decode(o, b).heads =~= decode(o, a).heads);
    assert forall|k: int| 0 <= k < decode(o, a).pages.len() implies decode(o, b).pages[k] == #[trigger] decode(
        o, a,
    ).pages[k] by {
        lemma_page_range(a.len() as int, ps, k + 1);
        lemma_page_agrees(o, a, b, ps, k + 1);
    }
    let base = n * ps;
    layout::lemma_layout(ps, c);
    let l = layout::layout_of(ps, c);
    lemma_mul_nonnegative(l.slot_count as int, l.slot_size as int);
    image::lemma_zero_word(o, b, base);
    let fresh = decode_page(o, b, ps, n);
    let bits = b.subrange(base + HEADER_BYTES, base + HEADER_BYTES + l.bitmap_bytes);
    assert forall|s: int| 0 <= s < l.slot_count implies !#[trigger] bitmap::bit(bits, s) by {
        assert(bits[s / 8] == 0);
        bitmap::lemma_zero_byte(s % 8);
    }
    assert(fresh.used =~= decode(o, a).fresh_page(c).used);
    assert(fresh.payload =~= decode(o, a).fresh_page(c).payload);
    assert(decode(o, b).pages =~= decode(o, a).pages.push(decode(o, a).fresh_page(c)));
}

/// A power of two has one class.
pub proof fn lemma_class_of(slot_size: int, k: nat)
    requires
        slot_size == pow2(k),
    ensures
        class_of(slot_size) == k,
{
    layout::lemma_class_injective(class_of(slot_size) as nat, k);
}

/// The class of a slot size up to the largest one has a list.
pub proof fn lemma_class_listed(k: nat)
    requires
        pow2(k) <= LARGEST_SLOT,
    ensures
        k < CLASSES,
{
    vstd::arithmetic::power2::lemma2_to64();
    if k > 31 {
        vstd::arithmetic::power2::lemma_pow2_strictly_increases(31, k);
    }
}

/// A list visits no page twice.
pub proof fn lemma_list_distinct(s: StoreView, c: int, l: Seq<int>, i: int, j: int)
    requires
        s.lists(c, l),
        0 <= i < j < l.len(),
    ensures
        l[i] != l[j],
    decreases i,
{
    assert(s.in_place(c, l, i));
    assert(s.in_place(c, l, j));
    if i > 0 {
        lemma_list_distinct(s, c, l, i - 1, j - 1);
    } else {
        assert(s.in_place(c, l, j - 1));
    }
}

/// A list is no longer than there are data pages.
pub proof fn lemma_list_len(s: StoreView, c: int, l: Seq<int>)
    requires
        s.lists(c, l),
    ensures
        l.no_duplicates(),
        l.len() < s.page_count(),
{
    assert forall|i: int, j: int| 0 <= i < l.len() && 0 <= j < l.len() && i != j implies l[i]
        != l[j] by {
        if i < j {
            lemma_list_distinct(s, c, l, i, j);
        } else {
            lemma_list_distinct(s, c, l, j, i);
        }
    }
    assert forall|i: int| 0 <= i < l.len() implies 1 <= #[trigger] l[i] < s.page_count() by {
        assert(s.in_place(c, l, i));
    }
    lemma_distinct_len(l, 1, s.page_count());
}

/// So many different numbers fit into a range.
proof fn lemma_distinct_len(l: Seq<int>, lo: int, hi: int)
    requires
        lo <= hi,
        l.no_duplicates(),
        forall|i: int| 0 <= i < l.len() ==> lo <= #[trigger] l[i] < hi,
    ensures
        l.len() <= hi - lo,
{
    let all = set_int_range(lo, hi);
    lemma_int_range(lo, hi);
    l.unique_seq_to_set();
    assert(l.to_set().subset_of(all)) by {
        assert forall|x: int| l.to_set().contains(x) implies all.contains(x) by {
            let i = choose|i: int| 0 <= i < l.len() && l[i] == x;
            assert(lo <= l[i] < hi);
        }
    }
    lemma_len_subset(l.to_set(), all);
}

/// Following the links from an entry of a list gives the rest of the list.
pub proof fn lemma_chain(s: StoreView, c: int, l: Seq<int>, i: int, limit: nat)
    requires
        s.lists(c, l),
        0 <= i <= l.len(),
        limit >= l.len() - i,
    ensures
        s.chain(entry(l, i), limit) == l.skip(i),
    decreases l.len() - i,
{
    if i < l.len() {
        assert(s.in_place(c, l, i));
        lemma_chain(s, c, l, i + 1, (limit - 1) as nat);
        assert(l.skip(i) =~= seq![l[i]] + l.skip(i + 1));
    } else {
        assert(l.skip(i) =~= Seq::empty());
    }
}

/// A class has one list, the one that following the links gives.
pub proof fn lemma_list(s: StoreView, c: int)
    requires
        s.linked(),
        0 <= c < CLASSES,
    ensures
        s.lists(c, s.list(c)),
        s.list(c).no_duplicates(),
        s.list(c).len() < s.page_count(),
{
    assert(s.has_list(c));
    let l = choose|l: Seq<int>| #[trigger] s.lists(c, l);
    lemma_only_list(s, c, l);
    lemma_list_len(s, c, l);
}

/// Whatever is the list of a class is what following the links gives.
pub proof fn lemma_only_list(s: StoreView, c: int, l: Seq<int>)
    requires
        s.lists(c, l),
    ensures
        s.list(c) == l,
{
    lemma_list_len(s, c, l);
    lemma_chain(s, c, l, 0, s.page_count() as nat);
    assert(l.skip(0) =~= l);
}

/// A change that leaves classes and links alone keeps the page lists in order.
pub proof fn lemma_same_links(s: StoreView, t: StoreView)
    requires
        s.linked(),
        t.heads == s.heads,
        t.page_size == s.page_size,
        t.pages.len() == s.pages.len(),
        forall|p: int|
            s.has_page(p) ==> {
                &&& (#[trigger] t.page(p)).class_id == s.page(p).class_id
                &&& t.page(p).previous == s.page(p).previous
                &&& t.page(p).next == s.page(p).next
            },
    ensures
        t.linked(),
        forall|c: int| 0 <= c < CLASSES ==> #[trigger] t.list(c) == s.list(c),
{
    assert forall|p: int| t.has_page(p) implies #[trigger] t.page_ok(p) by {
        assert(s.page_ok(p));
        assert(t.page(p).class_id == s.page(p).class_id);
    }
    assert forall|c: int| 0 <= c < CLASSES implies t.lists(c, s.list(c)) by {
        lemma_list(s, c);
        let l = s.list(c);
        assert forall|i: int| 0 <= i < l.len() implies #[trigger] t.in_place(c, l, i) by {
            assert(s.in_place(c, l, i));
            assert(t.page(l[i]).class_id == s.page(l[i]).class_id);
        }
        assert forall|p: int|
            t.has_page(p) && (#[trigger] t.page(p)).class_id == c implies l.contains(p) by {
            assert(s.page(p).class_id == c);
        }
    }
    assert forall|c: int| 0 <= c < CLASSES implies #[trigger] t.list(c) == s.list(c) by {
        assert(t.lists(c, s.list(c)));
        lemma_only_list(t, c, s.list(c));
    }
    assert forall|c: int| 0 <= c < CLASSES implies #[trigger] t.has_list(c) by {
        assert(t.lists(c, s.list(c)));
    }
}

/// Marking a slot keeps the page lists in order.
pub proof fn lemma_marked_linked(s: StoreView, p: int, slot: int, used: bool)
    requires
        s.linked(),
        s.has_page(p),
    ensures
        s.marked(p, slot, used).linked(),
        forall|c: int| 0 <= c < CLASSES ==> #[trigger] s.marked(p, slot, used).list(c) == s.list(c),
{
    lemma_same_links(s, s.marked(p, slot, used));
}

/// The list after page `p`, at position `i`, has been moved to its front.
pub open spec fn moved_to_front(l: Seq<int>, i: int) -> Seq<int> {
    seq![l[i]] + l.take(i) + l.skip(i + 1)
}

/// What becomes of a page when page `p` is moved to the front of its list.
pub proof fn lemma_fronted_page(s: StoreView, c: int, p: int, q: int)
    requires
        s.linked(),
        0 <= c < CLASSES,
        s.has_page(p),
        s.page(p).class_id == c,
        s.heads[c] != p,
        s.has_page(q),
    ensures
        ({
            let t = s.fronted(c, p);
            let head = s.heads[c];
            let before = s.page(p).previous;
            let after = s.page(p).next;
            &&& s.has_page(before)
            &&& s.has_page(head)
            &&& after != 0 ==> s.has_page(after)
            &&& t.page(q) == (PageView {
                next: if q == p {
                    head
                } else if q == before {
                    after
                } else {
                    s.page(q).next
                },
                previous: if q == p {
                    0
                } else if q == head {
                    p
                } else if q == after {
                    before
                } else {
                    s.page(q).previous
                },
                ..s.page(q)
            })
        }),
{
    lemma_list(s, c);
    let l = s.list(c);
    let i = choose|i: int| 0 <= i < l.len() && l[i] == p;
    assert(s.in_place(c, l, i));
    assert(s.in_place(c, l, 0));
    assert(i > 0);
    assert(s.in_place(c, l, i - 1));
    if i + 1 < l.len() {
        assert(s.in_place(c, l, i + 1));
        assert(l[i + 1] != l[0]);
        assert(l[i + 1] != l[i - 1]);
    }
    assert(l[i - 1] != l[i]);
}

/// Moving a page to the front of its list keeps the page lists in order: the
/// page comes first, and all others keep their order.
pub proof fn lemma_fronted_linked(s: StoreView, c: int, p: int)
    requires
        s.linked(),
        0 <= c < CLASSES,
        s.has_page(p),
        s.page(p).class_id == c,
    ensures
        s.fronted(c, p).linked(),
        s.list(c).contains(p),
        s.fronted(c, p).list(c) == moved_to_front(s.list(c), s.list(c).index_of(p)),
        forall|d: int|
            0 <= d < CLASSES && d != c ==> #[trigger] s.fronted(c, p).list(d) == s.list(d),
        forall|q: int|
            s.has_page(q) ==> {
                &&& (#[trigger] s.fronted(c, p).page(q)).class_id == s.page(q).class_id
                &&& s.fronted(c, p).page(q).used == s.page(q).used
                &&& s.fronted(c, p).page(q).payload == s.page(q).payload
            },
        s.fronted(c, p).pages.len() == s.pages.len(),
{
    let t = s.fronted(c, p);
    lemma_list(s, c);
    let l = s.list(c);
    let i = l.index_of(p);
    assert(l.contains(p));
    assert(l[i] == p);
    let m = moved_to_front(l, i);
    if s.heads[c] == p {
        assert(l.len() > 0);
        assert(i == 0) by {
            assert(l[0] == p);
        }
        assert(m =~= l);
    } else {
        assert(s.in_place(c, l, i));
        assert(i > 0);
        assert(m.len() == l.len());
        lemma_fronted_page(s, c, p, p);
        assert(t.pages.len() == s.pages.len());
        assert forall|q: int| s.has_page(q) implies (#[trigger] t.page(q)).class_id == s.page(
            q,
        ).class_id && t.page(q).used == s.page(q).used && t.page(q).payload == s.page(q).payload by {
            lemma_fronted_page(s, c, p, q);
        }
        assert forall|q: int| t.has_page(q) implies #[trigger] t.page_ok(q) by {
            assert(s.page_ok(q));
            assert(t.page(q).class_id == s.page(q).class_id);
        }
        assert forall|k: int| 0 <= k < m.len() implies #[trigger] t.in_place(c, m, k) by {
            let at = if k == 0 {
                i
            } else if k <= i {
                k - 1
            } else {
                k
            };
            assert(m[k] == l[at]);
            assert(s.in_place(c, l, at));
            assert(s.in_place(c, l, i - 1));
            assert(s.in_place(c, l, 0));
            lemma_fronted_page(s, c, p, l[at]);
            assert(s.page(p).previous == l[i - 1]);
            assert(s.page(p).next == entry(l, i + 1));
            if k > 0 {
                assert(m[k - 1] == if k - 1 == 0 {
                    l[i]
                } else if k - 1 <= i {
                    l[k - 2]
                } else {
                    l[k - 1]
                });
            }
            if k + 1 < m.len() {
                assert(m[k + 1] == if k + 1 <= i {
                    l[k]
                } else {
                    l[k + 1]
                });
            }
        }
        assert forall|q: int|
            t.has_page(q) && (#[trigger] t.page(q)).class_id == c implies m.contains(q) by {
            assert(s.page(q).class_id == c);
            let at = choose|at: int| 0 <= at < l.len() && l[at] == q;
            let k = if at == i {
                0
            } else if at < i {
                at + 1
            } else {
                at
            };
            assert(m[k] == l[at]);
        }
        assert(t.lists(c, m));
        lemma_only_list(t, c, m);
        assert forall|d: int| 0 <= d < CLASSES && d != c implies t.lists(d, s.list(d)) by {
            lemma_list(s, d);
            let o = s.list(d);
            assert forall|k: int| 0 <= k < o.len() implies #[trigger] t.in_place(d, o, k) by {
                assert(s.in_place(d, o, k));
                lemma_fronted_page(s, c, p, o[k]);
                assert(s.in_place(c, l, i - 1));
                assert(s.in_place(c, l, 0));
                if i + 1 < l.len() {
                    assert(s.in_place(c, l, i + 1));
                }
            }
            assert forall|q: int|
                t.has_page(q) && (#[trigger] t.page(q)).class_id == d implies o.contains(q) by {
                assert(s.page(q).class_id == d);
            }
        }
        assert forall|d: int| 0 <= d < CLASSES && d != c implies #[trigger] t.list(d) == s.list(
            d,
        ) by {
            assert(t.lists(d, s.list(d)));
            lemma_only_list(t, d, s.list(d));
        }
        assert forall|d: int| 0 <= d < CLASSES implies #[trigger] t.has_list(d) by {
            if d != c {
                assert(t.lists(d, s.list(d)));
            }
        }
    }
}

/// Which pages of a class there are below a page.
pub proof fn lemma_pages_below(s: StoreView, c: int, p: int)
    requires
        1 <= p <= s.page_count(),
    ensures
        forall|q: int| #[trigger]
            s.pages_below(c, p).contains(q) <==> 1 <= q < p && s.page(q).class_id == c,
        s.pages_below(c, p).no_duplicates(),
    decreases p,
{
    let l = s.pages_below(c, p);
    if p > 1 {
        lemma_pages_below(s, c, p - 1);
        let rest = s.pages_below(c, p - 1);
        assert forall|i: int| 0 <= i < rest.len() implies 1 <= #[trigger] rest[i] < p - 1 by {
            assert(rest.contains(rest[i]));
        }
        if s.page(p - 1).class_id == c {
            assert(l == seq![p - 1] + rest);
            assert forall|q: int| #[trigger] l.contains(q) <==> 1 <= q < p && s.page(q).class_id
                == c by {
                if l.contains(q) {
                    let i = choose|i: int| 0 <= i < l.len() && l[i] == q;
                    if i > 0 {
                        assert(rest[i - 1] == q);
                        assert(rest.contains(q));
                    }
                }
                if q == p - 1 {
                    assert(l[0] == q);
                } else if rest.contains(q) {
                    let i = choose|i: int| 0 <= i < rest.len() && rest[i] == q;
                    assert(l[i + 1] == q);
                }
            }
        }
    }
}

/// Putting the next page in front of the list of its class leaves the lists of
/// all pages up to this one.
pub proof fn lemma_prepended(s: StoreView, a: StoreView, p: int)
    requires
        s.pages_ok(),
        s.has_page(p),
        a.lists_below(s, p),
    ensures
        a.prepended(s.page(p).class_id, p).lists_below(s, p + 1),
        a.heads[s.page(p).class_id] == 0 || a.has_page(a.heads[s.page(p).class_id]),
{
    let c = s.page(p).class_id;
    assert(s.page_ok(p));
    let b = a.prepended(c, p);
    let head = a.heads[c];
    let l = s.pages_below(c, p);
    let m = s.pages_below(c, p + 1);
    assert(m == seq![p] + l);
    lemma_pages_below(s, c, p);
    if l.len() > 0 {
        assert(a.in_place(c, l, 0));
        assert(l.contains(l[0]));
    }
    assert forall|q: int| s.has_page(q) implies #[trigger] b.page(q) == (PageView {
        previous: if q == p {
            0
        } else if q == head {
            p
        } else {
            a.page(q).previous
        },
        next: if q == p {
            head
        } else {
            a.page(q).next
        },
        ..a.page(q)
    }) by {}
    assert forall|d: int| 0 <= d < CLASSES implies #[trigger] b.heads[d] == entry(
        s.pages_below(d, p + 1),
        0,
    ) by {
        assert(a.heads[d] == entry(s.pages_below(d, p), 0));
    }
    assert forall|d: int, i: int|
        0 <= d < CLASSES && 0 <= i < s.pages_below(d, p + 1).len() implies #[trigger] b.in_place(
        d,
        s.pages_below(d, p + 1),
        i,
    ) by {
        if d == c {
            if i > 0 {
                assert(m[i] == l[i - 1]);
                assert(a.in_place(c, l, i - 1));
                assert(l.contains(l[i - 1]));
                assert(entry(m, i + 1) == entry(l, i));
                assert(m[i - 1] == if i == 1 {
                    p
                } else {
                    l[i - 2]
                });
                if i > 1 {
                    assert(l[i - 1] != l[0]);
                }
            } else {
                assert(entry(m, 1) == entry(l, 0));
            }
        } else {
            let o = s.pages_below(d, p);
            assert(a.in_place(d, o, i));
            lemma_pages_below(s, d, p);
            assert(o.contains(o[i]));
        }
    }
}

/// Once the lists hold all pages, they are in order.
pub proof fn lemma_all_listed(s: StoreView, a: StoreView)
    requires
        s.pages_ok(),
        a.lists_below(s, s.page_count()),
    ensures
        a.linked(),
        forall|c: int|
            0 <= c < CLASSES ==> #[trigger] a.list(c) == s.pages_below(c, s.page_count()),
{
    assert forall|p: int| a.has_page(p) implies #[trigger] a.page_ok(p) by {
        assert(s.page_ok(p));
        assert(a.page(p).class_id == s.page(p).class_id);
    }
    assert forall|c: int| 0 <= c < CLASSES implies a.lists(
        c,
        s.pages_below(c, s.page_count()),
    ) by {
        let l = s.pages_below(c, s.page_count());
        lemma_pages_below(s, c, s.page_count());
        assert(a.heads[c] == entry(l, 0));
        assert forall|p: int|
            a.has_page(p) && (#[trigger] a.page(p)).class_id == c implies l.contains(p) by {
            assert(a.page(p).class_id == s.page(p).class_id);
        }
    }
    assert forall|c: int| 0 <= c < CLASSES implies #[trigger] a.has_list(c) by {
        assert(a.lists(c, s.pages_below(c, s.page_count())));
    }
    assert forall|c: int| 0 <= c < CLASSES implies #[trigger] a.list(c) == s.pages_below(
        c,
        s.page_count(),
    ) by {
        assert(a.lists(c, s.pages_below(c, s.page_count())));
        lemma_only_list(a, c, s.pages_below(c, s.page_count()));
    }
}

/// Adding a page keeps the page lists in order: it comes first in the list of
/// its class.
pub proof fn lemma_grown_linked(s: StoreView, c: int)
    requires
        s.linked(),
        0 <= c < CLASSES,
        layout::class_fits(s.page_size, c),
    ensures
        s.grown(c).linked(),
        s.grown(c).page_count() == s.page_count() + 1,
        s.grown(c).page(s.page_count()) == s.fresh_page(c),
        s.grown(c).list(c) == seq![s.page_count()] + s.list(c),
{
    let t = s.grown(c);
    let n = s.page_count();
    lemma_list(s, c);
    let l = s.list(c);
    let m = seq![n] + l;
    if l.len() > 0 {
        assert(s.in_place(c, l, 0));
    }
    assert forall|q: int| s.has_page(q) implies #[trigger] t.page(q) == (PageView {
        previous: if q == s.heads[c] {
            n
        } else {
            s.page(q).previous
        },
        ..s.page(q)
    }) by {}
    assert forall|q: int| t.has_page(q) implies #[trigger] t.page_ok(q) by {
        if q < n {
            assert(s.page_ok(q));
            assert(t.page(q).class_id == s.page(q).class_id);
        }
    }
    assert forall|k: int| 0 <= k < m.len() implies #[trigger] t.in_place(c, m, k) by {
        if k > 0 {
            assert(m[k] == l[k - 1]);
            assert(s.in_place(c, l, k - 1));
            assert(t.page(l[k - 1]).next == s.page(l[k - 1]).next);
            assert(entry(m, k + 1) == entry(l, k));
            assert(m[k - 1] == if k == 1 {
                n
            } else {
                l[k - 2]
            });
            if k > 1 {
                assert(l[k - 1] != l[0]);
            }
        } else {
            assert(entry(m, 1) == entry(l, 0));
        }
    }
    assert forall|q: int|
        t.has_page(q) && (#[trigger] t.page(q)).class_id == c implies m.contains(q) by {
        if q == n {
            assert(m[0] == n);
        } else {
            assert(s.page(q).class_id == c);
            let at = choose|at: int| 0 <= at < l.len() && l[at] == q;
            assert(m[at + 1] == q);
        }
    }
    assert(t.lists(c, m));
    lemma_only_list(t, c, m);
    assert forall|d: int| 0 <= d < CLASSES && d != c implies t.lists(d, s.list(d)) by {
        lemma_list(s, d);
        let o = s.list(d);
        assert forall|k: int| 0 <= k < o.len() implies #[trigger] t.in_place(d, o, k) by {
            assert(s.in_place(d, o, k));
            assert(t.page(o[k]).class_id == s.page(o[k]).class_id);
        }
        assert forall|q: int|
            t.has_page(q) && (#[trigger] t.page(q)).class_id == d implies o.contains(q) by {
            assert(s.page(q).class_id == d);
        }
    }
    assert forall|d: int| 0 <= d < CLASSES implies #[trigger] t.has_list(d) by {
        if d != c {
            assert(t.lists(d, s.list(d)));
        }
    }
}

/// A slot lies inside its page, behind the header and the bitmap, at a multiple
/// of its size.
pub proof fn lemma_slot_inside(s: StoreView, p: int, slot: int)
    requires
        s.page_size <= usize::MAX,
        layout::class_fits(s.page_size, s.page(p).class_id),
        num::power_of_two(s.page_size),
        s.has_page(p),
        0 <= slot < layout::layout_of(s.page_size, s.page(p).class_id).slot_count,
    ensures
        ({
            let l = layout::layout_of(s.page_size, s.page(p).class_id);
            &&& l.payload_off + slot * l.slot_size + l.slot_size <= s.page_size
            &&& 0 <= slot * l.slot_size
            &&& p * s.page_size + HEADER_BYTES + l.bitmap_bytes <= s.slot_start(p, slot)
            &&& s.slot_start(p, slot) + l.slot_size <= p * s.page_size + s.page_size
            &&& s.slot_start(p, slot) % l.slot_size as int == 0
        }),
{
    let ps = s.page_size;
    let c = s.page(p).class_id;
    layout::lemma_layout(ps, c);
    let l = layout::layout_of(ps, c);
    let size = l.slot_size as int;
    assert((slot + 1) * size == slot * size + size) by (nonlinear_arith);
    assert((slot + 1) * size <= l.slot_count * size) by (nonlinear_arith)
        requires
            slot + 1 <= l.slot_count,
            size > 0,
    ;
    lemma_mul_nonnegative(slot, size);
    // The slot size is a smaller power of two than the page size, so it
    // divides every page offset.
    let k = choose|k: nat| ps == #[trigger] pow2(k);
    assert(c < k) by {
        if c > k {
            lemma_pow2_strictly_increases(k, c as nat);
        }
    }
    lemma_pow2_adds((k - c) as nat, c as nat);
    let q = pow2((k - c) as nat) as int;
    assert(p * ps == (p * q) * size) by (nonlinear_arith)
        requires
            ps == q * size,
    ;
    lemma_mod_multiples_basic(p * q, size);
    lemma_mod_multiples_basic(slot, size);
    lemma_small_mod(0, size as nat);
    lemma_add_mod_noop(p * ps, l.payload_off as int, size);
    lemma_add_mod_noop(p * ps + l.payload_off, slot * size, size);
}

/// Where the bytes of a slot stand.
pub proof fn lemma_slot_of_image(o: ByteOrder, b: Seq<u8>, p: int, slot: int)
    requires
        b.len() <= usize::MAX,
        shaped(o, b),
        decode(o, b).has_page(p),
        layout::class_fits(decode(o, b).page_size, decode(o, b).page(p).class_id),
        0 <= slot < decode(o, b).page(p).used.len(),
    ensures
        ({
            let s = decode(o, b);
            let size = layout::layout_of(s.page_size, s.page(p).class_id).slot_size;
            &&& s.slot_start(p, slot) + size <= b.len()
            &&& s.slot_bytes(p, slot) == b.subrange(
                s.slot_start(p, slot),
                s.slot_start(p, slot) + size,
            )
        }),
{
    let s = decode(o, b);
    lemma_page_count(o, b);
    lemma_page_range(b.len() as int, s.page_size, p);
    layout::lemma_layout(s.page_size, s.page(p).class_id);
    let l = layout::layout_of(s.page_size, s.page(p).class_id);
    lemma_slot_inside(s, p, slot);
    let start = s.slot_start(p, slot);
    assert(s.slot_bytes(p, slot) =~= b.subrange(start, start + l.slot_size));
}

/// Writing into a slot changes the bytes of this slot and nothing else.
pub proof fn lemma_slot_written(o: ByteOrder, b: Seq<u8>, p: int, slot: int, new: Seq<u8>)
    requires
        b.len() <= usize::MAX,
        shaped(o, b),
        decode(o, b).linked(),
        decode(o, b).has_page(p),
        0 <= slot < decode(o, b).page(p).used.len(),
        new.len() == layout::layout_of(
            decode(o, b).page_size,
            decode(o, b).page(p).class_id,
        ).slot_size,
    ensures
        ({
            let start = decode(o, b).slot_start(p, slot);
            let after = image::spliced(b, start, new.len() as int, new);
            &&& shaped(o, after)
            &&& decode(o, after) == decode(o, b).written(p, slot, new)
            &&& decode(o, after).linked()
        }),
{
    let s = decode(o, b);
    let ps = s.page_size;
    let c = s.page(p).class_id;
    assert(s.page_ok(p));
    lemma_page_count(o, b);
    lemma_page_range(b.len() as int, ps, p);
    layout::lemma_layout(ps, c);
    let l = layout::layout_of(ps, c);
    lemma_slot_inside(s, p, slot);
    lemma_slot_of_image(o, b, p, slot);
    let start = s.slot_start(p, slot);
    let after = image::spliced(b, start, new.len() as int, new);
    let base = p * ps;
    assert(image::agree(b, after, 0, start));
    assert(image::agree(b, after, start + new.len(), b.len() as int));
    lemma_other_pages_agree(o, b, after, p);
    image::lemma_word_agrees(o, b, after, base);
    image::lemma_word_agrees(o, b, after, base + NEXT_OFF);
    image::lemma_half_agrees(o, b, after, base + CLASS_OFF);
    assert(b.subrange(base + HEADER_BYTES, base + HEADER_BYTES + l.bitmap_bytes)
        =~= after.subrange(base + HEADER_BYTES, base + HEADER_BYTES + l.bitmap_bytes));
    assert(decode_page(o, after, ps, p).used =~= s.page(p).used);
    assert(decode_page(o, after, ps, p).payload =~= image::patch(
        s.page(p).payload,
        slot * l.slot_size,
        new,
    ));
    assert(decode(o, after).pages =~= s.written(p, slot, new).pages);
    lemma_same_links(s, decode(o, after));
}

} // verus!
