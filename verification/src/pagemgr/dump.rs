//! A readable picture of a whole store.

use super::bitmap;
use super::image;
use super::layout;
use super::layout::{PageLayout, HEADER_BYTES};
use super::manager::{PageId, PageManager};
use super::store;
use super::store::{PageView, StoreView, CLASSES};
use super::text;
use crate::order;
use vstd::arithmetic::mul::*;
use vstd::arithmetic::power2::*;
use vstd::bits::*;
use vstd::prelude::*;
use vstd::string::*;

verus! {

/// A label, a number and the end of the line.
pub open spec fn number_line(label: Seq<char>, n: int) -> Seq<char> {
    label + text::decimal(n as nat) + "\n"@
}

/// The numbers of the pages in a dirty list.
pub open spec fn ids(dirty: Seq<PageId>) -> Seq<int> {
    dirty.map_values(|p: PageId| p.0 as int)
}

/// The lines about the store as a whole.
pub open spec fn summary_text(s: StoreView, dirty: Seq<PageId>) -> Seq<char> {
    number_line("page_count: "@, s.page_count()) + number_line("page_size: "@, s.page_size)
        + "dirty: "@ + text::list(ids(dirty).sort()) + "\n"@ + number_line(
        "dirties_before_flush: "@,
        s.threshold,
    )
}

/// The line about one page list.
pub open spec fn list_text(s: StoreView, c: int) -> Seq<char> {
    "  class "@ + text::decimal(c as nat) + " ("@ + text::decimal(pow2(c as nat)) + "B): "@
        + text::list(s.chain(s.heads[c], (s.page_count() + 1) as nat)) + "\n"@
}

/// The lines about the first `n` page lists; empty lists have none.
pub open spec fn lists_text(s: StoreView, n: nat) -> Seq<char>
    decreases n,
{
    if n == 0 {
        Seq::empty()
    } else if s.heads[n - 1] == 0 {
        lists_text(s, (n - 1) as nat)
    } else {
        lists_text(s, (n - 1) as nat) + list_text(s, n - 1)
    }
}

/// Whether all page lists are empty.
pub open spec fn no_lists(s: StoreView) -> bool {
    forall|c: int| 0 <= c < CLASSES ==> #[trigger] s.heads[c] == 0
}

/// The section about the page lists.
pub open spec fn all_lists_text(s: StoreView) -> Seq<char> {
    "free_lists:\n"@ + if no_lists(s) {
        "  (none)\n"@
    } else {
        lists_text(s, CLASSES as nat)
    }
}

/// The slots in use among the first `n`, in order.
pub open spec fn occupied(used: Seq<bool>, n: nat) -> Seq<int>
    decreases n,
{
    if n == 0 {
        Seq::empty()
    } else if used[n - 1] {
        occupied(used, (n - 1) as nat).push(n - 1)
    } else {
        occupied(used, (n - 1) as nat)
    }
}

/// The line about one slot.
pub open spec fn slot_line(s: StoreView, p: int, slot: int) -> Seq<char> {
    "slot["@ + text::decimal(slot as nat) + "]: "@ + text::slot_text(s.slot_bytes(p, slot))
        + "\n"@
}

/// The lines about the first `n` of some slots.
pub open spec fn slot_lines(s: StoreView, p: int, slots: Seq<int>, n: nat) -> Seq<char>
    decreases n,
{
    if n == 0 {
        Seq::empty()
    } else {
        slot_lines(s, p, slots, (n - 1) as nat) + slot_line(s, p, slots[n - 1])
    }
}

/// The part of a title that gives the geometry of the page.
pub open spec fn geometry_text(l: PageLayout) -> Seq<char> {
    ", slot_size="@ + text::decimal(l.slot_size as nat) + ", slots="@ + text::decimal(
        l.slot_count as nat,
    ) + ", bitmap_bytes="@ + text::decimal(l.bitmap_bytes as nat) + ") ===\n"@
}

/// The title of a data page, up to its class.
pub open spec fn page_title(p: int, c: int) -> Seq<char> {
    "\n=== page "@ + text::decimal(p as nat) + " (data, class="@ + text::decimal(c as nat)
}

/// The line about the links of a page.
pub open spec fn links_line(previous: int, next: int) -> Seq<char> {
    "prev: "@ + text::decimal(previous as nat) + "  next: "@ + text::decimal(next as nat) + "\n"@
}

/// The line about the slots in use.
pub open spec fn occupied_line(slots: Seq<int>) -> Seq<char> {
    "occupied_slots: "@ + text::list(slots) + "\n"@
}

/// The section about a data page.
pub open spec fn page_text(s: StoreView, p: int) -> Seq<char> {
    let page = s.page(p);
    let c = page.class_id;
    let slots = occupied(page.used, page.used.len());
    if layout::class_fits(s.page_size, c) {
        page_title(p, c) + geometry_text(layout::layout_of(s.page_size, c)) + links_line(
            page.previous,
            page.next,
        ) + occupied_line(slots) + slot_lines(s, p, slots, slots.len())
    } else {
        page_title(p, c) + ", invalid layout) ===\n"@
    }
}

/// The sections about the data pages below page `n`.
pub open spec fn pages_text(s: StoreView, n: nat) -> Seq<char>
    decreases n,
{
    if n <= 1 {
        Seq::empty()
    } else {
        pages_text(s, (n - 1) as nat) + page_text(s, n - 1)
    }
}

/// The whole picture: the store, its page lists, and every page.
pub open spec fn dump_text(s: StoreView, dirty: Seq<PageId>) -> Seq<char> {
    summary_text(s, dirty) + all_lists_text(s) + "\n=== page 0 (metadata) ===\n"@ + number_line(
        "dirties_before_flush: "@,
        s.threshold,
    ) + pages_text(s, s.page_count() as nat)
}

fn push_number_line(out: &mut String, label: &str, n: u64)
    ensures
        final(out)@ == old(out)@ + number_line(label@, n as int),
{
    out.append(label);
    text::push_decimal(out, n);
    out.append("\n");
    assert(out@ =~= old(out)@ + number_line(label@, n as int));
}

fn push_page_title(out: &mut String, p: u64, c: u64)
    ensures
        final(out)@ == old(out)@ + page_title(p as int, c as int),
{
    out.append("\n=== page ");
    text::push_decimal(out, p);
    out.append(" (data, class=");
    text::push_decimal(out, c);
    assert(out@ =~= old(out)@ + page_title(p as int, c as int));
}

fn push_geometry(out: &mut String, l: &PageLayout)
    ensures
        final(out)@ == old(out)@ + geometry_text(*l),
{
    out.append(", slot_size=");
    text::push_decimal(out, l.slot_size as u64);
    out.append(", slots=");
    text::push_decimal(out, l.slot_count as u64);
    out.append(", bitmap_bytes=");
    text::push_decimal(out, l.bitmap_bytes as u64);
    out.append(") ===\n");
    assert(out@ =~= old(out)@ + geometry_text(*l));
}

fn push_links_line(out: &mut String, previous: u64, next: u64)
    ensures
        final(out)@ == old(out)@ + links_line(previous as int, next as int),
{
    out.append("prev: ");
    text::push_decimal(out, previous);
    out.append("  next: ");
    text::push_decimal(out, next);
    out.append("\n");
    assert(out@ =~= old(out)@ + links_line(previous as int, next as int));
}

fn push_occupied_line(out: &mut String, slots: &Vec<u64>)
    ensures
        final(out)@ == old(out)@ + occupied_line(order::ints(slots@)),
{
    out.append("occupied_slots: ");
    text::push_list(out, slots);
    out.append("\n");
    assert(out@ =~= old(out)@ + occupied_line(order::ints(slots@)));
}

impl PageManager {
    fn sorted_dirty(&self) -> (r: Vec<u64>)
        ensures
            order::ints(r@) == ids(self.dirty@).sort(),
    {
        let mut words: Vec<u64> = Vec::new();
        let mut i: usize = 0;
        while i < self.dirty.len()
            invariant
                i <= self.dirty@.len(),
                words@.len() == i,
                forall|j: int| 0 <= j < i ==> words@[j] == (#[trigger] self.dirty@[j]).0,
            decreases self.dirty@.len() - i,
        {
            words.push(self.dirty[i].0 as u64);
            i = i + 1;
        }
        assert(order::ints(words@) =~= ids(self.dirty@));
        order::sorted(&words)
    }

    fn push_summary(&self, out: &mut String)
        requires
            store::shaped(self.order, self.image@),
        ensures
            final(out)@ == old(out)@ + summary_text(self@, self.dirty@),
    {
        push_number_line(out, "page_count: ", self.page_count() as u64);
        push_number_line(out, "page_size: ", self.page_size() as u64);
        out.append("dirty: ");
        let dirty = self.sorted_dirty();
        text::push_list(out, &dirty);
        out.append("\n");
        push_number_line(out, "dirties_before_flush: ", self.stored_threshold());
        assert(out@ =~= old(out)@ + summary_text(self@, self.dirty@));
    }

    fn push_list_line(&self, out: &mut String, class: usize, head: usize)
        requires
            store::shaped(self.order, self.image@),
            self@.walkable(),
            class < CLASSES,
            head == self@.heads[class as int],
        ensures
            final(out)@ == old(out)@ + list_text(self@, class as int),
    {
        let chain: Vec<u64> = self.page_chain(head);
        out.append("  class ");
        text::push_decimal(out, class as u64);
        out.append(" (");
        proof {
            lemma_pow2_strictly_increases(class as nat, 32);
            lemma2_to64();
            lemma_u64_shl_is_mul(1, class as u64);
            lemma_mul_basics(pow2(class as nat) as int);
        }
        text::push_decimal(out, 1u64 << (class as u64));
        out.append("B): ");
        text::push_list(out, &chain);
        out.append("\n");
        assert(out@ =~= old(out)@ + list_text(self@, class as int));
    }

    fn push_lists(&self, out: &mut String)
        requires
            store::shaped(self.order, self.image@),
            self@.walkable(),
        ensures
            final(out)@ == old(out)@ + all_lists_text(self@),
    {
        out.append("free_lists:\n");
        let ghost start = out@;
        let mut any_list: bool = false;
        let mut class: usize = 0;
        let count: usize = self.page_count();
        assert(start =~= start + lists_text(self@, 0));
        while class < CLASSES
            invariant
                store::shaped(self.order, self.image@),
                self@.walkable(),
                count == self@.page_count(),
                class <= CLASSES,
                out@ == start + lists_text(self@, class as nat),
                any_list <==> exists|c: int| 0 <= c < class && #[trigger] self@.heads[c] != 0,
                !any_list ==> out@ == start,
            decreases CLASSES - class,
        {
            let head: u64 = self.stored_head(class);
            assert(self@.is_link(self@.heads[class as int]));
            if head != 0 {
                any_list = true;
                self.push_list_line(out, class, head as usize);
            }
            proof {
                assert(out@ =~= start + lists_text(self@, (class + 1) as nat));
            }
            class = class + 1;
        }
        if !any_list {
            out.append("  (none)\n");
        }
        assert(out@ =~= old(out)@ + all_lists_text(self@));
    }

    fn occupied_slots(&self, page: PageId, layout: &PageLayout) -> (r: Vec<u64>)
        requires
            store::shaped(self.order, self.image@),
            self@.has_page(page.0 as int),
            layout::class_fits(self@.page_size, self@.page(page.0 as int).class_id),
            *layout == layout::layout_of(self@.page_size, self@.page(page.0 as int).class_id),
        ensures
            order::ints(r@) == occupied(
                self@.page(page.0 as int).used,
                self@.page(page.0 as int).used.len(),
            ),
            forall|i: int| 0 <= i < r@.len() ==> #[trigger] r@[i] < layout.slot_count,
    {
        let base: usize = self.page_byte_offset(page);
        let ghost view = self@.page(page.0 as int);
        proof {
            layout::lemma_layout(self@.page_size, view.class_id);
            lemma_mul_nonnegative(layout.slot_count as int, layout.slot_size as int);
        }
        let bits: &[u8] = image::window(&self.image, base + HEADER_BYTES, layout.bitmap_bytes);
        let mut r: Vec<u64> = Vec::new();
        let mut i: usize = 0;
        assert(order::ints(r@) =~= occupied(view.used, 0));
        while i < layout.slot_count
            invariant
                i <= layout.slot_count,
                layout.slot_count <= 8 * layout.bitmap_bytes,
                bits@.len() == layout.bitmap_bytes,
                view.used.len() == layout.slot_count,
                forall|s: int|
                    0 <= s < layout.slot_count ==> #[trigger] view.used[s] == bitmap::bit(bits@, s),
                order::ints(r@) == occupied(view.used, i as nat),
                forall|j: int| 0 <= j < r@.len() ==> #[trigger] r@[j] < i,
            decreases layout.slot_count - i,
        {
            let ghost before = r@;
            if bitmap::bit_is_set(bits, i) {
                r.push(i as u64);
                assert(order::ints(r@) =~= order::ints(before).push(i as int));
            }
            assert(view.used[i as int] == bitmap::bit(bits@, i as int));
            i = i + 1;
        }
        r
    }

    fn push_slot_lines(&self, out: &mut String, page: PageId, layout: &PageLayout, slots: &Vec<u64>)
        requires
            store::shaped(self.order, self.image@),
            self@.has_page(page.0 as int),
            layout::class_fits(self@.page_size, self@.page(page.0 as int).class_id),
            *layout == layout::layout_of(self@.page_size, self@.page(page.0 as int).class_id),
            forall|i: int| 0 <= i < slots@.len() ==> #[trigger] slots@[i] < layout.slot_count,
        ensures
            final(out)@ == old(out)@ + slot_lines(
                self@,
                page.0 as int,
                order::ints(slots@),
                slots@.len(),
            ),
    {
        let base: usize = self.page_byte_offset(page);
        let ghost p = page.0 as int;
        let ghost all = order::ints(slots@);
        proof {
            layout::lemma_layout(self@.page_size, self@.page(p).class_id);
        }
        let mut i: usize = 0;
        assert(out@ =~= old(out)@ + slot_lines(self@, p, all, 0));
        while i < slots.len()
            invariant
                store::shaped(self.order, self.image@),
                self@.has_page(p),
                p == page.0,
                base == p * self@.page_size,
                base + self@.page_size <= self.image@.len() <= usize::MAX,
                layout::class_fits(self@.page_size, self@.page(p).class_id),
                *layout == layout::layout_of(self@.page_size, self@.page(p).class_id),
                forall|k: int| 0 <= k < slots@.len() ==> #[trigger] slots@[k] < layout.slot_count,
                all == order::ints(slots@),
                i <= slots@.len(),
                out@ == old(out)@ + slot_lines(self@, p, all, i as nat),
            decreases slots@.len() - i,
        {
            let slot: usize = slots[i] as usize;
            proof {
                store::lemma_slot_inside(self@, p, slot as int);
                store::lemma_slot_of_image(self.order, self.image@, p, slot as int);
            }
            let start: usize = base + layout.payload_off + slot * layout.slot_size;
            let bytes: &[u8] = image::window(&self.image, start, layout.slot_size);
            let shown: String = text::format_slot_bytes(bytes);
            out.append("slot[");
            text::push_decimal(out, slot as u64);
            out.append("]: ");
            out.append(shown.as_str());
            out.append("\n");
            proof {
                assert(all[i as int] == slot);
                assert(out@ =~= old(out)@ + slot_lines(self@, p, all, (i + 1) as nat));
            }
            i = i + 1;
        }
    }

    fn push_page(&self, out: &mut String, page: PageId)
        requires
            store::shaped(self.order, self.image@),
            self@.has_page(page.0 as int),
        ensures
            final(out)@ == old(out)@ + page_text(self@, page.0 as int),
    {
        let ghost p = page.0 as int;
        let ghost before = out@;
        let class: u32 = self.stored_class(page);
        push_page_title(out, page.0 as u64, class as u64);
        match layout::page_layout(self.page_size(), class as usize) {
            None => {
                out.append(", invalid layout) ===\n");
                assert(out@ =~= before + page_text(self@, p));
            },
            Some(layout) => {
                push_geometry(out, &layout);
                push_links_line(out, self.stored_previous(page), self.stored_next(page));
                let slots: Vec<u64> = self.occupied_slots(page, &layout);
                push_occupied_line(out, &slots);
                self.push_slot_lines(out, page, &layout, &slots);
                assert(out@ =~= before + page_text(self@, p));
            },
        }
    }

    /// Human-readable dump of metadata, free lists, dirty set, and every page.
    #[must_use]
    pub fn debug_dump(&self) -> (r: String)
        requires
            store::shaped(self.order, self.image@),
            self@.walkable(),
        ensures
            r@ == dump_text(self@, self.dirty@),
    {
        let mut out: String = String::new();
        self.push_summary(&mut out);
        self.push_lists(&mut out);
        out.append("\n=== page 0 (metadata) ===\n");
        push_number_line(&mut out, "dirties_before_flush: ", self.stored_threshold());
        let ghost start = out@;
        let count: usize = self.page_count();
        let mut pid: usize = 1;
        proof {
            store::lemma_page_count(self.order, self.image@);
            assert(start =~= start + pages_text(self@, 1));
        }
        while pid < count
            invariant
                store::shaped(self.order, self.image@),
                count == self@.page_count(),
                1 <= pid <= count,
                out@ == start + pages_text(self@, pid as nat),
            decreases count - pid,
        {
            self.push_page(&mut out, PageId(pid));
            assert(out@ =~= start + pages_text(self@, (pid + 1) as nat));
            pid = pid + 1;
        }
        assert(out@ =~= dump_text(self@, self.dirty@));
        out
    }
}

/// Whether a text holds another one as a part.
pub open spec fn shows(text: Seq<char>, part: Seq<char>) -> bool {
    exists|k: int|
        0 <= k && k + part.len() <= text.len() && #[trigger] text.subrange(k, k + part.len())
            == part
}

/// What stands between two texts is shown.
proof fn lemma_shows(a: Seq<char>, part: Seq<char>, b: Seq<char>)
    ensures
        shows(a + part + b, part),
{
    let all = a + part + b;
    let n = part.len() as int;
    assert(all.subrange(a.len() as int, a.len() + n) =~= part);
}

/// What a part shows, the whole shows.
proof fn lemma_shows_inside(a: Seq<char>, mid: Seq<char>, b: Seq<char>, part: Seq<char>)
    requires
        shows(mid, part),
    ensures
        shows(a + mid + b, part),
{
    let n = part.len() as int;
    let k = choose|k: int|
        0 <= k && k + part.len() <= mid.len() && #[trigger] mid.subrange(k, k + part.len()) == part;
    let all = a + mid + b;
    assert(all.subrange(a.len() + k, a.len() + k + n) =~= part);
}

/// A dump says how many pages the store has, how large they are, which of them
/// are dirty in ascending order, and when a flush is due.
#[verifier::spinoff_prover]
#[verifier::rlimit(40)]
pub proof fn dump_tells_of_the_store(s: StoreView, dirty: Seq<PageId>)
    ensures
        shows(
            dump_text(s, dirty),
            "page_count: "@ + text::decimal(s.page_count() as nat) + "\n"@,
        ),
        shows(
            dump_text(s, dirty),
            "page_size: "@ + text::decimal(s.page_size as nat) + "\n"@,
        ),
        shows(
            dump_text(s, dirty),
            "dirty: "@ + text::list(dirty.map_values(|p: PageId| p.0 as int).sort()) + "\n"@,
        ),
        shows(
            dump_text(s, dirty),
            "dirties_before_flush: "@ + text::decimal(s.threshold as nat) + "\n"@,
        ),
        dump_text(s, dirty).take(
            ("page_count: "@ + text::decimal(s.page_count() as nat) + "\n"@).len() as int,
        ) == "page_count: "@ + text::decimal(s.page_count() as nat) + "\n"@,
{
    let all = dump_text(s, dirty);
    let none = Seq::<char>::empty();
    let a = "page_count: "@ + text::decimal(s.page_count() as nat) + "\n"@;
    let b = "page_size: "@ + text::decimal(s.page_size as nat) + "\n"@;
    let c = "dirty: "@ + text::list(ids(dirty).sort()) + "\n"@;
    let d = "dirties_before_flush: "@ + text::decimal(s.threshold as nat) + "\n"@;
    let rest = all_lists_text(s) + "\n=== page 0 (metadata) ===\n"@ + d + pages_text(
        s,
        s.page_count() as nat,
    );
    assert(all =~= none + a + (b + c + d + rest));
    lemma_shows(none, a, b + c + d + rest);
    assert(all =~= a + b + (c + d + rest));
    lemma_shows(a, b, c + d + rest);
    assert(all =~= (a + b) + c + (d + rest));
    lemma_shows(a + b, c, d + rest);
    assert(all =~= (a + b + c) + d + rest);
    lemma_shows(a + b + c, d, rest);
    assert(all.take(a.len() as int) =~= a);
}

/// The lines about the lists of more classes contain those about fewer.
proof fn lemma_list_shown(s: StoreView, c: int, n: nat)
    requires
        0 <= c < n,
        s.heads[c] != 0,
    ensures
        shows(lists_text(s, n), list_text(s, c)),
    decreases n,
{
    let none = Seq::<char>::empty();
    let before = lists_text(s, (n - 1) as nat);
    if c == n - 1 {
        assert(lists_text(s, n) =~= before + list_text(s, c) + none);
        lemma_shows(before, list_text(s, c), none);
    } else {
        lemma_list_shown(s, c, (n - 1) as nat);
        if s.heads[n - 1] != 0 {
            assert(lists_text(s, n) =~= none + before + list_text(s, n - 1));
            lemma_shows_inside(none, before, list_text(s, n - 1), list_text(s, c));
        }
    }
}

/// A dump shows the list of every class that has pages: the class, the size of
/// its slots, and all its pages in the order of the list. A class without pages
/// adds no line; where no class has any, the dump says so.
#[verifier::spinoff_prover]
#[verifier::rlimit(40)]
pub proof fn dump_tells_of_every_list(s: StoreView, dirty: Seq<PageId>, c: int)
    requires
        s.linked(),
        0 <= c < CLASSES,
    ensures
        s.list(c).len() > 0 ==> shows(
            dump_text(s, dirty),
            "  class "@ + text::decimal(c as nat) + " ("@ + text::decimal(pow2(c as nat))
                + "B): "@ + text::list(s.list(c)) + "\n"@,
        ),
        s.list(c).len() == 0 ==> lists_text(s, (c + 1) as nat) == lists_text(s, c as nat),
        (forall|k: int| 0 <= k < CLASSES ==> (#[trigger] s.list(k)).len() == 0) ==> shows(
            dump_text(s, dirty),
            "free_lists:\n"@ + "  (none)\n"@,
        ),
{
    let all = dump_text(s, dirty);
    let none = Seq::<char>::empty();
    let l = s.list(c);
    store::lemma_list(s, c);
    let rest = "\n=== page 0 (metadata) ===\n"@ + number_line(
        "dirties_before_flush: "@,
        s.threshold,
    ) + pages_text(s, s.page_count() as nat);
    if l.len() > 0 {
        assert(s.in_place(c, l, 0));
        let n = s.page_count() as nat;
        store::lemma_chain(s, c, l, 0, n + 1);
        assert(l.skip(0) =~= l);
        assert(!no_lists(s));
        lemma_list_shown(s, c, CLASSES as nat);
        let a = summary_text(s, dirty) + "free_lists:\n"@;
        assert(all =~= a + lists_text(s, CLASSES as nat) + rest);
        lemma_shows_inside(a, lists_text(s, CLASSES as nat), rest, list_text(s, c));
        assert(list_text(s, c) =~= "  class "@ + text::decimal(c as nat) + " ("@ + text::decimal(
            pow2(c as nat),
        ) + "B): "@ + text::list(l) + "\n"@);
    }
    if forall|k: int| 0 <= k < CLASSES ==> (#[trigger] s.list(k)).len() == 0 {
        assert forall|k: int| 0 <= k < CLASSES implies #[trigger] s.heads[k] == 0 by {
            assert(s.list(k).len() == 0);
            store::lemma_list(s, k);
        }
        let part = "free_lists:\n"@ + "  (none)\n"@;
        assert(all =~= summary_text(s, dirty) + part + rest);
        lemma_shows(summary_text(s, dirty), part, rest);
    }
}

/// The slots that are shown as occupied are those in use, in ascending order.
pub proof fn occupied_slots_are_those_in_use(used: Seq<bool>, n: nat)
    requires
        n <= used.len(),
    ensures
        forall|i: int| #[trigger] occupied(used, n).contains(i) <==> 0 <= i < n && used[i],
        forall|j: int, k: int|
            0 <= j < k < occupied(used, n).len() ==> occupied(used, n)[j] < occupied(used, n)[k],
    decreases n,
{
    if n > 0 {
        let m = (n - 1) as nat;
        let before = occupied(used, m);
        let after = occupied(used, n);
        occupied_slots_are_those_in_use(used, m);
        assert forall|i: int| #[trigger] after.contains(i) <==> 0 <= i < n && used[i] by {
            if used[m as int] {
                if after.contains(i) {
                    let k = choose|k: int| 0 <= k < after.len() && after[k] == i;
                    if k < before.len() {
                        assert(before[k] == i);
                        assert(before.contains(i));
                    }
                }
                if before.contains(i) {
                    let k = choose|k: int| 0 <= k < before.len() && before[k] == i;
                    assert(after[k] == i);
                }
                assert(after[before.len() as int] == m);
            }
            assert(before.contains(i) <==> 0 <= i < m && used[i]);
        }
        assert forall|j: int, k: int| 0 <= j < k < after.len() implies after[j] < after[k] by {
            assert(before.contains(before[j]));
        }
    }
}

/// The lines about some slots, one after the other, are those about the first of
/// them followed by those about the others.
proof fn lemma_slot_shown(s: StoreView, p: int, slots: Seq<int>, n: nat, k: int)
    requires
        0 <= k < n <= slots.len(),
    ensures
        shows(slot_lines(s, p, slots, n), slot_line(s, p, slots[k])),
    decreases n,
{
    let none = Seq::<char>::empty();
    let before = slot_lines(s, p, slots, (n - 1) as nat);
    if k == n - 1 {
        assert(slot_lines(s, p, slots, n) =~= before + slot_line(s, p, slots[k]) + none);
        lemma_shows(before, slot_line(s, p, slots[k]), none);
    } else {
        lemma_slot_shown(s, p, slots, (n - 1) as nat, k);
        assert(slot_lines(s, p, slots, n) =~= none + before + slot_line(s, p, slots[n - 1]));
        lemma_shows_inside(none, before, slot_line(s, p, slots[n - 1]), slot_line(s, p, slots[k]));
    }
}

/// The sections about more pages contain those about fewer.
proof fn lemma_page_shown(s: StoreView, p: int, n: nat)
    requires
        1 <= p < n,
    ensures
        shows(pages_text(s, n), page_text(s, p)),
    decreases n,
{
    let none = Seq::<char>::empty();
    let before = pages_text(s, (n - 1) as nat);
    if p == n - 1 {
        assert(pages_text(s, n) =~= before + page_text(s, p) + none);
        lemma_shows(before, page_text(s, p), none);
    } else {
        lemma_page_shown(s, p, (n - 1) as nat);
        assert(pages_text(s, n) =~= none + before + page_text(s, n - 1));
        lemma_shows_inside(none, before, page_text(s, n - 1), page_text(s, p));
    }
}

/// A part of the section about a page is a part of the dump.
proof fn lemma_in_dump(s: StoreView, dirty: Seq<PageId>, p: int, part: Seq<char>)
    requires
        s.has_page(p),
        shows(page_text(s, p), part),
    ensures
        shows(dump_text(s, dirty), part),
{
    let all = dump_text(s, dirty);
    let none = Seq::<char>::empty();
    let pages = pages_text(s, s.page_count() as nat);
    let head = summary_text(s, dirty) + all_lists_text(s) + "\n=== page 0 (metadata) ===\n"@
        + number_line("dirties_before_flush: "@, s.threshold);
    lemma_page_shown(s, p, s.page_count() as nat);
    let page = page_text(s, p);
    let k = choose|k: int|
        0 <= k && k + page.len() <= pages.len() && #[trigger] pages.subrange(k, k + page.len())
            == page;
    let (a, b) = (pages.take(k), pages.skip(k + page.len()));
    assert(pages =~= a + page + b);
    lemma_shows_inside(a, page, b, part);
    assert(all =~= head + pages + none);
    lemma_shows_inside(head, pages, none, part);
}

/// A dump shows every page: its number, its class, its geometry, its links, and
/// which of its slots are in use.
#[verifier::spinoff_prover]
#[verifier::rlimit(40)]
pub proof fn dump_tells_of_every_page(s: StoreView, dirty: Seq<PageId>, p: int)
    requires
        s.linked(),
        s.has_page(p),
    ensures
        ({
            let l = layout::layout_of(s.page_size, s.page(p).class_id);
            let used = occupied(s.page(p).used, s.page(p).used.len());
            shows(
                dump_text(s, dirty),
                "\n=== page "@ + text::decimal(p as nat) + " (data, class="@ + text::decimal(
                    s.page(p).class_id as nat,
                ) + ", slot_size="@ + text::decimal(l.slot_size as nat) + ", slots="@
                    + text::decimal(l.slot_count as nat) + ", bitmap_bytes="@ + text::decimal(
                    l.bitmap_bytes as nat,
                ) + ") ===\n"@ + "prev: "@ + text::decimal(s.page(p).previous as nat) + "  next: "@
                    + text::decimal(s.page(p).next as nat) + "\n"@ + "occupied_slots: "@
                    + text::list(used) + "\n"@,
            )
        }),
{
    assert(s.page_ok(p));
    let none = Seq::<char>::empty();
    let l = layout::layout_of(s.page_size, s.page(p).class_id);
    let used = occupied(s.page(p).used, s.page(p).used.len());
    let part = "\n=== page "@ + text::decimal(p as nat) + " (data, class="@ + text::decimal(
        s.page(p).class_id as nat,
    ) + ", slot_size="@ + text::decimal(l.slot_size as nat) + ", slots="@ + text::decimal(
        l.slot_count as nat,
    ) + ", bitmap_bytes="@ + text::decimal(l.bitmap_bytes as nat) + ") ===\n"@ + "prev: "@
        + text::decimal(s.page(p).previous as nat) + "  next: "@ + text::decimal(
        s.page(p).next as nat,
    ) + "\n"@ + "occupied_slots: "@ + text::list(used) + "\n"@;
    let lines = slot_lines(s, p, used, used.len());
    assert(page_text(s, p) =~= none + part + lines);
    lemma_shows(none, part, lines);
    lemma_in_dump(s, dirty, p, part);
}

/// A dump shows a page whose class does not fit by its number and its class, and
/// says so.
pub proof fn dump_tells_of_pages_that_do_not_fit(s: StoreView, dirty: Seq<PageId>, p: int)
    requires
        s.has_page(p),
        !layout::class_fits(s.page_size, s.page(p).class_id),
    ensures
        shows(
            dump_text(s, dirty),
            "\n=== page "@ + text::decimal(p as nat) + " (data, class="@ + text::decimal(
                s.page(p).class_id as nat,
            ) + ", invalid layout) ===\n"@,
        ),
{
    let none = Seq::<char>::empty();
    let part = page_text(s, p);
    assert(part =~= none + part + none);
    lemma_shows(none, part, none);
    lemma_in_dump(s, dirty, p, part);
}

/// A dump shows every slot in use, with its number and its bytes.
pub proof fn dump_tells_of_every_slot_in_use(s: StoreView, dirty: Seq<PageId>, p: int, i: int)
    requires
        s.linked(),
        s.live(p, i),
    ensures
        shows(
            dump_text(s, dirty),
            "slot["@ + text::decimal(i as nat) + "]: "@ + text::slot_text(s.slot_bytes(p, i))
                + "\n"@,
        ),
{
    assert(s.page_ok(p));
    let none = Seq::<char>::empty();
    let page = s.page(p);
    let slots = occupied(page.used, page.used.len());
    occupied_slots_are_those_in_use(page.used, page.used.len());
    assert(slots.contains(i));
    let k = choose|k: int| 0 <= k < slots.len() && slots[k] == i;
    lemma_slot_shown(s, p, slots, slots.len(), k);
    let lines = slot_lines(s, p, slots, slots.len());
    let head = page_title(p, page.class_id) + geometry_text(
        layout::layout_of(s.page_size, page.class_id),
    ) + links_line(page.previous, page.next) + occupied_line(slots);
    let part = slot_line(s, p, i);
    assert(page_text(s, p) =~= head + lines + none);
    lemma_shows_inside(head, lines, none, part);
    lemma_in_dump(s, dirty, p, part);
    assert(part =~= "slot["@ + text::decimal(i as nat) + "]: "@ + text::slot_text(
        s.slot_bytes(p, i),
    ) + "\n"@);
}

/// A dump shows nothing but that, in this order: the lines about the store, the
/// lists in the order of their classes, the metadata, and the pages in the order
/// of their numbers. This is so of every store, whatever its links are.
#[verifier::spinoff_prover]
#[verifier::rlimit(40)]
pub proof fn dump_tells_nothing_else(s: StoreView, dirty: Seq<PageId>, c: int, p: int)
    requires
        0 <= c,
        1 <= p,
    ensures
        ({
            let due = "dirties_before_flush: "@ + text::decimal(s.threshold as nat) + "\n"@;
            let lists = if forall|k: int| 0 <= k < 32 ==> #[trigger] s.heads[k] == 0 {
                "  (none)\n"@
            } else {
                lists_text(s, 32)
            };
            dump_text(s, dirty) == "page_count: "@ + text::decimal(s.page_count() as nat) + "\n"@
                + "page_size: "@ + text::decimal(s.page_size as nat) + "\n"@ + "dirty: "@
                + text::list(dirty.map_values(|q: PageId| q.0 as int).sort()) + "\n"@ + due
                + "free_lists:\n"@ + lists + "\n=== page 0 (metadata) ===\n"@ + due + pages_text(
                s,
                s.page_count() as nat,
            )
        }),
        lists_text(s, 0).len() == 0,
        lists_text(s, (c + 1) as nat) == if s.heads[c] == 0 {
            lists_text(s, c as nat)
        } else {
            lists_text(s, c as nat) + "  class "@ + text::decimal(c as nat) + " ("@ + text::decimal(
                pow2(c as nat),
            ) + "B): "@ + text::list(s.chain(s.heads[c], (s.page_count() + 1) as nat)) + "\n"@
        },
        pages_text(s, 1).len() == 0,
        pages_text(s, (p + 1) as nat) == pages_text(s, p as nat) + page_text(s, p),
{
    let due = "dirties_before_flush: "@ + text::decimal(s.threshold as nat) + "\n"@;
    let lists = if forall|k: int| 0 <= k < 32 ==> #[trigger] s.heads[k] == 0 {
        "  (none)\n"@
    } else {
        lists_text(s, 32)
    };
    assert(dump_text(s, dirty) =~= "page_count: "@ + text::decimal(s.page_count() as nat) + "\n"@
        + "page_size: "@ + text::decimal(s.page_size as nat) + "\n"@ + "dirty: "@ + text::list(
        dirty.map_values(|q: PageId| q.0 as int).sort(),
    ) + "\n"@ + due + "free_lists:\n"@ + lists + "\n=== page 0 (metadata) ===\n"@ + due
        + pages_text(s, s.page_count() as nat));
    if s.heads[c] != 0 {
        assert(lists_text(s, (c + 1) as nat) =~= lists_text(s, c as nat) + "  class "@
            + text::decimal(c as nat) + " ("@ + text::decimal(pow2(c as nat)) + "B): "@
            + text::list(s.chain(s.heads[c], (s.page_count() + 1) as nat)) + "\n"@);
    }
}

/// The section about a page ends with one line for every slot in use and for no
/// other, in ascending order.
pub proof fn page_section_ends_with_its_slots(s: StoreView, p: int, n: nat)
    requires
        layout::class_fits(s.page_size, s.page(p).class_id),
        n < occupied(s.page(p).used, s.page(p).used.len()).len(),
    ensures
        ({
            let slots = occupied(s.page(p).used, s.page(p).used.len());
            let lines = slot_lines(s, p, slots, slots.len());
            &&& lines.len() <= page_text(s, p).len()
            &&& page_text(s, p).skip(page_text(s, p).len() - lines.len()) == lines
            &&& slot_lines(s, p, slots, 0).len() == 0
            &&& slot_lines(s, p, slots, n + 1) == slot_lines(s, p, slots, n) + "slot["@
                + text::decimal(slots[n as int] as nat) + "]: "@ + text::slot_text(
                s.slot_bytes(p, slots[n as int]),
            ) + "\n"@
        }),
{
    let page = s.page(p);
    let slots = occupied(page.used, page.used.len());
    let lines = slot_lines(s, p, slots, slots.len());
    let head = page_title(p, page.class_id) + geometry_text(
        layout::layout_of(s.page_size, page.class_id),
    ) + links_line(page.previous, page.next) + occupied_line(slots);
    assert(page_text(s, p) =~= head + lines);
    assert((head + lines).skip(head.len() as int) =~= lines);
    assert(slot_lines(s, p, slots, n + 1) =~= slot_lines(s, p, slots, n) + "slot["@
        + text::decimal(slots[n as int] as nat) + "]: "@ + text::slot_text(
        s.slot_bytes(p, slots[n as int]),
    ) + "\n"@);
}

/// The section about a page that fits is its title, its geometry, its links and
/// its slots in use, with a line for each of these; there is nothing else.
#[verifier::spinoff_prover]
#[verifier::rlimit(40)]
pub proof fn page_section_is_complete(s: StoreView, p: int)
    requires
        layout::class_fits(s.page_size, s.page(p).class_id),
    ensures
        ({
            let l = layout::layout_of(s.page_size, s.page(p).class_id);
            let slots = occupied(s.page(p).used, s.page(p).used.len());
            page_text(s, p) == "\n=== page "@ + text::decimal(p as nat) + " (data, class="@
                + text::decimal(s.page(p).class_id as nat) + ", slot_size="@ + text::decimal(
                l.slot_size as nat,
            ) + ", slots="@ + text::decimal(l.slot_count as nat) + ", bitmap_bytes="@
                + text::decimal(l.bitmap_bytes as nat) + ") ===\n"@ + "prev: "@ + text::decimal(
                s.page(p).previous as nat,
            ) + "  next: "@ + text::decimal(s.page(p).next as nat) + "\n"@ + "occupied_slots: "@
                + text::list(slots) + "\n"@ + slot_lines(s, p, slots, slots.len())
        }),
{
    let l = layout::layout_of(s.page_size, s.page(p).class_id);
    let slots = occupied(s.page(p).used, s.page(p).used.len());
    assert(page_text(s, p) =~= "\n=== page "@ + text::decimal(p as nat) + " (data, class="@
        + text::decimal(s.page(p).class_id as nat) + ", slot_size="@ + text::decimal(
        l.slot_size as nat,
    ) + ", slots="@ + text::decimal(l.slot_count as nat) + ", bitmap_bytes="@ + text::decimal(
        l.bitmap_bytes as nat,
    ) + ") ===\n"@ + "prev: "@ + text::decimal(s.page(p).previous as nat) + "  next: "@
        + text::decimal(s.page(p).next as nat) + "\n"@ + "occupied_slots: "@ + text::list(slots)
        + "\n"@ + slot_lines(s, p, slots, slots.len()));
}

/// A store with consistent page lists can be dumped.
pub proof fn linked_store_is_walkable(s: StoreView)
    requires
        s.linked(),
    ensures
        s.walkable(),
{
    assert forall|c: int| 0 <= c < CLASSES implies s.is_link(#[trigger] s.heads[c]) by {
        store::lemma_list(s, c);
        if s.list(c).len() > 0 {
            assert(s.in_place(c, s.list(c), 0));
        }
    }
    assert forall|p: int| s.has_page(p) implies s.is_link((#[trigger] s.page(p)).next) by {
        assert(s.page_ok(p));
        let c = s.page(p).class_id;
        store::lemma_list(s, c);
        let l = s.list(c);
        let i = choose|i: int| 0 <= i < l.len() && l[i] == p;
        assert(s.in_place(c, l, i));
        if i + 1 < l.len() {
            assert(s.in_place(c, l, i + 1));
        }
    }
}

} // verus!
