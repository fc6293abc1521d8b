//! What holds of a page store across several operations.

use super::bitmap;
use super::image;
use super::image::ByteOrder;
use super::layout;
use super::manager;
use super::manager::{AllocId, OpenError, PageId, PageManager};
use super::store;
use super::store::{StoreView, CLASSES, META_BYTES};
use crate::num;
use vstd::arithmetic::mul::*;
use vstd::arithmetic::power2::*;
use vstd::prelude::*;

verus! {

/// Whether a store has the sizes that its bytes give it: every page of a class
/// that fits has the slots and the payload of this class.
pub open spec fn sized(s: StoreView) -> bool {
    &&& num::power_of_two(s.page_size)
    &&& META_BYTES <= s.page_size <= usize::MAX
    &&& forall|p: int|
        #![trigger s.page(p)]
        s.has_page(p) && layout::class_fits(s.page_size, s.page(p).class_id) ==> {
            let l = layout::layout_of(s.page_size, s.page(p).class_id);
            &&& s.page(p).used.len() == l.slot_count
            &&& s.page(p).payload.len() == s.page_size - l.payload_off
        }
}

/// A store that is read from bytes has the sizes of its classes.
pub proof fn decoded_store_is_sized(o: ByteOrder, b: Seq<u8>)
    requires
        store::shaped(o, b),
        b.len() <= usize::MAX,
    ensures
        sized(store::decode(o, b)),
{
    let s = store::decode(o, b);
    store::lemma_page_count(o, b);
    assert forall|p: int|
        #![trigger s.page(p)]
        s.has_page(p) && layout::class_fits(s.page_size, s.page(p).class_id) implies {
        let l = layout::layout_of(s.page_size, s.page(p).class_id);
        &&& s.page(p).used.len() == l.slot_count
        &&& s.page(p).payload.len() == s.page_size - l.payload_off
    } by {
        store::lemma_page_range(b.len() as int, s.page_size, p);
        layout::lemma_layout(s.page_size, s.page(p).class_id);
        let l = layout::layout_of(s.page_size, s.page(p).class_id);
        lemma_mul_nonnegative(l.slot_count as int, l.slot_size as int);
    }
}

/// The first of some pages with room is one of them and has room; where none
/// has, all slots of all of them are in use.
proof fn lemma_room_in(s: StoreView, l: Seq<int>)
    ensures
        s.room_in(l) matches Some(q) ==> l.contains(q) && s.page(q).has_room(),
        s.room_in(l) is None ==> forall|i: int|
            0 <= i < l.len() ==> !(#[trigger] s.page(l[i])).has_room(),
    decreases l.len(),
{
    if l.len() > 0 {
        let rest = l.drop_first();
        lemma_room_in(s, rest);
        if s.page(l[0]).has_room() {
            assert(l.contains(l[0]));
        } else {
            if s.room_in(rest) is Some {
                let q = s.room_in(rest)->0;
                let i = choose|i: int| 0 <= i < rest.len() && rest[i] == q;
                assert(l[i + 1] == q);
            }
            if s.room_in(l) is None {
                assert forall|i: int| 0 <= i < l.len() implies !(#[trigger] s.page(
                    l[i],
                )).has_room() by {
                    if i > 0 {
                        assert(l[i] == rest[i - 1]);
                    }
                }
            }
        }
    }
}

/// The first page with room of a class has room and is of this class; where
/// there is none, no page of the class has room.
proof fn lemma_first_with_room(s: StoreView, c: int)
    requires
        s.linked(),
        0 <= c < CLASSES,
    ensures
        s.is_link(s.heads[c]),
        s.first_with_room(c) matches Some(q) ==> s.has_page(q) && s.page(q).has_room() && s.page(
            q,
        ).class_id == c,
        s.first_with_room(c) is None ==> forall|p: int|
            s.has_page(p) && (#[trigger] s.page(p)).class_id == c ==> !s.page(p).has_room(),
{
    store::lemma_list(s, c);
    let l = s.list(c);
    lemma_room_in(s, l);
    if l.len() > 0 {
        assert(s.in_place(c, l, 0));
    }
    if s.first_with_room(c) is Some {
        let i = choose|i: int| 0 <= i < l.len() && l[i] == s.first_with_room(c)->0;
        assert(s.in_place(c, l, i));
    } else {
        assert forall|p: int|
            s.has_page(p) && (#[trigger] s.page(p)).class_id == c implies !s.page(p).has_room() by {
            let i = choose|i: int| 0 <= i < l.len() && l[i] == p;
            assert(!s.page(l[i]).has_room());
        }
    }
}

/// An allocation adds a page only where every slot of its size class is in use.
pub proof fn store_grows_only_when_full(
    s: StoreView,
    d: Seq<PageId>,
    slot_size: int,
    grown: bool,
    r: Option<AllocId>,
    t: StoreView,
    e: Seq<PageId>,
)
    requires
        s.linked(),
        0 <= store::class_of(slot_size) < CLASSES,
        manager::after_alloc(s, d, slot_size, grown, r, t, e),
        t.page_count() != s.page_count(),
    ensures
        t.page_count() == s.page_count() + 1,
        forall|p: int, i: int|
            s.has_page(p) && s.page(p).class_id == store::class_of(slot_size) && 0 <= i < s.page(
                p,
            ).used.len() ==> #[trigger] s.page(p).used[i],
{
    let c = store::class_of(slot_size);
    lemma_first_with_room(s, c);
    assert forall|p: int, i: int|
        s.has_page(p) && s.page(p).class_id == c && 0 <= i < s.page(
            p,
        ).used.len() implies #[trigger] s.page(p).used[i] by {
        assert(!s.page(p).has_room());
    }
}

/// An allocation hands out a slot that was free, on a page of its own size
/// class; this slot is in use afterwards, and of no other slot does it change
/// whether it is in use.
pub proof fn alloc_hands_out_a_free_slot(
    s: StoreView,
    d: Seq<PageId>,
    slot_size: int,
    grown: bool,
    aid: AllocId,
    t: StoreView,
    e: Seq<PageId>,
)
    requires
        sized(s),
        s.linked(),
        0 <= store::class_of(slot_size) < CLASSES,
        manager::after_alloc(s, d, slot_size, grown, Some(aid), t, e),
    ensures
        !s.live(aid.page_id.0 as int, aid.slot_id.0 as int),
        t.live(aid.page_id.0 as int, aid.slot_id.0 as int),
        t.page(aid.page_id.0 as int).class_id == store::class_of(slot_size),
        forall|p: int, q: int|
            p != aid.page_id.0 || q != aid.slot_id.0 ==> #[trigger] t.live(p, q) == s.live(p, q),
{
    let c = store::class_of(slot_size);
    lemma_first_with_room(s, c);
    layout::lemma_layout(s.page_size, c);
}

/// An allocation succeeds wherever a slot of its size class is free, and wherever
/// the store can grow by a page of the class; it fails only where neither is so,
/// and changes nothing then. The slot has the size that was asked for. It is the
/// lowest free one of its page, or the first one of a new page.
pub proof fn alloc_fails_only_for_want_of_room(
    s: StoreView,
    d: Seq<PageId>,
    slot_size: int,
    grown: bool,
    r: Option<AllocId>,
    t: StoreView,
    e: Seq<PageId>,
)
    requires
        sized(s),
        s.linked(),
        0 <= store::class_of(slot_size) < CLASSES,
        layout::class_fits(s.page_size, store::class_of(slot_size)),
        manager::after_alloc(s, d, slot_size, grown, r, t, e),
    ensures
        forall|p: int, i: int|
            s.has_page(p) && s.page(p).class_id == store::class_of(slot_size) && 0 <= i < s.page(
                p,
            ).used.len() && !#[trigger] s.page(p).used[i] ==> r is Some,
        grown && (s.page_count() + 1) * s.page_size <= usize::MAX ==> r is Some,
        !grown ==> t.page_count() == s.page_count(),
        r is None ==> t == s && e == d,
        r matches Some(aid) ==> {
            let (p, i) = (aid.page_id.0 as int, aid.slot_id.0 as int);
            &&& aid.size == slot_size
            &&& t.has_page(p)
            &&& s.has_page(p) ==> forall|j: int| 0 <= j < i ==> #[trigger] s.live(p, j)
            &&& !s.has_page(p) ==> p == s.page_count() && i == 0
        },
{
    let c = store::class_of(slot_size);
    lemma_first_with_room(s, c);
    layout::lemma_layout(s.page_size, c);
    assert forall|p: int, i: int|
        s.has_page(p) && s.page(p).class_id == c && 0 <= i < s.page(p).used.len()
            && !#[trigger] s.page(p).used[i] implies r is Some by {
        assert(s.page(p).has_room());
    }
}

/// The first page with room stands in the list behind full pages only.
proof fn lemma_room_is_first(s: StoreView, l: Seq<int>)
    ensures
        s.room_in(l) matches Some(q) ==> exists|k: int|
            0 <= k < l.len() && #[trigger] l[k] == q && s.page(q).has_room() && (forall|j: int|
                0 <= j < k ==> !(#[trigger] s.page(l[j])).has_room()),
    decreases l.len(),
{
    if l.len() > 0 {
        if s.page(l[0]).has_room() {
            assert(l[0] == s.room_in(l)->0);
        } else if s.room_in(l) is Some {
            let rest = l.drop_first();
            let q = s.room_in(rest)->0;
            lemma_room_is_first(s, rest);
            let k = choose|k: int|
                0 <= k < rest.len() && #[trigger] rest[k] == q && s.page(q).has_room() && (forall|
                    j: int,
                |
                    0 <= j < k ==> !(#[trigger] s.page(rest[j])).has_room());
            assert(l[k + 1] == q);
            assert forall|j: int| 0 <= j < k + 1 implies !(#[trigger] s.page(l[j])).has_room() by {
                if j > 0 {
                    assert(l[j] == rest[j - 1]);
                    assert(!s.page(rest[j - 1]).has_room());
                }
            }
        }
    }
}

/// An allocation on a page that was there already takes the first page of its
/// list on which a slot is free: on all pages in front every slot is in use.
pub proof fn alloc_uses_the_first_page_with_room(
    s: StoreView,
    d: Seq<PageId>,
    slot_size: int,
    grown: bool,
    aid: AllocId,
    t: StoreView,
    e: Seq<PageId>,
)
    requires
        sized(s),
        s.linked(),
        0 <= store::class_of(slot_size) < CLASSES,
        manager::after_alloc(s, d, slot_size, grown, Some(aid), t, e),
        s.has_page(aid.page_id.0 as int),
    ensures
        ({
            let l = s.list(store::class_of(slot_size));
            exists|k: int|
                0 <= k < l.len() && #[trigger] l[k] == aid.page_id.0 && (forall|j: int, i: int|
                    0 <= j < k && 0 <= i < s.page(l[j]).used.len() ==> #[trigger] s.page(
                        l[j],
                    ).used[i])
        }),
{
    let c = store::class_of(slot_size);
    let l = s.list(c);
    lemma_first_with_room(s, c);
    lemma_room_is_first(s, l);
    let q = s.first_with_room(c)->0;
    let k = choose|k: int|
        0 <= k < l.len() && #[trigger] l[k] == q && s.page(q).has_room() && (forall|j: int|
            0 <= j < k ==> !(#[trigger] s.page(l[j])).has_room());
    assert(l[k] == aid.page_id.0);
    assert forall|j: int, i: int|
        0 <= j < k && 0 <= i < s.page(l[j]).used.len() implies #[trigger] s.page(l[j]).used[i] by {
        assert(!s.page(l[j]).has_room());
    }
}

/// Every slot of every page has a name, made of its page, its number and the size
/// of a slot there, and there are no other names.
pub proof fn every_slot_has_a_name(s: StoreView, aid: AllocId)
    requires
        s.linked(),
    ensures
        ({
            let p = aid.page_id.0 as int;
            manager::names(s, aid) <==> {
                &&& 1 <= p <= s.pages.len()
                &&& 0 <= aid.slot_id.0 < s.pages[p - 1].used.len()
                &&& aid.size == pow2(s.pages[p - 1].class_id as nat)
            }
        }),
{
    let p = aid.page_id.0 as int;
    if s.has_page(p) {
        assert(s.page_ok(p));
        let k = s.page(p).class_id as nat;
        if aid.size == pow2(k) {
            store::lemma_class_of(aid.size as int, k);
        }
        if num::power_of_two(aid.size as int) {
            let m = choose|m: nat| aid.size as int == #[trigger] pow2(m);
            store::lemma_class_of(aid.size as int, m);
        }
    }
}

/// A page that an allocation adds is empty but for the slot that is handed out,
/// and all its bytes are zero.
pub proof fn new_page_is_empty(
    s: StoreView,
    d: Seq<PageId>,
    slot_size: int,
    grown: bool,
    r: Option<AllocId>,
    t: StoreView,
    e: Seq<PageId>,
)
    requires
        sized(s),
        s.linked(),
        0 <= store::class_of(slot_size) < CLASSES,
        manager::after_alloc(s, d, slot_size, grown, r, t, e),
        t.page_count() != s.page_count(),
    ensures
        t.page_count() == s.page_count() + 1,
        t.page(s.page_count()).class_id == store::class_of(slot_size),
        forall|i: int| #[trigger] t.live(s.page_count(), i) <==> i == 0,
        forall|i: int, k: int|
            0 <= i < t.page(s.page_count()).used.len() && 0 <= k < slot_size && num::power_of_two(
                slot_size,
            ) ==> #[trigger] t.slot_bytes(s.page_count(), i)[k] == 0,
{
    let c = store::class_of(slot_size);
    let p = s.page_count();
    lemma_first_with_room(s, c);
    layout::lemma_layout(s.page_size, c);
    let l = layout::layout_of(s.page_size, c);
    assert(t.page(p).used.len() == l.slot_count);
    assert forall|i: int, k: int|
        0 <= i < t.page(p).used.len() && 0 <= k < slot_size && num::power_of_two(
            slot_size,
        ) implies #[trigger] t.slot_bytes(p, i)[k] == 0 by {
        let m = choose|m: nat| slot_size == #[trigger] pow2(m);
        store::lemma_class_of(slot_size, m);
        store::lemma_slot_inside(t, p, i);
    }
}

/// Neither allocations nor releases nor writes change the page size, the flush
/// threshold or the number of lists, and only allocations add pages.
pub proof fn settings_never_change(s: StoreView)
    requires
        s.linked(),
    ensures
        forall|d: Seq<PageId>, n: int, g: bool, r: Option<AllocId>, t: StoreView, e: Seq<PageId>|
            #[trigger]
            manager::after_alloc(s, d, n, g, r, t, e) && 0 <= store::class_of(n) < CLASSES
                ==> t.page_size == s.page_size && t.threshold
                == s.threshold && t.heads.len() == s.heads.len(),
        forall|p: int, i: int|
            s.has_page(p) && 0 <= i < s.page(p).used.len() ==> {
                let t = #[trigger] s.marked(p, i, false).fronted(s.page(p).class_id, p);
                t.page_size == s.page_size && t.threshold == s.threshold && t.heads.len()
                    == s.heads.len() && t.page_count() == s.page_count()
            },
        forall|p: int, i: int, new: Seq<u8>|
            s.has_page(p) ==> {
                let t = #[trigger] s.written(p, i, new);
                t.page_size == s.page_size && t.threshold == s.threshold && t.heads == s.heads
                    && t.page_count() == s.page_count()
            },
{
    assert forall|p: int, i: int|
        s.has_page(p) && 0 <= i < s.page(p).used.len() implies {
        let t = #[trigger] s.marked(p, i, false).fronted(s.page(p).class_id, p);
        t.page_size == s.page_size && t.threshold == s.threshold && t.heads.len() == s.heads.len()
            && t.page_count() == s.page_count()
    } by {
        let m = s.marked(p, i, false);
        assert(s.page_ok(p));
        store::lemma_marked_linked(s, p, i, false);
        store::lemma_fronted_linked(m, s.page(p).class_id, p);
    }
}

/// A new page goes in front of the list of its class, and a page on which a slot
/// is released moves there; apart from that no list changes.
pub proof fn lists_keep_their_order(s: StoreView, c: int)
    requires
        s.linked(),
        0 <= c < CLASSES,
    ensures
        layout::class_fits(s.page_size, c) ==> {
            &&& s.grown(c).list(c) == seq![s.page_count()] + s.list(c)
            &&& forall|k: int|
                0 <= k < CLASSES && k != c ==> #[trigger] s.grown(c).list(k) == s.list(k)
        },
        forall|p: int, i: int|
            s.has_page(p) && s.page(p).class_id == c && 0 <= i < s.page(p).used.len() ==> {
                let t = #[trigger] s.marked(p, i, false).fronted(c, p);
                &&& t.list(c) == seq![p] + s.list(c).remove(s.list(c).index_of(p))
                &&& forall|k: int| 0 <= k < CLASSES && k != c ==> #[trigger] t.list(k) == s.list(k)
            },
        forall|p: int, i: int, used: bool, k: int|
            s.has_page(p) && 0 <= k < CLASSES ==> #[trigger] s.marked(p, i, used).list(k) == s.list(
                k,
            ),
{
    if layout::class_fits(s.page_size, c) {
        let g = s.grown(c);
        store::lemma_grown_linked(s, c);
        store::lemma_list(s, c);
        if s.list(c).len() > 0 {
            assert(s.in_place(c, s.list(c), 0));
        }
        assert forall|k: int| 0 <= k < CLASSES && k != c implies #[trigger] g.list(k) == s.list(
            k,
        ) by {
            store::lemma_list(s, k);
            let l = s.list(k);
            assert forall|i: int| 0 <= i < l.len() implies #[trigger] g.in_place(k, l, i) by {
                assert(s.in_place(k, l, i));
            }
            assert forall|q: int|
                g.has_page(q) && (#[trigger] g.page(q)).class_id == k implies l.contains(q) by {
                assert(s.page(q).class_id == k);
            }
            assert(g.lists(k, l));
            store::lemma_only_list(g, k, l);
        }
    }
    assert forall|p: int, i: int|
        s.has_page(p) && s.page(p).class_id == c && 0 <= i < s.page(p).used.len() implies {
        let t = #[trigger] s.marked(p, i, false).fronted(c, p);
        &&& t.list(c) == seq![p] + s.list(c).remove(s.list(c).index_of(p))
        &&& forall|k: int| 0 <= k < CLASSES && k != c ==> #[trigger] t.list(k) == s.list(k)
    } by {
        let m = s.marked(p, i, false);
        store::lemma_marked_linked(s, p, i, false);
        store::lemma_fronted_linked(m, c, p);
    }
    assert forall|p: int, i: int, used: bool, k: int|
        s.has_page(p) && 0 <= k < CLASSES implies #[trigger] s.marked(p, i, used).list(k)
        == s.list(k) by {
        store::lemma_marked_linked(s, p, i, used);
    }
}

/// An allocation records the page of its slot as dirty, and the metadata where it
/// adds a page; it records nothing else, and all that was dirty stays so.
pub proof fn alloc_records_what_it_changes(
    s: StoreView,
    d: Seq<PageId>,
    slot_size: int,
    grown: bool,
    aid: AllocId,
    t: StoreView,
    e: Seq<PageId>,
)
    requires
        s.linked(),
        0 <= store::class_of(slot_size) < CLASSES,
        manager::after_alloc(s, d, slot_size, grown, Some(aid), t, e),
    ensures
        forall|x: PageId| #[trigger]
            e.contains(x) <==> d.contains(x) || x == aid.page_id || x == PageId(0)
                && t.page_count() != s.page_count(),
        d.len() <= e.len(),
        e.take(d.len() as int) == d,
{
    let p = aid.page_id.0 as int;
    let c = store::class_of(slot_size);
    lemma_first_with_room(s, c);
    recording_keeps_the_others(d, p);
    recording_keeps_the_others(manager::recorded(d, p), 0);
    let f = manager::recorded(d, p);
    let g = manager::recorded(f, 0);
    assert(g.take(d.len() as int) =~= g.take(f.len() as int).take(d.len() as int));
}

/// Recording a page leaves the dirty list as it was but for this page, which
/// stands at the end if it is new.
pub proof fn recording_keeps_the_others(d: Seq<PageId>, p: int)
    requires
        0 <= p <= usize::MAX,
    ensures
        forall|x: PageId| #[trigger]
            manager::recorded(d, p).contains(x) <==> d.contains(x) || x == PageId(p as usize),
        d.len() <= manager::recorded(d, p).len(),
        manager::recorded(d, p).take(d.len() as int) == d,
        d.no_duplicates() ==> manager::recorded(d, p).no_duplicates(),
{
    let e = manager::recorded(d, p);
    let page = PageId(p as usize);
    assert(e.take(d.len() as int) =~= d);
    assert forall|x: PageId| #[trigger] e.contains(x) <==> d.contains(x) || x == page by {
        if e.contains(x) {
            let i = choose|i: int| 0 <= i < e.len() && e[i] == x;
            if i < d.len() {
                assert(d[i] == x);
            }
        }
        if d.contains(x) {
            let i = choose|i: int| 0 <= i < d.len() && d[i] == x;
            assert(e[i] == x);
        }
        if !d.contains(page) {
            assert(e[d.len() as int] == page);
        }
    }
    if d.no_duplicates() && !d.contains(page) {
        assert forall|i: int, j: int| 0 <= i < j < e.len() implies e[i] != e[j] by {
            assert(e[i] == d[i]);
            assert(d.contains(d[i]));
        }
    }
}

/// An allocation leaves the bytes of every slot that was in use as they were.
pub proof fn alloc_keeps_the_bytes_of_live_slots(
    s: StoreView,
    d: Seq<PageId>,
    slot_size: int,
    grown: bool,
    r: Option<AllocId>,
    t: StoreView,
    e: Seq<PageId>,
)
    requires
        sized(s),
        s.linked(),
        0 <= store::class_of(slot_size) < CLASSES,
        manager::after_alloc(s, d, slot_size, grown, r, t, e),
    ensures
        forall|p: int, q: int|
            s.live(p, q) ==> t.live(p, q) && #[trigger] t.slot_bytes(p, q) == s.slot_bytes(p, q),
        forall|p: int, q: int|
            s.has_page(p) ==> #[trigger] t.slot_bytes(p, q) == s.slot_bytes(p, q),
{
    let c = store::class_of(slot_size);
    lemma_first_with_room(s, c);
}

/// Releasing a slot frees this slot; of no other slot does it change whether it
/// is in use, and no bytes of any slot change.
pub proof fn dealloc_frees_one_slot(s: StoreView, page: int, slot: int)
    requires
        s.linked(),
        s.has_page(page),
        0 <= slot < s.page(page).used.len(),
    ensures
        ({
            let t = s.marked(page, slot, false).fronted(s.page(page).class_id, page);
            &&& !t.live(page, slot)
            &&& forall|p: int, q: int|
                p != page || q != slot ==> #[trigger] t.live(p, q) == s.live(p, q)
            &&& forall|p: int, q: int|
                s.has_page(p) ==> #[trigger] t.slot_bytes(p, q) == s.slot_bytes(p, q)
        }),
{
    let m = s.marked(page, slot, false);
    assert(s.page_ok(page));
    store::lemma_marked_linked(s, page, slot, false);
    store::lemma_fronted_linked(m, s.page(page).class_id, page);
    let t = m.fronted(s.page(page).class_id, page);
    assert(t.page(page).used == m.page(page).used);
    assert forall|p: int, q: int| p != page || q != slot implies #[trigger] t.live(p, q) == s.live(
        p,
        q,
    ) by {
        if s.has_page(p) {
            assert(t.page(p).used == m.page(p).used);
        }
    }
    assert forall|p: int, q: int| s.has_page(p) implies #[trigger] t.slot_bytes(p, q)
        == s.slot_bytes(p, q) by {
        assert(t.page(p).payload == m.page(p).payload);
    }
}

/// A handle stays valid: what named a slot still names it after an allocation,
/// a release or a write of any slot.
pub proof fn handles_stay_valid(s: StoreView, held: AllocId)
    requires
        s.linked(),
        manager::names(s, held),
    ensures
        forall|d: Seq<PageId>, n: int, g: bool, r: Option<AllocId>, t: StoreView, e: Seq<PageId>|
            0 <= store::class_of(n) < CLASSES && #[trigger] manager::after_alloc(
                s,
                d,
                n,
                g,
                r,
                t,
                e,
            ) ==> manager::names(t, held),
        forall|p: int, i: int, c: int|
            s.has_page(p) && 0 <= i < s.page(p).used.len() && c == s.page(p).class_id
                ==> manager::names(#[trigger] s.marked(p, i, false).fronted(c, p), held),
        forall|p: int, i: int, new: Seq<u8>|
            s.has_page(p) ==> manager::names(#[trigger] s.written(p, i, new), held),
{
    assert forall|d: Seq<PageId>, n: int, g: bool, r: Option<AllocId>, t: StoreView, e: Seq<PageId>|
        0 <= store::class_of(n) < CLASSES && #[trigger] manager::after_alloc(
            s,
            d,
            n,
            g,
            r,
            t,
            e,
        ) implies manager::names(t, held) by {
        let c = store::class_of(n);
        lemma_first_with_room(s, c);
    }
    assert forall|p: int, i: int, c: int|
        s.has_page(p) && 0 <= i < s.page(p).used.len() && c == s.page(
            p,
        ).class_id implies manager::names(#[trigger] s.marked(p, i, false).fronted(c, p), held) by {
        let m = s.marked(p, i, false);
        assert(s.page_ok(p));
        store::lemma_marked_linked(s, p, i, false);
        store::lemma_fronted_linked(m, c, p);
        assert(m.fronted(c, p).page(held.page_id.0 as int).used == m.page(
            held.page_id.0 as int,
        ).used);
    }
}

/// A slot that is released is handed out again: the next allocation of the
/// same size takes its page, adds none, and takes the very slot where it is the
/// first free one of the page.
pub proof fn released_slot_is_recycled(
    s: StoreView,
    d: Seq<PageId>,
    slot_size: int,
    page: int,
    slot: int,
    grown: bool,
    r: Option<AllocId>,
    t: StoreView,
    e: Seq<PageId>,
)
    requires
        sized(s),
        s.linked(),
        0 <= store::class_of(slot_size) < CLASSES,
        s.has_page(page),
        s.page(page).class_id == store::class_of(slot_size),
        0 <= slot < s.page(page).used.len(),
        manager::after_alloc(
            s.marked(page, slot, false).fronted(store::class_of(slot_size), page),
            d,
            slot_size,
            grown,
            r,
            t,
            e,
        ),
    ensures
        r matches Some(aid) && aid.size == slot_size && aid.page_id.0 == page,
        t.page_count() == s.page_count(),
        (forall|j: int| 0 <= j < slot ==> #[trigger] s.page(page).used[j]) ==> (r matches Some(aid)
            && aid.slot_id.0 == slot),
{
    let freed = s.marked(page, slot, false).fronted(store::class_of(slot_size), page);
    let c = store::class_of(slot_size);
    assert(s.page_ok(page));
    store::lemma_marked_linked(s, page, slot, false);
    let m = s.marked(page, slot, false);
    store::lemma_fronted_linked(m, c, page);
    assert(freed.page(page).used == m.page(page).used);
    assert(!freed.page(page).used[slot]);
    assert(freed.page(page).has_room());
    assert(freed.list(c)[0] == page);
    assert(freed.first_with_room(c) == Some(page));
    if forall|j: int| 0 <= j < slot ==> #[trigger] s.page(page).used[j] {
        let got = r->0.slot_id.0 as int;
        assert(freed.page(page).is_first_free(got));
        if slot < got {
            assert(freed.page(page).used[slot]);
        } else if got < slot {
            assert(s.page(page).used[got]);
        }
    }
}

/// The slots of a page follow one another in the order of their numbers, each at
/// a multiple of its size, behind the header and the bitmap of the page.
pub proof fn slots_follow_one_another(s: StoreView, p: int, i: int)
    requires
        sized(s),
        s.linked(),
        s.has_page(p),
        0 <= i < s.page(p).used.len(),
    ensures
        ({
            let size = pow2(s.page(p).class_id as nat) as int;
            &&& s.slot_start(p, i + 1) == s.slot_start(p, i) + size
            &&& s.slot_start(p, i) % size == 0
            &&& p * s.page_size + 24 + i * size < s.slot_start(p, i)
            &&& s.slot_start(p, i) + size <= (p + 1) * s.page_size
            &&& s.slot_start(p, 0) - size < p * s.page_size + 24 + (s.page(p).used.len() + 7) / 8
        }),
{
    assert(s.page_ok(p));
    let c = s.page(p).class_id;
    let l = layout::layout_of(s.page_size, c);
    let size = l.slot_size as int;
    layout::lemma_layout(s.page_size, c);
    store::lemma_slot_inside(s, p, i);
    store::lemma_slot_inside(s, p, 0);
    lemma_mul_is_distributive_add_other_way(size, i, 1);
    lemma_mul_is_distributive_add_other_way(s.page_size, p, 1);
    num::lemma_round_up(24 + num::ceil_div(l.slot_count as int, 8), size);
    assert(0 * size == 0);
}

/// Every number of a store stands at its place: the page size, the heads of the
/// lists and the threshold one after the other in page 0, the links and the class
/// at the start of every other page, and a bit for each of its slots behind them.
pub proof fn numbers_stand_at_their_places(o: ByteOrder, b: Seq<u8>, c: int, p: int, i: int)
    requires
        b.len() <= usize::MAX,
        store::shaped(o, b),
    ensures
        ({
            let s = store::decode(o, b);
            let base = p * s.page_size;
            &&& s.page_size == image::word(o, b, 0)
            &&& s.heads.len() == 32
            &&& 0 <= c < 32 ==> s.heads[c] == image::word(o, b, 8 + 8 * c)
            &&& s.threshold == image::word(o, b, 264)
            &&& b.len() == s.page_count() * s.page_size
            &&& s.has_page(p) ==> {
                &&& s.page(p).previous == image::word(o, b, base)
                &&& s.page(p).next == image::word(o, b, base + 8)
                &&& s.page(p).class_id == image::half(o, b, base + 16)
                &&& 0 <= i < s.page(p).used.len() ==> (s.live(p, i) <==> (b[base + 24 + i / 8] >> ((i
                    % 8) as u8)) % 2 == 1)
            }
        }),
{
    let s = store::decode(o, b);
    store::lemma_page_count(o, b);
    if s.has_page(p) && 0 <= i < s.page(p).used.len() {
        let base = p * s.page_size;
        let l = layout::layout_of(s.page_size, s.page(p).class_id);
        store::lemma_page_range(b.len() as int, s.page_size, p);
        layout::lemma_layout(s.page_size, s.page(p).class_id);
        lemma_mul_nonnegative(l.slot_count as int, l.slot_size as int);
        let bits = b.subrange(base + 24, base + 24 + l.bitmap_bytes);
        bitmap::bits_are_counted_from_the_lowest(bits, i / 8, i % 8);
        assert(bits[i / 8] == b[base + 24 + i / 8]);
        assert(8 * (i / 8) + i % 8 == i);
    }
}

/// The bytes of a slot are those at its place in the store.
pub proof fn slot_bytes_stand_at_its_offset(o: ByteOrder, b: Seq<u8>, p: int, i: int, k: int)
    requires
        b.len() <= usize::MAX,
        store::shaped(o, b),
        store::decode(o, b).linked(),
        store::decode(o, b).has_page(p),
        0 <= i < store::decode(o, b).page(p).used.len(),
        0 <= k < pow2(store::decode(o, b).page(p).class_id as nat),
    ensures
        store::decode(o, b).slot_bytes(p, i).len() == pow2(
            store::decode(o, b).page(p).class_id as nat,
        ),
        store::decode(o, b).slot_bytes(p, i)[k] == b[store::decode(o, b).slot_start(p, i) + k],
{
    let s = store::decode(o, b);
    assert(s.page_ok(p));
    store::lemma_page_count(o, b);
    store::lemma_page_range(b.len() as int, s.page_size, p);
    layout::lemma_layout(s.page_size, s.page(p).class_id);
    store::lemma_slot_of_image(o, b, p, i);
}

/// Two different slots never share a byte.
pub proof fn slots_do_not_overlap(s: StoreView, p: int, i: int, q: int, j: int)
    requires
        sized(s),
        s.linked(),
        s.has_page(p),
        s.has_page(q),
        0 <= i < s.page(p).used.len(),
        0 <= j < s.page(q).used.len(),
        p != q || i != j,
    ensures
        ({
            let a = layout::layout_of(s.page_size, s.page(p).class_id).slot_size;
            let b = layout::layout_of(s.page_size, s.page(q).class_id).slot_size;
            s.slot_start(p, i) + a <= s.slot_start(q, j) || s.slot_start(q, j) + b <= s.slot_start(
                p,
                i,
            )
        }),
{
    assert(s.page_ok(p));
    assert(s.page_ok(q));
    store::lemma_slot_inside(s, p, i);
    store::lemma_slot_inside(s, q, j);
    if p < q {
        store::lemma_pages_apart(s.page_size, p, q);
    } else if q < p {
        store::lemma_pages_apart(s.page_size, q, p);
    } else {
        let a = layout::layout_of(s.page_size, s.page(p).class_id).slot_size as int;
        layout::lemma_layout(s.page_size, s.page(p).class_id);
        if i < j {
            store::lemma_pages_apart(a, i, j);
        } else {
            store::lemma_pages_apart(a, j, i);
        }
    }
}

/// What is written into a slot is read back from it, and every other slot keeps
/// its bytes.
pub proof fn written_slot_reads_back(s: StoreView, p: int, i: int, new: Seq<u8>)
    requires
        sized(s),
        s.linked(),
        s.has_page(p),
        0 <= i < s.page(p).used.len(),
        new.len() == layout::layout_of(s.page_size, s.page(p).class_id).slot_size,
    ensures
        s.written(p, i, new).slot_bytes(p, i) == new,
        forall|q: int, j: int|
            s.has_page(q) && 0 <= j < s.page(q).used.len() && (p != q || i != j)
                ==> #[trigger] s.written(p, i, new).slot_bytes(q, j) == s.slot_bytes(q, j),
        forall|q: int|
            s.has_page(q) ==> {
                let t = #[trigger] s.written(p, i, new).page(q);
                t.used == s.page(q).used && t.class_id == s.page(q).class_id && t.previous == s.page(
                    q,
                ).previous && t.next == s.page(q).next
            },
{
    let t = s.written(p, i, new);
    assert(s.page_ok(p));
    store::lemma_slot_inside(s, p, i);
    assert(t.slot_bytes(p, i) =~= new);
    assert forall|q: int, j: int|
        s.has_page(q) && 0 <= j < s.page(q).used.len() && (p != q || i != j) implies #[trigger] t.slot_bytes(
    q, j) == s.slot_bytes(q, j) by {
        if p == q {
            store::lemma_slot_inside(s, q, j);
            let a = layout::layout_of(s.page_size, s.page(p).class_id).slot_size as int;
            layout::lemma_layout(s.page_size, s.page(p).class_id);
            if i < j {
                store::lemma_pages_apart(a, i, j);
            } else {
                store::lemma_pages_apart(a, j, i);
            }
            assert(t.slot_bytes(q, j) =~= s.slot_bytes(q, j));
        }
    }
}

/// The list of a class visits every page of the class exactly once, and no
/// other page.
pub proof fn lists_visit_every_page_once(s: StoreView, c: int)
    requires
        s.linked(),
        0 <= c < CLASSES,
    ensures
        s.list(c).no_duplicates(),
        forall|p: int|
            #[trigger]
            s.list(c).contains(p) <==> s.has_page(p) && s.page(p).class_id == c,
{
    store::lemma_list(s, c);
    let l = s.list(c);
    assert forall|p: int|
        #[trigger]
        l.contains(p) implies s.has_page(p) && s.page(p).class_id == c by {
        let i = choose|i: int| 0 <= i < l.len() && l[i] == p;
        assert(s.in_place(c, l, i));
    }
}

/// A chain follows the links from page to page until one leads nowhere, or until
/// it is as long as it may be.
pub proof fn chains_follow_the_links(s: StoreView, p: int, limit: nat)
    ensures
        s.chain(p, limit).len() <= limit,
        s.chain(p, limit).len() == 0 <==> p == 0 || limit == 0,
        p != 0 && limit > 0 ==> s.chain(p, limit)[0] == p,
        p != 0 && limit > 0 ==> s.chain(p, limit).skip(1) == s.chain(
            s.page(p).next,
            (limit - 1) as nat,
        ),
    decreases limit,
{
    if p != 0 && limit > 0 {
        chains_follow_the_links(s, s.page(p).next, (limit - 1) as nat);
        assert(s.chain(p, limit).skip(1) =~= s.chain(s.page(p).next, (limit - 1) as nat));
    }
}

/// The links of a page go both ways: the page behind a page has it in front,
/// and the page in front of a page has it behind; only the first page of a list
/// has none in front.
pub proof fn links_go_both_ways(s: StoreView, p: int)
    requires
        s.linked(),
        s.has_page(p),
    ensures
        s.page(p).next != 0 ==> s.has_page(s.page(p).next) && s.page(s.page(p).next).previous == p,
        s.page(p).previous != 0 ==> s.has_page(s.page(p).previous) && s.page(
            s.page(p).previous,
        ).next == p,
        s.page(p).previous == 0 <==> s.heads[s.page(p).class_id] == p,
{
    assert(s.page_ok(p));
    let c = s.page(p).class_id;
    store::lemma_list(s, c);
    let l = s.list(c);
    let i = choose|i: int| 0 <= i < l.len() && l[i] == p;
    assert(s.in_place(c, l, i));
    if i > 0 {
        assert(s.in_place(c, l, i - 1));
    }
    if i + 1 < l.len() {
        assert(s.in_place(c, l, i + 1));
    }
}

/// Building the lists anew touches no slot: the same slots are in use, with the
/// same bytes, and what named a slot still names it.
pub proof fn rebuilding_keeps_every_slot(s: StoreView, t: StoreView)
    requires
        t.same_but_lists(s),
    ensures
        forall|p: int, q: int| #[trigger] t.live(p, q) == s.live(p, q),
        forall|p: int, q: int|
            s.has_page(p) ==> #[trigger] t.slot_bytes(p, q) == s.slot_bytes(p, q),
        forall|held: AllocId| #[trigger] manager::names(t, held) == manager::names(s, held),
{
    assert forall|p: int, q: int| #[trigger] t.live(p, q) == s.live(p, q) by {
        if s.has_page(p) {
            assert(t.page(p).used == s.page(p).used);
        }
    }
    assert forall|p: int, q: int| s.has_page(p) implies #[trigger] t.slot_bytes(p, q)
        == s.slot_bytes(p, q) by {
        assert(t.page(p).payload == s.page(p).payload);
    }
    assert forall|held: AllocId| #[trigger] manager::names(t, held) == manager::names(s, held) by {
        let p = held.page_id.0 as int;
        if s.has_page(p) {
            assert(t.page(p).used == s.page(p).used);
        }
    }
}

/// The pages of a class below a page come in descending order.
proof fn lemma_pages_below_descend(s: StoreView, c: int, p: int)
    requires
        1 <= p <= s.page_count(),
    ensures
        forall|i: int, j: int|
            0 <= i < j < s.pages_below(c, p).len() ==> #[trigger] s.pages_below(c, p)[i]
                > #[trigger] s.pages_below(c, p)[j],
    decreases p,
{
    let l = s.pages_below(c, p);
    if p > 1 {
        let rest = s.pages_below(c, p - 1);
        lemma_pages_below_descend(s, c, p - 1);
        store::lemma_pages_below(s, c, p - 1);
        if s.page(p - 1).class_id == c {
            assert forall|i: int, j: int| 0 <= i < j < l.len() implies #[trigger] l[i]
                > #[trigger] l[j] by {
                assert(l[j] == rest[j - 1]);
                assert(rest.contains(rest[j - 1]));
                if i > 0 {
                    assert(l[i] == rest[i - 1]);
                }
            }
        }
    }
}

/// A list that is built anew holds every page of its class exactly once. The page
/// at the head stays there if it is one of them, and all others follow, the newest
/// one first.
pub proof fn rebuilt_lists_hold_every_page(s: StoreView, c: int)
    requires
        s.heads.len() == 32,
        0 <= c < 32,
    ensures
        s.rebuilt_list(c).no_duplicates(),
        forall|p: int| #[trigger]
            s.rebuilt_list(c).contains(p) <==> s.has_page(p) && s.page(p).class_id == c,
        s.has_page(s.heads[c]) && s.page(s.heads[c]).class_id == c ==> s.rebuilt_list(c)[0]
            == s.heads[c],
        forall|i: int, j: int|
            0 <= i < j < s.rebuilt_list(c).len() && s.rebuilt_list(c)[i] != s.heads[c]
                ==> #[trigger] s.rebuilt_list(c)[i] > #[trigger] s.rebuilt_list(c)[j],
{
    let l = s.pages_below(c, s.page_count());
    let r = s.rebuilt_list(c);
    let h = s.heads[c];
    store::lemma_pages_below(s, c, s.page_count());
    lemma_pages_below_descend(s, c, s.page_count());
    if l.contains(h) {
        let k = l.index_of(h);
        assert(0 <= k < l.len() && l[k] == h);
        assert(r.len() == l.len());
        assert forall|i: int| 0 <= i < r.len() implies #[trigger] r[i] == l[if i == 0 {
            k
        } else if i <= k {
            i - 1
        } else {
            i
        }] by {}
        assert forall|p: int| #[trigger] r.contains(p) <==> l.contains(p) by {
            if r.contains(p) {
                let i = choose|i: int| 0 <= i < r.len() && r[i] == p;
                assert(l.contains(r[i]));
            }
            if l.contains(p) {
                let i = choose|i: int| 0 <= i < l.len() && l[i] == p;
                if i == k {
                    assert(r[0] == p);
                } else if i < k {
                    assert(r[i + 1] == p);
                } else {
                    assert(r[i] == p);
                }
            }
        }
    } else {
        assert(r == l);
    }
}

/// The lists can be built anew exactly if every page is of a class that has a list
/// and fits; so those of a consistent store can.
pub proof fn sound_pages_can_be_listed(s: StoreView)
    ensures
        s.pages_ok() <==> s.heads.len() == 32 && (forall|k: int|
            0 <= k < s.pages.len() ==> 0 <= (#[trigger] s.pages[k]).class_id < 32
                && layout::class_fits(s.page_size, s.pages[k].class_id)),
        s.linked() ==> s.pages_ok(),
{
    if s.pages_ok() {
        assert forall|k: int| 0 <= k < s.pages.len() implies 0 <= (#[trigger] s.pages[k]).class_id
            < 32 && layout::class_fits(s.page_size, s.pages[k].class_id) by {
            assert(s.page_ok(k + 1));
        }
    }
    if s.heads.len() == 32 && (forall|k: int|
        0 <= k < s.pages.len() ==> 0 <= (#[trigger] s.pages[k]).class_id < 32
            && layout::class_fits(s.page_size, s.pages[k].class_id)) {
        assert forall|p: int| s.has_page(p) implies #[trigger] s.page_ok(p) by {
            assert(0 <= s.pages[p - 1].class_id < 32);
        }
    }
}

/// Bytes have the shape of a store exactly if their first word is a power of two,
/// not below what the metadata takes, and divides their number.
pub proof fn stores_are_whole_pages(o: ByteOrder, b: Seq<u8>)
    ensures
        store::shaped(o, b) <==> {
            let page_size = image::word(o, b, 0);
            &&& num::power_of_two(page_size)
            &&& 272 <= page_size <= b.len()
            &&& b.len() as int % page_size == 0
        },
{
}

/// The bytes of a consistent store open again, to the same store: none of the
/// reasons for refusing them applies.
pub proof fn consistent_bytes_open_again(o: ByteOrder, b: Seq<u8>)
    requires
        store::shaped(o, b),
    ensures
        b.len() >= META_BYTES,
        num::power_of_two(image::word(o, b, 0)),
        META_BYTES <= image::word(o, b, 0),
        b.len() >= image::word(o, b, 0),
        b.len() as int % image::word(o, b, 0) == 0,
{
}

/// Every store opens again, whatever number of pages it has: opening its bytes in
/// its own order succeeds and gives the same bytes, so the same store.
pub proof fn every_store_opens_again(m: PageManager, r: Result<PageManager, OpenError>)
    requires
        m.wf(),
        manager::opened(m.order, m.image@, r),
    ensures
        r matches Ok(n) && n.image@ == m.image@ && n.order == m.order && n@ == m@ && n.wf(),
{
}

/// Bytes open exactly if they have the size of a store, and as they are, with
/// nothing dirty; what is refused is too short for the metadata, or has no page
/// size that a store can have, or is not a whole number of pages.
pub proof fn only_stores_open(
    o: ByteOrder,
    image: Seq<u8>,
    r: Result<PageManager, OpenError>,
)
    requires
        manager::opened(o, image, r),
    ensures
        r is Ok <==> store::shaped(o, image),
        r matches Ok(n) ==> n.image@ == image && n.order == o && n.dirty@.len() == 0,
        r matches Err(OpenError::TooSmall) <==> image.len() < 272,
        r matches Err(OpenError::InvalidPageSize) ==> image.len() >= 272 && !(num::power_of_two(
            image::word(o, image, 0),
        ) && image::word(o, image, 0) >= 272),
        r matches Err(OpenError::NotWholePages) ==> num::power_of_two(image::word(o, image, 0))
            && image::word(o, image, 0) >= 272 && (image.len() < image::word(o, image, 0)
            || image.len() as int % image::word(o, image, 0) != 0),
{
}

/// Recording a page as dirty adds at most one entry, so an allocation or a
/// release adds at most two.
pub proof fn recording_adds_at_most_one(d: Seq<PageId>, p: int)
    ensures
        d.len() <= manager::recorded(d, p).len() <= d.len() + 1,
        0 <= p <= usize::MAX ==> manager::recorded(d, p).contains(PageId(p as usize)),
{
    if !d.contains(PageId(p as usize)) {
        assert(manager::recorded(d, p)[d.len() as int] == PageId(p as usize));
    }
}

} // verus!
