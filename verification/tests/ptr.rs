use milkyapps_core::ptr::{AtomicTagged, TaggedPtr};

const P: u64 = 0x7fff_5fbf_e8c0;

#[test]
fn tagged_ptr_roundtrip_preserves_ptr_and_tag() {
    for tag in [0u16, 1, 2, 42, u16::MAX - 1, u16::MAX] {
        let tp = TaggedPtr::<u64>::new(P, tag);
        assert_eq!(tp.ptr(), P, "ptr must survive tagging for tag {tag}");
        assert_eq!(
            tp.inner,
            TaggedPtr::<u64>::new(P, tag).inner,
            "tagged inner must be reproducible for tag {tag}"
        );
    }
}

#[test]
fn distinct_tags_produce_distinct_inner() {
    let a = TaggedPtr::<u64>::new(P, 0).inner;
    let b = TaggedPtr::<u64>::new(P, 1).inner;
    let c = TaggedPtr::<u64>::new(P, u16::MAX).inner;
    assert_ne!(a, b, "tag 0 and 1 must differ");
    assert_ne!(b, c, "tag 1 and MAX must differ");
    assert_ne!(a, c, "tag 0 and MAX must differ");
}

#[test]
fn wrapping_add_tag_wraps_at_u16_max() {
    let mut tp = TaggedPtr::<u64>::new(P, u16::MAX);
    tp.wrapping_add_tag(1);
    assert_eq!(tp.ptr(), P, "ptr unchanged by tag wrap");
    assert_eq!(
        tp.inner,
        TaggedPtr::<u64>::new(P, 0).inner,
        "tag must wrap from MAX to 0"
    );

    tp.wrapping_add_tag(2);
    assert_eq!(
        tp.inner,
        TaggedPtr::<u64>::new(P, 2).inner,
        "wrap then add 2 -> tag 2"
    );
}

#[test]
fn byte_add_sub_preserve_tag_and_roundtrip() {
    let base = P;
    let tag = 7;

    let tp = TaggedPtr::<u8>::new(base, tag);
    let advanced = tp.byte_add::<u8>(8);
    assert_eq!(advanced.ptr(), base + 8);
    assert_eq!(
        advanced.inner,
        TaggedPtr::<u8>::new(base + 8, tag).inner,
        "byte_add must preserve the tag"
    );

    let back = advanced.byte_sub::<u8>(8);
    assert_eq!(
        back.inner, tp.inner,
        "byte_sub must restore the original tagged pointer"
    );
}

#[test]
fn tagged_ptr_null_roundtrip() {
    let tp = TaggedPtr::<u64>::new(0, 7);
    assert!(tp.ptr() == 0);
    assert_eq!(tp.inner, TaggedPtr::<u64>::new(0, 7).inner);
}

#[test]
fn atomic_tagged_cas_respects_tag() {
    let mut a = AtomicTagged::<u64>::new(TaggedPtr::new(P, 0));
    assert_eq!(a.load().inner, TaggedPtr::<u64>::new(P, 0).inner);

    let wrong = a.compare_exchange_weak(TaggedPtr::new(P, 1), TaggedPtr::new(P, 2));
    assert!(wrong.is_err(), "CAS with wrong tag must fail");
    assert_eq!(a.load().inner, TaggedPtr::<u64>::new(P, 0).inner);

    let mut ok = Err(TaggedPtr::<u64>::new(P, 0));
    for _ in 0..64 {
        if a.compare_exchange_weak(TaggedPtr::new(P, 0), TaggedPtr::new(P, 5))
            .is_ok()
        {
            ok = Ok(TaggedPtr::<u64>::new(P, 5));
            break;
        }
    }
    assert!(
        ok.is_ok(),
        "CAS with matching tag must succeed (after retrying spurious failures)"
    );
    assert_eq!(a.load().inner, TaggedPtr::<u64>::new(P, 5).inner);
}

/// Two takers of turns, each with a load and an exchange of its own, in every
/// order of these accesses.
#[test]
fn atomic_tagged_concurrent_cas_flips_cleanly() {
    for schedule in 0u32..256 {
        let mut a = AtomicTagged::<u64>::new(TaggedPtr::new(P, 0));
        let t0 = TaggedPtr::<u64>::new(P, 0);
        let t1 = TaggedPtr::<u64>::new(P, 1);
        let mut ops = 0;
        let mut seen = [t0, t0];
        let mut loaded = [false, false];
        let mut rounds = [0, 0];
        let mut bits = schedule;
        while rounds[0] < 4 || rounds[1] < 4 {
            let wanted = (bits & 1) as usize;
            bits = bits.rotate_right(1);
            let who = if rounds[wanted] < 4 { wanted } else { 1 - wanted };
            if loaded[who] {
                let target = if seen[who].inner == t0.inner { t1 } else { t0 };
                if a.compare_exchange_weak(seen[who], target).is_ok() {
                    ops += 1;
                }
                loaded[who] = false;
                rounds[who] += 1;
            } else {
                seen[who] = a.load();
                loaded[who] = true;
            }
        }

        let last = a.load();
        assert_eq!(last.ptr(), P, "ptr must be unchanged by tag-only CAS");
        assert!(
            last.inner == t0.inner || last.inner == t1.inner,
            "final tag must be 0 or 1, got a corrupted packed value"
        );
        assert!(ops > 0, "at least one CAS must succeed");
    }
}

#[test]
fn atomic_tagged_store_load_roundtrip() {
    let mut a = AtomicTagged::<u64>::new(TaggedPtr::new(P, 0));

    let tagged = TaggedPtr::new(P, 123);
    a.store(tagged);
    let loaded = a.load();
    assert_eq!(
        loaded.inner, tagged.inner,
        "store/load must round-trip the tag"
    );
    assert_eq!(loaded.ptr(), P, "store/load must round-trip the ptr");
}

#[test]
fn packed_word_is_tag_above_address() {
    let tp = TaggedPtr::<u64>::new(0x1234, 0x00ab);
    assert_eq!(tp.inner, 0x00ab_0000_0000_1234);
    let copy = tp;
    assert_eq!(copy.clone().inner, tp.inner);
}
