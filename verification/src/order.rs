//! Sorting lists of words.

use vstd::multiset::*;
use vstd::prelude::*;
use vstd::relations::*;
use vstd::seq_lib::*;

verus! {

/// The numbers that a list of words holds.
pub open spec fn ints(s: Seq<u64>) -> Seq<int> {
    s.map_values(|x: u64| x as int)
}

/// Whether the words of a list do not get smaller.
pub open spec fn ascending(s: Seq<u64>) -> bool {
    forall|i: int, j: int| 0 <= i <= j < s.len() ==> s[i] <= s[j]
}

/// Whether the words of a list get larger from one to the next.
pub open spec fn increasing(s: Seq<u64>) -> bool {
    forall|i: int, j: int| 0 <= i < j < s.len() ==> s[i] < s[j]
}

/// An ascending list is the sorted form of every list with the same words.
pub proof fn lemma_ascending_is_sorted(a: Seq<u64>, s: Seq<u64>)
    requires
        ascending(a),
        ints(a).to_multiset() == ints(s).to_multiset(),
    ensures
        ints(a) == ints(s).sort(),
{
    let leq = |x: int, y: int| x <= y;
    ints(s).lemma_sort_ensures();
    assert(sorted_by(ints(a), leq)) by {
        assert forall|i: int, j: int| 0 <= i < j < ints(a).len() implies #[trigger] leq(
            ints(a)[i],
            ints(a)[j],
        ) by {
            assert(a[i] <= a[j]);
        }
    }
    lemma_sorted_unique(ints(a), ints(s).sort(), leq);
}

/// The words of a finite set, in order.
pub open spec fn in_order(s: Set<u64>) -> Seq<u64> {
    choose|q: Seq<u64>| increasing(q) && #[trigger] q.to_set() == s
}

/// Two lists that get larger from one word to the next and hold the same words
/// are equal.
pub proof fn lemma_increasing_unique(a: Seq<u64>, b: Seq<u64>)
    requires
        increasing(a),
        increasing(b),
        a.to_set() == b.to_set(),
    ensures
        a == b,
    decreases a.len(),
{
    if a.len() == 0 {
        if b.len() > 0 {
            assert(b.to_set().contains(b[0]));
            assert(a.contains(b[0]));
        }
        assert(a =~= b);
    } else if b.len() == 0 {
        assert(a.to_set().contains(a[0]));
        assert(b.contains(a[0]));
    } else {
        let x = a.last();
        let y = b.last();
        assert(a.to_set().contains(x)) by {
            assert(a[a.len() - 1] == x);
        }
        assert(b.to_set().contains(y)) by {
            assert(b[b.len() - 1] == y);
        }
        assert(b.contains(x));
        assert(a.contains(y));
        let i = choose|i: int| 0 <= i < b.len() && b[i] == x;
        let j = choose|j: int| 0 <= j < a.len() && a[j] == y;
        assert(x == y) by {
            if i < b.len() - 1 && j < a.len() - 1 {
                assert(b[i] < b[b.len() - 1]);
                assert(a[j] < a[a.len() - 1]);
            }
        }
        let p = a.drop_last();
        let q = b.drop_last();
        assert forall|w: u64| p.to_set().contains(w) <==> q.to_set().contains(w) by {
            if p.contains(w) {
                let k = choose|k: int| 0 <= k < p.len() && p[k] == w;
                assert(a[k] == w);
                assert(a.to_set().contains(w));
                assert(b.contains(w));
                let m = choose|m: int| 0 <= m < b.len() && b[m] == w;
                assert(a[k] < a[a.len() - 1]);
                assert(q[m] == w);
            }
            if q.contains(w) {
                let k = choose|k: int| 0 <= k < q.len() && q[k] == w;
                assert(b[k] == w);
                assert(b.to_set().contains(w));
                assert(a.contains(w));
                let m = choose|m: int| 0 <= m < a.len() && a[m] == w;
                assert(b[k] < b[b.len() - 1]);
                assert(p[m] == w);
            }
        }
        assert(p.to_set() =~= q.to_set());
        lemma_increasing_unique(p, q);
        assert(a =~= p.push(x));
        assert(b =~= q.push(y));
    }
}

/// A list that gets larger from one word to the next is its set in order.
pub proof fn lemma_in_order(q: Seq<u64>)
    requires
        increasing(q),
    ensures
        in_order(q.to_set()) == q,
        q.to_set().finite(),
        q.to_set().len() == q.len(),
{
    lemma_increasing_unique(in_order(q.to_set()), q);
    assert(q.no_duplicates());
    q.unique_seq_to_set();
    seq_to_set_is_finite(q);
}

/// A finite set can be put in order.
pub proof fn lemma_set_in_order(s: Set<u64>)
    requires
        s.finite(),
    ensures
        increasing(in_order(s)),
        in_order(s).to_set() == s,
        in_order(s).no_duplicates(),
        in_order(s).len() == s.len(),
    decreases s.len(),
{
    assert(exists|q: Seq<u64>| increasing(q) && #[trigger] q.to_set() == s) by {
        if s.len() == 0 {
            let q = Seq::<u64>::empty();
            assert(q.to_set() =~= s);
            assert(increasing(q));
        } else {
            let top = lemma_largest(s);
            let rest = s.remove(top);
            lemma_set_in_order(rest);
            let front = in_order(rest);
            let q = front.push(top);
            assert forall|i: int, j: int| 0 <= i < j < q.len() implies q[i] < q[j] by {
                assert(front.to_set().contains(front[i]));
                assert(rest.contains(front[i]));
                if j < front.len() {
                    assert(front[i] < front[j]);
                }
            }
            assert forall|x: u64| q.to_set().contains(x) <==> s.contains(x) by {
                if q.contains(x) {
                    let i = choose|i: int| 0 <= i < q.len() && q[i] == x;
                    if i < front.len() {
                        assert(front.to_set().contains(front[i]));
                    }
                }
                if s.contains(x) && x != top {
                    assert(rest.contains(x));
                    assert(front.to_set().contains(x));
                    let i = choose|i: int| 0 <= i < front.len() && front[i] == x;
                    assert(q[i] == x);
                }
                assert(q[front.len() as int] == top);
            }
            assert(q.to_set() =~= s);
            assert(increasing(q));
        }
    }
    lemma_in_order(in_order(s));
}

/// A finite set that is not empty has a largest word.
proof fn lemma_largest(s: Set<u64>) -> (top: u64)
    requires
        s.finite(),
        s.len() > 0,
    ensures
        s.contains(top),
        forall|x: u64| s.contains(x) ==> x <= top,
    decreases s.len(),
{
    let a = s.choose();
    let rest = s.remove(a);
    if rest.len() == 0 {
        assert forall|x: u64| s.contains(x) implies x <= a by {
            if x != a {
                assert(rest.contains(x));
            }
        }
        a
    } else {
        let b = lemma_largest(rest);
        let top = if a > b {
            a
        } else {
            b
        };
        assert forall|x: u64| s.contains(x) implies x <= top by {
            if x != a {
                assert(rest.contains(x));
            }
        }
        top
    }
}

/// Puts a word into an ascending list, in front of the words that are larger.
pub fn insert_ascending(v: &mut Vec<u64>, x: u64)
    requires
        ascending(old(v)@),
    ensures
        ascending(final(v)@),
        exists|i: int| 0 <= i <= old(v)@.len() && final(v)@ == old(v)@.insert(i, x),
{
    let mut i: usize = v.len();
    while i > 0 && v[i - 1] > x
        invariant
            i <= v@.len(),
            v@ == old(v)@,
            ascending(v@),
            forall|j: int| i <= j < v@.len() ==> v@[j] > x,
        decreases i,
    {
        i = i - 1;
    }
    v.insert(i, x);
    assert(v@ == old(v)@.insert(i as int, x));
}

/// The words of a list in ascending order.
pub fn sorted(v: &Vec<u64>) -> (r: Vec<u64>)
    ensures
        ascending(r@),
        r@.len() == v@.len(),
        ints(r@) == ints(v@).sort(),
        forall|x: u64| r@.contains(x) <==> v@.contains(x),
{
    let mut r: Vec<u64> = Vec::new();
    let mut i: usize = 0;
    assert(v@.take(0) =~= r@);
    while i < v.len()
        invariant
            i <= v@.len(),
            ascending(r@),
            r@.to_multiset() == v@.take(i as int).to_multiset(),
            ints(r@).to_multiset() == ints(v@.take(i as int)).to_multiset(),
        decreases v@.len() - i,
    {
        let ghost before = r@;
        let x: u64 = v[i];
        insert_ascending(&mut r, x);
        proof {
            broadcast use group_to_multiset_ensures;

            let at = choose|k: int| 0 <= k <= before.len() && r@ == before.insert(k, x);
            assert(v@.take(i + 1) =~= v@.take(i as int).push(x));
            to_multiset_insert(before, at, x);
            assert(ints(r@) =~= ints(before).insert(at, x as int));
            to_multiset_insert(ints(before), at, x as int);
            assert(ints(v@.take(i + 1)) =~= ints(v@.take(i as int)).push(x as int));
        }
        i = i + 1;
    }
    proof {
        assert(v@.take(i as int) =~= v@);
        lemma_ascending_is_sorted(r@, v@);
        assert forall|x: u64| r@.contains(x) <==> v@.contains(x) by {
            to_multiset_contains(r@, x);
            to_multiset_contains(v@, x);
        }
        to_multiset_len(r@);
        to_multiset_len(v@);
    }
    r
}

/// The words of an ascending list, each once.
pub fn without_repeats(v: &Vec<u64>) -> (r: Vec<u64>)
    requires
        ascending(v@),
    ensures
        increasing(r@),
        forall|x: u64| r@.contains(x) <==> v@.contains(x),
{
    let mut r: Vec<u64> = Vec::new();
    let mut i: usize = 0;
    while i < v.len()
        invariant
            i <= v@.len(),
            ascending(v@),
            increasing(r@),
            forall|k: int| 0 <= k < r@.len() ==> v@.take(i as int).contains(#[trigger] r@[k]),
            forall|k: int| 0 <= k < i ==> r@.contains(#[trigger] v@[k]),
            r@.len() == 0 <==> i == 0,
            r@.len() > 0 ==> r@.last() == v@[i - 1],
        decreases v@.len() - i,
    {
        let ghost before = r@;
        let x: u64 = v[i];
        if r.len() == 0 || r[r.len() - 1] != x {
            proof {
                assert forall|k: int| 0 <= k < before.len() implies before[k] < x by {
                    assert(before[k] <= before.last());
                }
            }
            r.push(x);
            proof {
                assert(r@.last() == x);
                assert forall|k: int| 0 <= k < i implies r@.contains(#[trigger] v@[k]) by {
                    let m = choose|m: int| 0 <= m < before.len() && before[m] == v@[k];
                    assert(r@[m] == v@[k]);
                }
                assert(r@[before.len() as int] == x);
            }
        }
        proof {
            assert forall|k: int| 0 <= k < r@.len() implies v@.take(i + 1).contains(
                #[trigger] r@[k],
            ) by {
                if k < before.len() {
                    assert(v@.take(i as int).contains(before[k]));
                    let m = choose|m: int|
                        0 <= m < v@.take(i as int).len() && v@.take(i as int)[m] == before[k];
                    assert(v@.take(i + 1)[m] == r@[k]);
                } else {
                    assert(v@.take(i + 1)[i as int] == r@[k]);
                }
            }
        }
        i = i + 1;
    }
    proof {
        assert(v@.take(i as int) =~= v@);
        assert forall|x: u64| r@.contains(x) <==> v@.contains(x) by {
            if r@.contains(x) {
                let k = choose|k: int| 0 <= k < r@.len() && r@[k] == x;
                assert(v@.contains(r@[k]));
            }
            if v@.contains(x) {
                let k = choose|k: int| 0 <= k < v@.len() && v@[k] == x;
                assert(r@.contains(v@[k]));
            }
        }
    }
    r
}

} // verus!
