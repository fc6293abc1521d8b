//! A stack of nodes that are linked through their own memory.
//!
//! The head is a tagged pointer. A node that is pushed is linked to the head
//! found before; a node that is popped leaves its link as the new head. The tag
//! of a node changes every time it is pushed, so a head that was read earlier
//! does not pass for the current one after the node has come and gone.
//!
//! [`PushOp`] and [`PopOp`] are the two operations taken apart: each call of
//! `step` performs exactly one access to shared memory.

use crate::ptr;
use crate::ptr::{AtomicTagged, TaggedPtr};
use std::collections::HashMap;
use vstd::prelude::*;
use vstd::std_specs::hash::*;

verus! {

/// A node of the stack.
#[derive(Clone, Copy, Debug)]
pub struct Node;

/// The shared words of a stack.
#[verifier::ext_equal]
pub struct StackView {
    /// The head, as a packed word.
    pub head: u64,
    /// The link of every node that has been linked, by its address.
    pub links: Map<u64, u64>,
}

/// The address in a packed word.
pub open spec fn node_of(word: u64) -> u64 {
    ptr::addr_of(word) as u64
}

/// What stands below entry `i` of a stack.
pub open spec fn below(list: Seq<u64>, i: int) -> u64 {
    if i <= 0 {
        0
    } else {
        list[i - 1]
    }
}

/// Whether `list` holds two different entries for one node.
pub open spec fn distinct(list: Seq<u64>) -> bool {
    forall|i: int, j: int|
        0 <= i < j < list.len() ==> node_of(#[trigger] list[i]) != node_of(#[trigger] list[j])
}

/// Whether a node is on the stack.
pub open spec fn stacked(list: Seq<u64>, node: u64) -> bool {
    exists|i: int| 0 <= i < list.len() && node_of(#[trigger] list[i]) == node
}

impl StackView {
    /// Whether entry `i` of a stack is in place: its node is linked to what
    /// stands below.
    pub open spec fn linked_at(self, list: Seq<u64>, i: int) -> bool {
        &&& node_of(list[i]) != 0
        &&& self.links.dom().contains(node_of(list[i]))
        &&& self.links[node_of(list[i])] == below(list, i)
    }

    /// Whether the words hold the stack `list`, from the bottom to the top.
    pub open spec fn threads(self, list: Seq<u64>) -> bool {
        &&& self.head == below(list, list.len() as int)
        &&& distinct(list)
        &&& forall|i: int| 0 <= i < list.len() ==> #[trigger] self.linked_at(list, i)
    }
}

/// A node that is not on the stack yet makes no entry double.
pub proof fn lemma_pushed_distinct(list: Seq<u64>, word: u64)
    requires
        distinct(list),
        !stacked(list, node_of(word)),
    ensures
        distinct(list.push(word)),
{
    let more = list.push(word);
    assert forall|i: int, j: int| 0 <= i < j < more.len() implies node_of(#[trigger] more[i])
        != node_of(#[trigger] more[j]) by {
        assert(more[i] == list[i]);
        if j < list.len() {
            assert(more[j] == list[j]);
        }
    }
}

/// What a push does next.
#[derive(Clone, Copy, Debug, PartialEq, Eq, Structural)]
pub enum PushStep {
    /// Reads the head.
    Load,
    /// Reads the head again.
    Check,
    /// Links the node to the head.
    Link,
    /// Makes the node the head, if the head has not changed.
    Swap,
    /// Nothing: the node is on the stack.
    Done,
}

/// A push in progress.
#[derive(Clone, Copy, Debug, PartialEq, Eq, Structural)]
pub struct PushOp {
    /// The node, as the packed word that becomes the head.
    pub word: u64,
    /// The head that was read.
    pub seen: u64,
    pub at: PushStep,
}

/// What a pop does next.
#[derive(Clone, Copy, Debug, PartialEq, Eq, Structural)]
pub enum PopStep {
    /// Reads the head.
    Load,
    /// Reads the head again.
    Check,
    /// Reads the link of the node at the head.
    Read,
    /// Makes the link the head, if the head has not changed.
    Swap,
    /// Nothing: the node is off the stack.
    Done,
    /// Nothing: the stack was empty.
    Empty,
}

/// A pop in progress.
#[derive(Clone, Copy, Debug, PartialEq, Eq, Structural)]
pub struct PopOp {
    /// The head that was read.
    pub seen: u64,
    /// The link that was read.
    pub next: u64,
    pub at: PopStep,
}

/// One step of a push.
pub open spec fn push_next(op: PushOp, w: StackView) -> (PushOp, StackView) {
    match op.at {
        PushStep::Load => (PushOp { seen: w.head, at: PushStep::Check, ..op }, w),
        PushStep::Check => if node_of(w.head) == node_of(op.seen) {
            (PushOp { at: PushStep::Link, ..op }, w)
        } else {
            (PushOp { at: PushStep::Load, ..op }, w)
        },
        PushStep::Link => (
            PushOp { at: PushStep::Swap, ..op },
            StackView { links: w.links.insert(node_of(op.word), op.seen), ..w },
        ),
        PushStep::Swap => if w.head == op.seen {
            (PushOp { at: PushStep::Done, ..op }, StackView { head: op.word, ..w })
        } else {
            (PushOp { at: PushStep::Load, ..op }, w)
        },
        PushStep::Done => (op, w),
    }
}

/// One step of a pop.
pub open spec fn pop_next(op: PopOp, w: StackView) -> (PopOp, StackView) {
    match op.at {
        PopStep::Load => if node_of(w.head) == 0 {
            (PopOp { seen: w.head, at: PopStep::Empty, ..op }, w)
        } else {
            (PopOp { seen: w.head, at: PopStep::Check, ..op }, w)
        },
        PopStep::Check => if node_of(w.head) == node_of(op.seen) {
            (PopOp { at: PopStep::Read, ..op }, w)
        } else {
            (PopOp { at: PopStep::Load, ..op }, w)
        },
        PopStep::Read => (PopOp { next: w.links[node_of(op.seen)], at: PopStep::Swap, ..op }, w),
        PopStep::Swap => if w.head == op.seen {
            (PopOp { at: PopStep::Done, ..op }, StackView { head: op.next, ..w })
        } else {
            (PopOp { at: PopStep::Load, ..op }, w)
        },
        PopStep::Done | PopStep::Empty => (op, w),
    }
}

/// A push links its own node and no other, below the head that it has seen, and
/// is over exactly when it has put the node in the place of that head. Where the
/// head has changed it starts over.
pub proof fn push_replaces_the_head_it_has_seen(op: PushOp, w: StackView, node: u64)
    ensures
        ({
            let (after, v) = push_next(op, w);
            &&& after.word == op.word
            &&& v.head != w.head ==> v.head == op.word && w.head == op.seen && op.at
                == PushStep::Swap
            &&& node != node_of(op.word) ==> v.links.dom().contains(node) == w.links.dom().contains(
                node,
            ) && v.links[node] == w.links[node]
            &&& v.links != w.links ==> op.at == PushStep::Link
            &&& after.at == PushStep::Swap ==> op.at == PushStep::Link && v.links.dom().contains(
                node_of(op.word),
            ) && v.links[node_of(op.word)] == op.seen && after.seen == op.seen
            &&& after.at == PushStep::Done && op.at != PushStep::Done ==> op.at == PushStep::Swap
                && v.head == op.word
            &&& op.at == PushStep::Swap ==> (after.at == PushStep::Done <==> w.head == op.seen) && (
            after.at == PushStep::Load <==> w.head != op.seen)
            &&& op.at == PushStep::Load ==> after.at == PushStep::Check && after.seen == w.head
            &&& op.at == PushStep::Check && w.head == op.seen ==> after.at == PushStep::Link
            &&& op.at == PushStep::Check ==> after.at == PushStep::Link || after.at
                == PushStep::Load
        }),
{
}

/// A pop changes no link, and is over exactly when it has put the link of the
/// head that it has seen in the place of that head, or when it has found no head.
/// Where the head has changed it starts over.
pub proof fn pop_replaces_the_head_it_has_seen(op: PopOp, w: StackView)
    ensures
        ({
            let (after, v) = pop_next(op, w);
            &&& v.links == w.links
            &&& v.head != w.head ==> v.head == op.next && w.head == op.seen && op.at
                == PopStep::Swap
            &&& after.at == PopStep::Swap ==> op.at == PopStep::Read && after.seen == op.seen
                && after.next == w.links[node_of(op.seen)]
            &&& after.at == PopStep::Done && op.at != PopStep::Done ==> op.at == PopStep::Swap
                && w.head == op.seen && v.head == op.next && after.seen == op.seen
            &&& after.at == PopStep::Empty && op.at != PopStep::Empty ==> op.at == PopStep::Load
                && node_of(w.head) == 0
            &&& op.at == PopStep::Load ==> after.seen == w.head && (after.at == PopStep::Empty
                <==> node_of(w.head) == 0) && (after.at == PopStep::Check <==> node_of(w.head) != 0)
            &&& op.at == PopStep::Swap ==> (after.at == PopStep::Done <==> w.head == op.seen) && (
            after.at == PopStep::Load <==> w.head != op.seen)
            &&& op.at == PopStep::Check && w.head == op.seen ==> after.at == PopStep::Read
            &&& op.at == PopStep::Check ==> after.at == PopStep::Read || after.at == PopStep::Load
        }),
{
}

/// The shared words of a stack.
pub struct StackWords {
    pub head: AtomicTagged<Node>,
    pub links: HashMap<u64, u64>,
}

impl View for StackWords {
    type V = StackView;

    open spec fn view(&self) -> StackView {
        StackView { head: self.head.inner, links: self.links@ }
    }
}

impl StackWords {
    /// The words of an empty stack.
    pub fn new() -> (r: Self)
        ensures
            r@.head == 0,
            r@.links == Map::<u64, u64>::empty(),
    {
        let null: TaggedPtr<Node> = TaggedPtr::new(0, 0);
        proof {
            ptr::packed_keeps_address_and_tag(0, 0);
        }
        StackWords { head: AtomicTagged::new(null), links: HashMap::new() }
    }
}

/// The tagged pointer that a word packs.
fn tagged(word: u64) -> (r: TaggedPtr<Node>)
    ensures
        r.inner == word,
{
    let (addr, tag) = ptr::tagged_to_ptr_tag(word);
    proof {
        ptr::packed_inverts_split(word);
    }
    TaggedPtr::new(addr, tag)
}

/// The address in a packed word.
pub fn node(word: u64) -> (r: u64)
    ensures
        r == node_of(word),
{
    let (addr, _) = ptr::tagged_to_ptr_tag(word);
    addr
}

impl PushOp {
    /// A push of a node that has not begun.
    pub fn start(word: u64) -> (r: Self)
        ensures
            r == (PushOp { word, seen: 0, at: PushStep::Load }),
    {
        PushOp { word, seen: 0, at: PushStep::Load }
    }

    /// Performs one step.
    pub fn step(&mut self, words: &mut StackWords)
        ensures
            (*final(self), final(words)@) == push_next(*old(self), old(words)@),
    {
        broadcast use group_hash_axioms;

        match self.at {
            PushStep::Load => {
                self.seen = words.head.load().inner;
                self.at = PushStep::Check;
            },
            PushStep::Check => {
                self.at = if words.head.load().ptr() == node(self.seen) {
                    PushStep::Link
                } else {
                    PushStep::Load
                };
            },
            PushStep::Link => {
                words.links.insert(node(self.word), self.seen);
                self.at = PushStep::Swap;
            },
            PushStep::Swap => {
                let won = words.head.compare_exchange_weak(tagged(self.seen), tagged(self.word));
                self.at = if won.is_ok() {
                    PushStep::Done
                } else {
                    PushStep::Load
                };
            },
            PushStep::Done => {},
        }
    }
}

impl PopOp {
    /// A pop that has not begun.
    pub fn start() -> (r: Self)
        ensures
            r == (PopOp { seen: 0, next: 0, at: PopStep::Load }),
    {
        PopOp { seen: 0, next: 0, at: PopStep::Load }
    }

    /// Performs one step.
    pub fn step(&mut self, words: &mut StackWords)
        requires
            old(self).at == PopStep::Read ==> old(words)@.links.dom().contains(
                node_of(old(self).seen),
            ),
        ensures
            (*final(self), final(words)@) == pop_next(*old(self), old(words)@),
    {
        broadcast use group_hash_axioms;

        match self.at {
            PopStep::Load => {
                let head: TaggedPtr<Node> = words.head.load();
                self.seen = head.inner;
                self.at = if head.ptr() == 0 {
                    PopStep::Empty
                } else {
                    PopStep::Check
                };
            },
            PopStep::Check => {
                self.at = if words.head.load().ptr() == node(self.seen) {
                    PopStep::Read
                } else {
                    PopStep::Load
                };
            },
            PopStep::Read => {
                if let Some(next) = words.links.get(&node(self.seen)) {
                    self.next = *next;
                }
                self.at = PopStep::Swap;
            },
            PopStep::Swap => {
                let won = words.head.compare_exchange_weak(tagged(self.seen), tagged(self.next));
                self.at = if won.is_ok() {
                    PopStep::Done
                } else {
                    PopStep::Load
                };
            },
            PopStep::Done | PopStep::Empty => {},
        }
    }
}

/// A stack of nodes.
pub struct TaggedStack {
    pub words: StackWords,
    pub list: Ghost<Seq<u64>>,
}

impl View for TaggedStack {
    type V = Seq<u64>;

    /// The packed words of the nodes on the stack, the top one last.
    open spec fn view(&self) -> Seq<u64> {
        self.list@
    }
}

impl TaggedStack {
    /// The words hold the stack.
    pub open spec fn wf(&self) -> bool {
        self.words@.threads(self@)
    }

    /// An empty stack.
    pub fn new() -> (r: Self)
        ensures
            r.wf(),
            r@.len() == 0,
    {
        TaggedStack { words: StackWords::new(), list: Ghost(Seq::empty()) }
    }

    /// The head: the top of the stack, or null if it is empty.
    pub fn head(&self) -> (r: TaggedPtr<Node>)
        requires
            self.wf(),
        ensures
            r.inner == below(self@, self@.len() as int),
            node_of(r.inner) == 0 <==> self@.len() == 0,
    {
        assert(self@.len() > 0 ==> self.words@.linked_at(self@, self@.len() - 1));
        self.words.head.load()
    }

    /// The nodes on the stack, the top one first.
    pub fn items(&self) -> (r: Vec<TaggedPtr<Node>>)
        requires
            self.wf(),
        ensures
            r@.len() == self@.len(),
            forall|i: int|
                0 <= i < r@.len() ==> (#[trigger] r@[i]).inner == self@[self@.len() - 1 - i],
    {
        broadcast use group_hash_axioms;

        let mut r: Vec<TaggedPtr<Node>> = Vec::new();
        let mut current: TaggedPtr<Node> = self.words.head.load();
        while current.ptr() != 0
            invariant
                self.wf(),
                r@.len() <= self@.len(),
                current.inner == below(self@, self@.len() - r@.len()),
                forall|i: int|
                    0 <= i < r@.len() ==> (#[trigger] r@[i]).inner == self@[self@.len() - 1 - i],
            decreases self@.len() - r@.len(),
        {
            let ghost at = self@.len() - r@.len() - 1;
            assert(self.words@.linked_at(self@, at));
            r.push(current);
            if let Some(next) = self.words.links.get(&current.ptr()) {
                current = tagged(*next);
            }
        }
        proof {
            if r@.len() < self@.len() {
                assert(self.words@.linked_at(self@, self@.len() - r@.len() - 1));
            }
        }
        r
    }

    /// Takes all nodes off the stack and hands them over, the top one first.
    pub fn drain(&mut self, released: &mut Vec<u64>)
        requires
            old(self).wf(),
        ensures
            final(self).wf(),
            final(self)@.len() == 0,
            final(released)@ == old(released)@ + Seq::new(
                old(self)@.len(),
                |i: int| node_of(old(self)@[old(self)@.len() - 1 - i]),
            ),
    {
        let ghost all = self@;
        let ghost n = all.len() as int;
        let ghost given = released@;
        assert(given =~= given + Seq::new(0, |i: int| node_of(all[n - 1 - i])));
        assert(self@ =~= all.take(n));
        let mut top: Option<TaggedPtr<Node>> = self.pop();
        while top.is_some()
            invariant
                self.wf(),
                n == all.len(),
                distinct(all),
                top is None ==> self@.len() == 0,
                top matches Some(t) ==> self@.len() < n && t.inner == all[self@.len() as int],
                self@ == all.take(self@.len() as int),
                released@ == given + Seq::new(
                    (n - self@.len() - if top is Some {
                        1int
                    } else {
                        0int
                    }) as nat,
                    |i: int| node_of(all[n - 1 - i]),
                ),
            decreases
                    self@.len(),
                    if top is Some {
                        1int
                    } else {
                        0int
                    },
        {
            let ghost k = self@.len() as int;
            let ghost before = released@;
            if let Some(t) = top {
                released.push(node(t.inner));
            }
            top = self.pop();
            proof {
                assert(released@ =~= given + Seq::new(
                    (n - k) as nat,
                    |i: int| node_of(all[n - 1 - i]),
                ));
                assert(self@ =~= all.take(self@.len() as int));
            }
        }
    }

    /// Puts a node on the stack.
    pub fn push(&mut self, node: TaggedPtr<Node>)
        requires
            old(self).wf(),
            node_of(node.inner) != 0,
            !stacked(old(self)@, node_of(node.inner)),
        ensures
            final(self).wf(),
            final(self)@ == old(self)@.push(node.inner),
    {
        let ghost before = self.words@;
        let ghost list = self@;
        let mut op = PushOp::start(node.inner);
        op.step(&mut self.words);
        op.step(&mut self.words);
        op.step(&mut self.words);
        op.step(&mut self.words);
        self.list = Ghost(self.list@.push(node.inner));
        proof {
            assert forall|i: int| 0 <= i < self@.len() implies #[trigger] self.words@.linked_at(
                self@,
                i,
            ) by {
                if i < list.len() {
                    assert(before.linked_at(list, i));
                    assert(node_of(list[i]) != node_of(node.inner));
                }
            }
            lemma_pushed_distinct(list, node.inner);
        }
    }

    /// Takes the top node off the stack.
    pub fn pop(&mut self) -> (r: Option<TaggedPtr<Node>>)
        requires
            old(self).wf(),
        ensures
            final(self).wf(),
            r is None <==> old(self)@.len() == 0,
            r is None ==> final(self)@ == old(self)@,
            r matches Some(node) ==> node.inner == old(self)@.last() && final(self)@ == old(
                self,
            )@.drop_last(),
    {
        let ghost before = self.words@;
        let ghost list = self@;
        let mut op = PopOp::start();
        assert(list.len() > 0 ==> before.linked_at(list, list.len() - 1));
        op.step(&mut self.words);
        if op.at == PopStep::Empty {
            return None;
        }
        op.step(&mut self.words);
        op.step(&mut self.words);
        op.step(&mut self.words);
        self.list = Ghost(self.list@.drop_last());
        proof {
            assert forall|i: int| 0 <= i < self@.len() implies #[trigger] self.words@.linked_at(
                self@,
                i,
            ) by {
                assert(before.linked_at(list, i));
            }
        }
        Some(tagged(op.seen))
    }

    /// Forgets the link of a node that is not on the stack and whose memory is
    /// given back.
    pub fn forget(&mut self, node: u64)
        requires
            old(self).wf(),
            !stacked(old(self)@, node),
        ensures
            final(self).wf(),
            final(self)@ == old(self)@,
            final(self).words@ == (StackView {
                links: old(self).words@.links.remove(node),
                ..old(self).words@
            }),
    {
        broadcast use group_hash_axioms;

        let ghost before = self.words@;
        self.words.links.remove(&node);
        assert forall|i: int| 0 <= i < self@.len() implies #[trigger] self.words@.linked_at(
            self@,
            i,
        ) by {
            assert(before.linked_at(self@, i));
            assert(node_of(self@[i]) != node);
        }
    }
}

} // verus!
