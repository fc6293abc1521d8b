//! Any number of threads on one stack.
//!
//! A [`Crowd`] is a stack together with the pushes and pops that are in
//! progress on it, the hazard slots of the pops, and the nodes that wait for
//! release. Each of its steps is one step of one of these operations, so what
//! holds after every step holds however the operations are interleaved.
//!
//! A pop publishes the node that it has seen before it looks at the head again,
//! and reads the link of the node only if it is still at the head. A node that
//! is off the stack is released once every slot has been looked at and did not
//! publish it. So the memory of a node is there whenever a pop reads it.

use super::stack;
use super::stack::{PopOp, PopStep, PushOp, PushStep, StackView};
use vstd::prelude::*;

verus! {

/// A stack and the operations in progress on it.
pub struct Crowd {
    pub words: StackView,
    /// The nodes on the stack, the top one last.
    pub list: Seq<u64>,
    pub pushes: Map<int, PushOp>,
    /// The pops, each by the hazard slot that it uses.
    pub pops: Map<int, PopOp>,
    /// The node that every hazard slot publishes, 0 for none.
    pub hazards: Map<int, u64>,
    /// The nodes that wait for release, each with the slots that have been
    /// looked at for it and did not publish it.
    pub doomed: Map<u64, Set<int>>,
}

impl Crowd {
    /// A push that owns its node: the node is not on the stack and does not wait
    /// for release, and where it has been linked the link is in place.
    pub open spec fn push_ok(self, op: PushOp) -> bool {
        let node = stack::node_of(op.word);
        &&& node != 0
        &&& op.at != PushStep::Done ==> !stack::stacked(self.list, node)
            && !self.doomed.dom().contains(node)
        &&& op.at == PushStep::Swap ==> self.words.links.dom().contains(node)
            && self.words.links[node] == op.seen
    }

    /// Whether the pop of a slot relies on a node: it has published it and then
    /// found it at the head, and has not finished with it.
    pub open spec fn relies(self, id: int, node: u64) -> bool {
        &&& self.pops.dom().contains(id)
        &&& self.pops[id].at == PopStep::Read || self.pops[id].at == PopStep::Swap
        &&& stack::node_of(self.pops[id].seen) == node
    }

    /// A pop that knows what it does: the node it relies on is published and
    /// can be read, and if it is still on the stack as it was seen, the link
    /// that was read leads to what is below it.
    pub open spec fn pop_ok(self, id: int) -> bool {
        let op = self.pops[id];
        &&& self.hazards.dom().contains(id)
        &&& op.at == PopStep::Check || op.at == PopStep::Read || op.at == PopStep::Swap
            ==> stack::node_of(op.seen) != 0
        &&& op.at == PopStep::Read || op.at == PopStep::Swap ==> {
            &&& self.hazards[id] == stack::node_of(op.seen)
            &&& self.words.links.dom().contains(stack::node_of(op.seen))
        }
        &&& op.at == PopStep::Swap ==> forall|i: int|
            0 <= i < self.list.len() && #[trigger] self.list[i] == op.seen ==> op.next
                == stack::below(self.list, i)
    }

    /// A node that waits for release: it is not on the stack, and no pop whose
    /// slot has been looked at relies on it.
    pub open spec fn doomed_ok(self, node: u64) -> bool {
        &&& node != 0
        &&& !stack::stacked(self.list, node)
        &&& forall|id: int| #[trigger] self.doomed[node].contains(id) ==> !self.relies(id, node)
    }

    /// What always holds.
    pub open spec fn consistent(self) -> bool {
        &&& self.words.threads(self.list)
        &&& forall|id: int| self.pushes.dom().contains(id) ==> self.push_ok(
            #[trigger] self.pushes[id],
        )
        &&& forall|a: int, b: int|
            #![trigger self.pushes[a], self.pushes[b]]
            self.pushes.dom().contains(a) && self.pushes.dom().contains(b) && a != b
                && self.pushes[a].at != PushStep::Done && self.pushes[b].at != PushStep::Done
                ==> stack::node_of(self.pushes[a].word) != stack::node_of(self.pushes[b].word)
        &&& forall|id: int| self.pops.dom().contains(id) ==> #[trigger] self.pop_ok(id)
        &&& forall|node: u64| self.doomed.dom().contains(node) ==> #[trigger] self.doomed_ok(node)
    }

    /// Whether a node belongs to nobody on this stack: it is not on it, nobody
    /// is putting it there, and it does not wait for release.
    pub open spec fn loose(self, node: u64) -> bool {
        &&& node != 0
        &&& !stack::stacked(self.list, node)
        &&& !self.doomed.dom().contains(node)
        &&& forall|id: int|
            self.pushes.dom().contains(id) && (#[trigger] self.pushes[id]).at != PushStep::Done
                ==> stack::node_of(self.pushes[id].word) != node
    }

    /// A push begins.
    pub open spec fn start_push(self, id: int, word: u64) -> Crowd {
        Crowd {
            pushes: self.pushes.insert(id, PushOp { word, seen: 0, at: PushStep::Load }),
            ..self
        }
    }

    /// Whether a slot is free for a pop: none uses it, or one that has finished.
    pub open spec fn idle(self, id: int) -> bool {
        &&& self.hazards.dom().contains(id)
        &&& self.pops.dom().contains(id) ==> self.pops[id].at == PopStep::Done || self.pops[id].at
            == PopStep::Empty
    }

    /// A pop begins.
    pub open spec fn start_pop(self, id: int) -> Crowd {
        Crowd {
            pops: self.pops.insert(id, PopOp { seen: 0, next: 0, at: PopStep::Load }),
            ..self
        }
    }

    /// One step of a push.
    pub open spec fn step_push(self, id: int) -> Crowd {
        let op = self.pushes[id];
        let (after, words) = stack::push_next(op, self.words);
        Crowd {
            words,
            list: if op.at == PushStep::Swap && after.at == PushStep::Done {
                self.list.push(op.word)
            } else {
                self.list
            },
            pushes: self.pushes.insert(id, after),
            ..self
        }
    }

    /// One step of a pop.
    pub open spec fn step_pop(self, id: int) -> Crowd {
        let op = self.pops[id];
        let (after, words) = stack::pop_next(op, self.words);
        Crowd {
            words,
            list: if op.at == PopStep::Swap && after.at == PopStep::Done {
                self.list.drop_last()
            } else {
                self.list
            },
            pops: self.pops.insert(id, after),
            ..self
        }
    }

    /// A push that was about to make its node the head has to start again, though
    /// the head has not changed.
    pub open spec fn retry_push(self, id: int) -> Crowd {
        Crowd {
            pushes: self.pushes.insert(id, PushOp { at: PushStep::Load, ..self.pushes[id] }),
            ..self
        }
    }

    /// A pop that was about to take its node has to start again, though the head
    /// has not changed.
    pub open spec fn retry_pop(self, id: int) -> Crowd {
        Crowd {
            pops: self.pops.insert(id, PopOp { at: PopStep::Load, ..self.pops[id] }),
            ..self
        }
    }

    /// A slot publishes a node, or 0 for none.
    pub open spec fn publish(self, id: int, node: u64) -> Crowd {
        Crowd { hazards: self.hazards.insert(id, node), ..self }
    }

    /// Whether the pop of a slot relies on some node.
    pub open spec fn relying(self, id: int) -> bool {
        self.pops.dom().contains(id) && (self.pops[id].at == PopStep::Read || self.pops[id].at
            == PopStep::Swap)
    }

    /// A node that is off the stack is to be released.
    pub open spec fn retire(self, node: u64) -> Crowd {
        Crowd { doomed: self.doomed.insert(node, Set::empty()), ..self }
    }

    /// A slot is looked at for a node that waits for release. Where it publishes
    /// the node, the search begins anew.
    pub open spec fn look(self, node: u64, id: int) -> Crowd {
        let seen = if self.hazards[id] == node {
            Set::empty()
        } else {
            self.doomed[node].insert(id)
        };
        Crowd { doomed: self.doomed.insert(node, seen), ..self }
    }

    /// The slots that do not publish a node.
    pub open spec fn clear_of(self, node: u64) -> Set<int> {
        self.hazards.dom().filter(|id: int| self.hazards[id] != node)
    }

    /// Every slot is looked at for every node that waits for release; one that
    /// publishes the node has to be looked at again.
    pub open spec fn survey(self) -> Crowd {
        Crowd {
            doomed: Map::new(
                |n: u64| self.doomed.dom().contains(n),
                |n: u64| self.doomed[n].union(self.clear_of(n)),
            ),
            ..self
        }
    }

    /// Whether all slots have been looked at for a node.
    pub open spec fn searched(self, node: u64) -> bool {
        &&& self.doomed.dom().contains(node)
        &&& forall|id: int| #[trigger]
            self.hazards.dom().contains(id) ==> self.doomed[node].contains(id)
    }

    /// The memory of a node is given back: nothing can be read from it any more.
    pub open spec fn release(self, node: u64) -> Crowd {
        Crowd {
            words: StackView { links: self.words.links.remove(node), ..self.words },
            doomed: self.doomed.remove(node),
            ..self
        }
    }

    /// A node that waited for release is used again instead.
    pub open spec fn recall(self, node: u64) -> Crowd {
        Crowd { doomed: self.doomed.remove(node), ..self }
    }

    /// Whether no pop that is about to take its node expects exactly this word
    /// as the head. The tag of a node sees to it: it is another one at every
    /// push, until it has gone through all its values.
    pub open spec fn unexpected(self, word: u64) -> bool {
        forall|id: int|
            self.pops.dom().contains(id) && (#[trigger] self.pops[id]).at == PopStep::Swap
                ==> self.pops[id].seen != word
    }
}

/// A node that is not on the stack is not on it after another one has been
/// pushed either.
proof fn lemma_still_loose(list: Seq<u64>, word: u64, node: u64)
    requires
        !stack::stacked(list, node),
        stack::node_of(word) != node,
    ensures
        !stack::stacked(list.push(word), node),
{
    if stack::stacked(list.push(word), node) {
        let i = choose|i: int|
            0 <= i < list.push(word).len() && stack::node_of(#[trigger] list.push(word)[i])
                == node;
        assert(list.push(word)[i] == if i < list.len() {
            list[i]
        } else {
            word
        });
        if i < list.len() {
            assert(stack::node_of(list[i]) == node);
        }
    }
}

/// Taking the top off a stack puts nothing on it.
proof fn lemma_popped_loose(list: Seq<u64>)
    requires
        list.len() > 0,
        stack::distinct(list),
    ensures
        !stack::stacked(list.drop_last(), stack::node_of(list.last())),
        forall|node: u64|
            !stack::stacked(list, node) ==> !#[trigger] stack::stacked(list.drop_last(), node),
{
    let rest = list.drop_last();
    assert forall|node: u64| !stack::stacked(list, node) implies !#[trigger] stack::stacked(
        rest,
        node,
    ) by {
        if stack::stacked(rest, node) {
            let i = choose|i: int|
                0 <= i < rest.len() && stack::node_of(#[trigger] rest[i]) == node;
            assert(stack::node_of(list[i]) == node);
        }
    }
    if stack::stacked(rest, stack::node_of(list.last())) {
        let i = choose|i: int|
            0 <= i < rest.len() && stack::node_of(#[trigger] rest[i]) == stack::node_of(
                list.last(),
            );
        assert(list[i] == rest[i]);
        assert(list[list.len() - 1] == list.last());
    }
}

/// A stack on which nobody works is consistent.
pub proof fn quiet_stack_is_consistent(words: StackView, list: Seq<u64>, hazards: Map<int, u64>)
    requires
        words.threads(list),
    ensures
        (Crowd {
            words,
            list,
            pushes: Map::empty(),
            pops: Map::empty(),
            hazards,
            doomed: Map::empty(),
        }).consistent(),
{
}

/// What a change that leaves stack, pushes and pops alone has to see to.
proof fn lemma_same_stack(c: Crowd, d: Crowd)
    requires
        c.consistent(),
        d.list == c.list,
        d.pushes == c.pushes,
        d.words.head == c.words.head,
        d.words.threads(d.list),
        forall|node: u64|
            d.doomed.dom().contains(node) && !c.doomed.dom().contains(node) ==> #[trigger] c.loose(
                node,
            ),
        forall|id: int|
            c.pushes.dom().contains(id) && (#[trigger] c.pushes[id]).at == PushStep::Swap ==> {
                let node = stack::node_of(c.pushes[id].word);
                d.words.links.dom().contains(node) && d.words.links[node] == c.words.links[node]
            },
        forall|id: int| d.pops.dom().contains(id) ==> #[trigger] d.pop_ok(id),
        forall|node: u64| d.doomed.dom().contains(node) ==> #[trigger] d.doomed_ok(node),
    ensures
        d.consistent(),
{
    assert forall|k: int| d.pushes.dom().contains(k) implies d.push_ok(#[trigger] d.pushes[k]) by {
        assert(c.push_ok(c.pushes[k]));
        let node = stack::node_of(c.pushes[k].word);
        if d.doomed.dom().contains(node) && !c.doomed.dom().contains(node) {
            assert(c.loose(node));
        }
    }
}

/// A push may begin for a node that belongs to nobody.
pub proof fn start_push_keeps_consistent(c: Crowd, id: int, word: u64)
    requires
        c.consistent(),
        c.pushes.dom().contains(id) ==> c.pushes[id].at == PushStep::Done,
        c.loose(stack::node_of(word)),
    ensures
        c.start_push(id, word).consistent(),
{
    let d = c.start_push(id, word);
    assert forall|k: int| d.pushes.dom().contains(k) implies d.push_ok(#[trigger] d.pushes[k]) by {
        if k != id {
            assert(c.push_ok(c.pushes[k]));
        }
    }
    assert forall|k: int| d.pops.dom().contains(k) implies #[trigger] d.pop_ok(k) by {
        assert(c.pop_ok(k));
    }
    assert forall|n: u64| d.doomed.dom().contains(n) implies #[trigger] d.doomed_ok(n) by {
        assert(c.doomed_ok(n));
        assert forall|k: int| #[trigger] d.doomed[n].contains(k) implies !d.relies(k, n) by {
            assert(!c.relies(k, n));
        }
    }
}

/// A pop may begin wherever a slot is free.
pub proof fn start_pop_keeps_consistent(c: Crowd, id: int)
    requires
        c.consistent(),
        c.idle(id),
    ensures
        c.start_pop(id).consistent(),
{
    let d = c.start_pop(id);
    assert forall|k: int| d.pops.dom().contains(k) implies #[trigger] d.pop_ok(k) by {
        if k != id {
            assert(c.pop_ok(k));
        }
    }
    lemma_doomed_stay(c, d, id);
    lemma_same_stack(c, d);
}

/// A pop that does not come to rely on a node disturbs none that waits for
/// release.
proof fn lemma_doomed_stay(c: Crowd, d: Crowd, id: int)
    requires
        c.consistent(),
        d.doomed == c.doomed,
        forall|node: u64| #[trigger] stack::stacked(d.list, node) ==> stack::stacked(c.list, node),
        forall|k: int|
            k != id && d.pops.dom().contains(k) ==> c.pops.dom().contains(k) && #[trigger] d.pops[k]
                == c.pops[k],
        forall|node: u64|
            c.doomed.dom().contains(node) && #[trigger] d.relies(id, node) ==> c.relies(id, node),
    ensures
        forall|node: u64| d.doomed.dom().contains(node) ==> #[trigger] d.doomed_ok(node),
{
    assert forall|node: u64| d.doomed.dom().contains(node) implies #[trigger] d.doomed_ok(node) by {
        assert(c.doomed_ok(node));
        assert forall|k: int| #[trigger] d.doomed[node].contains(k) implies !d.relies(k, node) by {
            assert(c.doomed[node].contains(k));
            assert(!c.relies(k, node));
            if k != id && d.pops.dom().contains(k) {
                assert(d.pops[k] == c.pops[k]);
            }
        }
    }
}

/// A slot may publish whatever it likes while nothing is relied on through it.
pub proof fn publish_keeps_consistent(c: Crowd, id: int, node: u64)
    requires
        c.consistent(),
        c.hazards.dom().contains(id),
        !c.relying(id),
    ensures
        c.publish(id, node).consistent(),
        c.publish(id, node).hazards.dom() == c.hazards.dom(),
{
    let d = c.publish(id, node);
    assert(d.hazards.dom() =~= c.hazards.dom());
    assert forall|k: int| d.pops.dom().contains(k) implies #[trigger] d.pop_ok(k) by {
        assert(c.pop_ok(k));
    }
    lemma_doomed_stay(c, d, id);
    lemma_same_stack(c, d);
}

/// A node that belongs to nobody may be retired, and slots may be looked at for
/// it at any time.
pub proof fn retiring_keeps_consistent(c: Crowd, node: u64, id: int)
    requires
        c.consistent(),
    ensures
        c.loose(node) ==> c.retire(node).consistent(),
        c.doomed.dom().contains(node) && c.hazards.dom().contains(id) ==> c.look(
            node,
            id,
        ).consistent(),
{
    if c.loose(node) {
        let d = c.retire(node);
        assert forall|k: int| d.pops.dom().contains(k) implies #[trigger] d.pop_ok(k) by {
            assert(c.pop_ok(k));
        }
        assert forall|n: u64| d.doomed.dom().contains(n) implies #[trigger] d.doomed_ok(n) by {
            if n != node {
                assert(c.doomed_ok(n));
                assert forall|k: int| #[trigger] d.doomed[n].contains(k) implies !d.relies(
                    k,
                    n,
                ) by {
                    assert(c.doomed[n].contains(k));
                    assert(!c.relies(k, n));
                }
            }
        }
        lemma_same_stack(c, d);
    }
    if c.doomed.dom().contains(node) && c.hazards.dom().contains(id) {
        let d = c.look(node, id);
        assert forall|k: int| d.pops.dom().contains(k) implies #[trigger] d.pop_ok(k) by {
            assert(c.pop_ok(k));
        }
        assert forall|n: u64| d.doomed.dom().contains(n) implies #[trigger] d.doomed_ok(n) by {
            assert(c.doomed_ok(n));
            assert forall|k: int| #[trigger] d.doomed[n].contains(k) implies !d.relies(k, n) by {
                if n == node && k == id {
                    if c.relies(id, node) {
                        assert(c.pop_ok(id));
                    }
                } else {
                    assert(c.doomed[n].contains(k));
                    assert(!c.relies(k, n));
                }
            }
        }
        lemma_same_stack(c, d);
    }
}

/// Looking at slots disturbs nobody.
pub proof fn survey_keeps_consistent(c: Crowd)
    requires
        c.consistent(),
    ensures
        c.survey().consistent(),
{
    let d = c.survey();
    assert forall|k: int| d.pops.dom().contains(k) implies #[trigger] d.pop_ok(k) by {
        assert(c.pop_ok(k));
    }
    assert forall|n: u64| d.doomed.dom().contains(n) implies #[trigger] d.doomed_ok(n) by {
        assert(c.doomed_ok(n));
        assert forall|k: int| #[trigger] d.doomed[n].contains(k) implies !d.relies(k, n) by {
            if c.doomed[n].contains(k) {
                assert(!c.relies(k, n));
            } else if c.relies(k, n) {
                assert(c.pop_ok(k));
            }
        }
    }
    lemma_same_stack(c, d);
}

/// Nobody relies on a node for which all slots have been looked at; so it may be
/// released, or be used again, and the stack stays consistent.
pub proof fn release_keeps_consistent(c: Crowd, node: u64)
    requires
        c.consistent(),
        c.searched(node),
    ensures
        forall|id: int| !#[trigger] c.relies(id, node),
        c.release(node).consistent(),
        c.recall(node).consistent(),
        c.recall(node).loose(node),
{
    assert(c.doomed_ok(node));
    assert forall|id: int| !#[trigger] c.relies(id, node) by {
        if c.pops.dom().contains(id) {
            assert(c.pop_ok(id));
            assert(c.hazards.dom().contains(id));
            assert(c.doomed[node].contains(id));
        }
    }
    let d = c.release(node);
    assert forall|i: int| 0 <= i < d.list.len() implies #[trigger] d.words.linked_at(
        d.list,
        i,
    ) by {
        assert(c.words.linked_at(c.list, i));
        assert(stack::node_of(c.list[i]) != node);
    }
    let e = c.recall(node);
    assert forall|k: int| d.pops.dom().contains(k) implies #[trigger] d.pop_ok(k) by {
        assert(c.pop_ok(k));
        assert(!c.relies(k, node));
    }
    assert forall|k: int| e.pops.dom().contains(k) implies #[trigger] e.pop_ok(k) by {
        assert(c.pop_ok(k));
    }
    assert forall|k: int|
        c.pushes.dom().contains(k) && (#[trigger] c.pushes[k]).at
            == PushStep::Swap implies stack::node_of(c.pushes[k].word) != node by {
        assert(c.push_ok(c.pushes[k]));
    }
    assert forall|k: int|
        c.pushes.dom().contains(k) && (#[trigger] c.pushes[k]).at != PushStep::Done
            implies stack::node_of(c.pushes[k].word) != node by {
        assert(c.push_ok(c.pushes[k]));
    }
    assert forall|k: int|
        c.pushes.dom().contains(k) && (#[trigger] c.pushes[k]).at == PushStep::Swap implies {
        let n = stack::node_of(c.pushes[k].word);
        d.words.links.dom().contains(n) && d.words.links[n] == c.words.links[n]
    } by {
        assert(c.push_ok(c.pushes[k]));
    }
    assert forall|n: u64| d.doomed.dom().contains(n) implies #[trigger] d.doomed_ok(n) by {
        assert(c.doomed_ok(n));
        assert forall|k: int| #[trigger] d.doomed[n].contains(k) implies !d.relies(k, n) by {
            assert(c.doomed[n].contains(k));
            assert(!c.relies(k, n));
        }
    }
    assert forall|n: u64| e.doomed.dom().contains(n) implies #[trigger] e.doomed_ok(n) by {
        assert(c.doomed_ok(n));
        assert forall|k: int| #[trigger] e.doomed[n].contains(k) implies !e.relies(k, n) by {
            assert(c.doomed[n].contains(k));
            assert(!c.relies(k, n));
        }
    }
    lemma_same_stack(c, d);
    lemma_same_stack(c, e);
}

/// Every step of a push keeps the stack consistent; the one that makes the node
/// the head puts exactly this node on top. This holds unless the tag of the
/// node has come back to a value that a pop in progress has seen.
pub proof fn step_push_keeps_consistent(c: Crowd, id: int)
    requires
        c.consistent(),
        c.pushes.dom().contains(id),
        c.pushes[id].at == PushStep::Swap ==> c.unexpected(c.pushes[id].word),
    ensures
        c.step_push(id).consistent(),
        c.pushes[id].at == PushStep::Swap && c.step_push(id).pushes[id].at == PushStep::Done
            ==> c.step_push(id).list == c.list.push(c.pushes[id].word),
{
    let d = c.step_push(id);
    let op = c.pushes[id];
    let node = stack::node_of(op.word);
    assert(c.push_ok(op));
    let landed = op.at == PushStep::Swap && c.words.head == op.seen;
    assert(d.words.threads(d.list)) by {
        if landed {
            stack::lemma_pushed_distinct(c.list, op.word);
        }
        assert forall|i: int| 0 <= i < d.list.len() implies #[trigger] d.words.linked_at(
            d.list,
            i,
        ) by {
            if i < c.list.len() {
                assert(c.words.linked_at(c.list, i));
                if op.at == PushStep::Link {
                    assert(stack::node_of(c.list[i]) != node);
                }
            }
        }
    }
    assert forall|k: int| d.pushes.dom().contains(k) implies d.push_ok(#[trigger] d.pushes[k]) by {
        if k != id {
            assert(c.push_ok(c.pushes[k]));
            let other = stack::node_of(c.pushes[k].word);
            if c.pushes[k].at != PushStep::Done && op.at != PushStep::Done {
                assert(c.pushes[id].at != PushStep::Done);
                assert(other != node);
                if landed {
                    lemma_still_loose(c.list, op.word, other);
                }
            }
        }
    }
    assert forall|a: int, b: int|
        #![trigger d.pushes[a], d.pushes[b]]
        d.pushes.dom().contains(a) && d.pushes.dom().contains(b) && a != b && d.pushes[a].at
            != PushStep::Done && d.pushes[b].at != PushStep::Done implies stack::node_of(
        d.pushes[a].word,
    ) != stack::node_of(d.pushes[b].word) by {
        assert(c.pushes[a].at != PushStep::Done);
        assert(c.pushes[b].at != PushStep::Done);
    }
    assert forall|n: u64| d.doomed.dom().contains(n) implies #[trigger] d.doomed_ok(n) by {
        assert(c.doomed_ok(n));
        if landed {
            lemma_still_loose(c.list, op.word, n);
        }
        assert forall|k: int| #[trigger] d.doomed[n].contains(k) implies !d.relies(k, n) by {
            assert(c.doomed[n].contains(k));
            assert(!c.relies(k, n));
        }
    }
    assert forall|k: int| d.pops.dom().contains(k) implies #[trigger] d.pop_ok(k) by {
        assert(c.pop_ok(k));
        let q = c.pops[k];
        if q.at == PopStep::Swap && landed {
            assert forall|i: int|
                0 <= i < d.list.len() && #[trigger] d.list[i] == q.seen implies q.next
                == stack::below(d.list, i) by {
                if i < c.list.len() {
                    assert(c.list[i] == q.seen);
                }
            }
        }
    }
}

/// Every step of a pop keeps the stack consistent; the one that takes a node
/// takes the top one, which is on the stack before and not on it afterwards. So
/// no node is handed out twice unless it has been pushed in between. A pop that
/// reads the link of a node finds it, whatever has been released meanwhile; it
/// has to publish the node before it looks at the head again.
pub proof fn step_pop_keeps_consistent(c: Crowd, id: int)
    requires
        c.consistent(),
        c.pops.dom().contains(id),
        c.pops[id].at == PopStep::Check ==> c.hazards[id] == stack::node_of(c.pops[id].seen),
    ensures
        c.step_pop(id).consistent(),
        c.pops[id].at == PopStep::Read ==> c.words.links.dom().contains(
            stack::node_of(c.pops[id].seen),
        ),
        c.pops[id].at == PopStep::Swap && c.step_pop(id).pops[id].at == PopStep::Done ==> {
            &&& c.list.len() > 0
            &&& c.pops[id].seen == c.list.last()
            &&& c.step_pop(id).list == c.list.drop_last()
            &&& !stack::stacked(c.step_pop(id).list, stack::node_of(c.pops[id].seen))
        },
{
    let d = c.step_pop(id);
    let op = c.pops[id];
    assert(c.pop_ok(id));
    let taken = op.at == PopStep::Swap && c.words.head == op.seen;
    let n = c.list.len() as int;
    if taken {
        assert(n > 0);
        assert(c.list[n - 1] == op.seen);
        assert(op.next == stack::below(c.list, n - 1));
        lemma_popped_loose(c.list);
        assert forall|i: int| 0 <= i < d.list.len() implies #[trigger] d.words.linked_at(
            d.list,
            i,
        ) by {
            assert(c.words.linked_at(c.list, i));
        }
        assert forall|i: int, j: int| 0 <= i < j < d.list.len() implies stack::node_of(
            #[trigger] d.list[i],
        ) != stack::node_of(#[trigger] d.list[j]) by {
            assert(d.list[i] == c.list[i]);
            assert(d.list[j] == c.list[j]);
        }
        assert(d.words.threads(d.list));
    }
    if stack::node_of(c.words.head) != 0 {
        assert(n > 0);
        assert(c.words.linked_at(c.list, n - 1));
        assert(stack::stacked(c.list, stack::node_of(c.words.head)));
    }
    assert forall|k: int| d.pushes.dom().contains(k) implies d.push_ok(#[trigger] d.pushes[k]) by {
        assert(c.push_ok(c.pushes[k]));
    }
    assert forall|node: u64|
        c.doomed.dom().contains(node) && #[trigger] d.relies(id, node) implies c.relies(
        id,
        node,
    ) by {
        assert(c.doomed_ok(node));
    }
    assert forall|node: u64| #[trigger] stack::stacked(d.list, node) implies stack::stacked(
        c.list,
        node,
    ) by {}
    lemma_doomed_stay(c, d, id);
    assert forall|k: int| d.pops.dom().contains(k) implies #[trigger] d.pop_ok(k) by {
        let q = if k == id {
            stack::pop_next(op, c.words).0
        } else {
            c.pops[k]
        };
        if k != id {
            assert(c.pop_ok(k));
        }
        if q.at == PopStep::Swap {
            assert forall|i: int|
                0 <= i < d.list.len() && #[trigger] d.list[i] == q.seen implies q.next
                == stack::below(d.list, i) by {
                assert(c.words.linked_at(c.list, i));
                assert(c.list[i] == q.seen);
                assert(stack::below(d.list, i) == stack::below(c.list, i));
            }
        }
    }
}

/// An exchange that fails for no reason does no harm: the push or the pop starts
/// again, and the stack is as it was.
pub proof fn retry_keeps_consistent(c: Crowd, id: int)
    requires
        c.consistent(),
    ensures
        c.pushes.dom().contains(id) && c.pushes[id].at == PushStep::Swap ==> c.retry_push(
            id,
        ).consistent() && c.retry_push(id).list == c.list,
        c.pops.dom().contains(id) && c.pops[id].at == PopStep::Swap ==> c.retry_pop(
            id,
        ).consistent() && c.retry_pop(id).list == c.list,
{
    if c.pushes.dom().contains(id) && c.pushes[id].at == PushStep::Swap {
        let d = c.retry_push(id);
        assert forall|k: int| d.pushes.dom().contains(k) implies d.push_ok(
            #[trigger] d.pushes[k],
        ) by {
            assert(c.push_ok(c.pushes[k]));
        }
        assert forall|k: int| d.pops.dom().contains(k) implies #[trigger] d.pop_ok(k) by {
            assert(c.pop_ok(k));
        }
        assert forall|a: int, b: int|
            #![trigger d.pushes[a], d.pushes[b]]
            d.pushes.dom().contains(a) && d.pushes.dom().contains(b) && a != b && d.pushes[a].at
                != PushStep::Done && d.pushes[b].at != PushStep::Done implies stack::node_of(
            d.pushes[a].word,
        ) != stack::node_of(d.pushes[b].word) by {
            assert(c.pushes[a].at != PushStep::Done);
            assert(c.pushes[b].at != PushStep::Done);
        }
        lemma_doomed_stay(c, d, id);
    }
    if c.pops.dom().contains(id) && c.pops[id].at == PopStep::Swap {
        let d = c.retry_pop(id);
        assert forall|k: int| d.pops.dom().contains(k) implies #[trigger] d.pop_ok(k) by {
            assert(c.pop_ok(k));
        }
        lemma_doomed_stay(c, d, id);
        lemma_same_stack(c, d);
    }
}

} // verus!
