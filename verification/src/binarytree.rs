//! The binary search tree itself: nodes, the search walker, and the
//! insert / find / delete protocols over them.
//!
//! The tree is a set of `u64` values. Every node carries a liveness mark:
//! a node whose mark is cleared is a *tombstone* — still linked into the
//! tree shape, but logically absent. Removal first tombstones the target
//! node and unlinks it only when it has at most one child, so every
//! intermediate state of a removal is itself a valid tree. The abstract
//! view of the tree is therefore the set of *live* values; the set of
//! *stored* values (live and tombstoned alike) is tracked separately.

use vstd::prelude::*;

verus! {

/// Which empty child slot of a parent node a value would occupy.
#[derive(Clone, Copy, Debug, PartialEq, Eq, Structural)]
pub enum ChildSide {
    Left,
    Right,
}

/// Rejection of an insert whose value is already live in the tree.
#[derive(Clone, Copy, Debug, PartialEq, Eq, Structural)]
pub struct DuplicateValue;

/// Rejection of a delete whose value is not live in the tree.
#[derive(Clone, Copy, Debug, PartialEq, Eq, Structural)]
pub struct NotFound;

/// Signal of the search walker on a tree with no nodes at all. A lookup
/// maps it to `None`; it never escapes to users as an error of its own.
#[derive(Clone, Copy, Debug, PartialEq, Eq, Structural)]
pub struct EmptyTree;

/// Outcome of the search walker on a non-empty tree.
///
/// `Found` names the value of the live node equal to the target.
/// `InsertionPoint` names the value of the node at which the target would
/// be attached, and the child slot it would occupy; when that node itself
/// stores the target as a tombstone, the named value equals the target and
/// the side is immaterial — an insert revives the node in place.
#[derive(Clone, Copy, Debug, PartialEq, Eq, Structural)]
pub enum SearchResult {
    Found(u64),
    InsertionPoint(u64, ChildSide),
}

/// The unit of storage: one value, a liveness mark (`false` is a tombstone),
/// and two optional child links. The value of a node never changes; removal
/// clears the mark instead and later drops the whole node.
pub struct Node {
    value: u64,
    live: bool,
    left: Option<Box<Node>>,
    right: Option<Box<Node>>,
}

/// All values stored in an optional subtree, tombstoned nodes included.
pub closed spec fn sub_values(sub: Option<Box<Node>>) -> Set<u64>
    decreases sub,
{
    match sub {
        None => Set::empty(),
        Some(node) => node.all_values(),
    }
}

/// The values of the live nodes of an optional subtree.
pub closed spec fn sub_live(sub: Option<Box<Node>>) -> Set<u64>
    decreases sub,
{
    match sub {
        None => Set::empty(),
        Some(node) => node.live_values(),
    }
}

/// Ordering discipline of an optional subtree.
pub closed spec fn sub_ordered(sub: Option<Box<Node>>) -> bool
    decreases sub,
{
    match sub {
        None => true,
        Some(node) => node.ordered(),
    }
}

impl Node {
    /// All values stored at or below this node.
    pub closed spec fn all_values(self) -> Set<u64>
        decreases self,
    {
        sub_values(self.left).union(sub_values(self.right)).insert(self.value)
    }

    /// The live values at or below this node.
    pub closed spec fn live_values(self) -> Set<u64>
        decreases self,
    {
        let below = sub_live(self.left).union(sub_live(self.right));
        if self.live {
            below.insert(self.value)
        } else {
            below
        }
    }

    /// The ordering invariant: everything stored to the left is strictly
    /// smaller, everything stored to the right strictly greater, and both
    /// subtrees obey the same discipline. Tombstoned nodes are held to the
    /// same ordering as live ones, so a walk never has to distrust a link.
    pub closed spec fn ordered(self) -> bool
        decreases self,
    {
        &&& (forall|v: u64| sub_values(self.left).contains(v) ==> v < self.value)
        &&& (forall|v: u64| sub_values(self.right).contains(v) ==> v > self.value)
        &&& sub_ordered(self.left)
        &&& sub_ordered(self.right)
    }

    /// Makes a detached node: live, holding `item`, with both child slots
    /// empty. Insertion links such a node into the tree afterwards; one
    /// that loses its place is simply dropped, never having been reachable.
    pub fn leaky(item: u64) -> (node: Node)
        ensures
            node.ordered(),
            node.live_values() == Set::empty().insert(item),
            node.all_values() == Set::empty().insert(item),
    {
        let node = Node { value: item, live: true, left: None, right: None };
        proof {
            assert(node.live_values() =~= Set::empty().insert(item));
            assert(node.all_values() =~= Set::empty().insert(item));
        }
        node
    }
}

/// Every live value of a subtree is among its stored values.
pub proof fn lemma_live_subset(sub: Option<Box<Node>>)
    ensures
        forall|v: u64| sub_live(sub).contains(v) ==> sub_values(sub).contains(v),
    decreases sub,
{
    match sub {
        None => {},
        Some(node) => {
            lemma_live_subset(node.left);
            lemma_live_subset(node.right);
            assert forall|v: u64| sub_live(sub).contains(v) implies sub_values(sub).contains(
                v,
            ) by {
                assert(node.live_values().contains(v));
                assert(v == node.value || sub_live(node.left).contains(v) || sub_live(
                    node.right,
                ).contains(v));
                assert(v == node.value || sub_values(node.left).contains(v) || sub_values(
                    node.right,
                ).contains(v));
                assert(node.all_values().contains(v));
            }
        },
    }
}

/// Whether a tree whose live values are `s` accepts an insert of `v`.
/// An insert is accepted exactly when no live node already holds `v`;
/// of two equal inserts in a row, at most the first is accepted.
pub open spec fn accepts(s: Set<u64>, v: u64) -> bool {
    !s.contains(v)
}

impl Node {
    /// Links `value` into the subtree hanging off `slot`: attaches a fresh
    /// node at the empty slot where the walk ends, revives a tombstoned
    /// node that already stores the value, and leaves a live duplicate
    /// alone. Returns whether the value was newly made live.
    fn insert_at(slot: &mut Option<Box<Node>>, value: u64) -> (added: bool)
        requires
            sub_ordered(*old(slot)),
        ensures
            sub_ordered(*final (slot)),
            sub_live(*final (slot)) =~= sub_live(*old(slot)).insert(value),
            sub_values(*final (slot)) =~= sub_values(*old(slot)).insert(value),
            added == accepts(sub_live(*old(slot)), value),
        decreases *old(slot),
    {
        match slot.take() {
            None => {
                *slot = Some(Box::new(Node::leaky(value)));
                true
            },
            Some(mut node) => {
                let added: bool;
                if value == node.value {
                    proof {
                        lemma_live_subset(node.left);
                        lemma_live_subset(node.right);
                        assert(!sub_live(node.left).contains(value));
                        assert(!sub_live(node.right).contains(value));
                        assert(sub_live(*old(slot)) == node.live_values());
                        assert(node.live_values().contains(value) == node.live);
                    }
                    added = !node.live;
                    node.live = true;
                } else if value < node.value {
                    proof {
                        lemma_live_subset(node.right);
                        assert(!sub_live(node.right).contains(value));
                        assert(sub_live(*old(slot)) == node.live_values());
                        assert(node.live_values().contains(value) == sub_live(
                            node.left,
                        ).contains(value));
                    }
                    added = Self::insert_at(&mut node.left, value);
                } else {
                    proof {
                        lemma_live_subset(node.left);
                        assert(!sub_live(node.left).contains(value));
                        assert(sub_live(*old(slot)) == node.live_values());
                        assert(node.live_values().contains(value) == sub_live(
                            node.right,
                        ).contains(value));
                    }
                    added = Self::insert_at(&mut node.right, value);
                }
                *slot = Some(node);
                added
            },
        }
    }
}

impl Node {
    /// Removes `value` from the subtree hanging off `slot`, in two phases:
    /// the matching live node is first tombstoned, and then unlinked only
    /// if it has at most one child (its single subtree takes its place).
    /// A matching node with two children stays linked as a tombstone; a
    /// tombstone met again with at most one child is spliced out in
    /// passing. Returns whether a live node was tombstoned. The stored
    /// values either stay as they were or lose exactly the target.
    fn delete_at(slot: &mut Option<Box<Node>>, value: u64) -> (removed: bool)
        requires
            sub_ordered(*old(slot)),
        ensures
            sub_ordered(*final (slot)),
            sub_live(*final (slot)) =~= sub_live(*old(slot)).remove(value),
            sub_values(*final (slot)) == sub_values(*old(slot)) || sub_values(*final (slot))
                == sub_values(*old(slot)).remove(value),
            removed == sub_live(*old(slot)).contains(value),
        decreases *old(slot),
    {
        match slot.take() {
            None => false,
            Some(mut node) => {
                if value == node.value {
                    proof {
                        lemma_live_subset(node.left);
                        lemma_live_subset(node.right);
                        assert(!sub_live(node.left).contains(value));
                        assert(!sub_live(node.right).contains(value));
                        assert(sub_live(*old(slot)) == node.live_values());
                        assert(node.live_values().contains(value) == node.live);
                        assert(sub_values(*old(slot)) == node.all_values());
                    }
                    let removed = node.live;
                    node.live = false;
                    if node.left.is_none() {
                        proof {
                            assert(sub_values(node.right) =~= sub_values(*old(slot)).remove(
                                value,
                            ));
                            assert(sub_live(node.right) =~= sub_live(*old(slot)).remove(value));
                        }
                        *slot = node.right;
                    } else if node.right.is_none() {
                        proof {
                            assert(sub_values(node.left) =~= sub_values(*old(slot)).remove(
                                value,
                            ));
                            assert(sub_live(node.left) =~= sub_live(*old(slot)).remove(value));
                        }
                        *slot = node.left;
                    } else {
                        proof {
                            assert(node.all_values() =~= sub_values(*old(slot)));
                            assert(node.live_values() =~= sub_live(*old(slot)).remove(value));
                        }
                        *slot = Some(node);
                    }
                    removed
                } else if value < node.value {
                    let ghost left_before = node.left;
                    proof {
                        lemma_live_subset(node.right);
                        assert(!sub_values(node.right).contains(value));
                        assert(!sub_live(node.right).contains(value));
                        assert(sub_live(*old(slot)) == node.live_values());
                        assert(node.live_values().contains(value) == sub_live(
                            node.left,
                        ).contains(value));
                        assert(sub_values(*old(slot)) == node.all_values());
                    }
                    let removed = Self::delete_at(&mut node.left, value);
                    proof {
                        if sub_values(node.left) == sub_values(left_before) {
                            assert(node.all_values() =~= sub_values(*old(slot)));
                        } else {
                            assert(node.all_values() =~= sub_values(*old(slot)).remove(value));
                        }
                        assert(node.live_values() =~= sub_live(*old(slot)).remove(value));
                    }
                    *slot = Some(node);
                    removed
                } else {
                    let ghost right_before = node.right;
                    proof {
                        lemma_live_subset(node.left);
                        assert(!sub_values(node.left).contains(value));
                        assert(!sub_live(node.left).contains(value));
                        assert(sub_live(*old(slot)) == node.live_values());
                        assert(node.live_values().contains(value) == sub_live(
                            node.right,
                        ).contains(value));
                        assert(sub_values(*old(slot)) == node.all_values());
                    }
                    let removed = Self::delete_at(&mut node.right, value);
                    proof {
                        if sub_values(node.right) == sub_values(right_before) {
                            assert(node.all_values() =~= sub_values(*old(slot)));
                        } else {
                            assert(node.all_values() =~= sub_values(*old(slot)).remove(value));
                        }
                        assert(node.live_values() =~= sub_live(*old(slot)).remove(value));
                    }
                    *slot = Some(node);
                    removed
                }
            },
        }
    }
}

impl Node {
    /// The search walker: walks left/right comparisons down from this node
    /// and reports either the live node holding the target or the point
    /// where the target would attach. The walk itself mutates nothing.
    ///
    /// When the outcome is an insertion point with a parent other than the
    /// target, no stored value lies strictly between target and parent: the
    /// parent is the closest stored neighbour on the reported side.
    pub fn relaxed_search(&self, target: u64) -> (outcome: SearchResult)
        requires
            self.ordered(),
        ensures
            outcome matches SearchResult::Found(v) ==> v == target,
            outcome is Found <==> self.live_values().contains(target),
            outcome matches SearchResult::InsertionPoint(parent, side)
                ==> {
                    &&& self.all_values().contains(parent)
                    &&& (parent == target <==> self.all_values().contains(target))
                    &&& (parent != target && side is Left ==> target < parent && (forall|v: u64|
                        self.all_values().contains(v) ==> !(target < v && v < parent)))
                    &&& (parent != target && side is Right ==> target > parent && (forall|v: u64|
                        self.all_values().contains(v) ==> !(parent < v && v < target)))
                },
        decreases self,
    {
        if target == self.value {
            proof {
                lemma_live_subset(self.left);
                lemma_live_subset(self.right);
                assert(!sub_live(self.left).contains(target));
                assert(!sub_live(self.right).contains(target));
            }
            if self.live {
                SearchResult::Found(self.value)
            } else {
                SearchResult::InsertionPoint(self.value, ChildSide::Left)
            }
        } else if target < self.value {
            proof {
                lemma_live_subset(self.right);
                assert(!sub_values(self.right).contains(target));
            }
            match &self.left {
                None => {
                    proof {
                        assert(!self.all_values().contains(target));
                    }
                    SearchResult::InsertionPoint(self.value, ChildSide::Left)
                },
                Some(child) => {
                    let outcome = child.relaxed_search(target);
                    proof {
                        if let SearchResult::InsertionPoint(parent, side) = outcome {
                            assert(self.all_values().contains(parent));
                            if self.all_values().contains(target) {
                                assert(sub_values(self.left).contains(target));
                            }
                            if parent != target {
                                assert(sub_values(self.left).contains(parent));
                                assert(parent < self.value);
                                if side is Left {
                                    assert forall|v: u64|
                                        self.all_values().contains(v) implies !(target < v && v
                                        < parent) by {
                                        if !sub_values(self.left).contains(v) {
                                            assert(v == self.value || sub_values(
                                                self.right,
                                            ).contains(v));
                                            assert(v >= self.value);
                                        }
                                    }
                                } else {
                                    assert forall|v: u64|
                                        self.all_values().contains(v) implies !(parent < v && v
                                        < target) by {
                                        if !sub_values(self.left).contains(v) {
                                            assert(v >= self.value);
                                        }
                                    }
                                }
                            }
                        }
                    }
                    outcome
                },
            }
        } else {
            proof {
                lemma_live_subset(self.left);
                assert(!sub_values(self.left).contains(target));
            }
            match &self.right {
                None => {
                    proof {
                        assert(!self.all_values().contains(target));
                    }
                    SearchResult::InsertionPoint(self.value, ChildSide::Right)
                },
                Some(child) => {
                    let outcome = child.relaxed_search(target);
                    proof {
                        if let SearchResult::InsertionPoint(parent, side) = outcome {
                            assert(self.all_values().contains(parent));
                            if self.all_values().contains(target) {
                                assert(sub_values(self.right).contains(target));
                            }
                            if parent != target {
                                assert(sub_values(self.right).contains(parent));
                                assert(parent > self.value);
                                if side is Right {
                                    assert forall|v: u64|
                                        self.all_values().contains(v) implies !(parent < v && v
                                        < target) by {
                                        if !sub_values(self.right).contains(v) {
                                            assert(v == self.value || sub_values(
                                                self.left,
                                            ).contains(v));
                                            assert(v <= self.value);
                                        }
                                    }
                                } else {
                                    assert forall|v: u64|
                                        self.all_values().contains(v) implies !(target < v && v
                                        < parent) by {
                                        if !sub_values(self.right).contains(v) {
                                            assert(v <= self.value);
                                        }
                                    }
                                }
                            }
                        }
                    }
                    outcome
                },
            }
        }
    }
}

/// A strictly increasing sequence of values.
pub open spec fn strictly_sorted(s: Seq<u64>) -> bool {
    forall|i: int, j: int| 0 <= i < j < s.len() ==> s[i] < s[j]
}

/// The in-order listing of the live values of an optional subtree.
pub closed spec fn sub_in_order(sub: Option<Box<Node>>) -> Seq<u64>
    decreases sub,
{
    match sub {
        None => Seq::empty(),
        Some(node) => node.in_order_seq(),
    }
}

impl Node {
    /// The in-order listing of the live values at or below this node:
    /// left subtree first, then the node's own value unless tombstoned,
    /// then the right subtree.
    pub closed spec fn in_order_seq(self) -> Seq<u64>
        decreases self,
    {
        sub_in_order(self.left) + (if self.live {
            seq![self.value]
        } else {
            Seq::empty()
        }) + sub_in_order(self.right)
    }
}

/// The in-order listing of a subtree holds exactly its live values.
proof fn lemma_in_order_contents(sub: Option<Box<Node>>)
    ensures
        forall|v: u64| sub_in_order(sub).contains(v) <==> sub_live(sub).contains(v),
    decreases sub,
{
    match sub {
        None => {},
        Some(node) => {
            lemma_in_order_contents(node.left);
            lemma_in_order_contents(node.right);
            let left = sub_in_order(node.left);
            let mid: Seq<u64> = if node.live {
                seq![node.value]
            } else {
                Seq::empty()
            };
            let right = sub_in_order(node.right);
            let whole = left + mid + right;
            assert forall|v: u64| whole.contains(v) implies sub_live(sub).contains(v) by {
                let i = choose|i: int| 0 <= i < whole.len() && whole[i] == v;
                if i < left.len() {
                    assert(left[i] == v);
                    assert(left.contains(v));
                } else if i < left.len() + mid.len() {
                    assert(mid[i - left.len()] == v);
                    assert(node.live && v == node.value);
                } else {
                    assert(right[i - left.len() - mid.len()] == v);
                    assert(right.contains(v));
                }
                assert(node.live_values().contains(v));
            }
            assert forall|v: u64| sub_live(sub).contains(v) implies whole.contains(v) by {
                assert(node.live_values().contains(v));
                if sub_live(node.left).contains(v) {
                    let i = choose|i: int| 0 <= i < left.len() && left[i] == v;
                    assert(whole[i] == v);
                } else if sub_live(node.right).contains(v) {
                    let i = choose|i: int| 0 <= i < right.len() && right[i] == v;
                    assert(whole[left.len() as int + mid.len() as int + i] == v);
                } else {
                    assert(node.live && v == node.value);
                    assert(whole[left.len() as int] == v);
                }
            }
        },
    }
}

/// The in-order listing of an ordered subtree is strictly increasing.
proof fn lemma_in_order_sorted(sub: Option<Box<Node>>)
    requires
        sub_ordered(sub),
    ensures
        strictly_sorted(sub_in_order(sub)),
    decreases sub,
{
    match sub {
        None => {},
        Some(node) => {
            lemma_in_order_sorted(node.left);
            lemma_in_order_sorted(node.right);
            lemma_in_order_contents(node.left);
            lemma_in_order_contents(node.right);
            lemma_live_subset(node.left);
            lemma_live_subset(node.right);
            let left = sub_in_order(node.left);
            let mid: Seq<u64> = if node.live {
                seq![node.value]
            } else {
                Seq::empty()
            };
            let right = sub_in_order(node.right);
            let whole = left + mid + right;
            assert forall|i: int, j: int| 0 <= i < j < whole.len() implies whole[i] < whole[j] by {
                if i < left.len() {
                    assert(left.contains(left[i]));
                    assert(whole[i] < node.value);
                }
                if left.len() + mid.len() <= i {
                    assert(right.contains(right[i - left.len() - mid.len()]));
                    assert(whole[i] > node.value);
                }
                if j < left.len() {
                    assert(left.contains(left[j]));
                    assert(whole[j] < node.value);
                }
                if left.len() + mid.len() <= j {
                    assert(right.contains(right[j - left.len() - mid.len()]));
                    assert(whole[j] > node.value);
                }
                if left.len() <= i < left.len() + mid.len() {
                    assert(whole[i] == node.value);
                }
                if left.len() <= j < left.len() + mid.len() {
                    assert(whole[j] == node.value);
                }
            }
        },
    }
}

/// Appends the in-order listing of `sub` to `out`.
fn push_in_order(sub: &Option<Box<Node>>, out: &mut Vec<u64>)
    ensures
        final (out)@ == old(out)@ + sub_in_order(*sub),
    decreases *sub,
{
    match sub {
        None => {
            proof {
                assert(old(out)@ + sub_in_order(*sub) =~= old(out)@);
            }
        },
        Some(node) => {
            push_in_order(&node.left, out);
            if node.live {
                out.push(node.value);
            }
            push_in_order(&node.right, out);
            proof {
                assert(out@ =~= old(out)@ + sub_in_order(*sub));
            }
        },
    }
}

/// A handle returned by a lookup. It retains the value it was created for,
/// so the value stays readable for the whole lifetime of the guard even if
/// the matching node is tombstoned or unlinked in the meantime.
pub struct DerefGuard {
    value: u64,
}

impl View for DerefGuard {
    type V = u64;

    closed spec fn view(&self) -> u64 {
        self.value
    }
}

impl DerefGuard {
    /// Makes a guard retaining `value`.
    pub fn new(value: u64) -> (guard: DerefGuard)
        ensures
            guard@ == value,
    {
        DerefGuard { value }
    }

    /// Reads the retained value.
    pub fn deref(&self) -> (value: u64)
        ensures
            value == self@,
    {
        self.value
    }
}

/// The container: a single optional root link. Its abstract view is the set
/// of live values; `stored_values` also counts tombstoned nodes that are
/// still awaiting their unlink.
pub struct LockFreeBinaryTree {
    root: Option<Box<Node>>,
}

impl View for LockFreeBinaryTree {
    type V = Set<u64>;

    closed spec fn view(&self) -> Set<u64> {
        sub_live(self.root)
    }
}

impl LockFreeBinaryTree {
    /// All values physically present in the tree, tombstones included.
    pub closed spec fn stored_values(self) -> Set<u64> {
        sub_values(self.root)
    }

    /// The tree's structural invariant; every operation preserves it.
    pub closed spec fn well_formed(self) -> bool {
        sub_ordered(self.root)
    }

    /// Makes an empty tree.
    pub fn new() -> (tree: LockFreeBinaryTree)
        ensures
            tree.well_formed(),
            tree@ == Set::<u64>::empty(),
            tree.stored_values() == Set::<u64>::empty(),
    {
        LockFreeBinaryTree { root: None }
    }

    /// Inserts `value`. The insert is rejected exactly when an equal live
    /// value is already present; either way the value is live afterwards.
    pub fn insert(&mut self, value: u64) -> (result: Result<(), DuplicateValue>)
        requires
            old(self).well_formed(),
        ensures
            final (self).well_formed(),
            final (self)@ == old(self)@.insert(value),
            final (self).stored_values() == old(self).stored_values().insert(value),
            result is Ok <==> accepts(old(self)@, value),
    {
        let added = Node::insert_at(&mut self.root, value);
        if added {
            Ok(())
        } else {
            Err(DuplicateValue)
        }
    }

    /// Inserts `item` and reports acceptance as a plain boolean: `true`
    /// for a newly live value, `false` for a rejected duplicate.
    pub fn push(&mut self, item: u64) -> (accepted: bool)
        requires
            old(self).well_formed(),
        ensures
            final (self).well_formed(),
            final (self)@ == old(self)@.insert(item),
            final (self).stored_values() == old(self).stored_values().insert(item),
            accepted == accepts(old(self)@, item),
    {
        self.insert(item).is_ok()
    }

    /// Deletes `value`: tombstones the matching live node, unlinking it at
    /// once when it has at most one child. The delete reports `NotFound`
    /// exactly when no live node holds the value — so of two equal deletes
    /// in a row, at most the first succeeds.
    pub fn delete(&mut self, value: u64) -> (result: Result<(), NotFound>)
        requires
            old(self).well_formed(),
        ensures
            final (self).well_formed(),
            final (self)@ == old(self)@.remove(value),
            final (self).stored_values() == old(self).stored_values()
                || final (self).stored_values() == old(self).stored_values().remove(value),
            result is Ok <==> old(self)@.contains(value),
    {
        let removed = Node::delete_at(&mut self.root, value);
        if removed {
            Ok(())
        } else {
            Err(NotFound)
        }
    }

    /// Runs the search walker from the current root. An empty tree is
    /// reported as `EmptyTree`; the walker's outcome is otherwise passed
    /// through, speaking of the tree's live and stored values.
    pub fn relaxed_search(&self, target: u64) -> (outcome: Result<SearchResult, EmptyTree>)
        requires
            self.well_formed(),
        ensures
            outcome is Err <==> self.stored_values() == Set::<u64>::empty(),
            outcome matches Ok(SearchResult::Found(v)) ==> v == target,
            outcome matches Ok(found) ==> (found is Found <==> self@.contains(target)),
            outcome matches Ok(SearchResult::InsertionPoint(parent, side))
                ==> {
                    &&& self.stored_values().contains(parent)
                    &&& (parent == target <==> self.stored_values().contains(target))
                    &&& (parent != target && side is Left ==> target < parent && (forall|v: u64|
                        self.stored_values().contains(v) ==> !(target < v && v < parent)))
                    &&& (parent != target && side is Right ==> target > parent && (forall|v: u64|
                        self.stored_values().contains(v) ==> !(parent < v && v < target)))
                },
    {
        match &self.root {
            None => Err(EmptyTree),
            Some(node) => {
                proof {
                    assert(self.stored_values().contains(node.value));
                }
                Ok(node.relaxed_search(target))
            },
        }
    }

    /// Looks `item` up. A live match hands out a guard retaining the found
    /// value; a tombstoned match, a missing value and an empty tree all
    /// report `None`.
    pub fn find(&self, item: u64) -> (result: Option<DerefGuard>)
        requires
            self.well_formed(),
        ensures
            result is Some <==> self@.contains(item),
            result matches Some(guard) ==> guard@ == item,
    {
        match self.relaxed_search(item) {
            Err(EmptyTree) => {
                proof {
                    lemma_live_subset(self.root);
                }
                None
            },
            Ok(SearchResult::Found(v)) => Some(DerefGuard::new(v)),
            Ok(SearchResult::InsertionPoint(..)) => None,
        }
    }

    /// Walks the whole tree in order and lists the live values: a strictly
    /// increasing sequence holding exactly the tree's view. Tombstoned
    /// nodes are passed over.
    pub fn in_order(&self) -> (listing: Vec<u64>)
        requires
            self.well_formed(),
        ensures
            strictly_sorted(listing@),
            forall|v: u64| listing@.contains(v) <==> self@.contains(v),
    {
        proof {
            lemma_in_order_sorted(self.root);
            lemma_in_order_contents(self.root);
        }
        let mut listing: Vec<u64> = Vec::new();
        push_in_order(&self.root, &mut listing);
        proof {
            assert(listing@ =~= sub_in_order(self.root));
        }
        listing
    }
}

} // verus!
