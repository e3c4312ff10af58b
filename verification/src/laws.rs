//! Laws of the container that relate several operations, stated over the
//! abstract views that the operations' contracts use and proved once and
//! for all. Each proof function's parameters stand for the tree views and
//! values involved; the step from a call of an operation to its view change
//! is the operation's own `ensures`.

use crate::binarytree::DerefGuard;
use crate::binarytree::accepts;
use crate::binarytree::strictly_sorted;
use vstd::prelude::*;

verus! {

/// The view of a tree after the values of `values` have been inserted one
/// after another into a tree whose view was `s`: each step is exactly the
/// view change that `insert` and `push` guarantee.
pub open spec fn insert_all(s: Set<u64>, values: Seq<u64>) -> Set<u64>
    decreases values.len(),
{
    if values.len() == 0 {
        s
    } else {
        insert_all(s.insert(values[0]), values.drop_first())
    }
}

/// After a group of inserts, the view holds a value exactly when it was
/// present before or is among the inserted ones.
pub proof fn lemma_insert_all_members(s: Set<u64>, values: Seq<u64>)
    ensures
        forall|v: u64|
            insert_all(s, values).contains(v) <==> s.contains(v) || values.contains(v),
    decreases values.len(),
{
    if values.len() > 0 {
        let rest = values.drop_first();
        lemma_insert_all_members(s.insert(values[0]), rest);
        assert forall|v: u64|
            insert_all(s, values).contains(v) <==> s.contains(v) || values.contains(v) by {
            if insert_all(s, values).contains(v) {
                if s.insert(values[0]).contains(v) {
                    if v == values[0] {
                        assert(values[0] == v);
                        assert(values.contains(v));
                    }
                } else {
                    let i = choose|i: int| 0 <= i < rest.len() && rest[i] == v;
                    assert(values[i + 1] == v);
                    assert(values.contains(v));
                }
            }
            if values.contains(v) {
                let i = choose|i: int| 0 <= i < values.len() && values[i] == v;
                if i == 0 {
                    assert(s.insert(values[0]).contains(v));
                } else {
                    assert(rest[i - 1] == v);
                    assert(rest.contains(v));
                }
            }
        }
    }
}

/// No insert is lost: when each member of a group of values is inserted
/// once, in whatever order they arrive, every one of them is present in
/// the view once all the inserts are done.
pub proof fn lemma_no_lost_inserts(s: Set<u64>, values: Seq<u64>)
    ensures
        forall|i: int| 0 <= i < values.len() ==> insert_all(s, values).contains(values[i]),
{
    lemma_insert_all_members(s, values);
    assert forall|i: int|
        0 <= i < values.len() implies insert_all(s, values).contains(values[i]) by {
        assert(values.contains(values[i]));
    }
}

/// The arrival order of a group of inserts does not matter: two orders of
/// the same values end in the same view — so the in-order walk after the
/// group settles is the same listing whichever insert came first.
pub proof fn lemma_insert_order_irrelevant(s: Set<u64>, one: Seq<u64>, other: Seq<u64>)
    requires
        forall|v: u64| one.contains(v) <==> other.contains(v),
    ensures
        insert_all(s, one) == insert_all(s, other),
{
    lemma_insert_all_members(s, one);
    lemma_insert_all_members(s, other);
    assert forall|v: u64|
        insert_all(s, one).contains(v) == insert_all(s, other).contains(v) by {
        assert(one.contains(v) <==> other.contains(v));
    }
    assert(insert_all(s, one) =~= insert_all(s, other));
}

/// A strictly increasing listing is determined by its members alone: two
/// such listings with the same members are the same sequence. Together
/// with the order-irrelevance of inserts, the in-order walk of a tree is
/// therefore one fixed listing whatever order its values arrived in.
pub proof fn lemma_sorted_listing_unique(one: Seq<u64>, other: Seq<u64>)
    requires
        strictly_sorted(one),
        strictly_sorted(other),
        forall|v: u64| one.contains(v) <==> other.contains(v),
    ensures
        one == other,
    decreases one.len(),
{
    if one.len() == 0 {
        if other.len() > 0 {
            assert(other.contains(other[0]));
            assert(false);
        }
        assert(one =~= other);
    } else {
        assert(one.contains(one[0]));
        let j = choose|j: int| 0 <= j < other.len() && other[j] == one[0];
        assert(other[0] <= other[j]);
        assert(other.contains(other[0]));
        let i = choose|i: int| 0 <= i < one.len() && one[i] == other[0];
        assert(one[0] <= one[i]);
        assert(one[0] == other[0]);
        let one_rest = one.drop_first();
        let other_rest = other.drop_first();
        assert forall|v: u64| one_rest.contains(v) <==> other_rest.contains(v) by {
            if one_rest.contains(v) {
                let k = choose|k: int| 0 <= k < one_rest.len() && one_rest[k] == v;
                assert(one[k + 1] == v);
                assert(one.contains(v));
                assert(v > one[0]);
                let m = choose|m: int| 0 <= m < other.len() && other[m] == v;
                assert(m > 0);
                assert(other_rest[m - 1] == v);
            }
            if other_rest.contains(v) {
                let k = choose|k: int| 0 <= k < other_rest.len() && other_rest[k] == v;
                assert(other[k + 1] == v);
                assert(other.contains(v));
                assert(v > other[0]);
                let m = choose|m: int| 0 <= m < one.len() && one[m] == v;
                assert(m > 0);
                assert(one_rest[m - 1] == v);
            }
        }
        lemma_sorted_listing_unique(one_rest, other_rest);
        assert forall|k: int| 0 <= k < one.len() implies one[k] == other[k] by {
            if k > 0 {
                assert(one_rest[k - 1] == other_rest[k - 1]);
            }
        }
        assert(one =~= other);
    }
}

/// No duplicate is accepted twice: of two inserts of one value, at most
/// one is accepted, and from a view not holding the value, exactly the
/// first of the two.
pub proof fn lemma_no_duplicate_acceptance(s: Set<u64>, v: u64)
    ensures
        !accepts(s.insert(v), v),
        accepts(s, v) <==> !s.contains(v),
{
}

/// Deleting is idempotent: after a delete the view no longer holds the
/// value, so a second delete of it reports `NotFound`; and deleting an
/// absent value leaves the view as it was.
pub proof fn lemma_idempotent_delete(s: Set<u64>, v: u64)
    ensures
        !s.remove(v).contains(v),
        !s.contains(v) ==> s.remove(v) == s,
{
    if !s.contains(v) {
        assert(s.remove(v) =~= s);
    }
}

/// Guard safety: a guard retains its value on its own, so deleting that
/// value from the tree leaves the guard readable and unchanged, while a
/// find against the view after the delete misses the value.
pub proof fn lemma_guard_safety(guard: DerefGuard, s: Set<u64>, v: u64)
    requires
        guard@ == v,
    ensures
        guard@ == v,
        !s.remove(v).contains(v),
{
}

} // verus!
