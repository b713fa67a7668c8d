//! Sets of workspace ids kept as ascending vectors, so that they are walked in
//! id order.
use crate::workspace::WorkspaceId;
use vstd::prelude::*;

verus! {

/// The ids are strictly ascending.
pub open spec fn ascending(v: Seq<WorkspaceId>) -> bool {
    forall|i: int, j: int| 0 <= i < j < v.len() ==> v[i].0 < v[j].0
}

/// Whether the set holds the id.
pub fn set_contains(set: &Vec<WorkspaceId>, id: WorkspaceId) -> (b: bool)
    ensures
        b == set@.contains(id),
{
    let mut i: usize = 0;
    while i < set.len()
        invariant
            i <= set.len(),
            forall|k: int| 0 <= k < i ==> set@[k] != id,
        decreases set.len() - i,
    {
        if set[i].0 == id.0 {
            assert(set@[i as int] == id);
            return true;
        }
        i += 1;
    }
    false
}

/// Adds an id, keeping the order; true when it was not there before.
pub fn set_insert(set: &mut Vec<WorkspaceId>, id: WorkspaceId) -> (added: bool)
    requires
        ascending(old(set)@),
    ensures
        ascending(final(set)@),
        final(set)@.to_set() == old(set)@.to_set().insert(id),
        added == !old(set)@.contains(id),
{
    let mut i: usize = 0;
    while i < set.len() && set[i].0 < id.0
        invariant
            i <= set.len(),
            ascending(set@),
            forall|k: int| 0 <= k < i ==> set@[k].0 < id.0,
        decreases set.len() - i,
    {
        i += 1;
    }
    if i < set.len() && set[i].0 == id.0 {
        assert(set@[i as int] == id);
        assert(set@.to_set().insert(id) =~= set@.to_set());
        return false;
    }
    let ghost before = set@;
    assert forall|k: int| 0 <= k < before.len() implies before[k] != id by {
        if k >= i {
            assert(before[k].0 >= before[i as int].0 || k == i);
        }
    }
    set.insert(i, id);
    assert(set@ == before.insert(i as int, id));
    assert forall|x: WorkspaceId| set@.contains(x) <==> before.contains(x) || x == id by {
        if set@.contains(x) {
            let k = choose|k: int| 0 <= k < set@.len() && set@[k] == x;
            if k < i {
                assert(before[k] == x);
            } else if k > i {
                assert(before[k - 1] == x);
            }
        }
        if before.contains(x) {
            let k = choose|k: int| 0 <= k < before.len() && before[k] == x;
            if k < i {
                assert(set@[k] == x);
            } else {
                assert(set@[k + 1] == x);
            }
        }
        if x == id {
            assert(set@[i as int] == x);
        }
    }
    assert forall|x: WorkspaceId| set@.to_set().contains(x) == before.to_set().insert(id).contains(
        x,
    ) by {
        assert(set@.to_set().contains(x) == set@.contains(x));
        assert(before.to_set().contains(x) == before.contains(x));
    }
    assert(set@.to_set() =~= before.to_set().insert(id));
    true
}

/// Removes an id; true when it was there.
pub fn set_remove(set: &mut Vec<WorkspaceId>, id: WorkspaceId) -> (removed: bool)
    requires
        ascending(old(set)@),
    ensures
        ascending(final(set)@),
        final(set)@.to_set() == old(set)@.to_set().remove(id),
        removed == old(set)@.contains(id),
        final(set)@.len() <= old(set)@.len(),
{
    let mut i: usize = 0;
    while i < set.len()
        invariant
            i <= set.len(),
            set@ == old(set)@,
            ascending(set@),
            forall|k: int| 0 <= k < i ==> set@[k] != id,
        decreases set.len() - i,
    {
        if set[i].0 == id.0 {
            let ghost before = set@;
            set.remove(i);
            assert(set@ == before.remove(i as int));
            assert forall|x: WorkspaceId| set@.contains(x) <==> before.contains(x) && x != id by {
                if set@.contains(x) {
                    let k = choose|k: int| 0 <= k < set@.len() && set@[k] == x;
                    if k < i {
                        assert(before[k] == x);
                    } else {
                        assert(before[k + 1] == x);
                        assert(before[k + 1].0 > before[i as int].0);
                        assert(before[i as int] == id);
                    }
                }
                if before.contains(x) && x != id {
                    let k = choose|k: int| 0 <= k < before.len() && before[k] == x;
                    if k < i {
                        assert(set@[k] == x);
                    } else {
                        assert(k != i);
                        assert(set@[k - 1] == x);
                    }
                }
            }
            assert forall|x: WorkspaceId| set@.to_set().contains(x) == before.to_set().remove(
                id,
            ).contains(x) by {
                assert(set@.to_set().contains(x) == set@.contains(x));
                assert(before.to_set().contains(x) == before.contains(x));
            }
            assert(set@.to_set() =~= before.to_set().remove(id));
            assert(before[i as int] == id);
            assert forall|a: int, b: int| 0 <= a < b < set@.len() implies set@[a].0 < set@[b].0 by {
                if a < i && b >= i {
                    assert(set@[b] == before[b + 1]);
                } else if a >= i {
                    assert(set@[a] == before[a + 1]);
                    assert(set@[b] == before[b + 1]);
                }
            }
            return true;
        }
        i += 1;
    }
    assert(!set@.contains(id));
    assert forall|x: WorkspaceId| set@.to_set().remove(id).contains(x) == set@.to_set().contains(
        x,
    ) by {
        assert(set@.to_set().contains(x) == set@.contains(x));
    }
    assert(set@.to_set().remove(id) =~= set@.to_set());
    false
}

/// The ascending set of the given ids.
pub fn set_of(ids: &[WorkspaceId]) -> (set: Vec<WorkspaceId>)
    ensures
        ascending(set@),
        set@.to_set() == ids@.to_set(),
{
    let mut set: Vec<WorkspaceId> = Vec::new();
    let mut i: usize = 0;
    while i < ids.len()
        invariant
            i <= ids.len(),
            ascending(set@),
            set@.to_set() == ids@.take(i as int).to_set(),
        decreases ids.len() - i,
    {
        set_insert(&mut set, ids[i]);
        assert(ids@.take(i + 1) == ids@.take(i as int).push(ids@[i as int]));
        assert(ids@.take(i + 1).to_set() =~= ids@.take(i as int).to_set().insert(ids@[i as int]))
            by {
            ids@.take(i as int).lemma_push_to_set_commute(ids@[i as int]);
        }
        i += 1;
    }
    assert(ids@.take(ids.len() as int) == ids@);
    set
}

} // verus!
