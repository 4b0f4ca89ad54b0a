//! Laws of the list operations, stated over the store model and proved
//! once for every well-formed store.

use vstd::prelude::*;
use vstd::seq_lib::*;
use crate::model::{
    StoreModel, add_effect, add_outcome, contains_path, count_under, del_effect, del_outcome,
    direct_crates, has_desc_at, idx_of, lemma_count_under_root, lemma_idx_of,
    lemma_idx_of_paths, lemma_wf_del, lemma_wf_new, new_effect, new_outcome, node_at, rem_effect,
    rem_outcome, sum_all_crates, wf,
};
use crate::outcome::{AddOutcome, CreateOutcome, DeleteOutcome, RemoveOutcome};

verus! {

/// A list that was deleted no longer exists: after a successful
/// delete, looking the path up fails.
pub proof fn lemma_delete_then_absent(m: StoreModel, p: Seq<Seq<char>>)
    requires
        wf(m),
        del_outcome(m, p) == DeleteOutcome::Deleted,
    ensures
        !contains_path(del_effect(m, p), p),
{
    lemma_wf_del(m, p);
}

/// A list that was created exists: after a successful create, looking
/// the path up succeeds.
pub proof fn lemma_create_then_present(m: StoreModel, p: Seq<Seq<char>>, force: bool)
    requires
        wf(m),
        new_outcome(m, p, force) == CreateOutcome::Created,
    ensures
        contains_path(new_effect(m, p, force), p),
{
    lemma_wf_new(m, p, force);
}

/// A list that holds crates of its own, or carries a non-empty
/// description, is never deleted — whatever its sublists hold.
pub proof fn lemma_nonempty_blocks_delete(m: StoreModel, p: Seq<Seq<char>>)
    requires
        wf(m),
        direct_crates(m, p).len() > 0 || has_desc_at(m, p),
    ensures
        del_outcome(m, p) != DeleteOutcome::Deleted,
{
}

/// Adding a crate twice changes nothing the second time, and the
/// second call reports the duplicate instead of mutating.
pub proof fn lemma_add_idempotent(m: StoreModel, p: Seq<Seq<char>>, c: Seq<char>)
    requires
        wf(m),
        add_outcome(m, p, c) == AddOutcome::Added,
    ensures
        add_outcome(add_effect(m, p, c), p, c) == AddOutcome::AlreadyPresent,
        add_effect(add_effect(m, p, c), p, c) == add_effect(m, p, c),
{
    let m1 = add_effect(m, p, c);
    let i = idx_of(m.nodes, p);
    lemma_idx_of(m.nodes, p);
    assert(forall|k: int|
        0 <= k < m.nodes.len() ==> (#[trigger] m.nodes[k].path) == m1.nodes[k].path);
    lemma_idx_of_paths(m.nodes, m1.nodes, p);
    let cr1 = node_at(m1, p).crates;
    assert(cr1[cr1.len() - 1] == c);
    assert(cr1.contains(c));
}

/// Removing a crate and adding it back restores the set of crates the
/// list holds.
pub proof fn lemma_remove_add_round_trip(m: StoreModel, p: Seq<Seq<char>>, c: Seq<char>)
    requires
        wf(m),
        rem_outcome(m, p, c) == RemoveOutcome::Removed,
    ensures
        add_outcome(rem_effect(m, p, c), p, c) == AddOutcome::Added,
        direct_crates(add_effect(rem_effect(m, p, c), p, c), p).to_set() == direct_crates(
            m,
            p,
        ).to_set(),
{
    let i = idx_of(m.nodes, p);
    lemma_idx_of(m.nodes, p);
    let cr = node_at(m, p).crates;
    let m1 = rem_effect(m, p, c);
    assert(forall|k: int|
        0 <= k < m.nodes.len() ==> (#[trigger] m.nodes[k].path) == m1.nodes[k].path);
    lemma_idx_of_paths(m.nodes, m1.nodes, p);
    cr.index_of_first_ensures(c);
    let fi = cr.index_of_first(c)->Some_0;
    let cr1 = cr.remove(fi);
    cr.remove_ensures(fi);
    assert(cr.remove_value(c) == cr1);
    assert(node_at(m1, p).crates == cr1);
    assert(!cr1.contains(c)) by {
        if cr1.contains(c) {
            let k = choose|k: int| 0 <= k < cr1.len() && cr1[k] == c;
            let ok: int = if k < fi {
                k
            } else {
                k + 1
            };
            assert(cr[ok] == c);
            assert(cr.no_duplicates());
        }
    }
    assert(add_outcome(m1, p, c) == AddOutcome::Added);
    let m2 = add_effect(m1, p, c);
    assert(forall|k: int|
        0 <= k < m1.nodes.len() ==> (#[trigger] m1.nodes[k].path) == m2.nodes[k].path);
    lemma_idx_of_paths(m1.nodes, m2.nodes, p);
    let cr2 = node_at(m2, p).crates;
    assert(cr2 == cr1.push(c));
    assert forall|x: Seq<char>| #[trigger] cr2.contains(x) implies cr.contains(x) by {
        let k = choose|k: int| 0 <= k < cr2.len() && cr2[k] == x;
        if k < cr1.len() {
            let ok: int = if k < fi {
                k
            } else {
                k + 1
            };
            assert(cr[ok] == x);
        } else {
            assert(x == c);
            assert(cr[fi] == c);
        }
    }
    assert forall|x: Seq<char>| #[trigger] cr.contains(x) implies cr2.contains(x) by {
        let k = choose|k: int| 0 <= k < cr.len() && cr[k] == x;
        if k == fi {
            assert(cr2[cr2.len() - 1] == c);
        } else {
            let nk: int = if k < fi {
                k
            } else {
                k - 1
            };
            assert(cr2[nk] == x);
        }
    }
    assert(cr2.to_set() =~= cr.to_set());
    assert(direct_crates(m2, p) == cr2);
    assert(direct_crates(m, p) == cr);
}

/// The recursive crate count from the root equals the direct counts of
/// every list in the store summed: every crate is counted exactly
/// once.
pub proof fn lemma_total_is_sum_of_direct(m: StoreModel)
    requires
        wf(m),
    ensures
        count_under(m.nodes, Seq::<Seq<char>>::empty()) == sum_all_crates(m.nodes),
        forall|i: int|
            0 <= i < m.nodes.len() ==> direct_crates(m, #[trigger] m.nodes[i].path).len()
                == m.nodes[i].crates.len(),
{
    lemma_count_under_root(m.nodes);
    assert forall|i: int| 0 <= i < m.nodes.len() implies direct_crates(
        m,
        #[trigger] m.nodes[i].path,
    ).len() == m.nodes[i].crates.len() by {
        crate::model::lemma_idx_found(m.nodes, m.nodes[i].path, i);
        assert(m.nodes[i].path.len() > 0) by {
            assert(crate::text::valid_path(m.nodes[i].path));
        }
    }
}

} // verus!
