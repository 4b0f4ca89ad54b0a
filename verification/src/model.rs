//! The mathematical model of the list store: a flat sequence of list
//! nodes, each carrying its full path, kept in depth-first (preorder)
//! order, together with the well-formedness conditions that every
//! operation preserves.

use vstd::prelude::*;
use vstd::seq_lib::*;
use crate::text::{valid_path};
use crate::outcome::{AddOutcome, CreateOutcome, DeleteOutcome, DescribeOutcome, RemoveOutcome};

verus! {

/// One named list: its full path from the root, the crate names it
/// holds, and its optional description.
#[verifier::ext_equal]
pub struct NodeModel {
    pub path: Seq<Seq<char>>,
    pub crates: Seq<Seq<char>>,
    pub description: Option<Seq<char>>,
}

/// The whole store: whether the top-level list mapping is present, and
/// the list nodes in depth-first order.
#[verifier::ext_equal]
pub struct StoreModel {
    pub present: bool,
    pub nodes: Seq<NodeModel>,
}

/// Every node's path is usable as a list address.
pub open spec fn paths_valid(s: Seq<NodeModel>) -> bool {
    forall|i: int| 0 <= i < s.len() ==> valid_path(#[trigger] s[i].path)
}

/// No two nodes share a path.
pub open spec fn paths_unique(s: Seq<NodeModel>) -> bool {
    forall|i: int, j: int|
        0 <= i < j < s.len() ==> (#[trigger] s[i].path) != (#[trigger] s[j].path)
}

/// Every nested node is preceded by its parent.
pub open spec fn parents_first(s: Seq<NodeModel>) -> bool {
    forall|i: int|
        0 <= i < s.len() && (#[trigger] s[i].path).len() >= 2 ==> exists|j: int|
            0 <= j < i && (#[trigger] s[j].path) == s[i].path.drop_last()
}

/// Between a node and any of its descendants stand only descendants:
/// each subtree occupies one contiguous block.
pub open spec fn blocks_contiguous(s: Seq<NodeModel>) -> bool {
    forall|i: int, j: int, k: int|
        #![trigger s[i].path.is_prefix_of(s[k].path), s[j].path]
        0 <= i < j < k < s.len() && s[i].path.is_prefix_of(s[k].path)
            ==> s[i].path.is_prefix_of(s[j].path)
}

/// No node lists the same crate twice.
pub open spec fn crates_unique(s: Seq<NodeModel>) -> bool {
    forall|i: int| 0 <= i < s.len() ==> (#[trigger] s[i].crates).no_duplicates()
}

/// Well-formedness of the store model.
pub open spec fn wf(m: StoreModel) -> bool {
    &&& paths_valid(m.nodes)
    &&& paths_unique(m.nodes)
    &&& parents_first(m.nodes)
    &&& blocks_contiguous(m.nodes)
    &&& crates_unique(m.nodes)
    &&& (!m.present ==> m.nodes.len() == 0)
}

/// The index of the first node with the given path, or -1.
pub open spec fn idx_of(s: Seq<NodeModel>, p: Seq<Seq<char>>) -> int
    decreases s.len(),
{
    if s.len() == 0 {
        -1
    } else if s[0].path == p {
        0
    } else {
        let r = idx_of(s.drop_first(), p);
        if r < 0 {
            -1
        } else {
            r + 1
        }
    }
}

pub proof fn lemma_idx_of(s: Seq<NodeModel>, p: Seq<Seq<char>>)
    ensures
        -1 <= idx_of(s, p) < s.len(),
        idx_of(s, p) >= 0 ==> s[idx_of(s, p)].path == p,
        idx_of(s, p) >= 0 ==> forall|j: int| 0 <= j < idx_of(s, p) ==> (#[trigger] s[j].path)
            != p,
        idx_of(s, p) == -1 ==> forall|j: int| 0 <= j < s.len() ==> (#[trigger] s[j].path) != p,
    decreases s.len(),
{
    if s.len() > 0 && s[0].path != p {
        lemma_idx_of(s.drop_first(), p);
        assert(forall|j: int|
            1 <= j < s.len() ==> (#[trigger] s[j].path) == s.drop_first()[j - 1].path);
    }
}

/// Whether a path addresses something: the empty path addresses the
/// root container, any other path a stored node.
pub open spec fn contains_path(m: StoreModel, p: Seq<Seq<char>>) -> bool {
    if p.len() == 0 {
        m.present
    } else {
        idx_of(m.nodes, p) >= 0
    }
}

/// The node stored at a non-empty contained path.
pub open spec fn node_at(m: StoreModel, p: Seq<Seq<char>>) -> NodeModel {
    m.nodes[idx_of(m.nodes, p)]
}

/// The first index at or after `i` that leaves the subtree rooted at
/// `p`, scanning from `i`.
pub open spec fn block_end(s: Seq<NodeModel>, p: Seq<Seq<char>>, i: int) -> int
    decreases s.len() - i,
{
    if i < 0 || i >= s.len() {
        s.len() as int
    } else if p.is_prefix_of(s[i].path) {
        block_end(s, p, i + 1)
    } else {
        i
    }
}

pub proof fn lemma_block_end(s: Seq<NodeModel>, p: Seq<Seq<char>>, i: int)
    requires
        0 <= i <= s.len(),
    ensures
        i <= block_end(s, p, i) <= s.len(),
        forall|j: int| i <= j < block_end(s, p, i) ==> p.is_prefix_of(#[trigger] s[j].path),
        block_end(s, p, i) < s.len() ==> !p.is_prefix_of(s[block_end(s, p, i)].path),
    decreases s.len() - i,
{
    if i < s.len() && p.is_prefix_of(s[i].path) {
        lemma_block_end(s, p, i + 1);
    }
}

/// Under well-formedness an ancestor stands before each of its strict
/// descendants.
pub proof fn lemma_ancestor_before(m: StoreModel, i: int, j: int)
    requires
        wf(m),
        0 <= i < m.nodes.len(),
        0 <= j < m.nodes.len(),
        i != j,
        m.nodes[i].path.is_prefix_of(m.nodes[j].path),
    ensures
        i < j,
    decreases m.nodes[j].path.len(),
{
    let p = m.nodes[i].path;
    let q = m.nodes[j].path;
    if p.len() == q.len() {
        assert(p =~= q);
        assert(false);
    } else {
        assert(q.len() >= 2) by {
            assert(valid_path(p));
        }
        let jp = choose|jp: int| 0 <= jp < j && (#[trigger] m.nodes[jp].path) == q.drop_last();
        assert(p.is_prefix_of(q.drop_last())) by {
            assert(forall|k: int| 0 <= k < p.len() ==> p[k] == q.drop_last()[k]);
            assert(p =~= q.drop_last().subrange(0, p.len() as int));
        }
        if i != jp {
            lemma_ancestor_before(m, i, jp);
        }
    }
}

/// Under well-formedness the block that starts at a node holds exactly
/// that node and its descendants.
pub proof fn lemma_block_covers(m: StoreModel, i: int)
    requires
        wf(m),
        0 <= i < m.nodes.len(),
    ensures
        i < block_end(m.nodes, m.nodes[i].path, i) <= m.nodes.len(),
        forall|j: int|
            0 <= j < m.nodes.len() ==> (m.nodes[i].path.is_prefix_of(#[trigger] m.nodes[j].path)
                <==> i <= j < block_end(m.nodes, m.nodes[i].path, i)),
{
    let p = m.nodes[i].path;
    let e = block_end(m.nodes, p, i);
    lemma_block_end(m.nodes, p, i);
    assert(p.is_prefix_of(p)) by {
        assert(p =~= p.subrange(0, p.len() as int));
    }
    assert forall|j: int|
        0 <= j < m.nodes.len() && p.is_prefix_of(#[trigger] m.nodes[j].path) implies i <= j
        < e by {
        if j < i {
            lemma_ancestor_before(m, i, j);
        } else if j >= e {
            if e < j {
                assert(p.is_prefix_of(m.nodes[e].path));
            }
            assert(false);
        }
    }
}

/// A freshly created list: no crates, no description.
pub open spec fn empty_node(p: Seq<Seq<char>>) -> NodeModel {
    NodeModel { path: p, crates: Seq::empty(), description: None }
}

/// Whether a node carries a non-empty description.
pub open spec fn desc_nonempty(n: NodeModel) -> bool {
    match n.description {
        Some(d) => d.len() > 0,
        None => false,
    }
}

/// A node is empty when it holds no crates and no description; its
/// sublists do not count.
pub open spec fn node_empty(n: NodeModel) -> bool {
    n.crates.len() == 0 && !desc_nonempty(n)
}

/// Where a new child of `parent` is inserted: at the end of the
/// parent's subtree block, so that blocks stay contiguous.
pub open spec fn insert_pos(m: StoreModel, parent: Seq<Seq<char>>) -> int {
    if parent.len() == 0 {
        m.nodes.len() as int
    } else {
        block_end(m.nodes, parent, idx_of(m.nodes, parent))
    }
}

/// The store after inserting a fresh leaf at `p` (whose parent exists).
pub open spec fn insert_leaf(m: StoreModel, p: Seq<Seq<char>>) -> StoreModel {
    StoreModel {
        present: true,
        nodes: m.nodes.insert(insert_pos(m, p.drop_last()), empty_node(p)),
    }
}

/// The store after creating the list at `p`, creating every missing
/// ancestor along the way; the empty path only makes the root present.
pub open spec fn create_along(m: StoreModel, p: Seq<Seq<char>>) -> StoreModel
    decreases p.len(),
{
    if p.len() == 0 {
        StoreModel { present: true, nodes: m.nodes }
    } else {
        let m1 = create_along(m, p.drop_last());
        if idx_of(m1.nodes, p) >= 0 {
            m1
        } else {
            insert_leaf(m1, p)
        }
    }
}

/// The store after removing the node at `p` together with its subtree.
pub open spec fn remove_block(m: StoreModel, p: Seq<Seq<char>>) -> StoreModel {
    let i = idx_of(m.nodes, p);
    let e = block_end(m.nodes, p, i);
    StoreModel {
        present: m.present,
        nodes: m.nodes.subrange(0, i) + m.nodes.subrange(e, m.nodes.len() as int),
    }
}

/// What creating a list reports.
pub open spec fn new_outcome(m: StoreModel, p: Seq<Seq<char>>, force: bool) -> CreateOutcome {
    if p.len() > 0 && !valid_path(p) {
        CreateOutcome::InvalidName
    } else if contains_path(m, p) && !force {
        CreateOutcome::AlreadyExists
    } else {
        CreateOutcome::Created
    }
}

/// The store after creating a list; under force an existing list is
/// overwritten by an empty one (its subtree is discarded).
pub open spec fn new_effect(m: StoreModel, p: Seq<Seq<char>>, force: bool) -> StoreModel {
    if p.len() > 0 && !valid_path(p) {
        m
    } else if contains_path(m, p) {
        if !force {
            m
        } else if p.len() == 0 {
            StoreModel { present: true, nodes: Seq::empty() }
        } else {
            create_along(remove_block(m, p), p)
        }
    } else {
        create_along(m, p)
    }
}

/// What deleting a list reports: a list holding crates or a description
/// is refused, one holding only sublists is not.
pub open spec fn del_outcome(m: StoreModel, p: Seq<Seq<char>>) -> DeleteOutcome {
    if !contains_path(m, p) {
        DeleteOutcome::NotFound
    } else if p.len() > 0 && !node_empty(node_at(m, p)) {
        DeleteOutcome::NotEmpty
    } else {
        DeleteOutcome::Deleted
    }
}

/// The store after deleting a list and its subtree; deleting the root
/// path removes the whole list mapping.
pub open spec fn del_effect(m: StoreModel, p: Seq<Seq<char>>) -> StoreModel {
    if del_outcome(m, p) != DeleteOutcome::Deleted {
        m
    } else if p.len() == 0 {
        StoreModel { present: false, nodes: Seq::empty() }
    } else {
        remove_block(m, p)
    }
}

/// What adding a crate reports; the root container holds no crates.
pub open spec fn add_outcome(m: StoreModel, p: Seq<Seq<char>>, c: Seq<char>) -> AddOutcome {
    if p.len() == 0 || idx_of(m.nodes, p) < 0 {
        AddOutcome::NoSuchList
    } else if node_at(m, p).crates.contains(c) {
        AddOutcome::AlreadyPresent
    } else {
        AddOutcome::Added
    }
}

/// The store after adding a crate: appended to the list's crates.
pub open spec fn add_effect(m: StoreModel, p: Seq<Seq<char>>, c: Seq<char>) -> StoreModel {
    if add_outcome(m, p, c) != AddOutcome::Added {
        m
    } else {
        let i = idx_of(m.nodes, p);
        StoreModel {
            present: m.present,
            nodes: m.nodes.update(
                i,
                NodeModel { crates: m.nodes[i].crates.push(c), ..m.nodes[i] },
            ),
        }
    }
}

/// What removing a crate reports.
pub open spec fn rem_outcome(m: StoreModel, p: Seq<Seq<char>>, c: Seq<char>) -> RemoveOutcome {
    if p.len() == 0 || idx_of(m.nodes, p) < 0 {
        RemoveOutcome::NoSuchList
    } else if !node_at(m, p).crates.contains(c) {
        RemoveOutcome::NotPresent
    } else {
        RemoveOutcome::Removed
    }
}

/// The store after removing a crate from a list.
pub open spec fn rem_effect(m: StoreModel, p: Seq<Seq<char>>, c: Seq<char>) -> StoreModel {
    if rem_outcome(m, p, c) != RemoveOutcome::Removed {
        m
    } else {
        let i = idx_of(m.nodes, p);
        StoreModel {
            present: m.present,
            nodes: m.nodes.update(
                i,
                NodeModel { crates: m.nodes[i].crates.remove_value(c), ..m.nodes[i] },
            ),
        }
    }
}

/// What describing a list reports.
pub open spec fn describe_outcome(m: StoreModel, p: Seq<Seq<char>>) -> DescribeOutcome {
    if p.len() == 0 || idx_of(m.nodes, p) < 0 {
        DescribeOutcome::NoSuchList
    } else {
        DescribeOutcome::Described
    }
}

/// The store after replacing a list's description; empty text clears it.
pub open spec fn describe_effect(m: StoreModel, p: Seq<Seq<char>>, d: Seq<char>) -> StoreModel {
    if describe_outcome(m, p) != DescribeOutcome::Described {
        m
    } else {
        let i = idx_of(m.nodes, p);
        StoreModel {
            present: m.present,
            nodes: m.nodes.update(
                i,
                NodeModel {
                    description: if d.len() == 0 {
                        None
                    } else {
                        Some(d)
                    },
                    ..m.nodes[i]
                },
            ),
        }
    }
}

pub proof fn lemma_prefix_trans(a: Seq<Seq<char>>, b: Seq<Seq<char>>, c: Seq<Seq<char>>)
    requires
        a.is_prefix_of(b),
        b.is_prefix_of(c),
    ensures
        a.is_prefix_of(c),
{
    assert forall|k: int| 0 <= k < a.len() implies a[k] == c.subrange(0, a.len() as int)[k] by {
        assert(a[k] == b.subrange(0, a.len() as int)[k]);
        assert(b[k] == c.subrange(0, b.len() as int)[k]);
    }
    assert(a =~= c.subrange(0, a.len() as int));
}

/// With unique paths, a node's index is the one `idx_of` finds.
pub proof fn lemma_idx_found(s: Seq<NodeModel>, p: Seq<Seq<char>>, i: int)
    requires
        paths_unique(s),
        0 <= i < s.len(),
        s[i].path == p,
    ensures
        idx_of(s, p) == i,
{
    lemma_idx_of(s, p);
}

/// `idx_of` looks only at paths.
pub proof fn lemma_idx_of_paths(s1: Seq<NodeModel>, s2: Seq<NodeModel>, p: Seq<Seq<char>>)
    requires
        s1.len() == s2.len(),
        forall|k: int| 0 <= k < s1.len() ==> (#[trigger] s1[k].path) == s2[k].path,
    ensures
        idx_of(s1, p) == idx_of(s2, p),
    decreases s1.len(),
{
    if s1.len() > 0 && s1[0].path != p {
        assert(forall|k: int|
            0 <= k < s1.len() - 1 ==> (#[trigger] s1.drop_first()[k].path)
                == s2.drop_first()[k].path);
        lemma_idx_of_paths(s1.drop_first(), s2.drop_first(), p);
    }
}

/// Replacing one node's crates or description preserves well-formedness
/// as long as the crates stay free of duplicates.
pub proof fn lemma_wf_update_node(m: StoreModel, i: int, n: NodeModel)
    requires
        wf(m),
        0 <= i < m.nodes.len(),
        n.path == m.nodes[i].path,
        n.crates.no_duplicates(),
    ensures
        wf(StoreModel { present: m.present, nodes: m.nodes.update(i, n) }),
{
    let s = m.nodes;
    let s2 = s.update(i, n);
    assert(forall|k: int| 0 <= k < s2.len() ==> (#[trigger] s2[k].path) == s[k].path);
    assert(paths_valid(s2)) by {
        assert(forall|k: int|
            0 <= k < s2.len() ==> valid_path(#[trigger] s2[k].path) == valid_path(s[k].path));
    }
    assert(parents_first(s2)) by {
        assert forall|x: int| 0 <= x < s2.len() && (#[trigger] s2[x].path).len() >= 2 implies
            exists|j: int| 0 <= j < x && (#[trigger] s2[j].path) == s2[x].path.drop_last() by {
            let j = choose|j: int| 0 <= j < x && (#[trigger] s[j].path) == s[x].path.drop_last();
            assert(s2[j].path == s2[x].path.drop_last());
        }
    }
    assert(blocks_contiguous(s2)) by {
        assert forall|x: int, y: int, z: int|
            #![trigger s2[x].path.is_prefix_of(s2[z].path), s2[y].path]
            0 <= x < y < z < s2.len() && s2[x].path.is_prefix_of(s2[z].path) implies s2[
            x].path.is_prefix_of(s2[y].path) by {
            assert(s[x].path.is_prefix_of(s[z].path));
        }
    }
}

pub proof fn lemma_prefix_refl(a: Seq<Seq<char>>)
    ensures
        a.is_prefix_of(a),
{
    assert(a =~= a.subrange(0, a.len() as int));
}

pub proof fn lemma_prefix_drop_last(q: Seq<Seq<char>>, p: Seq<Seq<char>>)
    requires
        q.is_prefix_of(p),
        q.len() < p.len(),
    ensures
        q.is_prefix_of(p.drop_last()),
{
    assert forall|k: int| 0 <= k < q.len() implies q[k] == p.drop_last().subrange(
        0,
        q.len() as int,
    )[k] by {
        assert(q[k] == p.subrange(0, q.len() as int)[k]);
    }
    assert(q =~= p.drop_last().subrange(0, q.len() as int));
}

pub proof fn lemma_drop_last_prefix(p: Seq<Seq<char>>)
    requires
        p.len() > 0,
    ensures
        p.drop_last().is_prefix_of(p),
{
    assert(p.drop_last() =~= p.subrange(0, p.len() - 1));
}

pub proof fn lemma_prefix_same_len(q: Seq<Seq<char>>, p: Seq<Seq<char>>)
    requires
        q.is_prefix_of(p),
        q.len() == p.len(),
    ensures
        q == p,
{
    assert(q =~= p);
}

/// A contained path corresponds to a stored index.
pub proof fn lemma_contains_exists(s: Seq<NodeModel>, p: Seq<Seq<char>>)
    ensures
        (idx_of(s, p) >= 0) <==> exists|i: int| 0 <= i < s.len() && (#[trigger] s[i].path) == p,
{
    lemma_idx_of(s, p);
    if idx_of(s, p) >= 0 {
        assert(s[idx_of(s, p)].path == p);
    }
}

/// Inserting a fresh leaf at the end of its parent's block keeps the
/// store well-formed and touches no other node.
#[verifier::rlimit(60)]
pub proof fn lemma_wf_insert_leaf(m: StoreModel, p: Seq<Seq<char>>)
    requires
        wf(m),
        m.present,
        valid_path(p),
        idx_of(m.nodes, p) == -1,
        p.len() == 1 || idx_of(m.nodes, p.drop_last()) >= 0,
    ensures
        wf(insert_leaf(m, p)),
        forall|q: Seq<Seq<char>>|
            #[trigger] contains_path(insert_leaf(m, p), q) <==> (contains_path(m, q) || q == p),
        forall|q: Seq<Seq<char>>|
            q.len() > 0 && #[trigger] contains_path(m, q) ==> node_at(insert_leaf(m, p), q)
                == node_at(m, q),
        node_at(insert_leaf(m, p), p) == empty_node(p),
{
    let s = m.nodes;
    let par = p.drop_last();
    let pos = insert_pos(m, par);
    let s2 = s.insert(pos, empty_node(p));
    let ip = idx_of(s, par);
    lemma_idx_of(s, p);
    assert(forall|j: int| 0 <= j < s.len() ==> (#[trigger] s[j].path) != p);
    if par.len() > 0 {
        lemma_idx_of(s, par);
        lemma_block_covers(m, ip);
        assert(s[ip].path == par);
        assert(ip < pos <= s.len());
    } else {
        assert(pos == s.len());
    }
    s.insert_ensures(pos, empty_node(p));
    assert(forall|x: int| 0 <= x < pos ==> #[trigger] s2[x] == s[x]);
    assert(s2[pos] == empty_node(p));
    assert(forall|x: int| pos < x < s2.len() ==> #[trigger] s2[x] == s[x - 1]);
    assert(p.is_prefix_of(p) && par.is_prefix_of(p)) by {
        assert(p =~= p.subrange(0, p.len() as int));
        assert(par =~= p.subrange(0, par.len() as int));
    }
    // Any strict ancestor of the new leaf is an ancestor of its parent.
    assert forall|q: Seq<Seq<char>>|
        valid_path(q) && q != p && #[trigger] q.is_prefix_of(p) implies q.len() >= 1 && par.len()
        > 0 && q.is_prefix_of(par) by {
        if q.len() == p.len() {
            assert(q =~= p);
        } else {
            assert(q =~= par.subrange(0, q.len() as int));
        }
    }
    assert(paths_valid(s2)) by {
        assert forall|x: int| 0 <= x < s2.len() implies valid_path(#[trigger] s2[x].path) by {
            if x != pos {
                let ox: int = if x < pos {
                    x
                } else {
                    x - 1
                };
                assert(valid_path(s[ox].path));
            }
        }
    }
    assert(paths_unique(s2)) by {
        assert forall|x: int, y: int| 0 <= x < y < s2.len() implies (#[trigger] s2[x].path)
            != (#[trigger] s2[y].path) by {
            if x == pos {
                assert(s2[y].path == s[y - 1].path);
            } else if y == pos {
                assert(s2[x].path == s[x].path);
            } else {
                let ox: int = if x < pos {
                    x
                } else {
                    x - 1
                };
                let oy: int = if y < pos {
                    y
                } else {
                    y - 1
                };
                assert(0 <= ox < oy < s.len());
                assert(s[ox].path != s[oy].path);
            }
        }
    }
    assert(parents_first(s2)) by {
        assert forall|x: int| 0 <= x < s2.len() && (#[trigger] s2[x].path).len() >= 2 implies
            exists|j: int| 0 <= j < x && (#[trigger] s2[j].path) == s2[x].path.drop_last() by {
            if x == pos {
                assert(s2[ip].path == s2[x].path.drop_last());
            } else {
                let ox: int = if x < pos {
                    x
                } else {
                    x - 1
                };
                let j = choose|j: int|
                    0 <= j < ox && (#[trigger] s[j].path) == s[ox].path.drop_last();
                let nj: int = if j < pos {
                    j
                } else {
                    j + 1
                };
                assert(0 <= nj < x && s2[nj].path == s2[x].path.drop_last());
            }
        }
    }
    assert(blocks_contiguous(s2)) by {
        assert forall|x: int, y: int, z: int|
            #![trigger s2[x].path.is_prefix_of(s2[z].path), s2[y].path]
            0 <= x < y < z < s2.len() && s2[x].path.is_prefix_of(s2[z].path) implies s2[
        x].path.is_prefix_of(s2[y].path) by {
            if z == pos {
                // the new leaf's ancestors hold its parent's whole block
                let pi = s[x].path;
                assert(pi.is_prefix_of(par));
                if x < ip {
                    if y < ip {
                        assert(pi.is_prefix_of(s[ip].path) && s[y].path == s2[y].path);
                    } else if y == ip {
                        assert(s2[y].path == par);
                    } else {
                        lemma_prefix_trans(pi, par, s[y].path);
                    }
                } else if x == ip {
                    assert(par.is_prefix_of(s[y].path));
                } else {
                    assert(par.is_prefix_of(pi));
                    assert(pi =~= par);
                }
            } else if y == pos {
                let pi = s[x].path;
                let oz = z - 1;
                assert(pi.is_prefix_of(s[oz].path));
                if x == ip {
                    lemma_prefix_trans(par, par, p);
                } else if x < ip {
                    assert(pi.is_prefix_of(s[ip].path));
                    lemma_prefix_trans(pi, par, p);
                } else {
                    assert(par.is_prefix_of(pi));
                    lemma_prefix_trans(par, pi, s[oz].path);
                    assert(false);
                }
            } else if x == pos {
                let oz = z - 1;
                assert(p.is_prefix_of(s[oz].path));
                assert(s[oz].path != p);
                assert(par.len() > 0 ==> par.is_prefix_of(s[oz].path)) by {
                    lemma_prefix_trans(par, p, s[oz].path);
                }
                assert(false);
            } else {
                let ox: int = if x < pos {
                    x
                } else {
                    x - 1
                };
                let oy: int = if y < pos {
                    y
                } else {
                    y - 1
                };
                let oz: int = if z < pos {
                    z
                } else {
                    z - 1
                };
                assert(0 <= ox < oy < oz < s.len());
                assert(s[ox].path.is_prefix_of(s[oz].path));
                assert(s[ox].path.is_prefix_of(s[oy].path));
            }
        }
    }
    assert(crates_unique(s2)) by {
        assert forall|x: int| 0 <= x < s2.len() implies (#[trigger] s2[x].crates).no_duplicates()
            by {
            if x != pos {
                let ox: int = if x < pos {
                    x
                } else {
                    x - 1
                };
                assert(s[ox].crates.no_duplicates());
            }
        }
    }
    assert(wf(insert_leaf(m, p)));
    // containment and untouched nodes
    assert forall|q: Seq<Seq<char>>| #[trigger]
        contains_path(insert_leaf(m, p), q) <==> (contains_path(m, q) || q == p) by {
        if q.len() > 0 {
            lemma_contains_exists(s, q);
            lemma_contains_exists(s2, q);
            if contains_path(m, q) {
                let i = choose|i: int| 0 <= i < s.len() && (#[trigger] s[i].path) == q;
                let ni: int = if i < pos {
                    i
                } else {
                    i + 1
                };
                assert(s2[ni].path == q);
            } else if q == p {
                assert(s2[pos].path == q);
            } else {
                if idx_of(s2, q) >= 0 {
                    let i = choose|i: int| 0 <= i < s2.len() && (#[trigger] s2[i].path) == q;
                    if i != pos {
                        let oi: int = if i < pos {
                            i
                        } else {
                            i - 1
                        };
                        assert(s[oi].path == q);
                    }
                    assert(false);
                }
            }
        }
    }
    assert forall|q: Seq<Seq<char>>|
        q.len() > 0 && #[trigger] contains_path(m, q) implies node_at(insert_leaf(m, p), q)
        == node_at(m, q) by {
        let i = idx_of(s, q);
        lemma_idx_of(s, q);
        let ni: int = if i < pos {
            i
        } else {
            i + 1
        };
        assert(s2[ni] == s[i]);
        lemma_idx_found(s2, q, ni);
    }
    lemma_idx_found(s2, p, pos);
}

/// Removing a node together with its subtree block keeps the store
/// well-formed and touches no node outside the subtree.
#[verifier::rlimit(60)]
pub proof fn lemma_wf_remove_block(m: StoreModel, p: Seq<Seq<char>>)
    requires
        wf(m),
        p.len() > 0,
        idx_of(m.nodes, p) >= 0,
    ensures
        wf(remove_block(m, p)),
        remove_block(m, p).present == m.present,
        forall|q: Seq<Seq<char>>|
            q.len() > 0 ==> (#[trigger] contains_path(remove_block(m, p), q) <==> (
            contains_path(m, q) && !p.is_prefix_of(q))),
        forall|q: Seq<Seq<char>>|
            q.len() > 0 && #[trigger] contains_path(m, q) && !p.is_prefix_of(q) ==> node_at(
                remove_block(m, p),
                q,
            ) == node_at(m, q),
{
    let s = m.nodes;
    let i = idx_of(s, p);
    let e = block_end(s, p, i);
    let s2 = remove_block(m, p).nodes;
    let w = e - i;
    lemma_idx_of(s, p);
    lemma_block_covers(m, i);
    assert(s2 =~= s.subrange(0, i) + s.subrange(e, s.len() as int));
    assert(s2.len() == s.len() - w);
    assert(forall|x: int| 0 <= x < i ==> #[trigger] s2[x] == s[x]);
    assert(forall|x: int| i <= x < s2.len() ==> #[trigger] s2[x] == s[x + w]);
    assert(paths_valid(s2)) by {
        assert forall|x: int| 0 <= x < s2.len() implies valid_path(#[trigger] s2[x].path) by {
            let ox: int = if x < i {
                x
            } else {
                x + w
            };
            assert(valid_path(s[ox].path));
        }
    }
    assert(paths_unique(s2)) by {
        assert forall|x: int, y: int| 0 <= x < y < s2.len() implies (#[trigger] s2[x].path)
            != (#[trigger] s2[y].path) by {
            let ox: int = if x < i {
                x
            } else {
                x + w
            };
            let oy: int = if y < i {
                y
            } else {
                y + w
            };
            assert(0 <= ox < oy < s.len());
            assert(s[ox].path != s[oy].path);
        }
    }
    assert(parents_first(s2)) by {
        assert forall|x: int| 0 <= x < s2.len() && (#[trigger] s2[x].path).len() >= 2 implies
            exists|j: int| 0 <= j < x && (#[trigger] s2[j].path) == s2[x].path.drop_last() by {
            let ox: int = if x < i {
                x
            } else {
                x + w
            };
            let q = s[ox].path;
            let j = choose|j: int| 0 <= j < ox && (#[trigger] s[j].path) == q.drop_last();
            assert(!(i <= ox < e));
            assert(!(i <= j < e)) by {
                if i <= j < e {
                    assert(p.is_prefix_of(s[j].path));
                    lemma_drop_last_prefix(q);
                    lemma_prefix_trans(p, q.drop_last(), q);
                    assert(p.is_prefix_of(s[ox].path));
                }
            }
            let nj: int = if j < i {
                j
            } else {
                j - w
            };
            assert(0 <= nj < x && s2[nj].path == s2[x].path.drop_last());
        }
    }
    assert(blocks_contiguous(s2)) by {
        assert forall|x: int, y: int, z: int|
            #![trigger s2[x].path.is_prefix_of(s2[z].path), s2[y].path]
            0 <= x < y < z < s2.len() && s2[x].path.is_prefix_of(s2[z].path) implies s2[
        x].path.is_prefix_of(s2[y].path) by {
            let ox: int = if x < i {
                x
            } else {
                x + w
            };
            let oy: int = if y < i {
                y
            } else {
                y + w
            };
            let oz: int = if z < i {
                z
            } else {
                z + w
            };
            assert(0 <= ox < oy < oz < s.len());
            assert(s[ox].path.is_prefix_of(s[oz].path));
            assert(s[ox].path.is_prefix_of(s[oy].path));
        }
    }
    assert(crates_unique(s2)) by {
        assert forall|x: int| 0 <= x < s2.len() implies (#[trigger] s2[x].crates).no_duplicates()
            by {
            let ox: int = if x < i {
                x
            } else {
                x + w
            };
            assert(s[ox].crates.no_duplicates());
        }
    }
    assert forall|q: Seq<Seq<char>>| q.len() > 0 implies (#[trigger] contains_path(
        remove_block(m, p),
        q,
    ) <==> (contains_path(m, q) && !p.is_prefix_of(q))) by {
        lemma_contains_exists(s, q);
        lemma_contains_exists(s2, q);
        if contains_path(m, q) && !p.is_prefix_of(q) {
            let k = choose|k: int| 0 <= k < s.len() && (#[trigger] s[k].path) == q;
            assert(!(i <= k < e));
            let nk: int = if k < i {
                k
            } else {
                k - w
            };
            assert(s2[nk].path == q);
        }
        if idx_of(s2, q) >= 0 {
            let x = choose|x: int| 0 <= x < s2.len() && (#[trigger] s2[x].path) == q;
            let ox: int = if x < i {
                x
            } else {
                x + w
            };
            assert(s[ox].path == q);
            assert(!(i <= ox < e));
            assert(!p.is_prefix_of(q));
        }
    }
    assert forall|q: Seq<Seq<char>>|
        q.len() > 0 && #[trigger] contains_path(m, q) && !p.is_prefix_of(q) implies node_at(
        remove_block(m, p),
        q,
    ) == node_at(m, q) by {
        let k = idx_of(s, q);
        lemma_idx_of(s, q);
        assert(!(i <= k < e));
        let nk: int = if k < i {
            k
        } else {
            k - w
        };
        assert(s2[nk] == s[k]);
        lemma_idx_found(s2, q, nk);
    }
}

/// A path is a prefix of `p` exactly when it is `p` itself or a prefix
/// of `p` without its last component.
pub proof fn lemma_prefix_of_split(q: Seq<Seq<char>>, p: Seq<Seq<char>>)
    requires
        p.len() > 0,
    ensures
        q.is_prefix_of(p) <==> (q == p || q.is_prefix_of(p.drop_last())),
{
    if q.is_prefix_of(p) {
        if q.len() == p.len() {
            lemma_prefix_same_len(q, p);
        } else {
            lemma_prefix_drop_last(q, p);
        }
    }
    if q == p {
        lemma_prefix_refl(p);
    }
    if q.is_prefix_of(p.drop_last()) {
        lemma_drop_last_prefix(p);
        lemma_prefix_trans(q, p.drop_last(), p);
    }
}

/// Creating a list, ancestors included, keeps the store well-formed;
/// exactly the missing prefixes of the path appear, all empty, and no
/// existing node changes.
pub proof fn lemma_wf_create_along(m: StoreModel, p: Seq<Seq<char>>)
    requires
        wf(m),
        p.len() == 0 || valid_path(p),
    ensures
        wf(create_along(m, p)),
        create_along(m, p).present,
        contains_path(create_along(m, p), p),
        forall|q: Seq<Seq<char>>|
            #[trigger] contains_path(create_along(m, p), q) <==> (contains_path(m, q)
                || q.is_prefix_of(p)),
        forall|q: Seq<Seq<char>>|
            q.len() > 0 && #[trigger] contains_path(m, q) ==> node_at(create_along(m, p), q)
                == node_at(m, q),
        forall|q: Seq<Seq<char>>|
            q.len() > 0 && !contains_path(m, q) && #[trigger] contains_path(create_along(m, p), q)
                ==> node_at(create_along(m, p), q) == empty_node(q),
    decreases p.len(),
{
    if p.len() == 0 {
        let m2 = create_along(m, p);
        assert forall|q: Seq<Seq<char>>| #[trigger]
            contains_path(m2, q) <==> (contains_path(m, q) || q.is_prefix_of(p)) by {
            if q.is_prefix_of(p) {
                assert(q.len() == 0);
            }
            if q.len() == 0 {
                lemma_prefix_refl(q);
                assert(q =~= p);
            }
        }
    } else {
        let par = p.drop_last();
        assert(par.len() == 0 || valid_path(par)) by {
            if par.len() > 0 {
                assert(forall|k: int|
                    0 <= k < par.len() ==> (#[trigger] par[k]) == p.subrange(0, p.len() - 1)[k]);
                assert(forall|k: int|
                    0 <= k < par.len() ==> crate::text::valid_component(#[trigger] par[k]));
            }
        }
        lemma_wf_create_along(m, par);
        let m1 = create_along(m, par);
        let m2 = create_along(m, p);
        lemma_prefix_refl(par);
        assert(contains_path(m1, par));
        if idx_of(m1.nodes, p) >= 0 {
            assert(m2 == m1);
            assert forall|q: Seq<Seq<char>>| #[trigger]
                contains_path(m2, q) <==> (contains_path(m, q) || q.is_prefix_of(p)) by {
                lemma_prefix_of_split(q, p);
            }
        } else {
            assert(p.len() == 1 || idx_of(m1.nodes, par) >= 0);
            lemma_wf_insert_leaf(m1, p);
            assert forall|q: Seq<Seq<char>>| #[trigger]
                contains_path(m2, q) <==> (contains_path(m, q) || q.is_prefix_of(p)) by {
                lemma_prefix_of_split(q, p);
                assert(contains_path(m2, q) <==> (contains_path(m1, q) || q == p));
            }
            assert forall|q: Seq<Seq<char>>|
                q.len() > 0 && #[trigger] contains_path(m, q) implies node_at(m2, q) == node_at(
                m,
                q,
            ) by {
                assert(contains_path(m1, q));
                assert(node_at(m2, q) == node_at(m1, q));
            }
            assert forall|q: Seq<Seq<char>>|
                q.len() > 0 && !contains_path(m, q) && #[trigger] contains_path(m2, q) implies
                node_at(m2, q) == empty_node(q) by {
                if q == p {
                } else {
                    assert(contains_path(m1, q));
                    assert(node_at(m2, q) == node_at(m1, q));
                }
            }
        }
    }
}

/// The crates stored in the subtree rooted at `p`, the root of the
/// subtree included; for the empty path this spans the whole store.
pub open spec fn count_under(s: Seq<NodeModel>, p: Seq<Seq<char>>) -> nat
    decreases s.len(),
{
    if s.len() == 0 {
        0
    } else {
        count_under(s.drop_last(), p) + if p.is_prefix_of(s.last().path) {
            s.last().crates.len()
        } else {
            0
        }
    }
}

/// The crates stored anywhere: the direct counts of all nodes summed.
pub open spec fn sum_all_crates(s: Seq<NodeModel>) -> nat
    decreases s.len(),
{
    if s.len() == 0 {
        0
    } else {
        sum_all_crates(s.drop_last()) + s.last().crates.len()
    }
}

/// The number of strict descendants of `p`.
pub open spec fn count_desc(s: Seq<NodeModel>, p: Seq<Seq<char>>) -> nat
    decreases s.len(),
{
    if s.len() == 0 {
        0
    } else {
        count_desc(s.drop_last(), p) + if p.is_prefix_of(s.last().path) && s.last().path.len()
            > p.len() {
            1nat
        } else {
            0nat
        }
    }
}

/// The number of direct children of `p`.
pub open spec fn count_children(s: Seq<NodeModel>, p: Seq<Seq<char>>) -> nat
    decreases s.len(),
{
    if s.len() == 0 {
        0
    } else {
        count_children(s.drop_last(), p) + if p.is_prefix_of(s.last().path) && s.last().path.len()
            == p.len() + 1 {
            1nat
        } else {
            0nat
        }
    }
}

/// The crates held directly by the list at `p`: none for the root
/// container or an absent list.
pub open spec fn direct_crates(m: StoreModel, p: Seq<Seq<char>>) -> Seq<Seq<char>> {
    if p.len() > 0 && idx_of(m.nodes, p) >= 0 {
        node_at(m, p).crates
    } else {
        Seq::empty()
    }
}

pub proof fn lemma_count_under_mono(s: Seq<NodeModel>, p: Seq<Seq<char>>, j: int)
    requires
        0 <= j <= s.len(),
    ensures
        count_under(s.subrange(0, j), p) <= count_under(s, p),
    decreases s.len() - j,
{
    if j == s.len() {
        assert(s.subrange(0, j) =~= s);
    } else {
        lemma_count_under_mono(s, p, j + 1);
        assert(s.subrange(0, j + 1).drop_last() =~= s.subrange(0, j));
        assert(count_under(s.subrange(0, j), p) <= count_under(s.subrange(0, j + 1), p));
    }
}

/// Counting below the root path counts every crate in the store.
pub proof fn lemma_count_under_root(s: Seq<NodeModel>)
    ensures
        count_under(s, Seq::empty()) == sum_all_crates(s),
    decreases s.len(),
{
    if s.len() > 0 {
        lemma_count_under_root(s.drop_last());
        assert(Seq::<Seq<char>>::empty().is_prefix_of(s.last().path)) by {
            assert(Seq::<Seq<char>>::empty() =~= s.last().path.subrange(0, 0));
        }
    }
}

pub proof fn lemma_count_under_le_sum(s: Seq<NodeModel>, p: Seq<Seq<char>>)
    ensures
        count_under(s, p) <= sum_all_crates(s),
    decreases s.len(),
{
    if s.len() > 0 {
        lemma_count_under_le_sum(s.drop_last(), p);
    }
}

/// Two stores with the same presence and the same paths contain the
/// same addresses: changing a node's crates or description moves no
/// list.
pub proof fn lemma_contains_same_paths(m1: StoreModel, m2: StoreModel)
    requires
        m1.present == m2.present,
        m1.nodes.len() == m2.nodes.len(),
        forall|k: int| 0 <= k < m1.nodes.len() ==> (#[trigger] m1.nodes[k].path) == m2.nodes[k].path,
    ensures
        forall|q: Seq<Seq<char>>| #[trigger] contains_path(m1, q) == contains_path(m2, q),
{
    assert forall|q: Seq<Seq<char>>| #[trigger]
        contains_path(m1, q) == contains_path(m2, q) by {
        lemma_idx_of_paths(m1.nodes, m2.nodes, q);
    }
}

/// A node inside the subtree contributes its whole crate count.
pub proof fn lemma_count_under_at_least(s: Seq<NodeModel>, p: Seq<Seq<char>>, i: int)
    requires
        0 <= i < s.len(),
        p.is_prefix_of(s[i].path),
    ensures
        count_under(s, p) >= s[i].crates.len(),
    decreases s.len(),
{
    if i == s.len() - 1 {
        assert(s.last() == s[i]);
    } else {
        assert(s.drop_last()[i] == s[i]);
        lemma_count_under_at_least(s.drop_last(), p, i);
    }
}

/// Whether the list at `p` carries a non-empty description.
pub open spec fn has_desc_at(m: StoreModel, p: Seq<Seq<char>>) -> bool {
    p.len() > 0 && idx_of(m.nodes, p) >= 0 && desc_nonempty(node_at(m, p))
}

pub proof fn lemma_no_dup_remove(s: Seq<Seq<char>>, i: int)
    requires
        s.no_duplicates(),
        0 <= i < s.len(),
    ensures
        s.remove(i).no_duplicates(),
{
    let s2 = s.remove(i);
    s.remove_ensures(i);
    assert forall|x: int, y: int| 0 <= x < y < s2.len() implies s2[x] != s2[y] by {
        let ox: int = if x < i {
            x
        } else {
            x + 1
        };
        let oy: int = if y < i {
            y
        } else {
            y + 1
        };
        assert(s[ox] == s2[x] && s[oy] == s2[y]);
    }
}

/// Creating a list preserves well-formedness.
pub proof fn lemma_wf_new(m: StoreModel, p: Seq<Seq<char>>, force: bool)
    requires
        wf(m),
    ensures
        wf(new_effect(m, p, force)),
        new_outcome(m, p, force) == CreateOutcome::Created ==> contains_path(
            new_effect(m, p, force),
            p,
        ),
        new_outcome(m, p, force) != CreateOutcome::Created ==> new_effect(m, p, force) == m,
{
    if p.len() > 0 && !valid_path(p) {
    } else if contains_path(m, p) {
        if force {
            if p.len() == 0 {
            } else {
                lemma_wf_remove_block(m, p);
                lemma_wf_create_along(remove_block(m, p), p);
            }
        }
    } else {
        lemma_wf_create_along(m, p);
    }
}

/// Creating a list without force keeps every existing list, and the
/// created path itself is contained whenever its name is usable.
pub proof fn lemma_new_monotone(m: StoreModel, p: Seq<Seq<char>>)
    requires
        wf(m),
    ensures
        forall|q: Seq<Seq<char>>| #[trigger]
            contains_path(m, q) ==> contains_path(new_effect(m, p, false), q),
        (p.len() == 0 || valid_path(p)) ==> contains_path(new_effect(m, p, false), p),
{
    if p.len() > 0 && !valid_path(p) {
    } else if contains_path(m, p) {
    } else {
        lemma_wf_create_along(m, p);
        lemma_prefix_refl(p);
    }
}

/// Deleting a list preserves well-formedness, and a deleted list is
/// gone afterwards.
pub proof fn lemma_wf_del(m: StoreModel, p: Seq<Seq<char>>)
    requires
        wf(m),
    ensures
        wf(del_effect(m, p)),
        del_outcome(m, p) == DeleteOutcome::Deleted ==> !contains_path(del_effect(m, p), p),
        del_outcome(m, p) != DeleteOutcome::Deleted ==> del_effect(m, p) == m,
{
    if del_outcome(m, p) == DeleteOutcome::Deleted && p.len() > 0 {
        lemma_wf_remove_block(m, p);
        lemma_prefix_refl(p);
    }
}

/// Adding a crate preserves well-formedness.
pub proof fn lemma_wf_add(m: StoreModel, p: Seq<Seq<char>>, c: Seq<char>)
    requires
        wf(m),
    ensures
        wf(add_effect(m, p, c)),
        add_outcome(m, p, c) != AddOutcome::Added ==> add_effect(m, p, c) == m,
{
    if add_outcome(m, p, c) == AddOutcome::Added {
        let i = idx_of(m.nodes, p);
        lemma_idx_of(m.nodes, p);
        let n = NodeModel { crates: m.nodes[i].crates.push(c), ..m.nodes[i] };
        assert(n.crates.no_duplicates()) by {
            assert(forall|k: int|
                0 <= k < m.nodes[i].crates.len() ==> m.nodes[i].crates[k] == n.crates[k]);
        }
        lemma_wf_update_node(m, i, n);
    }
}

/// Removing a crate preserves well-formedness.
pub proof fn lemma_wf_rem(m: StoreModel, p: Seq<Seq<char>>, c: Seq<char>)
    requires
        wf(m),
    ensures
        wf(rem_effect(m, p, c)),
        rem_outcome(m, p, c) != RemoveOutcome::Removed ==> rem_effect(m, p, c) == m,
{
    if rem_outcome(m, p, c) == RemoveOutcome::Removed {
        let i = idx_of(m.nodes, p);
        lemma_idx_of(m.nodes, p);
        let cr = m.nodes[i].crates;
        let n = NodeModel { crates: cr.remove_value(c), ..m.nodes[i] };
        assert(n.crates.no_duplicates()) by {
            cr.index_of_first_ensures(c);
            if cr.contains(c) {
                lemma_no_dup_remove(cr, cr.index_of(c));
            }
        }
        lemma_wf_update_node(m, i, n);
    }
}

/// Describing a list preserves well-formedness.
pub proof fn lemma_wf_describe(m: StoreModel, p: Seq<Seq<char>>, d: Seq<char>)
    requires
        wf(m),
    ensures
        wf(describe_effect(m, p, d)),
        describe_outcome(m, p) != DescribeOutcome::Described ==> describe_effect(m, p, d) == m,
{
    if describe_outcome(m, p) == DescribeOutcome::Described {
        let i = idx_of(m.nodes, p);
        lemma_idx_of(m.nodes, p);
        lemma_wf_update_node(
            m,
            i,
            NodeModel {
                description: if d.len() == 0 {
                    None
                } else {
                    Some(d)
                },
                ..m.nodes[i]
            },
        );
    }
}

} // verus!
