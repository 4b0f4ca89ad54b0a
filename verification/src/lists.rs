//! The in-memory store of crate lists and the operations on it.
//!
//! Lists form a tree addressed by dotted paths; the store keeps the
//! tree as a flat vector of nodes in depth-first order, which the
//! well-formedness conditions of [`crate::model`] pin down.

use vstd::prelude::*;
use vstd::seq_lib::*;
use crate::model::{
    NodeModel, StoreModel, add_effect, add_outcome, block_end, contains_path, count_children,
    count_desc, count_under, create_along, del_effect, del_outcome, describe_effect,
    describe_outcome, direct_crates, empty_node, has_desc_at, idx_of, insert_leaf, insert_pos,
    lemma_count_under_le_sum, lemma_count_under_mono, lemma_idx_of, lemma_wf_add,
    lemma_wf_create_along, lemma_wf_del, lemma_wf_describe, lemma_wf_insert_leaf, lemma_wf_new,
    lemma_wf_rem, lemma_wf_remove_block, new_effect, new_outcome, node_at, rem_effect, rem_outcome,
    remove_block, sum_all_crates, wf,
};
use crate::outcome::{AddOutcome, CreateOutcome, DeleteOutcome, DescribeOutcome, RemoveOutcome};
use crate::text::{is_valid_path, path_of, split_path, str_eq, valid_path};

verus! {

/// One stored list: its path from the root split into components, the
/// crates it holds, and its optional description.
pub struct ListNode {
    pub path: Vec<String>,
    pub crates: Vec<String>,
    pub description: Option<String>,
}

impl View for ListNode {
    type V = NodeModel;

    open spec fn view(&self) -> NodeModel {
        NodeModel {
            path: self.path.deep_view(),
            crates: self.crates.deep_view(),
            description: self.description.deep_view(),
        }
    }
}

/// The abstraction of a node vector.
pub open spec fn nodes_view(v: Seq<ListNode>) -> Seq<NodeModel> {
    Seq::new(v.len(), |i: int| v[i]@)
}

/// The store of named lists held in the configuration document.
pub struct Lists {
    pub present: bool,
    pub nodes: Vec<ListNode>,
}

impl View for Lists {
    type V = StoreModel;

    open spec fn view(&self) -> StoreModel {
        StoreModel { present: self.present, nodes: nodes_view(self.nodes@) }
    }
}

/// Compares two paths component by component.
pub fn path_eq(a: &Vec<String>, b: &Vec<String>) -> (r: bool)
    ensures
        r == (a.deep_view() == b.deep_view()),
{
    if a.len() != b.len() {
        proof {
            assert(a.deep_view().len() == a@.len());
            assert(b.deep_view().len() == b@.len());
        }
        return false;
    }
    let mut i: usize = 0;
    while i < a.len()
        invariant
            a@.len() == b@.len(),
            i <= a@.len(),
            forall|k: int| 0 <= k < i ==> a.deep_view()[k] == b.deep_view()[k],
        decreases a@.len() - i,
    {
        if !crate::text::str_eq(a[i].as_str(), b[i].as_str()) {
            proof {
                assert(a.deep_view()[i as int] != b.deep_view()[i as int]);
            }
            return false;
        }
        i += 1;
    }
    proof {
        assert(a.deep_view() =~= b.deep_view());
    }
    true
}

/// Decides whether path `p` is an ancestor of or equal to path `q`.
pub fn path_is_prefix(p: &Vec<String>, q: &Vec<String>) -> (r: bool)
    ensures
        r == p.deep_view().is_prefix_of(q.deep_view()),
{
    if p.len() > q.len() {
        return false;
    }
    let mut i: usize = 0;
    while i < p.len()
        invariant
            p@.len() <= q@.len(),
            i <= p@.len(),
            forall|k: int| 0 <= k < i ==> p.deep_view()[k] == q.deep_view()[k],
        decreases p@.len() - i,
    {
        if !crate::text::str_eq(p[i].as_str(), q[i].as_str()) {
            proof {
                assert(p.deep_view()[i as int] != q.deep_view()[i as int]);
                assert(!p.deep_view().is_prefix_of(q.deep_view())) by {
                    if p.deep_view().is_prefix_of(q.deep_view()) {
                        assert(p.deep_view()[i as int] == q.deep_view().subrange(
                            0,
                            p.deep_view().len() as int,
                        )[i as int]);
                    }
                }
            }
            return false;
        }
        i += 1;
    }
    proof {
        assert(p.deep_view() =~= q.deep_view().subrange(0, p.deep_view().len() as int));
    }
    true
}

impl Lists {
    /// A store with no list mapping and no lists.
    pub fn empty() -> (r: Lists)
        ensures
            wf(r@),
            r@ == (StoreModel { present: false, nodes: Seq::<NodeModel>::empty() }),
    {
        let r = Lists { present: false, nodes: Vec::new() };
        proof {
            assert(r@.nodes =~= Seq::<NodeModel>::empty());
        }
        r
    }

    /// The index of the node at `path`, if one is stored.
    fn find_node(&self, path: &Vec<String>) -> (r: Option<usize>)
        ensures
            match r {
                Some(i) => i < self@.nodes.len() && idx_of(self@.nodes, path.deep_view())
                    == i as int,
                None => idx_of(self@.nodes, path.deep_view()) == -1,
            },
    {
        let ghost p = path.deep_view();
        proof {
            lemma_idx_of(self@.nodes, p);
        }
        let mut i: usize = 0;
        while i < self.nodes.len()
            invariant
                i <= self.nodes@.len(),
                p == path.deep_view(),
                forall|j: int| 0 <= j < i ==> (#[trigger] nodes_view(self.nodes@)[j].path) != p,
                -1 <= idx_of(self@.nodes, p) < self@.nodes.len(),
                idx_of(self@.nodes, p) >= 0 ==> self@.nodes[idx_of(self@.nodes, p)].path == p,
                idx_of(self@.nodes, p) >= 0 ==> forall|j: int|
                    0 <= j < idx_of(self@.nodes, p) ==> (#[trigger] self@.nodes[j].path) != p,
                idx_of(self@.nodes, p) == -1 ==> forall|j: int|
                    0 <= j < self@.nodes.len() ==> (#[trigger] self@.nodes[j].path) != p,
            decreases self.nodes@.len() - i,
        {
            if path_eq(&self.nodes[i].path, path) {
                proof {
                    let s = self@.nodes;
                    let r = idx_of(s, p);
                    assert(s[i as int].path == p);
                    if r == -1 {
                        assert(s[i as int].path != p);
                    } else if r < i {
                        assert(nodes_view(self.nodes@)[r].path != p);
                        assert(s[r].path == p);
                    } else if r > i {
                        assert(s[i as int].path != p);
                    }
                }
                return Some(i);
            }
            i += 1;
        }
        None
    }

    /// The first index at or after `i` that leaves the subtree of `path`.
    fn block_end_from(&self, path: &Vec<String>, i: usize) -> (r: usize)
        requires
            i <= self@.nodes.len(),
        ensures
            r == block_end(self@.nodes, path.deep_view(), i as int),
            i <= r <= self@.nodes.len(),
    {
        let ghost p = path.deep_view();
        let mut j: usize = i;
        while j < self.nodes.len()
            invariant
                i <= j <= self.nodes@.len(),
                p == path.deep_view(),
                block_end(self@.nodes, p, i as int) == block_end(self@.nodes, p, j as int),
            decreases self.nodes@.len() - j,
        {
            if !path_is_prefix(path, &self.nodes[j].path) {
                return j;
            }
            j += 1;
        }
        j
    }

    /// Whether a list exists at the dotted address; the empty address
    /// names the root container, which exists while the list mapping
    /// is present.
    pub fn list_exists(&self, list: &str) -> (r: bool)
        ensures
            r == contains_path(self@, path_of(list@)),
    {
        let p = split_path(list);
        if p.len() == 0 {
            self.present
        } else {
            self.find_node(&p).is_some()
        }
    }

    /// The stored node of the list at the dotted address. The root
    /// container is not a stored node, so the empty address yields
    /// nothing.
    pub fn as_table(&self, list: &str) -> (r: Option<&ListNode>)
        ensures
            match r {
                Some(n) => path_of(list@).len() > 0 && contains_path(self@, path_of(list@)) && n@
                    == node_at(self@, path_of(list@)),
                None => path_of(list@).len() == 0 || !contains_path(self@, path_of(list@)),
            },
    {
        let p = split_path(list);
        if p.len() == 0 {
            return None;
        }
        match self.find_node(&p) {
            Some(i) => Some(&self.nodes[i]),
            None => None,
        }
    }

    /// An owned copy of the stored node at the dotted address, a
    /// snapshot free of the store's borrow; mutation itself goes
    /// through the store's operations. The root container is not a
    /// stored node, so the empty address yields nothing.
    pub fn as_table_mut(&self, list: &str) -> (r: Option<ListNode>)
        ensures
            match r {
                Some(n) => path_of(list@).len() > 0 && contains_path(self@, path_of(list@)) && n@
                    == node_at(self@, path_of(list@)),
                None => path_of(list@).len() == 0 || !contains_path(self@, path_of(list@)),
            },
    {
        match self.as_table(list) {
            Some(n) => {
                let copy = ListNode {
                    path: clone_path(&n.path),
                    crates: clone_path(&n.crates),
                    description: match &n.description {
                        Some(d) => Some(d.clone()),
                        None => None,
                    },
                };
                proof {
                    assert(copy@ =~~= n@);
                }
                Some(copy)
            },
            None => None,
        }
    }

    /// The number of crates held directly by the list at the dotted
    /// address: zero for the root container and for an absent list.
    pub fn quantity(&self, list: &str) -> (r: usize)
        ensures
            r == direct_crates(self@, path_of(list@)).len(),
    {
        let p = split_path(list);
        if p.len() == 0 {
            return 0;
        }
        match self.find_node(&p) {
            Some(i) => self.nodes[i].crates.len(),
            None => 0,
        }
    }
}

/// Copies a path component by component.
pub fn clone_path(v: &Vec<String>) -> (r: Vec<String>)
    ensures
        r.deep_view() == v.deep_view(),
{
    let mut r: Vec<String> = Vec::new();
    let mut i: usize = 0;
    while i < v.len()
        invariant
            i <= v@.len(),
            r.deep_view() =~= v.deep_view().subrange(0, i as int),
        decreases v@.len() - i,
    {
        let ghost before = r.deep_view();
        r.push(v[i].clone());
        proof {
            assert(r.deep_view() =~= before.push(v@[i as int]@));
            assert(r.deep_view() =~= v.deep_view().subrange(0, i + 1));
        }
        i += 1;
    }
    proof {
        assert(r.deep_view() =~= v.deep_view());
    }
    r
}

/// Decides whether a name stands among the given crate names.
pub fn names_contain(v: &Vec<String>, name: &str) -> (r: bool)
    ensures
        r == v.deep_view().contains(name@),
{
    let mut i: usize = 0;
    while i < v.len()
        invariant
            i <= v@.len(),
            forall|k: int| 0 <= k < i ==> (#[trigger] v.deep_view()[k]) != name@,
        decreases v@.len() - i,
    {
        if str_eq(v[i].as_str(), name) {
            proof {
                assert(v.deep_view()[i as int] == name@);
            }
            return true;
        }
        i += 1;
    }
    proof {
        assert(forall|k: int| 0 <= k < v.deep_view().len() ==> (#[trigger] v.deep_view()[k])
            != name@);
    }
    false
}

impl Lists {
    /// Creates the list at `path` and every missing ancestor; an empty
    /// path only makes the root mapping present.
    fn create_missing(&mut self, path: &Vec<String>)
        requires
            wf(old(self)@),
            path.deep_view().len() == 0 || valid_path(path.deep_view()),
        ensures
            wf(final(self)@),
            final(self)@ == create_along(old(self)@, path.deep_view()),
    {
        let ghost m0 = self@;
        let ghost pd = path.deep_view();
        self.present = true;
        proof {
            assert(pd.subrange(0, 0) =~= Seq::<Seq<char>>::empty());
            assert(self@ == create_along(m0, pd.subrange(0, 0)));
            lemma_wf_create_along(m0, pd);
        }
        let mut pref: Vec<String> = Vec::new();
        let mut k: usize = 0;
        while k < path.len()
            invariant
                k <= path@.len(),
                pd == path.deep_view(),
                wf(m0),
                k < path@.len() ==> valid_path(pd),
                pref.deep_view() =~= pd.subrange(0, k as int),
                self@ == create_along(m0, pd.subrange(0, k as int)),
            decreases path@.len() - k,
        {
            let ghost cur = self@;
            let ghost par = pd.subrange(0, k as int);
            let ghost q = pd.subrange(0, k + 1);
            proof {
                assert(q.drop_last() =~= par);
                assert(valid_path(q)) by {
                    assert(forall|x: int|
                        0 <= x < q.len() ==> (#[trigger] q[x]) == pd[x]
                            && crate::text::valid_component(pd[x]));
                }
                assert(par.len() == 0 || valid_path(par)) by {
                    assert(forall|x: int|
                        0 <= x < par.len() ==> (#[trigger] par[x]) == pd[x]
                            && crate::text::valid_component(pd[x]));
                }
                lemma_wf_create_along(m0, par);
                lemma_wf_create_along(m0, q);
            }
            let pos: usize;
            if k == 0 {
                pos = self.nodes.len();
                proof {
                    assert(insert_pos(cur, q.drop_last()) == cur.nodes.len());
                }
            } else {
                let ip = match self.find_node(&pref) {
                    Some(ip) => ip,
                    None => {
                        proof {
                            assert(contains_path(cur, par));
                            assert(false);
                        }
                        0
                    },
                };
                pos = self.block_end_from(&pref, ip);
                proof {
                    assert(insert_pos(cur, q.drop_last()) == pos as int);
                }
            }
            pref.push(path[k].clone());
            proof {
                assert(pref.deep_view() =~= q);
            }
            let absent = match self.find_node(&pref) {
                Some(_) => false,
                None => true,
            };
            if absent {
                let n = ListNode { path: clone_path(&pref), crates: Vec::new(), description: None };
                proof {
                    assert(n@ == empty_node(q)) by {
                        assert(n@.crates =~= Seq::<Seq<char>>::empty());
                    }
                    lemma_wf_insert_leaf(cur, q);
                }
                let ghost ns0 = self.nodes@;
                self.nodes.insert(pos, n);
                proof {
                    assert(nodes_view(self.nodes@) =~~= nodes_view(ns0).insert(
                        pos as int,
                        empty_node(q),
                    )) by {
                        ns0.insert_ensures(pos as int, n);
                        nodes_view(ns0).insert_ensures(pos as int, empty_node(q));
                    }
                    assert(self@ == insert_leaf(cur, q));
                    assert(self@ == create_along(m0, q));
                }
            } else {
                proof {
                    assert(self@ == create_along(m0, q));
                }
            }
            k += 1;
        }
        proof {
            assert(pd.subrange(0, path@.len() as int) =~= pd);
        }
    }

    /// Removes the node at `path` together with its whole subtree.
    fn remove_subtree(&mut self, path: &Vec<String>)
        requires
            wf(old(self)@),
            path.deep_view().len() > 0,
            idx_of(old(self)@.nodes, path.deep_view()) >= 0,
        ensures
            wf(final(self)@),
            final(self)@ == remove_block(old(self)@, path.deep_view()),
    {
        let ghost m0 = self@;
        let ghost pd = path.deep_view();
        let ghost ns0 = self.nodes@;
        proof {
            lemma_wf_remove_block(m0, pd);
        }
        let i = match self.find_node(path) {
            Some(i) => i,
            None => {
                proof {
                    assert(false);
                }
                0
            },
        };
        let e = self.block_end_from(path, i);
        let mut t: usize = 0;
        while t < e - i
            invariant
                i <= e <= ns0.len(),
                t <= e - i,
                self.present == m0.present,
                self.nodes@ =~= ns0.subrange(0, i as int) + ns0.subrange(
                    i + t,
                    ns0.len() as int,
                ),
            decreases e - i - t,
        {
            self.nodes.remove(i);
            proof {
                assert(self.nodes@ =~= ns0.subrange(0, i as int) + ns0.subrange(
                    i + t + 1,
                    ns0.len() as int,
                ));
            }
            t += 1;
        }
        proof {
            assert(nodes_view(self.nodes@) =~~= m0.nodes.subrange(0, i as int) + m0.nodes.subrange(
                e as int,
                m0.nodes.len() as int,
            ));
            assert(self@ == remove_block(m0, pd));
        }
    }

    /// Creates a list at the path, creating missing ancestors as empty
    /// lists; under force an existing list is overwritten by an empty
    /// one and its sublists are discarded.
    pub fn create_at(&mut self, path: &Vec<String>, force: bool) -> (r: CreateOutcome)
        requires
            wf(old(self)@),
        ensures
            wf(final(self)@),
            final(self)@ == new_effect(old(self)@, path.deep_view(), force),
            r == new_outcome(old(self)@, path.deep_view(), force),
    {
        let ghost m0 = self@;
        let ghost pd = path.deep_view();
        proof {
            lemma_wf_new(m0, pd, force);
        }
        if path.len() > 0 && !is_valid_path(path) {
            return CreateOutcome::InvalidName;
        }
        let present_now = if path.len() == 0 {
            self.present
        } else {
            match self.find_node(path) {
                Some(_) => true,
                None => false,
            }
        };
        if present_now {
            if !force {
                return CreateOutcome::AlreadyExists;
            }
            if path.len() == 0 {
                self.present = true;
                self.nodes.clear();
                proof {
                    assert(self@.nodes =~= Seq::<NodeModel>::empty());
                }
                return CreateOutcome::Created;
            }
            self.remove_subtree(path);
            self.create_missing(path);
            return CreateOutcome::Created;
        }
        self.create_missing(path);
        CreateOutcome::Created
    }

    /// Deletes the list at the path together with its sublists; a list
    /// still holding crates or a description is refused. Deleting the
    /// root path removes the whole list mapping.
    pub fn delete_at(&mut self, path: &Vec<String>) -> (r: DeleteOutcome)
        requires
            wf(old(self)@),
        ensures
            wf(final(self)@),
            final(self)@ == del_effect(old(self)@, path.deep_view()),
            r == del_outcome(old(self)@, path.deep_view()),
    {
        let ghost m0 = self@;
        let ghost pd = path.deep_view();
        proof {
            lemma_wf_del(m0, pd);
        }
        if path.len() == 0 {
            if !self.present {
                return DeleteOutcome::NotFound;
            }
            self.present = false;
            self.nodes.clear();
            proof {
                assert(self@.nodes =~= Seq::<NodeModel>::empty());
            }
            return DeleteOutcome::Deleted;
        }
        let i = match self.find_node(path) {
            Some(i) => i,
            None => {
                return DeleteOutcome::NotFound;
            },
        };
        let keeps_data = {
            let node = &self.nodes[i];
            node.crates.len() > 0 || match &node.description {
                Some(d) => d.as_str().unicode_len() > 0,
                None => false,
            }
        };
        if keeps_data {
            return DeleteOutcome::NotEmpty;
        }
        self.remove_subtree(path);
        DeleteOutcome::Deleted
    }

    /// Appends a crate name to the list at the path; a name already in
    /// the list is reported and nothing changes.
    pub fn add_at(&mut self, path: &Vec<String>, name: &str) -> (r: AddOutcome)
        requires
            wf(old(self)@),
        ensures
            wf(final(self)@),
            final(self)@ == add_effect(old(self)@, path.deep_view(), name@),
            r == add_outcome(old(self)@, path.deep_view(), name@),
    {
        let ghost m0 = self@;
        let ghost pd = path.deep_view();
        proof {
            lemma_wf_add(m0, pd, name@);
        }
        if path.len() == 0 {
            return AddOutcome::NoSuchList;
        }
        let i = match self.find_node(path) {
            Some(i) => i,
            None => {
                return AddOutcome::NoSuchList;
            },
        };
        if names_contain(&self.nodes[i].crates, name) {
            return AddOutcome::AlreadyPresent;
        }
        self.nodes[i].crates.push(name.to_owned());
        proof {
            let target = m0.nodes.update(
                i as int,
                NodeModel { crates: m0.nodes[i as int].crates.push(name@), ..m0.nodes[i as int] },
            );
            assert(self.nodes@[i as int]@.crates =~= m0.nodes[i as int].crates.push(name@));
            assert(self.nodes@[i as int]@ =~~= target[i as int]);
            assert(nodes_view(self.nodes@) =~~= target);
            assert(self@ =~~= add_effect(m0, pd, name@));
        }
        AddOutcome::Added
    }

    /// Removes a crate name from the list at the path; a name not in
    /// the list is reported and nothing changes.
    pub fn remove_at(&mut self, path: &Vec<String>, name: &str) -> (r: RemoveOutcome)
        requires
            wf(old(self)@),
        ensures
            wf(final(self)@),
            final(self)@ == rem_effect(old(self)@, path.deep_view(), name@),
            r == rem_outcome(old(self)@, path.deep_view(), name@),
    {
        let ghost m0 = self@;
        let ghost pd = path.deep_view();
        proof {
            lemma_wf_rem(m0, pd, name@);
        }
        if path.len() == 0 {
            return RemoveOutcome::NoSuchList;
        }
        let i = match self.find_node(path) {
            Some(i) => i,
            None => {
                return RemoveOutcome::NoSuchList;
            },
        };
        let ghost cr = m0.nodes[i as int].crates;
        let mut j: usize = 0;
        let n = self.nodes[i].crates.len();
        while j < n
            invariant
                wf(m0),
                m0 == old(self)@,
                self@ == m0,
                pd == path.deep_view(),
                pd.len() > 0,
                idx_of(m0.nodes, pd) == i as int,
                i < m0.nodes.len(),
                n == cr.len(),
                j <= n,
                cr == self.nodes@[i as int]@.crates,
                i < self.nodes@.len(),
                forall|k: int| 0 <= k < j ==> (#[trigger] cr[k]) != name@,
            decreases n - j,
        {
            if str_eq(self.nodes[i].crates[j].as_str(), name) {
                proof {
                    assert(cr[j as int] == name@);
                    assert(cr.contains(name@));
                    cr.index_of_first_ensures(name@);
                    assert(m0.nodes[i as int].crates.no_duplicates());
                    match cr.index_of_first(name@) {
                        Some(fi) => {
                            assert(cr[fi] == name@);
                            assert(fi == j as int);
                        },
                        None => {
                            assert(false);
                        },
                    }
                    assert(cr.remove_value(name@) == cr.remove(j as int));
                }
                self.nodes[i].crates.remove(j);
                proof {
                    let target = m0.nodes.update(
                        i as int,
                        NodeModel {
                            crates: m0.nodes[i as int].crates.remove_value(name@),
                            ..m0.nodes[i as int]
                        },
                    );
                    assert(self.nodes@[i as int]@.crates =~= cr.remove(j as int));
                    assert(self.nodes@[i as int]@ =~~= target[i as int]);
                    assert(nodes_view(self.nodes@) =~~= target);
                    assert(node_at(m0, pd).crates == cr);
                    assert(rem_outcome(m0, pd, name@) == RemoveOutcome::Removed);
                    assert(rem_effect(m0, pd, name@).nodes == target);
                    assert(self@.nodes =~~= rem_effect(m0, pd, name@).nodes);
                    assert(self@ =~~= rem_effect(m0, pd, name@));
                    lemma_wf_rem(m0, pd, name@);
                }
                return RemoveOutcome::Removed;
            }
            j += 1;
        }
        proof {
            assert(forall|k: int| 0 <= k < cr.len() ==> (#[trigger] cr[k]) != name@);
            assert(!cr.contains(name@));
            assert(node_at(m0, pd).crates == cr);
        }
        RemoveOutcome::NotPresent
    }

    /// Replaces the description of the list at the path; empty text
    /// clears it.
    pub fn describe_at(&mut self, path: &Vec<String>, text: &str) -> (r: DescribeOutcome)
        requires
            wf(old(self)@),
        ensures
            wf(final(self)@),
            final(self)@ == describe_effect(old(self)@, path.deep_view(), text@),
            r == describe_outcome(old(self)@, path.deep_view()),
    {
        let ghost m0 = self@;
        let ghost pd = path.deep_view();
        proof {
            lemma_wf_describe(m0, pd, text@);
        }
        if path.len() == 0 {
            return DescribeOutcome::NoSuchList;
        }
        let i = match self.find_node(path) {
            Some(i) => i,
            None => {
                return DescribeOutcome::NoSuchList;
            },
        };
        if text.unicode_len() == 0 {
            self.nodes[i].description = None;
        } else {
            self.nodes[i].description = Some(text.to_owned());
        }
        proof {
            assert(nodes_view(self.nodes@) =~~= m0.nodes.update(
                i as int,
                NodeModel {
                    description: if text@.len() == 0 {
                        None
                    } else {
                        Some(text@)
                    },
                    ..m0.nodes[i as int]
                },
            ));
            assert(self@ == describe_effect(m0, pd, text@));
        }
        DescribeOutcome::Described
    }

    /// The number of crates in the subtree of the list at `path`, the
    /// list's own crates included.
    pub fn count_under_at(&self, path: &Vec<String>) -> (r: usize)
        requires
            sum_all_crates(self@.nodes) <= usize::MAX,
        ensures
            r == count_under(self@.nodes, path.deep_view()),
    {
        let ghost p = path.deep_view();
        let ghost s = self@.nodes;
        let mut acc: usize = 0;
        let mut i: usize = 0;
        while i < self.nodes.len()
            invariant
                i <= self.nodes@.len(),
                s == self@.nodes,
                p == path.deep_view(),
                sum_all_crates(s) <= usize::MAX,
                acc == count_under(s.subrange(0, i as int), p),
            decreases self.nodes@.len() - i,
        {
            proof {
                assert(s.subrange(0, i + 1).drop_last() =~= s.subrange(0, i as int));
                assert(s.subrange(0, i + 1).last() == s[i as int]);
                lemma_count_under_mono(s, p, i + 1);
                lemma_count_under_le_sum(s, p);
            }
            if path_is_prefix(path, &self.nodes[i].path) {
                acc += self.nodes[i].crates.len();
            }
            i += 1;
        }
        proof {
            assert(s.subrange(0, self.nodes@.len() as int) =~= s);
        }
        acc
    }

    /// The number of lists strictly below the list at `path`.
    pub fn count_desc_at(&self, path: &Vec<String>) -> (r: usize)
        ensures
            r == count_desc(self@.nodes, path.deep_view()),
    {
        let ghost p = path.deep_view();
        let ghost s = self@.nodes;
        let mut acc: usize = 0;
        let mut i: usize = 0;
        while i < self.nodes.len()
            invariant
                i <= self.nodes@.len(),
                s == self@.nodes,
                p == path.deep_view(),
                acc <= i,
                acc == count_desc(s.subrange(0, i as int), p),
            decreases self.nodes@.len() - i,
        {
            proof {
                assert(s.subrange(0, i + 1).drop_last() =~= s.subrange(0, i as int));
                assert(s.subrange(0, i + 1).last() == s[i as int]);
            }
            if path_is_prefix(path, &self.nodes[i].path) && self.nodes[i].path.len() > path.len() {
                acc += 1;
            }
            i += 1;
        }
        proof {
            assert(s.subrange(0, self.nodes@.len() as int) =~= s);
        }
        acc
    }

    /// The number of crates in the list at the dotted address: its own
    /// crates and, recursively, those of every list below it. The root
    /// address spans the whole store.
    pub fn crates_num(&self, list: &str, recursive: bool) -> (r: usize)
        requires
            recursive ==> sum_all_crates(self@.nodes) <= usize::MAX,
        ensures
            recursive ==> r == count_under(self@.nodes, path_of(list@)),
            !recursive ==> r == direct_crates(self@, path_of(list@)).len(),
    {
        if !recursive {
            return self.quantity(list);
        }
        let pv = split_path(list);
        self.count_under_at(&pv)
    }

    /// The number of lists below the list at the dotted address:
    /// recursively every descendant, or only the direct children.
    pub fn children_num(&self, list: &str, recursive: bool) -> (r: usize)
        ensures
            recursive ==> r == count_desc(self@.nodes, path_of(list@)),
            !recursive ==> r == count_children(self@.nodes, path_of(list@)),
    {
        let pv = split_path(list);
        if recursive {
            return self.count_desc_at(&pv);
        }
        let ghost p = path_of(list@);
        let ghost s = self@.nodes;
        let mut acc: usize = 0;
        let mut i: usize = 0;
        while i < self.nodes.len()
            invariant
                i <= self.nodes@.len(),
                s == self@.nodes,
                p == pv.deep_view(),
                acc <= i,
                acc == count_children(s.subrange(0, i as int), p),
            decreases self.nodes@.len() - i,
        {
            proof {
                assert(s.subrange(0, i + 1).drop_last() =~= s.subrange(0, i as int));
                assert(s.subrange(0, i + 1).last() == s[i as int]);
            }
            if path_is_prefix(&pv, &self.nodes[i].path) {
                if self.nodes[i].path.len() - pv.len() == 1 {
                    acc += 1;
                }
            }
            i += 1;
        }
        proof {
            assert(s.subrange(0, self.nodes@.len() as int) =~= s);
        }
        acc
    }

    /// Whether the list at the dotted address holds any crate of its
    /// own.
    pub fn has_crates(&self, list: &str) -> (r: bool)
        ensures
            r == (direct_crates(self@, path_of(list@)).len() > 0),
    {
        self.quantity(list) > 0
    }

    /// Whether the list at the dotted address carries a non-empty
    /// description.
    pub fn has_description(&self, list: &str) -> (r: bool)
        ensures
            r == has_desc_at(self@, path_of(list@)),
    {
        let p = split_path(list);
        if p.len() == 0 {
            return false;
        }
        match self.find_node(&p) {
            Some(i) => {
                match &self.nodes[i].description {
                    Some(d) => d.as_str().unicode_len() > 0,
                    None => false,
                }
            },
            None => false,
        }
    }

    /// Whether the list at the dotted address is empty: no crates of
    /// its own and no description; sublists do not count. An absent
    /// list counts as empty.
    pub fn is_empty(&self, list: &str) -> (r: bool)
        ensures
            r == (direct_crates(self@, path_of(list@)).len() == 0 && !has_desc_at(
                self@,
                path_of(list@),
            )),
    {
        !self.has_crates(list) && !self.has_description(list)
    }

    /// Creates a list at the dotted address; see [`Lists::create_at`].
    pub fn new(&mut self, list: &str, force: bool) -> (r: CreateOutcome)
        requires
            wf(old(self)@),
        ensures
            wf(final(self)@),
            final(self)@ == new_effect(old(self)@, path_of(list@), force),
            r == new_outcome(old(self)@, path_of(list@), force),
    {
        let p = split_path(list);
        self.create_at(&p, force)
    }

    /// Deletes the list at the dotted address; see [`Lists::delete_at`].
    pub fn del(&mut self, list: &str) -> (r: DeleteOutcome)
        requires
            wf(old(self)@),
        ensures
            wf(final(self)@),
            final(self)@ == del_effect(old(self)@, path_of(list@)),
            r == del_outcome(old(self)@, path_of(list@)),
    {
        let p = split_path(list);
        self.delete_at(&p)
    }

    /// Adds a crate to the list at the dotted address; see
    /// [`Lists::add_at`].
    pub fn add(&mut self, list: &str, crat: &str) -> (r: AddOutcome)
        requires
            wf(old(self)@),
        ensures
            wf(final(self)@),
            final(self)@ == add_effect(old(self)@, path_of(list@), crat@),
            r == add_outcome(old(self)@, path_of(list@), crat@),
    {
        let p = split_path(list);
        self.add_at(&p, crat)
    }

    /// Removes a crate from the list at the dotted address; see
    /// [`Lists::remove_at`].
    pub fn rem(&mut self, list: &str, crat: &str) -> (r: RemoveOutcome)
        requires
            wf(old(self)@),
        ensures
            wf(final(self)@),
            final(self)@ == rem_effect(old(self)@, path_of(list@), crat@),
            r == rem_outcome(old(self)@, path_of(list@), crat@),
    {
        let p = split_path(list);
        self.remove_at(&p, crat)
    }

    /// Replaces the description of the list at the dotted address; see
    /// [`Lists::describe_at`].
    pub fn set_description(&mut self, list: &str, text: &str) -> (r: DescribeOutcome)
        requires
            wf(old(self)@),
        ensures
            wf(final(self)@),
            final(self)@ == describe_effect(old(self)@, path_of(list@), text@),
            r == describe_outcome(old(self)@, path_of(list@)),
    {
        let p = split_path(list);
        self.describe_at(&p, text)
    }
}

} // verus!
