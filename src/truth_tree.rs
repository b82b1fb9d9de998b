//! A truth tree: branches arranged in an id_tree `Tree`, each with a stable
//! id, grown by appending children under open branches.
use crate::branch::Branch;
use id_tree::{InsertBehavior, Node, NodeId, Tree, TreeBuilder};
use vstd::prelude::*;

verus! {

#[verifier::external_type_specification]
#[verifier::external_body]
pub struct ExNodeId(id_tree::NodeId);

#[verifier::external_type_specification]
#[verifier::external_body]
#[verifier::reject_recursive_types(T)]
pub struct ExTree<T>(id_tree::Tree<T>);

/// Relies on the derived `Clone` of id_tree's `NodeId`, which copies both of
/// its fields.
pub assume_specification[ <id_tree::NodeId as Clone>::clone ](id: &id_tree::NodeId) -> (r:
    id_tree::NodeId)
    ensures
        r == *id,
;

/// What a tree of branches holds: for each node id, its branch, its parent
/// and its children in order.
pub uninterp spec fn tree_nodes(t: id_tree::Tree<Branch>) -> Map<
    id_tree::NodeId,
    (Branch, Option<id_tree::NodeId>, Seq<id_tree::NodeId>),
>;

/// The root of a tree of branches.
pub uninterp spec fn tree_root(t: id_tree::Tree<Branch>) -> Option<id_tree::NodeId>;

/// Relies on id_tree's `TreeBuilder::with_root` and `build`: the tree holds
/// the root node alone, without parent or children.
#[verifier::external_body]
fn tree_with_root(root: Branch) -> (r: Tree<Branch>)
    ensures
        tree_root(r) is Some,
        tree_nodes(r) == map![tree_root(r)->0 => (root, None::<NodeId>, Seq::<NodeId>::empty())],
{
    TreeBuilder::new().with_root(Node::new(root)).build()
}

/// Relies on id_tree's `Tree::root_node_id`.
#[verifier::external_body]
fn root_id(t: &Tree<Branch>) -> (r: NodeId)
    requires
        tree_root(*t) is Some,
    ensures
        tree_root(*t) == Some(r),
{
    t.root_node_id().unwrap().clone()
}

/// Relies on id_tree's `Tree::get` and `Node::data`.
#[verifier::external_body]
fn node_data<'a>(t: &'a Tree<Branch>, id: &NodeId) -> (r: &'a Branch)
    requires
        tree_nodes(*t).contains_key(*id),
    ensures
        *r == tree_nodes(*t)[*id].0,
{
    t.get(id).unwrap().data()
}

/// Relies on id_tree's `Tree::get_mut` and `Node::data_mut`: only the
/// node's branch can change through the reference.
#[verifier::external_body]
fn node_data_mut<'a>(t: &'a mut Tree<Branch>, id: &NodeId) -> (r: &'a mut Branch)
    requires
        tree_nodes(*old(t)).contains_key(*id),
    ensures
        *r == tree_nodes(*old(t))[*id].0,
        tree_nodes(*final(t)) == tree_nodes(*old(t)).insert(
            *id,
            (*final(r), tree_nodes(*old(t))[*id].1, tree_nodes(*old(t))[*id].2),
        ),
        tree_root(*final(t)) == tree_root(*old(t)),
{
    t.get_mut(id).unwrap().data_mut()
}

/// Relies on id_tree's `Tree::children_ids`: the children's ids in order.
#[verifier::external_body]
fn child_ids(t: &Tree<Branch>, id: &NodeId) -> (r: Vec<NodeId>)
    requires
        tree_nodes(*t).contains_key(*id),
    ensures
        r@ == tree_nodes(*t)[*id].2,
{
    t.children_ids(id).unwrap().cloned().collect()
}

/// Relies on id_tree's `Tree::ancestor_ids`: the parent, its parent, and so
/// on up to the node that has none.
#[verifier::external_body]
fn ancestor_ids(t: &Tree<Branch>, id: &NodeId) -> (r: Vec<NodeId>)
    requires
        tree_nodes(*t).contains_key(*id),
    ensures
        parent_chain(tree_nodes(*t), seq![*id] + r@),
{
    t.ancestor_ids(id).unwrap().cloned().collect()
}

/// Relies on id_tree's `Tree::insert` under a node: the new node gets an id
/// that no node of the tree has, and comes last among the parent's children.
#[verifier::external_body]
fn insert_under(t: &mut Tree<Branch>, b: Branch, parent: &NodeId) -> (r: NodeId)
    requires
        tree_nodes(*old(t)).contains_key(*parent),
    ensures
        !tree_nodes(*old(t)).contains_key(r),
        tree_nodes(*final(t)) == tree_nodes(*old(t)).insert(
            *parent,
            (
                tree_nodes(*old(t))[*parent].0,
                tree_nodes(*old(t))[*parent].1,
                tree_nodes(*old(t))[*parent].2.push(r),
            ),
        ).insert(r, (b, Some(*parent), Seq::<NodeId>::empty())),
        tree_root(*final(t)) == tree_root(*old(t)),
{
    t.insert(Node::new(b), InsertBehavior::UnderNode(parent)).unwrap()
}

/// `s` starts at a node and goes from each node to its parent, ending at a
/// node without one.
pub open spec fn parent_chain(
    m: Map<NodeId, (Branch, Option<NodeId>, Seq<NodeId>)>,
    s: Seq<NodeId>,
) -> bool {
    &&& s.len() > 0
    &&& forall|k: int| 0 <= k < s.len() ==> m.contains_key(#[trigger] s[k])
    &&& forall|k: int| 0 <= k < s.len() - 1 ==> m[#[trigger] s[k]].1 == Some(s[k + 1])
    &&& m[s.last()].1 is None
}

/// The ids of `x` and of its descendants, in pre-order: `x`, then the
/// subtree of each child from first to last.
pub open spec fn down_from(
    m: Map<NodeId, (Branch, Option<NodeId>, Seq<NodeId>)>,
    rank: Map<NodeId, nat>,
    n: int,
    x: NodeId,
) -> Seq<NodeId>
    decreases n - rank[x], m[x].2.len() + 1,
{
    seq![x] + down_children(m, rank, n, x, m[x].2)
}

/// The subtrees of the nodes `cs`, children of `x`, one after the other.
pub open spec fn down_children(
    m: Map<NodeId, (Branch, Option<NodeId>, Seq<NodeId>)>,
    rank: Map<NodeId, nat>,
    n: int,
    x: NodeId,
    cs: Seq<NodeId>,
) -> Seq<NodeId>
    decreases n - rank[x], cs.len(),
{
    if cs.len() == 0 {
        seq![]
    } else {
        let c = cs.last();
        down_children(m, rank, n, x, cs.drop_last()) + if rank[x] < rank[c] && rank[c] < n {
            down_from(m, rank, n, c)
        } else {
            seq![]
        }
    }
}

/// The node ids of a sequence of branch ids.
pub open spec fn ids_of(s: Seq<TreeId>) -> Seq<NodeId> {
    s.map_values(|t: TreeId| t.0)
}

/// The ids of a sequence of id and branch pairs.
pub open spec fn pairs_ids(s: Seq<(TreeId, &Branch)>) -> Seq<TreeId> {
    s.map_values(|p: (TreeId, &Branch)| p.0)
}

/// The id of a branch in a truth tree.
#[derive(PartialEq, Eq, Debug, Hash)]
pub struct TreeId(pub NodeId);

impl Clone for TreeId {
    fn clone(&self) -> (r: Self)
        ensures
            r == *self,
    {
        TreeId(self.0.clone())
    }
}

/// A truth tree generated by the truth tree algorithm.
pub struct TruthTree {
    tree: Tree<Branch>,
    /// Every branch id, in the order the branches were added.
    ids: Vec<NodeId>,
    /// The place of each id in `ids`.
    rank: Ghost<Map<NodeId, nat>>,
}

impl TruthTree {
    /// Each branch id with its branch, parent and children.
    pub closed spec fn model(&self) -> Map<NodeId, (Branch, Option<NodeId>, Seq<NodeId>)> {
        tree_nodes(self.tree)
    }

    /// The branch ids in the order the branches were added.
    pub closed spec fn order(&self) -> Seq<NodeId> {
        self.ids@
    }

    pub closed spec fn ranks(&self) -> Map<NodeId, nat> {
        self.rank@
    }

    pub open spec fn root(&self) -> NodeId {
        self.order()[0]
    }

    pub open spec fn contains(&self, id: NodeId) -> bool {
        self.model().contains_key(id)
    }

    pub open spec fn branch(&self, id: NodeId) -> Branch {
        self.model()[id].0
    }

    pub open spec fn parent(&self, id: NodeId) -> Option<NodeId> {
        self.model()[id].1
    }

    pub open spec fn children(&self, id: NodeId) -> Seq<NodeId> {
        self.model()[id].2
    }

    /// The pre-order walk from `id`.
    pub open spec fn descendants(&self, id: NodeId) -> Seq<NodeId> {
        down_from(self.model(), self.ranks(), self.order().len() as int, id)
    }

    /// Some leaf branch is not closed.
    pub open spec fn spec_is_open(&self) -> bool {
        exists|id: NodeId|
            self.contains(id) && self.children(id).len() == 0 && !(#[trigger] self.branch(
                id,
            )).spec_closed()
    }

    /// The ids are those of `order`, each once; the root comes first and has
    /// no parent; every other branch has a parent added before it; children
    /// point back to their parent and were added after it.
    pub open spec fn wf(&self) -> bool {
        let m = self.model();
        let o = self.order();
        let rk = self.ranks();
        &&& o.len() > 0
        &&& tree_root(self.tree_view()) == Some(o[0])
        &&& forall|id: NodeId| #[trigger] m.contains_key(id) <==> rk.contains_key(id)
        &&& forall|k: int| 0 <= k < o.len() ==> m.contains_key(#[trigger] o[k]) && rk[o[k]] == k
        &&& forall|id: NodeId| #[trigger] rk.contains_key(id) ==> rk[id] < o.len() && o[rk[id] as int] == id
        &&& m[o[0]].1 is None
        &&& forall|id: NodeId|
            #[trigger] m.contains_key(id) && id != o[0] ==> m[id].1 is Some && m.contains_key(
                m[id].1->0,
            ) && rk[m[id].1->0] < rk[id] && m[m[id].1->0].2.contains(id)
        &&& forall|id: NodeId, c: NodeId|
            m.contains_key(id) && (#[trigger] m[id].2.contains(c)) ==> m.contains_key(c) && m[c].1
                == Some(id) && rk[id] < rk[c]
        &&& forall|id: NodeId| #[trigger] m.contains_key(id) ==> m[id].2.no_duplicates()
    }

    pub closed spec fn tree_view(&self) -> Tree<Branch> {
        self.tree
    }

    /// A tree whose only branch is `main_branch`.
    pub fn new(main_branch: Branch) -> (r: Self)
        ensures
            r.wf(),
            r.order().len() == 1,
            r.model() == map![r.root() => (main_branch, None::<NodeId>, Seq::<NodeId>::empty())],
    {
        let tree = tree_with_root(main_branch);
        let root = root_id(&tree);
        let ghost g = root;
        let ghost rk = Map::<NodeId, nat>::empty().insert(g, 0nat);
        let mut ids: Vec<NodeId> = Vec::new();
        ids.push(root);
        let r = TruthTree { tree, ids, rank: Ghost(rk) };
        proof {
            assert(r.order()[0] == g);
        }
        r
    }

    /// The ids from `branch_id` up to the root: the branch, its parent, and
    /// so on.
    pub fn traverse_upwards_branch_ids(&self, branch_id: &TreeId) -> (r: Vec<TreeId>)
        requires
            self.wf(),
            self.contains(branch_id.0),
        ensures
            parent_chain(self.model(), ids_of(r@)),
            r@[0] == *branch_id,
            r@.last().0 == self.root(),
    {
        let up = ancestor_ids(&self.tree, &branch_id.0);
        let mut r: Vec<TreeId> = Vec::new();
        r.push(branch_id.clone());
        let mut i: usize = 0;
        while i < up.len()
            invariant
                i <= up.len(),
                r@.len() == i + 1,
                r@[0] == *branch_id,
                forall|k: int| 0 < k <= i ==> (#[trigger] r@[k]).0 == up@[k - 1],
            decreases up.len() - i,
        {
            r.push(TreeId(up[i].clone()));
            i = i + 1;
        }
        proof {
            assert(ids_of(r@) =~= seq![branch_id.0] + up@);
            let last = ids_of(r@).last();
            if last != self.root() {
                assert(self.model().contains_key(last));
            }
        }
        r
    }

    /// The branches from `branch_id` up to the root, with their ids.
    pub fn traverse_upwards_branches(&self, branch_id: &TreeId) -> (r: Vec<(TreeId, &Branch)>)
        requires
            self.wf(),
            self.contains(branch_id.0),
        ensures
            parent_chain(self.model(), ids_of(pairs_ids(r@))),
            r@[0].0 == *branch_id,
            forall|k: int| 0 <= k < r@.len() ==> *(#[trigger] r@[k]).1 == self.branch(r@[k].0.0),
    {
        let ids = self.traverse_upwards_branch_ids(branch_id);
        proof {
            assert forall|k: int| 0 <= k < ids@.len() implies self.contains((#[trigger] ids@[k]).0) by {
                assert(ids_of(ids@)[k] == ids@[k].0);
            }
        }
        self.with_branches(ids)
    }

    /// Pairs each id with its branch.
    fn with_branches(&self, ids: Vec<TreeId>) -> (r: Vec<(TreeId, &Branch)>)
        requires
            forall|k: int| 0 <= k < ids@.len() ==> self.contains((#[trigger] ids@[k]).0),
        ensures
            pairs_ids(r@) == ids@,
            forall|k: int| 0 <= k < r@.len() ==> *(#[trigger] r@[k]).1 == self.branch(r@[k].0.0),
    {
        let mut r: Vec<(TreeId, &Branch)> = Vec::new();
        let mut i: usize = 0;
        while i < ids.len()
            invariant
                i <= ids.len(),
                forall|k: int| 0 <= k < ids@.len() ==> self.contains((#[trigger] ids@[k]).0),
                r@.len() == i,
                forall|k: int| 0 <= k < i ==> (#[trigger] r@[k]).0 == ids@[k],
                forall|k: int| 0 <= k < r@.len() ==> *(#[trigger] r@[k]).1 == self.branch(r@[k].0.0),
            decreases ids.len() - i,
        {
            let id = ids[i].clone();
            let b = node_data(&self.tree, &id.0);
            r.push((id, b));
            i = i + 1;
        }
        proof {
            assert(pairs_ids(r@) =~= ids@);
        }
        r
    }

    /// Appends the pre-order walk from `id` to `out`.
    fn collect_down(&self, id: &NodeId, out: &mut Vec<TreeId>)
        requires
            self.wf(),
            self.contains(*id),
        ensures
            ids_of(final(out)@) == ids_of(old(out)@) + self.descendants(*id),
        decreases self.order().len() - self.ranks()[*id], 0int,
    {
        out.push(TreeId(id.clone()));
        proof {
            assert(ids_of(out@) =~= ids_of(old(out)@) + seq![*id]);
        }
        let cs = child_ids(&self.tree, id);
        let mut i: usize = 0;
        while i < cs.len()
            invariant
                self.wf(),
                self.contains(*id),
                cs@ == self.children(*id),
                i <= cs.len(),
                ids_of(out@) == ids_of(old(out)@) + seq![*id] + down_children(
                    self.model(),
                    self.ranks(),
                    self.order().len() as int,
                    *id,
                    cs@.take(i as int),
                ),
            decreases cs.len() - i,
        {
            let ghost before = out@;
            proof {
                assert(self.children(*id).contains(cs@[i as int]));
                assert(cs@.take(i + 1).drop_last() =~= cs@.take(i as int));
            }
            self.collect_down(&cs[i], out);
            proof {
                let m = self.model();
                let c = cs@[i as int];
                assert(cs@.take(i + 1).last() == c);
                assert(ids_of(out@) =~= ids_of(old(out)@) + seq![*id] + down_children(
                    m,
                    self.ranks(),
                    self.order().len() as int,
                    *id,
                    cs@.take(i + 1),
                ));
            }
            i = i + 1;
        }
        proof {
            assert(cs@.take(i as int) =~= cs@);
        }
    }

    /// The ids of `branch_id` and of every branch below it, in pre-order.
    pub fn traverse_downwards_branches_ids(&self, branch_id: &TreeId) -> (r: Vec<TreeId>)
        requires
            self.wf(),
            self.contains(branch_id.0),
        ensures
            ids_of(r@) == self.descendants(branch_id.0),
    {
        let mut out: Vec<TreeId> = Vec::new();
        self.collect_down(&branch_id.0, &mut out);
        proof {
            assert(ids_of(Seq::<TreeId>::empty()) =~= Seq::<NodeId>::empty());
            assert(Seq::<NodeId>::empty() + self.descendants(branch_id.0) =~= self.descendants(branch_id.0));
        }
        out
    }

    /// The branches from `branch_id` down, in pre-order, with their ids.
    pub fn traverse_downwards_branches(&self, branch_id: &TreeId) -> (r: Vec<(TreeId, &Branch)>)
        requires
            self.wf(),
            self.contains(branch_id.0),
        ensures
            ids_of(pairs_ids(r@)) == self.descendants(branch_id.0),
            forall|k: int| 0 <= k < r@.len() ==> *(#[trigger] r@[k]).1 == self.branch(r@[k].0.0),
    {
        let ids = self.traverse_downwards_branches_ids(branch_id);
        proof {
            self.lemma_descendants_in_tree(branch_id.0);
            assert forall|k: int| 0 <= k < ids@.len() implies self.contains((#[trigger] ids@[k]).0) by {
                assert(ids_of(ids@)[k] == ids@[k].0);
            }
        }
        self.with_branches(ids)
    }

    /// The ids of the children of `branch_id`, in insertion order.
    pub fn traverse_branch_direct_descendants_ids(&self, branch_id: &TreeId) -> (r: Vec<TreeId>)
        requires
            self.wf(),
            self.contains(branch_id.0),
        ensures
            ids_of(r@) == self.children(branch_id.0),
    {
        let cs = child_ids(&self.tree, &branch_id.0);
        let mut r: Vec<TreeId> = Vec::new();
        let mut i: usize = 0;
        while i < cs.len()
            invariant
                i <= cs.len(),
                ids_of(r@) == cs@.take(i as int),
            decreases cs.len() - i,
        {
            let ghost before = r@;
            r.push(TreeId(cs[i].clone()));
            proof {
                assert(ids_of(r@) =~= ids_of(before).push(cs@[i as int]));
                assert(cs@.take(i + 1) =~= cs@.take(i as int).push(cs@[i as int]));
            }
            i = i + 1;
        }
        proof {
            assert(cs@.take(i as int) =~= cs@);
        }
        r
    }

    /// The children of `branch_id`, in insertion order, with their ids.
    pub fn traverse_branch_direct_descendants(&self, branch_id: &TreeId) -> (r: Vec<(TreeId, &Branch)>)
        requires
            self.wf(),
            self.contains(branch_id.0),
        ensures
            ids_of(pairs_ids(r@)) == self.children(branch_id.0),
            forall|k: int| 0 <= k < r@.len() ==> *(#[trigger] r@[k]).1 == self.branch(r@[k].0.0),
    {
        let ids = self.traverse_branch_direct_descendants_ids(branch_id);
        proof {
            assert forall|k: int| 0 <= k < ids@.len() implies self.contains((#[trigger] ids@[k]).0) by {
                assert(ids_of(ids@)[k] == ids@[k].0);
                assert(self.children(branch_id.0).contains(ids@[k].0));
            }
        }
        self.with_branches(ids)
    }

    /// True if the branch has no children.
    pub fn branch_is_last_child(&self, branch_id: &TreeId) -> (r: bool)
        requires
            self.wf(),
            self.contains(branch_id.0),
        ensures
            r == (self.children(branch_id.0).len() == 0),
    {
        child_ids(&self.tree, &branch_id.0).len() == 0
    }

    /// True if the branch is a leaf: it has no children.
    pub fn branch_is_leaf(&self, branch_id: &TreeId) -> (r: bool)
        requires
            self.wf(),
            self.contains(branch_id.0),
        ensures
            r == (self.children(branch_id.0).len() == 0),
    {
        self.branch_is_last_child(branch_id)
    }

    /// The branch `branch_id`, for changing it. Only that branch can change.
    pub fn branch_from_id_mut(&mut self, branch_id: &TreeId) -> (r: &mut Branch)
        requires
            old(self).wf(),
            old(self).contains(branch_id.0),
        ensures
            *r == old(self).branch(branch_id.0),
            final(self).wf(),
            final(self).order() == old(self).order(),
            final(self).model() == old(self).model().insert(
                branch_id.0,
                (*final(r), old(self).parent(branch_id.0), old(self).children(branch_id.0)),
            ),
    {
        node_data_mut(&mut self.tree, &branch_id.0)
    }

    /// The branch `branch_id`.
    pub fn branch_from_id(&self, branch_id: &TreeId) -> (r: &Branch)
        requires
            self.wf(),
            self.contains(branch_id.0),
        ensures
            *r == self.branch(branch_id.0),
    {
        node_data(&self.tree, &branch_id.0)
    }

    /// Adds `branch` as the last child of `as_child_of_branch_id`, which must
    /// be open, and returns its id.
    pub fn append_branch_at(&mut self, branch: Branch, as_child_of_branch_id: &TreeId) -> (r: TreeId)
        requires
            old(self).wf(),
            old(self).contains(as_child_of_branch_id.0),
            !old(self).branch(as_child_of_branch_id.0).spec_closed(),
        ensures
            final(self).wf(),
            !old(self).contains(r.0),
            final(self).order() == old(self).order().push(r.0),
            final(self).model() == old(self).model().insert(
                as_child_of_branch_id.0,
                (
                    old(self).branch(as_child_of_branch_id.0),
                    old(self).parent(as_child_of_branch_id.0),
                    old(self).children(as_child_of_branch_id.0).push(r.0),
                ),
            ).insert(r.0, (branch, Some(as_child_of_branch_id.0), Seq::<NodeId>::empty())),
    {
        let ghost before = *self;
        let parent = &as_child_of_branch_id.0;
        let id = insert_under(&mut self.tree, branch, parent);
        let ghost n = self.ids@.len();
        let ghost g = id;
        self.ids.push(id.clone());
        self.rank = Ghost(self.rank@.insert(g, n as nat));
        proof {
            let m0 = before.model();
            let m = self.model();
            let o = self.order();
            let rk = self.ranks();
            let p = *parent;
            assert(o[0] == before.order()[0]);
            assert forall|k: int| 0 <= k < o.len() implies m.contains_key(#[trigger] o[k]) && rk[o[k]] == k by {
                if k < before.order().len() {
                    assert(o[k] == before.order()[k]);
                    assert(before.ranks().contains_key(o[k]));
                }
            }
            assert forall|x: NodeId| #[trigger] rk.contains_key(x) implies rk[x] < o.len() && o[rk[x] as int] == x by {
                if x != g {
                    assert(before.ranks().contains_key(x));
                }
            }
            assert forall|x: NodeId| #[trigger] m.contains_key(x) <==> rk.contains_key(x) by {
                if x != g && x != p {
                    assert(m0.contains_key(x) <==> before.ranks().contains_key(x));
                }
            }
            assert forall|x: NodeId| #[trigger] m.contains_key(x) && x != o[0] implies m[x].1 is Some
                && m.contains_key(m[x].1->0) && rk[m[x].1->0] < rk[x] && m[m[x].1->0].2.contains(x) by {
                if x != g {
                    assert(m0.contains_key(x));
                    assert(before.ranks().contains_key(m0[x].1->0));
                    let q = m0[x].1->0;
                    assert(m0[q].2.contains(x));
                    if q == p {
                        let i = choose|i: int| 0 <= i < m0[q].2.len() && m0[q].2[i] == x;
                        assert(m[q].2[i] == x);
                    }
                } else {
                    assert(m[p].2[m[p].2.len() - 1] == g);
                }
            }
            assert forall|x: NodeId| #[trigger] m.contains_key(x) implies m[x].2.no_duplicates() by {
                if x == p {
                    assert(m0.contains_key(p));
                    assert(!m0[p].2.contains(g));
                    assert forall|i: int, j: int| 0 <= i < j < m[x].2.len() implies m[x].2[i] != m[x].2[j] by {
                        if j == m[x].2.len() - 1 {
                            assert(m0[p].2.contains(m[x].2[i]));
                        }
                    }
                } else if x != g {
                    assert(m0.contains_key(x));
                }
            }
            assert forall|x: NodeId, c: NodeId| m.contains_key(x) && (#[trigger] m[x].2.contains(c))
                implies m.contains_key(c) && m[c].1 == Some(x) && rk[x] < rk[c] by {
                if x == p {
                    if c != g {
                        let j = m[x].2.index_of(c);
                        assert(m0[x].2.contains(c));
                    }
                } else if x != g {
                    assert(m0[x].2.contains(c));
                    assert(before.ranks().contains_key(c));
                }
            }
        }
        TreeId(id)
    }

    /// Adds `branch` as the last child of `as_child_of_branch_id` where that
    /// branch is open. Adding under a closed branch is refused, with `None`,
    /// and leaves the tree as it was.
    pub fn try_append_branch_at(&mut self, branch: Branch, as_child_of_branch_id: &TreeId) -> (r: Option<TreeId>)
        requires
            old(self).wf(),
            old(self).contains(as_child_of_branch_id.0),
        ensures
            final(self).wf(),
            r is None <==> old(self).branch(as_child_of_branch_id.0).spec_closed(),
            r is None ==> final(self).model() == old(self).model() && final(self).order() == old(self).order(),
            r matches Some(id) ==> !old(self).contains(id.0) && final(self).order() == old(self).order().push(id.0)
                && final(self).model() == old(self).model().insert(
                as_child_of_branch_id.0,
                (
                    old(self).branch(as_child_of_branch_id.0),
                    old(self).parent(as_child_of_branch_id.0),
                    old(self).children(as_child_of_branch_id.0).push(id.0),
                ),
            ).insert(id.0, (branch, Some(as_child_of_branch_id.0), Seq::<NodeId>::empty())),
    {
        if self.branch_from_id(as_child_of_branch_id).is_closed() {
            return None;
        }
        Some(self.append_branch_at(branch, as_child_of_branch_id))
    }

    /// True if some leaf branch of the tree is not closed.
    pub fn is_open(&self) -> (r: bool)
        requires
            self.wf(),
        ensures
            r == self.spec_is_open(),
    {
        let mut i: usize = 0;
        while i < self.ids.len()
            invariant
                self.wf(),
                i <= self.ids.len(),
                forall|k: int| 0 <= k < i ==> !(self.children(#[trigger] self.order()[k]).len() == 0
                    && !self.branch(self.order()[k]).spec_closed()),
            decreases self.ids.len() - i,
        {
            let id = &self.ids[i];
            let leaf = child_ids(&self.tree, id).len() == 0;
            if leaf && !node_data(&self.tree, id).is_closed() {
                proof {
                    let x = self.order()[i as int];
                    assert(self.contains(x) && self.children(x).len() == 0 && !self.branch(x).spec_closed());
                }
                return true;
            }
            i = i + 1;
        }
        proof {
            assert forall|x: NodeId| self.contains(x) implies !(self.children(x).len() == 0
                && !(#[trigger] self.branch(x)).spec_closed()) by {
                let k = self.ranks()[x] as int;
                assert(self.ranks().contains_key(x));
                assert(self.order()[k] == x);
            }
        }
        false
    }

    /// Every id of the walk from `id` is in the tree.
    proof fn lemma_descendants_in_tree(&self, id: NodeId)
        requires
            self.wf(),
            self.contains(id),
        ensures
            forall|k: int| 0 <= k < self.descendants(id).len() ==> self.contains(#[trigger] self.descendants(id)[k]),
        decreases self.order().len() - self.ranks()[id], 1int,
    {
        self.lemma_children_in_tree(id, self.children(id));
        let d = self.descendants(id);
        assert forall|k: int| 0 <= k < d.len() implies self.contains(#[trigger] d[k]) by {
            if k > 0 {
                assert(d[k] == down_children(self.model(), self.ranks(), self.order().len() as int, id, self.children(id))[k - 1]);
            }
        }
    }

    proof fn lemma_children_in_tree(&self, id: NodeId, cs: Seq<NodeId>)
        requires
            self.wf(),
            self.contains(id),
            forall|k: int| 0 <= k < cs.len() ==> self.children(id).contains(#[trigger] cs[k]),
        ensures
            forall|k: int| 0 <= k < down_children(self.model(), self.ranks(), self.order().len() as int, id, cs).len()
                ==> self.contains(#[trigger] down_children(self.model(), self.ranks(), self.order().len() as int, id, cs)[k]),
        decreases self.order().len() - self.ranks()[id], 0int, cs.len(),
    {
        if cs.len() > 0 {
            let c = cs.last();
            assert(self.children(id).contains(c));
            self.lemma_children_in_tree(id, cs.drop_last());
            assert(self.ranks().contains_key(c));
            let d = down_children(self.model(), self.ranks(), self.order().len() as int, id, cs);
            let a = down_children(self.model(), self.ranks(), self.order().len() as int, id, cs.drop_last());
            if self.ranks()[id] < self.ranks()[c] && self.ranks()[c] < self.order().len() {
                self.lemma_descendants_in_tree(c);
                assert forall|k: int| 0 <= k < d.len() implies self.contains(#[trigger] d[k]) by {
                    if k >= a.len() {
                        assert(d[k] == self.descendants(c)[k - a.len()]);
                    } else {
                        assert(d[k] == a[k]);
                    }
                }
            } else {
                assert(d =~= a);
            }
        }
    }

    /// The id of the root branch.
    pub fn main_trunk_id(&self) -> (r: TreeId)
        requires
            self.wf(),
        ensures
            r.0 == self.root(),
    {
        TreeId(root_id(&self.tree))
    }
}

/// Walking up from the root gives the root alone: the walk that
/// `traverse_upwards_branch_ids` returns from the root is `[root]`.
pub proof fn lemma_upwards_from_root(t: &TruthTree, walk: Seq<NodeId>)
    requires
        t.wf(),
        parent_chain(t.model(), walk),
        walk[0] == t.root(),
    ensures
        walk == seq![t.root()],
{
    if walk.len() > 1 {
        assert(t.model()[walk[0]].1 == Some(walk[1]));
    }
    assert(walk =~= seq![t.root()]);
}

/// A tree whose single branch is not closed is open.
pub proof fn lemma_fresh_tree_is_open(t: &TruthTree)
    requires
        t.wf(),
        t.order().len() == 1,
        !t.branch(t.root()).spec_closed(),
    ensures
        t.spec_is_open(),
{
    let r = t.root();
    assert(t.contains(r));
    if t.children(r).len() > 0 {
        let c = t.children(r)[0];
        assert(t.children(r).contains(c));
        assert(t.ranks().contains_key(c));
    }
    assert(t.children(r).len() == 0 && !t.branch(r).spec_closed());
}

/// A tree whose every leaf branch is closed is not open.
pub proof fn lemma_closed_leaves_close_the_tree(t: &TruthTree)
    requires
        forall|id: NodeId|
            t.contains(id) && t.children(id).len() == 0 ==> (#[trigger] t.branch(id)).spec_closed(),
    ensures
        !t.spec_is_open(),
{
}

/// Changing a branch that has children, for instance closing it, leaves the
/// tree as open or as closed as it was: openness looks at leaves alone.
pub proof fn lemma_interior_branch_keeps_openness(
    before: &TruthTree,
    after: &TruthTree,
    id: NodeId,
    b: Branch,
)
    requires
        before.contains(id),
        before.children(id).len() > 0,
        after.model() == before.model().insert(id, (b, before.parent(id), before.children(id))),
    ensures
        after.spec_is_open() == before.spec_is_open(),
{
    if before.spec_is_open() {
        let x = choose|x: NodeId|
            before.contains(x) && before.children(x).len() == 0 && !(#[trigger] before.branch(
                x,
            )).spec_closed();
        assert(x != id);
        assert(after.contains(x) && after.children(x).len() == 0 && !after.branch(x).spec_closed());
    }
    if after.spec_is_open() {
        let x = choose|x: NodeId|
            after.contains(x) && after.children(x).len() == 0 && !(#[trigger] after.branch(
                x,
            )).spec_closed();
        assert(x != id);
        assert(before.contains(x) && before.children(x).len() == 0 && !before.branch(x).spec_closed());
    }
}

/// `x` is `y` or one of its ancestors, walking up parents of lower rank.
pub open spec fn is_above(
    m: Map<NodeId, (Branch, Option<NodeId>, Seq<NodeId>)>,
    rank: Map<NodeId, nat>,
    x: NodeId,
    y: NodeId,
) -> bool
    decreases rank[y],
{
    y == x || (m[y].1 is Some && rank[m[y].1->0] < rank[y] && is_above(m, rank, x, m[y].1->0))
}

impl TruthTree {
    proof fn lemma_above_rank(&self, x: NodeId, y: NodeId)
        requires
            is_above(self.model(), self.ranks(), x, y),
        ensures
            self.ranks()[x] <= self.ranks()[y],
        decreases self.ranks()[y],
    {
        if y != x {
            self.lemma_above_rank(x, self.model()[y].1->0);
        }
    }

    proof fn lemma_above_step(&self, x: NodeId, c: NodeId, y: NodeId)
        requires
            is_above(self.model(), self.ranks(), c, y),
            self.model()[c].1 == Some(x),
            self.ranks()[x] < self.ranks()[c],
        ensures
            is_above(self.model(), self.ranks(), x, y),
        decreases self.ranks()[y],
    {
        let m = self.model();
        let rk = self.ranks();
        if y != c {
            self.lemma_above_step(x, c, m[y].1->0);
        } else {
            assert(is_above(m, rk, x, x));
        }
        assert(is_above(m, rk, x, y));
    }

    proof fn lemma_above_unique(&self, x: NodeId, a: NodeId, b: NodeId, y: NodeId)
        requires
            is_above(self.model(), self.ranks(), a, y),
            is_above(self.model(), self.ranks(), b, y),
            self.model()[a].1 == Some(x),
            self.model()[b].1 == Some(x),
            self.ranks()[x] < self.ranks()[a],
            self.ranks()[x] < self.ranks()[b],
        ensures
            a == b,
        decreases self.ranks()[y],
    {
        if y == a {
            if a != b {
                self.lemma_above_rank(b, x);
            }
        } else if y == b {
            self.lemma_above_rank(a, x);
        } else {
            self.lemma_above_unique(x, a, b, self.model()[y].1->0);
        }
    }

    /// The walk from `x` holds nodes that `x` is above, of rank at least its own.
    proof fn lemma_down_sound(&self, x: NodeId)
        requires
            self.wf(),
            self.contains(x),
        ensures
            forall|k: int| 0 <= k < self.descendants(x).len() ==> is_above(self.model(), self.ranks(), x, #[trigger] self.descendants(x)[k]),
        decreases self.order().len() - self.ranks()[x], 1int,
    {
        let cs = self.children(x);
        self.lemma_children_sound(x, cs);
        let d = self.descendants(x);
        assert forall|k: int| 0 <= k < d.len() implies is_above(self.model(), self.ranks(), x, #[trigger] d[k]) by {
            if k > 0 {
                assert(d[k] == down_children(self.model(), self.ranks(), self.order().len() as int, x, cs)[k - 1]);
            }
        }
    }

    proof fn lemma_children_sound(&self, x: NodeId, cs: Seq<NodeId>)
        requires
            self.wf(),
            self.contains(x),
            forall|k: int| 0 <= k < cs.len() ==> self.children(x).contains(#[trigger] cs[k]),
        ensures
            forall|k: int| 0 <= k < down_children(self.model(), self.ranks(), self.order().len() as int, x, cs).len()
                ==> is_above(self.model(), self.ranks(), x, #[trigger] down_children(self.model(), self.ranks(), self.order().len() as int, x, cs)[k]),
        decreases self.order().len() - self.ranks()[x], 0int, cs.len(),
    {
        if cs.len() > 0 {
            let c = cs.last();
            assert(self.children(x).contains(c));
            self.lemma_children_sound(x, cs.drop_last());
            let n = self.order().len() as int;
            let d = down_children(self.model(), self.ranks(), n, x, cs);
            let a = down_children(self.model(), self.ranks(), n, x, cs.drop_last());
            assert(self.ranks().contains_key(c));
            if self.ranks()[x] < self.ranks()[c] && self.ranks()[c] < n {
                self.lemma_down_sound(c);
                assert forall|k: int| 0 <= k < d.len() implies is_above(self.model(), self.ranks(), x, #[trigger] d[k]) by {
                    if k >= a.len() {
                        assert(d[k] == self.descendants(c)[k - a.len()]);
                        self.lemma_above_step(x, c, d[k]);
                    } else {
                        assert(d[k] == a[k]);
                    }
                }
            } else {
                assert(d =~= a);
            }
        }
    }

    /// A child `c` listed in `cs` brings its whole walk into the walk of `cs`.
    proof fn lemma_children_include(&self, x: NodeId, cs: Seq<NodeId>, c: NodeId, y: NodeId)
        requires
            self.wf(),
            self.contains(x),
            forall|k: int| 0 <= k < cs.len() ==> self.children(x).contains(#[trigger] cs[k]),
            cs.contains(c),
            self.descendants(c).contains(y),
        ensures
            down_children(self.model(), self.ranks(), self.order().len() as int, x, cs).contains(y),
        decreases cs.len(),
    {
        let n = self.order().len() as int;
        let l = cs.last();
        assert(self.children(x).contains(l));
        assert(self.ranks().contains_key(l));
        let d = down_children(self.model(), self.ranks(), n, x, cs);
        let a = down_children(self.model(), self.ranks(), n, x, cs.drop_last());
        if l == c {
            assert(self.children(x).contains(c));
            let k = choose|k: int| 0 <= k < self.descendants(c).len() && self.descendants(c)[k] == y;
            assert(d[a.len() + k] == y);
        } else {
            let i = choose|i: int| 0 <= i < cs.len() && cs[i] == c;
            assert(cs.drop_last()[i] == c);
            self.lemma_children_include(x, cs.drop_last(), c, y);
            let k = choose|k: int| 0 <= k < a.len() && a[k] == y;
            assert(d[k] == y);
        }
    }

    /// Whatever lies in the walk of `cs` lies in the walk of one of them.
    proof fn lemma_children_member(&self, x: NodeId, cs: Seq<NodeId>, y: NodeId)
        requires
            down_children(self.model(), self.ranks(), self.order().len() as int, x, cs).contains(y),
        ensures
            exists|c: NodeId| cs.contains(c) && self.ranks()[x] < self.ranks()[c] && #[trigger] self.descendants(c).contains(y),
        decreases cs.len(),
    {
        let n = self.order().len() as int;
        let l = cs.last();
        let d = down_children(self.model(), self.ranks(), n, x, cs);
        let a = down_children(self.model(), self.ranks(), n, x, cs.drop_last());
        if cs.len() == 0 {
            assert(d.len() == 0);
        }
        let k = choose|k: int| 0 <= k < d.len() && d[k] == y;
        if k < a.len() {
            assert(a[k] == y);
            self.lemma_children_member(x, cs.drop_last(), y);
            let c = choose|c: NodeId| cs.drop_last().contains(c) && self.ranks()[x] < self.ranks()[c] && #[trigger] self.descendants(c).contains(y);
            let i = choose|i: int| 0 <= i < cs.drop_last().len() && cs.drop_last()[i] == c;
            assert(cs[i] == c);
        } else {
            if !(self.ranks()[x] < self.ranks()[l] && self.ranks()[l] < n) {
                assert(d =~= a);
            }
            assert(self.ranks()[x] < self.ranks()[l]);
            assert(self.descendants(l)[k - a.len()] == y);
            assert(self.descendants(l).contains(y));
            assert(cs[cs.len() - 1] == l);
            assert(cs.contains(l));
        }
    }

    /// A child of a node in the walk from `x` is in that walk too.
    proof fn lemma_down_closed(&self, x: NodeId, p: NodeId, y: NodeId)
        requires
            self.wf(),
            self.contains(x),
            self.descendants(x).contains(p),
            self.children(p).contains(y),
        ensures
            self.descendants(x).contains(y),
        decreases self.order().len() - self.ranks()[x],
    {
        let n = self.order().len() as int;
        let cs = self.children(x);
        let d = self.descendants(x);
        let dc = down_children(self.model(), self.ranks(), n, x, cs);
        assert(d == seq![x] + dc);
        assert forall|k: int| 0 <= k < cs.len() implies self.children(x).contains(#[trigger] cs[k]) by {}
        if p == x {
            assert(self.ranks().contains_key(y));
            let k = choose|k: int| 0 <= k < cs.len() && cs[k] == y;
            assert(self.descendants(y)[0] == y);
            assert(self.descendants(y).contains(y));
            self.lemma_children_include(x, cs, y, y);
        } else {
            let k = choose|k: int| 0 <= k < d.len() && d[k] == p;
            assert(dc[k - 1] == p);
            self.lemma_children_member(x, cs, p);
            let c = choose|c: NodeId| cs.contains(c) && self.ranks()[x] < self.ranks()[c] && #[trigger] self.descendants(c).contains(p);
            assert(self.children(x).contains(c));
            assert(self.ranks().contains_key(c));
            self.lemma_down_closed(c, p, y);
            self.lemma_children_include(x, cs, c, y);
        }
        assert(dc.contains(y));
        let j = choose|j: int| 0 <= j < dc.len() && dc[j] == y;
        assert(d[j + 1] == y);
    }

    /// Every branch is in the walk from the root.
    proof fn lemma_down_complete(&self, y: NodeId)
        requires
            self.wf(),
            self.contains(y),
        ensures
            self.descendants(self.root()).contains(y),
        decreases self.ranks()[y],
    {
        assert(self.ranks().contains_key(y));
        if y == self.root() {
            assert(self.descendants(y)[0] == y);
        } else {
            let p = self.parent(y)->0;
            self.lemma_down_complete(p);
            assert(self.children(p).contains(y)) by {
                assert(self.contains(p));
            }
            self.lemma_down_closed(self.root(), p, y);
        }
    }

    /// The walk from `x` visits no branch twice.
    proof fn lemma_down_unique(&self, x: NodeId)
        requires
            self.wf(),
            self.contains(x),
        ensures
            self.descendants(x).no_duplicates(),
        decreases self.order().len() - self.ranks()[x], 1int,
    {
        let n = self.order().len() as int;
        let cs = self.children(x);
        let dc = down_children(self.model(), self.ranks(), n, x, cs);
        assert(self.model().contains_key(x));
        assert forall|k: int| 0 <= k < cs.len() implies self.children(x).contains(#[trigger] cs[k]) by {}
        self.lemma_children_unique(x, cs);
        assert forall|i: int, j: int| 0 <= i < 1 && 0 <= j < dc.len() implies seq![x][i] != dc[j] by {
            assert(dc.contains(dc[j]));
            self.lemma_children_member(x, cs, dc[j]);
            let c = choose|c: NodeId| cs.contains(c) && self.ranks()[x] < self.ranks()[c] && #[trigger] self.descendants(c).contains(dc[j]);
            assert(self.children(x).contains(c));
            assert(self.ranks().contains_key(c));
            self.lemma_down_sound(c);
            let k = choose|k: int| 0 <= k < self.descendants(c).len() && self.descendants(c)[k] == dc[j];
            self.lemma_above_rank(c, dc[j]);
        }
        vstd::seq_lib::lemma_no_dup_in_concat(seq![x], dc);
    }

    proof fn lemma_children_unique(&self, x: NodeId, cs: Seq<NodeId>)
        requires
            self.wf(),
            self.contains(x),
            cs.no_duplicates(),
            forall|k: int| 0 <= k < cs.len() ==> self.children(x).contains(#[trigger] cs[k]),
        ensures
            down_children(self.model(), self.ranks(), self.order().len() as int, x, cs).no_duplicates(),
        decreases self.order().len() - self.ranks()[x], 0int, cs.len(),
    {
        if cs.len() > 0 {
            let n = self.order().len() as int;
            let l = cs.last();
            let rest = cs.drop_last();
            assert(self.children(x).contains(l));
            assert(self.ranks().contains_key(l));
            self.lemma_children_unique(x, rest);
            let d = down_children(self.model(), self.ranks(), n, x, cs);
            let a = down_children(self.model(), self.ranks(), n, x, rest);
            if self.ranks()[x] < self.ranks()[l] && self.ranks()[l] < n {
                let b = self.descendants(l);
                self.lemma_down_unique(l);
                self.lemma_down_sound(l);
                assert forall|i: int, j: int| 0 <= i < a.len() && 0 <= j < b.len() implies a[i] != b[j] by {
                    if a[i] == b[j] {
                        let e = a[i];
                        assert(a.contains(e));
                        self.lemma_children_member(x, rest, e);
                        let c = choose|c: NodeId| rest.contains(c) && self.ranks()[x] < self.ranks()[c] && #[trigger] self.descendants(c).contains(e);
                        let ci = choose|ci: int| 0 <= ci < rest.len() && rest[ci] == c;
                        assert(cs[ci] == c);
                        assert(self.children(x).contains(c));
                        assert(self.ranks().contains_key(c));
                        self.lemma_down_sound(c);
                        let k = choose|k: int| 0 <= k < self.descendants(c).len() && self.descendants(c)[k] == e;
                        assert(is_above(self.model(), self.ranks(), c, e));
                        assert(is_above(self.model(), self.ranks(), l, b[j]));
                        self.lemma_above_unique(x, c, l, e);
                        assert(cs[cs.len() - 1] == l);
                    }
                }
                vstd::seq_lib::lemma_no_dup_in_concat(a, b);
            } else {
                assert(d =~= a);
            }
        }
    }
}

/// The walk down from the root visits every branch of the tree exactly
/// once, so it is as long as the tree has branches.
pub proof fn lemma_downwards_from_root_visits_each_once(t: &TruthTree)
    requires
        t.wf(),
    ensures
        t.descendants(t.root()).no_duplicates(),
        forall|id: NodeId| t.contains(id) <==> #[trigger] t.descendants(t.root()).contains(id),
        t.descendants(t.root()).len() == t.order().len(),
{
    let r = t.root();
    let d = t.descendants(r);
    let o = t.order();
    assert(t.contains(r));
    t.lemma_down_unique(r);
    t.lemma_descendants_in_tree(r);
    assert forall|id: NodeId| t.contains(id) <==> #[trigger] d.contains(id) by {
        if t.contains(id) {
            t.lemma_down_complete(id);
        }
        if d.contains(id) {
            let k = choose|k: int| 0 <= k < d.len() && d[k] == id;
        }
    }
    assert forall|i: int, j: int| 0 <= i < o.len() && 0 <= j < o.len() && i != j implies o[i] != o[j] by {
        assert(t.ranks()[o[i]] == i);
        assert(t.ranks()[o[j]] == j);
    }
    assert(o.no_duplicates());
    assert forall|id: NodeId| #[trigger] o.contains(id) <==> d.contains(id) by {
        if o.contains(id) {
            let k = choose|k: int| 0 <= k < o.len() && o[k] == id;
        }
        if t.contains(id) {
            assert(t.ranks().contains_key(id));
            assert(o[t.ranks()[id] as int] == id);
        }
    }
    assert(d.to_set() =~= o.to_set());
    d.unique_seq_to_set();
    o.unique_seq_to_set();
}

} // verus!
