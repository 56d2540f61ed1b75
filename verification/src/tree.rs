//! A hierarchical catalog of named nodes. Nodes are found by identifier with
//! a depth-first search; insertion appends a child to the first node that
//! carries the requested identifier.

use vstd::pervasive::VecAdditionalExecFns;
use vstd::prelude::*;

verus! {

/// The role a node plays in the catalog.
#[derive(Debug, Clone, Copy, PartialEq, Eq, Structural)]
pub enum TreeNodeType {
    Leaf,
    Branch,
    Root,
}

/// One catalog entry: an identifier, a display name, a role, and optionally
/// an ordered list of children.
#[derive(Debug)]
pub struct TreeNode {
    pub id: usize,
    pub name: String,
    pub node_type: TreeNodeType,
    pub children: Option<Vec<TreeNode>>,
}

/// The catalog: an ordered forest of root-level nodes and a counter that
/// allocates fresh identifiers.
#[derive(Debug)]
pub struct Tree {
    nodes: Vec<TreeNode>,
    counter: usize,
}

/// The mathematical shape of a node: the same fields with the name as a
/// character sequence and the children as a sequence of shapes.
#[verifier::ext_equal]
pub ghost struct NodeView {
    pub id: usize,
    pub name: Seq<char>,
    pub node_type: TreeNodeType,
    pub children: Option<Seq<NodeView>>,
}

/// The mathematical shape of the whole catalog.
#[verifier::ext_equal]
pub ghost struct TreeView {
    pub nodes: Seq<NodeView>,
    pub counter: usize,
}

impl TreeNode {
    /// The shape of this node, children included.
    pub open spec fn view(self) -> NodeView
        decreases self,
    {
        NodeView {
            id: self.id,
            name: self.name@,
            node_type: self.node_type,
            children: match self.children {
                Option::Some(cs) => Option::Some(views_of(cs@)),
                Option::None => Option::None,
            },
        }
    }
}

/// The shapes of a sequence of nodes, in order.
pub open spec fn views_of(nodes: Seq<TreeNode>) -> Seq<NodeView>
    decreases nodes,
{
    if nodes.len() == 0 {
        Seq::empty()
    } else {
        views_of(nodes.subrange(0, nodes.len() - 1)).push(nodes[nodes.len() - 1].view())
    }
}

/// `views_of` keeps the length of the sequence it maps.
pub broadcast proof fn lemma_views_of_len(nodes: Seq<TreeNode>)
    ensures
        #[trigger] views_of(nodes).len() == nodes.len(),
    decreases nodes.len(),
{
    if nodes.len() > 0 {
        lemma_views_of_len(nodes.subrange(0, nodes.len() - 1));
    }
}

/// `views_of` maps each node to its shape, position by position.
pub broadcast proof fn lemma_views_of_index(nodes: Seq<TreeNode>, i: int)
    requires
        0 <= i < nodes.len(),
    ensures
        #[trigger] views_of(nodes)[i] == nodes[i].view(),
    decreases nodes.len(),
{
    lemma_views_of_len(nodes.subrange(0, nodes.len() - 1));
    if i < nodes.len() - 1 {
        lemma_views_of_index(nodes.subrange(0, nodes.len() - 1), i);
    }
}

/// `n` with its name replaced.
pub open spec fn with_name(n: NodeView, name: Seq<char>) -> NodeView {
    NodeView { id: n.id, name, node_type: n.node_type, children: n.children }
}

/// `n` with its children replaced.
pub open spec fn with_children(n: NodeView, cs: Seq<NodeView>) -> NodeView {
    NodeView { id: n.id, name: n.name, node_type: n.node_type, children: Option::Some(cs) }
}

/// `n` with `c` appended to its children; a node without a child list gets
/// one holding `c` alone.
pub open spec fn append_child(n: NodeView, c: NodeView) -> NodeView {
    match n.children {
        Option::Some(cs) => with_children(n, cs.push(c)),
        Option::None => with_children(n, seq![c]),
    }
}

/// The first node carrying `id` in the depth-first order that visits
/// `forest[i]` and its descendants before `forest[i + 1]`.
pub open spec fn find_from(forest: Seq<NodeView>, i: int, id: usize) -> Option<NodeView>
    decreases forest, forest.len() - i,
{
    if i < 0 || i >= forest.len() {
        Option::None
    } else if forest[i].id == id {
        Option::Some(forest[i])
    } else {
        let deeper = match forest[i].children {
            Option::Some(cs) => find_from(cs, 0, id),
            Option::None => Option::None,
        };
        match deeper {
            Option::Some(n) => Option::Some(n),
            Option::None => find_from(forest, i + 1, id),
        }
    }
}

/// The forest after appending `child` to the first node carrying `id`, in
/// the same depth-first order as `find_from`; `None` when no node carries
/// `id`.
pub open spec fn insert_from(forest: Seq<NodeView>, i: int, id: usize, child: NodeView) -> Option<
    Seq<NodeView>,
>
    decreases forest, forest.len() - i,
{
    if i < 0 || i >= forest.len() {
        Option::None
    } else if forest[i].id == id {
        Option::Some(forest.update(i, append_child(forest[i], child)))
    } else {
        let deeper = match forest[i].children {
            Option::Some(cs) => insert_from(cs, 0, id, child),
            Option::None => Option::None,
        };
        match deeper {
            Option::Some(cs2) => Option::Some(forest.update(i, with_children(forest[i], cs2))),
            Option::None => insert_from(forest, i + 1, id, child),
        }
    }
}

/// The forest after renaming the first node carrying `id`, together with
/// that node's new shape; `None` when no node carries `id`.
pub open spec fn rename_from(forest: Seq<NodeView>, i: int, id: usize, name: Seq<char>) -> Option<
    (Seq<NodeView>, NodeView),
>
    decreases forest, forest.len() - i,
{
    if i < 0 || i >= forest.len() {
        Option::None
    } else if forest[i].id == id {
        let n2 = with_name(forest[i], name);
        Option::Some((forest.update(i, n2), n2))
    } else {
        let deeper = match forest[i].children {
            Option::Some(cs) => rename_from(cs, 0, id, name),
            Option::None => Option::None,
        };
        match deeper {
            Option::Some(p) => Option::Some(
                (forest.update(i, with_children(forest[i], p.0)), p.1),
            ),
            Option::None => rename_from(forest, i + 1, id, name),
        }
    }
}

impl TreeNode {
    /// A copy of this node whose shape equals the original's.
    pub fn duplicate(&self) -> (r: TreeNode)
        ensures
            r@ == self@,
        decreases *self,
    {
        broadcast use lemma_views_of_len, lemma_views_of_index;

        let children = match &self.children {
            Option::Some(cs) => Option::Some(duplicate_nodes(cs)),
            Option::None => Option::None,
        };
        TreeNode { id: self.id, name: self.name.clone(), node_type: self.node_type, children }
    }

    /// Appends `child` to this node's children; a node without a child list
    /// gets one holding `child` alone.
    pub fn add_child(&mut self, child: TreeNode)
        ensures
            final(self)@ == append_child(old(self)@, child@),
    {
        broadcast use lemma_views_of_len, lemma_views_of_index;

        let ghost child_shape = child@;
        let taken = self.children.take();
        let mut cs = match taken {
            Option::Some(cs) => cs,
            Option::None => Vec::new(),
        };
        let ghost cs_before = cs@;
        cs.push(child);
        proof {
            assert(cs@ =~= cs_before.push(child));
            assert(views_of(cs_before.push(child)) =~= views_of(cs_before).push(child_shape));
        }
        self.children = Option::Some(cs);
    }
}

/// Copies of the given nodes whose shapes equal the originals', in order.
fn duplicate_nodes(nodes: &Vec<TreeNode>) -> (r: Vec<TreeNode>)
    ensures
        views_of(r@) == views_of(nodes@),
    decreases nodes@,
{
    broadcast use lemma_views_of_len, lemma_views_of_index;

    let mut r: Vec<TreeNode> = Vec::new();
    let mut i: usize = 0;
    while i < nodes.len()
        invariant
            i <= nodes@.len(),
            r@.len() == i,
            forall|j: int| 0 <= j < i ==> r@[j]@ == nodes@[j]@,
        decreases nodes@.len() - i,
    {
        proof {
            assert(decreases_to!(nodes@ => nodes@[i as int]));
        }
        let d = nodes[i].duplicate();
        r.push(d);
        i = i + 1;
    }
    proof {
        assert forall|j: int| 0 <= j < nodes@.len() implies views_of(r@)[j] == views_of(
            nodes@,
        )[j] by {
            lemma_views_of_index(r@, j);
            lemma_views_of_index(nodes@, j);
        }
        assert(views_of(r@) =~= views_of(nodes@));
    }
    r
}

/// A reference to the first node carrying `id` in the depth-first search
/// that starts at position `i`, as `find_from` describes it.
fn find_node_from<'a>(nodes: &'a Vec<TreeNode>, i: usize, id: usize) -> (r: Option<&'a TreeNode>)
    ensures
        match find_from(views_of(nodes@), i as int, id) {
            Option::Some(nv) => r is Some && r->0@ == nv,
            Option::None => r is None,
        },
    decreases views_of(nodes@), nodes@.len() - i,
{
    broadcast use lemma_views_of_len, lemma_views_of_index;

    if i >= nodes.len() {
        return Option::None;
    }
    let node = &nodes[i];
    proof {
        assert(views_of(nodes@)[i as int] == node@);
    }
    if node.id == id {
        return Option::Some(node);
    }
    let deeper = match &node.children {
        Option::Some(cs) => {
            proof {
                assert(decreases_to!(views_of(nodes@) => views_of(nodes@)[i as int]));
                assert(decreases_to!(views_of(nodes@)[i as int] => node@.children));
                assert(decreases_to!(node@.children => node@.children->Some_0));
                assert(node@.children->Some_0 == views_of(cs@));
            }
            find_node_from(cs, 0, id)
        },
        Option::None => Option::None,
    };
    match deeper {
        Option::Some(n) => Option::Some(n),
        Option::None => find_node_from(nodes, i + 1, id),
    }
}

/// Appends `child` to the first node carrying `id` in the depth-first
/// search that starts at position `i`, as `insert_from` describes it; when
/// no node carries `id`, hands `child` back and leaves the forest as it was.
fn insert_child_from(nodes: Vec<TreeNode>, i: usize, id: usize, child: TreeNode) -> (r: (
    Vec<TreeNode>,
    Option<TreeNode>,
))
    ensures
        match insert_from(views_of(nodes@), i as int, id, child@) {
            Option::Some(f2) => r.1 is None && views_of(r.0@) == f2,
            Option::None => r.1 == Option::Some(child) && views_of(r.0@) == views_of(nodes@),
        },
    decreases views_of(nodes@), nodes@.len() - i,
{
    broadcast use lemma_views_of_len, lemma_views_of_index;

    let ghost v0 = views_of(nodes@);
    let mut nodes = nodes;
    if i >= nodes.len() {
        return (nodes, Option::Some(child));
    }
    let mut slot = TreeNode {
        id: 0,
        name: String::new(),
        node_type: TreeNodeType::Leaf,
        children: Option::None,
    };
    nodes.set_and_swap(i, &mut slot);
    let ghost orig = slot;
    proof {
        assert(v0[i as int] == orig@);
    }
    if slot.id == id {
        let ghost child_shape = child@;
        let mut node2 = slot;
        node2.add_child(child);
        nodes.set(i, node2);
        proof {
            assert(views_of(nodes@) =~= v0.update(i as int, append_child(orig@, child_shape)));
        }
        return (nodes, Option::None);
    }
    let TreeNode { id: nid, name, node_type, children } = slot;
    match children {
        Option::Some(cs) => {
            proof {
                assert(decreases_to!(v0 => v0[i as int]));
                assert(decreases_to!(v0[i as int] => orig@.children));
                assert(decreases_to!(orig@.children => orig@.children->Some_0));
                assert(orig@.children->Some_0 == views_of(cs@));
            }
            let (cs2, back) = insert_child_from(cs, 0, id, child);
            let node2 = TreeNode { id: nid, name, node_type, children: Option::Some(cs2) };
            nodes.set(i, node2);
            match back {
                Option::None => {
                    proof {
                        assert(views_of(nodes@) =~= v0.update(
                            i as int,
                            with_children(orig@, views_of(cs2@)),
                        ));
                    }
                    (nodes, Option::None)
                },
                Option::Some(c2) => {
                    proof {
                        assert(node2@ == orig@);
                        assert(views_of(nodes@) =~= v0);
                    }
                    insert_child_from(nodes, i + 1, id, c2)
                },
            }
        },
        Option::None => {
            let node2 = TreeNode { id: nid, name, node_type, children: Option::None };
            nodes.set(i, node2);
            proof {
                assert(node2@ == orig@);
                assert(views_of(nodes@) =~= v0);
            }
            insert_child_from(nodes, i + 1, id, child)
        },
    }
}

/// Renames the first node carrying `id` in the depth-first search that
/// starts at position `i`, as `rename_from` describes it, and hands back a
/// copy of the renamed node.
fn rename_node_from(nodes: Vec<TreeNode>, i: usize, id: usize, name: &str) -> (r: (
    Vec<TreeNode>,
    Option<TreeNode>,
))
    ensures
        match rename_from(views_of(nodes@), i as int, id, name@) {
            Option::Some(p) => r.1 is Some && r.1->0@ == p.1 && views_of(r.0@) == p.0,
            Option::None => r.1 is None && views_of(r.0@) == views_of(nodes@),
        },
    decreases views_of(nodes@), nodes@.len() - i,
{
    broadcast use lemma_views_of_len, lemma_views_of_index;

    let ghost v0 = views_of(nodes@);
    let mut nodes = nodes;
    if i >= nodes.len() {
        return (nodes, Option::None);
    }
    let mut slot = TreeNode {
        id: 0,
        name: String::new(),
        node_type: TreeNodeType::Leaf,
        children: Option::None,
    };
    nodes.set_and_swap(i, &mut slot);
    let ghost orig = slot;
    proof {
        assert(v0[i as int] == orig@);
    }
    let TreeNode { id: nid, name: old_name, node_type, children } = slot;
    if nid == id {
        let node2 = TreeNode { id: nid, name: name.to_owned(), node_type, children };
        let copy = node2.duplicate();
        nodes.set(i, node2);
        proof {
            assert(views_of(nodes@) =~= v0.update(i as int, with_name(orig@, name@)));
        }
        return (nodes, Option::Some(copy));
    }
    match children {
        Option::Some(cs) => {
            proof {
                assert(decreases_to!(v0 => v0[i as int]));
                assert(decreases_to!(v0[i as int] => orig@.children));
                assert(decreases_to!(orig@.children => orig@.children->Some_0));
                assert(orig@.children->Some_0 == views_of(cs@));
            }
            let (cs2, found) = rename_node_from(cs, 0, id, name);
            let node2 = TreeNode {
                id: nid,
                name: old_name,
                node_type,
                children: Option::Some(cs2),
            };
            nodes.set(i, node2);
            match found {
                Option::Some(copy) => {
                    proof {
                        assert(views_of(nodes@) =~= v0.update(
                            i as int,
                            with_children(orig@, views_of(cs2@)),
                        ));
                    }
                    (nodes, Option::Some(copy))
                },
                Option::None => {
                    proof {
                        assert(node2@ == orig@);
                        assert(views_of(nodes@) =~= v0);
                    }
                    rename_node_from(nodes, i + 1, id, name)
                },
            }
        },
        Option::None => {
            let node2 = TreeNode { id: nid, name: old_name, node_type, children: Option::None };
            nodes.set(i, node2);
            proof {
                assert(node2@ == orig@);
                assert(views_of(nodes@) =~= v0);
            }
            rename_node_from(nodes, i + 1, id, name)
        },
    }
}

impl Tree {
    /// The shape of the catalog.
    pub closed spec fn view(self) -> TreeView {
        TreeView { nodes: views_of(self.nodes@), counter: self.counter }
    }

    /// An empty catalog whose first allocated identifier will be 1.
    pub fn new() -> (t: Tree)
        ensures
            t@.nodes == Seq::<NodeView>::empty(),
            t@.counter == 1,
    {
        let t = Tree { nodes: Vec::new(), counter: 1 };
        proof {
            assert(t@.nodes =~= Seq::<NodeView>::empty());
        }
        t
    }

    /// The root-level nodes, in insertion order.
    pub fn get_nodes(&self) -> (r: &Vec<TreeNode>)
        ensures
            views_of(r@) == self@.nodes,
    {
        &self.nodes
    }

    /// A reference to the first node carrying `node_id`, in the depth-first
    /// order that `find_from` describes; `None` when no node carries it.
    pub fn find_node_by_id(&self, node_id: usize) -> (r: Option<&TreeNode>)
        ensures
            match find_from(self@.nodes, 0, node_id) {
                Option::Some(nv) => r is Some && r->0@ == nv,
                Option::None => r is None,
            },
    {
        find_node_from(&self.nodes, 0, node_id)
    }

    /// The identifier the next created node will receive.
    pub fn next_id(&self) -> (r: usize)
        ensures
            r == self@.counter,
    {
        self.counter
    }

    /// Hands out the next fresh identifier and advances the counter.
    fn get_id(&mut self) -> (id: usize)
        requires
            old(self)@.counter < usize::MAX,
        ensures
            id == old(self)@.counter,
            final(self)@.counter == old(self)@.counter + 1,
            final(self)@.nodes == old(self)@.nodes,
    {
        let counter = self.counter;
        self.counter = self.counter + 1;
        counter
    }

    /// Adds an entry as `spec_add_node` describes: with `update` set and an
    /// existing `node_id`, the node is renamed in place; otherwise a fresh
    /// leaf is created and attached under the first node carrying `node_id`
    /// (wrapped in a single-child branch unless `append_to_node` is set),
    /// or at root level when `node_id` is `None`. The returned node is the
    /// renamed node or the fresh leaf.
    pub fn add_node(
        &mut self,
        name: &str,
        node_id: Option<usize>,
        append_to_node: bool,
        update: bool,
    ) -> (r: TreeNode)
        requires
            old(self)@.counter < usize::MAX || (update && node_id is Some && rename_from(
                old(self)@.nodes,
                0,
                node_id->0,
                name@,
            ) is Some),
        ensures
            (final(self)@, r@) == spec_add_node(old(self)@, name@, node_id, append_to_node, update),
    {
        broadcast use lemma_views_of_len, lemma_views_of_index;

        if update {
            if let Option::Some(id) = node_id {
                let mut taken: Vec<TreeNode> = Vec::new();
                core::mem::swap(&mut self.nodes, &mut taken);
                let (given_back, found) = rename_node_from(taken, 0, id, name);
                self.nodes = given_back;
                if let Option::Some(copy) = found {
                    return copy;
                }
            }
        }
        let new_id = self.get_id();
        let new_leaf = new_leaf(name, new_id);
        match node_id {
            Option::Some(id) => {
                let child = if append_to_node {
                    new_leaf.duplicate()
                } else {
                    let mut only_child: Vec<TreeNode> = Vec::new();
                    only_child.push(new_leaf.duplicate());
                    proof {
                        assert(views_of(only_child@) =~= seq![leaf_shape(name@, new_id)]);
                    }
                    new_branch(name, new_id, Option::Some(only_child))
                };
                let mut taken: Vec<TreeNode> = Vec::new();
                core::mem::swap(&mut self.nodes, &mut taken);
                let (given_back, _leftover) = insert_child_from(taken, 0, id, child);
                self.nodes = given_back;
            },
            Option::None => {
                let ghost before = self.nodes@;
                self.nodes.push(new_leaf.duplicate());
                proof {
                    assert(self.nodes@.subrange(0, before.len() as int) =~= before);
                    assert(views_of(self.nodes@) =~= views_of(before).push(
                        leaf_shape(name@, new_id),
                    ));
                }
            },
        }
        new_leaf
    }
}

/// The shape of a fresh leaf.
pub open spec fn leaf_shape(name: Seq<char>, id: usize) -> NodeView {
    NodeView { id, name, node_type: TreeNodeType::Leaf, children: Option::None }
}

/// The shape of a branch with the given children.
pub open spec fn branch_shape(name: Seq<char>, id: usize, children: Option<Seq<NodeView>>) -> NodeView {
    NodeView { id, name, node_type: TreeNodeType::Branch, children }
}

/// What `Tree::add_node` does to the catalog, and the shape of the node it
/// hands back.
pub open spec fn spec_add_node(
    t: TreeView,
    name: Seq<char>,
    node_id: Option<usize>,
    append_to_node: bool,
    update: bool,
) -> (TreeView, NodeView) {
    if update && node_id is Some && rename_from(t.nodes, 0, node_id->0, name) is Some {
        let p = rename_from(t.nodes, 0, node_id->0, name)->0;
        (TreeView { nodes: p.0, counter: t.counter }, p.1)
    } else {
        let fresh = t.counter;
        let leaf = leaf_shape(name, fresh);
        let advanced = (t.counter + 1) as usize;
        match node_id {
            Option::None => (TreeView { nodes: t.nodes.push(leaf), counter: advanced }, leaf),
            Option::Some(id) => {
                let child = if append_to_node {
                    leaf
                } else {
                    branch_shape(name, fresh, Option::Some(seq![leaf]))
                };
                match insert_from(t.nodes, 0, id, child) {
                    Option::Some(f2) => (TreeView { nodes: f2, counter: advanced }, leaf),
                    Option::None => (TreeView { nodes: t.nodes, counter: advanced }, leaf),
                }
            },
        }
    }
}

/// A fresh leaf node.
fn new_leaf(name: &str, id: usize) -> (r: TreeNode)
    ensures
        r@ == leaf_shape(name@, id),
{
    TreeNode { id, name: name.to_owned(), node_type: TreeNodeType::Leaf, children: Option::None }
}

/// Whether two shapes agree on identifier, name and children, position by
/// position; the role of a node is deliberately left out of the comparison.
pub open spec fn node_matches(a: NodeView, b: NodeView) -> bool
    decreases a,
{
    a.id == b.id && a.name == b.name && match (a.children, b.children) {
        (Option::Some(x), Option::Some(y)) => forests_match_from(x, y, 0),
        (Option::None, Option::None) => true,
        _ => false,
    }
}

/// Whether two forests have the same length and matching nodes from
/// position `i` on.
pub open spec fn forests_match_from(x: Seq<NodeView>, y: Seq<NodeView>, i: int) -> bool
    decreases x, x.len() - i,
{
    x.len() == y.len() && (i < 0 || i >= x.len() || (node_matches(x[i], y[i])
        && forests_match_from(x, y, i + 1)))
}

/// Whether the forest's first node matches `expected` on identifier, name
/// and children; an empty forest counts as a match.
pub fn compare_tree_structure(actual: &Vec<TreeNode>, expected: &TreeNode) -> (r: bool)
    ensures
        r == (actual@.len() == 0 || node_matches(views_of(actual@)[0], expected@)),
{
    broadcast use lemma_views_of_len, lemma_views_of_index;

    if actual.len() == 0 {
        true
    } else {
        compare_tree_node(&actual[0], expected)
    }
}

/// Whether two nodes agree on identifier, name and children.
fn compare_tree_node(a: &TreeNode, b: &TreeNode) -> (r: bool)
    ensures
        r == node_matches(a@, b@),
    decreases *a,
{
    if a.id != b.id {
        return false;
    }
    if !(a.name == b.name) {
        return false;
    }
    match (&a.children, &b.children) {
        (Option::Some(x), Option::Some(y)) => {
            proof {
                assert(decreases_to!(*a => a.children));
                assert(decreases_to!(a.children => a.children->Some_0));
                assert(decreases_to!(a.children->Some_0 => a.children->Some_0@));
            }
            compare_children(x, y)
        },
        (Option::None, Option::None) => true,
        _ => false,
    }
}

/// Whether two child lists have the same length and matching nodes.
fn compare_children(x: &Vec<TreeNode>, y: &Vec<TreeNode>) -> (r: bool)
    ensures
        r == forests_match_from(views_of(x@), views_of(y@), 0),
    decreases x@,
{
    broadcast use lemma_views_of_len, lemma_views_of_index;

    let ghost vx = views_of(x@);
    let ghost vy = views_of(y@);
    if x.len() != y.len() {
        proof {
            assert(!forests_match_from(vx, vy, 0));
        }
        return false;
    }
    let mut i: usize = 0;
    while i < x.len()
        invariant
            i <= x@.len(),
            x@.len() == y@.len(),
            vx == views_of(x@),
            vy == views_of(y@),
            vx.len() == x@.len(),
            vy.len() == y@.len(),
            forests_match_from(vx, vy, 0) == forests_match_from(vx, vy, i as int),
        decreases x@.len() - i,
    {
        proof {
            assert(decreases_to!(x@ => x@[i as int]));
            lemma_views_of_index(x@, i as int);
            lemma_views_of_index(y@, i as int);
        }
        if !compare_tree_node(&x[i], &y[i]) {
            proof {
                assert(!forests_match_from(vx, vy, i as int));
            }
            return false;
        }
        proof {
            assert(forests_match_from(vx, vy, i as int) == forests_match_from(vx, vy, i + 1));
        }
        i = i + 1;
    }
    proof {
        assert(forests_match_from(vx, vy, i as int));
    }
    true
}

/// The catalog that `build_initial_tree` constructs: a single root-level
/// node with five children, two of which carry subtrees of their own.
pub open spec fn initial_catalog() -> TreeView {
    TreeView {
        nodes: seq![
            NodeView {
                id: 1,
                name: "Root"@,
                node_type: TreeNodeType::Leaf,
                children: Option::Some(
                    seq![
                        leaf_shape("Leaf1"@, 2),
                        leaf_shape("Leaf2"@, 3),
                        NodeView {
                            id: 4,
                            name: "Leaf3"@,
                            node_type: TreeNodeType::Leaf,
                            children: Option::Some(
                                seq![
                                    NodeView {
                                        id: 5,
                                        name: "Leaf7"@,
                                        node_type: TreeNodeType::Leaf,
                                        children: Option::Some(
                                            seq![
                                                leaf_shape("Leaf13"@, 6),
                                                leaf_shape("Leaf14"@, 7),
                                            ],
                                        ),
                                    },
                                    NodeView {
                                        id: 8,
                                        name: "Leaf8"@,
                                        node_type: TreeNodeType::Leaf,
                                        children: Option::Some(seq![leaf_shape("Leaf9"@, 9)]),
                                    },
                                ],
                            ),
                        },
                        leaf_shape("Leaf4"@, 10),
                        leaf_shape("Leaf5"@, 11),
                    ],
                ),
            },
        ],
        counter: 12,
    }
}

/// The fixed starting catalog: a root entry carrying five children, with
/// two nested subtrees, built through `add_node` alone.
pub fn build_initial_tree() -> (t: Tree)
    ensures
        t@ == initial_catalog(),
{
    let mut initial_tree = Tree::new();
    let root_node = initial_tree.add_node("Root", Option::None, false, false);
    proof {
        reveal_with_fuel(insert_from, 12);
        let cur = initial_tree@.nodes;
        assert(cur.len() == 1);
        let lf1 = leaf_shape("Root"@, 1);
        assert(cur[0] =~~= lf1);
        assert(cur =~= seq![lf1]);
    }
    let _leaf1 = initial_tree.add_node("Leaf1", Option::Some(root_node.id), true, false);
    proof {
        reveal_with_fuel(insert_from, 12);
        let cur = initial_tree@.nodes;
        assert(cur.len() == 1);
        assert(cur[0].children is Some);
        assert(cur[0].children->0.len() == 1);
        let lf2 = leaf_shape("Leaf1"@, 2);
        assert(cur[0].children->0[0] =~~= lf2);
        assert(cur[0].children->0 =~= seq![lf2]);
        let nd1 = NodeView { id: 1, name: "Root"@, node_type: TreeNodeType::Leaf, children: Option::Some(seq![lf2]) };
        assert(cur[0] =~~= nd1);
        assert(cur =~= seq![nd1]);
    }
    let _leaf2 = initial_tree.add_node("Leaf2", Option::Some(root_node.id), true, false);
    proof {
        reveal_with_fuel(insert_from, 12);
        let cur = initial_tree@.nodes;
        assert(cur.len() == 1);
        assert(cur[0].children is Some);
        assert(cur[0].children->0.len() == 2);
        let lf2 = leaf_shape("Leaf1"@, 2);
        assert(cur[0].children->0[0] =~~= lf2);
        let lf3 = leaf_shape("Leaf2"@, 3);
        assert(cur[0].children->0[1] =~~= lf3);
        assert(cur[0].children->0 =~= seq![lf2, lf3]);
        let nd1 = NodeView { id: 1, name: "Root"@, node_type: TreeNodeType::Leaf, children: Option::Some(seq![lf2, lf3]) };
        assert(cur[0] =~~= nd1);
        assert(cur =~= seq![nd1]);
    }
    let leaf3 = initial_tree.add_node("Leaf3", Option::Some(root_node.id), true, false);
    proof {
        reveal_with_fuel(insert_from, 12);
        let cur = initial_tree@.nodes;
        assert(cur.len() == 1);
        assert(cur[0].children is Some);
        assert(cur[0].children->0.len() == 3);
        let lf2 = leaf_shape("Leaf1"@, 2);
        assert(cur[0].children->0[0] =~~= lf2);
        let lf3 = leaf_shape("Leaf2"@, 3);
        assert(cur[0].children->0[1] =~~= lf3);
        let lf4 = leaf_shape("Leaf3"@, 4);
        assert(cur[0].children->0[2] =~~= lf4);
        assert(cur[0].children->0 =~= seq![lf2, lf3, lf4]);
        let nd1 = NodeView { id: 1, name: "Root"@, node_type: TreeNodeType::Leaf, children: Option::Some(seq![lf2, lf3, lf4]) };
        assert(cur[0] =~~= nd1);
        assert(cur =~= seq![nd1]);
    }
    let leaf7 = initial_tree.add_node("Leaf7", Option::Some(leaf3.id), true, false);
    proof {
        reveal_with_fuel(insert_from, 12);
        let cur = initial_tree@.nodes;
        assert(cur.len() == 1);
        assert(cur[0].children is Some);
        assert(cur[0].children->0.len() == 3);
        let lf2 = leaf_shape("Leaf1"@, 2);
        assert(cur[0].children->0[0] =~~= lf2);
        let lf3 = leaf_shape("Leaf2"@, 3);
        assert(cur[0].children->0[1] =~~= lf3);
        assert(cur[0].children->0[2].children is Some);
        assert(cur[0].children->0[2].children->0.len() == 1);
        let lf5 = leaf_shape("Leaf7"@, 5);
        assert(cur[0].children->0[2].children->0[0] =~~= lf5);
        assert(cur[0].children->0[2].children->0 =~= seq![lf5]);
        let nd4 = NodeView { id: 4, name: "Leaf3"@, node_type: TreeNodeType::Leaf, children: Option::Some(seq![lf5]) };
        assert(cur[0].children->0[2] =~~= nd4);
        assert(cur[0].children->0 =~= seq![lf2, lf3, nd4]);
        let nd1 = NodeView { id: 1, name: "Root"@, node_type: TreeNodeType::Leaf, children: Option::Some(seq![lf2, lf3, nd4]) };
        assert(cur[0] =~~= nd1);
        assert(cur =~= seq![nd1]);
    }
    let _leaf13 = initial_tree.add_node("Leaf13", Option::Some(leaf7.id), true, false);
    proof {
        reveal_with_fuel(insert_from, 12);
        let cur = initial_tree@.nodes;
        assert(cur.len() == 1);
        assert(cur[0].children is Some);
        assert(cur[0].children->0.len() == 3);
        let lf2 = leaf_shape("Leaf1"@, 2);
        assert(cur[0].children->0[0] =~~= lf2);
        let lf3 = leaf_shape("Leaf2"@, 3);
        assert(cur[0].children->0[1] =~~= lf3);
        assert(cur[0].children->0[2].children is Some);
        assert(cur[0].children->0[2].children->0.len() == 1);
        assert(cur[0].children->0[2].children->0[0].children is Some);
        assert(cur[0].children->0[2].children->0[0].children->0.len() == 1);
        let lf6 = leaf_shape("Leaf13"@, 6);
        assert(cur[0].children->0[2].children->0[0].children->0[0] =~~= lf6);
        assert(cur[0].children->0[2].children->0[0].children->0 =~= seq![lf6]);
        let nd5 = NodeView { id: 5, name: "Leaf7"@, node_type: TreeNodeType::Leaf, children: Option::Some(seq![lf6]) };
        assert(cur[0].children->0[2].children->0[0] =~~= nd5);
        assert(cur[0].children->0[2].children->0 =~= seq![nd5]);
        let nd4 = NodeView { id: 4, name: "Leaf3"@, node_type: TreeNodeType::Leaf, children: Option::Some(seq![nd5]) };
        assert(cur[0].children->0[2] =~~= nd4);
        assert(cur[0].children->0 =~= seq![lf2, lf3, nd4]);
        let nd1 = NodeView { id: 1, name: "Root"@, node_type: TreeNodeType::Leaf, children: Option::Some(seq![lf2, lf3, nd4]) };
        assert(cur[0] =~~= nd1);
        assert(cur =~= seq![nd1]);
    }
    let _leaf14 = initial_tree.add_node("Leaf14", Option::Some(leaf7.id), true, false);
    proof {
        reveal_with_fuel(insert_from, 12);
        let cur = initial_tree@.nodes;
        assert(cur.len() == 1);
        assert(cur[0].children is Some);
        assert(cur[0].children->0.len() == 3);
        let lf2 = leaf_shape("Leaf1"@, 2);
        assert(cur[0].children->0[0] =~~= lf2);
        let lf3 = leaf_shape("Leaf2"@, 3);
        assert(cur[0].children->0[1] =~~= lf3);
        assert(cur[0].children->0[2].children is Some);
        assert(cur[0].children->0[2].children->0.len() == 1);
        assert(cur[0].children->0[2].children->0[0].children is Some);
        assert(cur[0].children->0[2].children->0[0].children->0.len() == 2);
        let lf6 = leaf_shape("Leaf13"@, 6);
        assert(cur[0].children->0[2].children->0[0].children->0[0] =~~= lf6);
        let lf7 = leaf_shape("Leaf14"@, 7);
        assert(cur[0].children->0[2].children->0[0].children->0[1] =~~= lf7);
        assert(cur[0].children->0[2].children->0[0].children->0 =~= seq![lf6, lf7]);
        let nd5 = NodeView { id: 5, name: "Leaf7"@, node_type: TreeNodeType::Leaf, children: Option::Some(seq![lf6, lf7]) };
        assert(cur[0].children->0[2].children->0[0] =~~= nd5);
        assert(cur[0].children->0[2].children->0 =~= seq![nd5]);
        let nd4 = NodeView { id: 4, name: "Leaf3"@, node_type: TreeNodeType::Leaf, children: Option::Some(seq![nd5]) };
        assert(cur[0].children->0[2] =~~= nd4);
        assert(cur[0].children->0 =~= seq![lf2, lf3, nd4]);
        let nd1 = NodeView { id: 1, name: "Root"@, node_type: TreeNodeType::Leaf, children: Option::Some(seq![lf2, lf3, nd4]) };
        assert(cur[0] =~~= nd1);
        assert(cur =~= seq![nd1]);
    }
    let leaf8 = initial_tree.add_node("Leaf8", Option::Some(leaf3.id), true, false);
    proof {
        reveal_with_fuel(insert_from, 12);
        let cur = initial_tree@.nodes;
        assert(cur.len() == 1);
        assert(cur[0].children is Some);
        assert(cur[0].children->0.len() == 3);
        let lf2 = leaf_shape("Leaf1"@, 2);
        assert(cur[0].children->0[0] =~~= lf2);
        let lf3 = leaf_shape("Leaf2"@, 3);
        assert(cur[0].children->0[1] =~~= lf3);
        assert(cur[0].children->0[2].children is Some);
        assert(cur[0].children->0[2].children->0.len() == 2);
        assert(cur[0].children->0[2].children->0[0].children is Some);
        assert(cur[0].children->0[2].children->0[0].children->0.len() == 2);
        let lf6 = leaf_shape("Leaf13"@, 6);
        assert(cur[0].children->0[2].children->0[0].children->0[0] =~~= lf6);
        let lf7 = leaf_shape("Leaf14"@, 7);
        assert(cur[0].children->0[2].children->0[0].children->0[1] =~~= lf7);
        assert(cur[0].children->0[2].children->0[0].children->0 =~= seq![lf6, lf7]);
        let nd5 = NodeView { id: 5, name: "Leaf7"@, node_type: TreeNodeType::Leaf, children: Option::Some(seq![lf6, lf7]) };
        assert(cur[0].children->0[2].children->0[0] =~~= nd5);
        let lf8 = leaf_shape("Leaf8"@, 8);
        assert(cur[0].children->0[2].children->0[1] =~~= lf8);
        assert(cur[0].children->0[2].children->0 =~= seq![nd5, lf8]);
        let nd4 = NodeView { id: 4, name: "Leaf3"@, node_type: TreeNodeType::Leaf, children: Option::Some(seq![nd5, lf8]) };
        assert(cur[0].children->0[2] =~~= nd4);
        assert(cur[0].children->0 =~= seq![lf2, lf3, nd4]);
        let nd1 = NodeView { id: 1, name: "Root"@, node_type: TreeNodeType::Leaf, children: Option::Some(seq![lf2, lf3, nd4]) };
        assert(cur[0] =~~= nd1);
        assert(cur =~= seq![nd1]);
    }
    let _leaf9 = initial_tree.add_node("Leaf9", Option::Some(leaf8.id), true, false);
    proof {
        reveal_with_fuel(insert_from, 12);
        let cur = initial_tree@.nodes;
        assert(cur.len() == 1);
        assert(cur[0].children is Some);
        assert(cur[0].children->0.len() == 3);
        let lf2 = leaf_shape("Leaf1"@, 2);
        assert(cur[0].children->0[0] =~~= lf2);
        let lf3 = leaf_shape("Leaf2"@, 3);
        assert(cur[0].children->0[1] =~~= lf3);
        assert(cur[0].children->0[2].children is Some);
        assert(cur[0].children->0[2].children->0.len() == 2);
        assert(cur[0].children->0[2].children->0[0].children is Some);
        assert(cur[0].children->0[2].children->0[0].children->0.len() == 2);
        let lf6 = leaf_shape("Leaf13"@, 6);
        assert(cur[0].children->0[2].children->0[0].children->0[0] =~~= lf6);
        let lf7 = leaf_shape("Leaf14"@, 7);
        assert(cur[0].children->0[2].children->0[0].children->0[1] =~~= lf7);
        assert(cur[0].children->0[2].children->0[0].children->0 =~= seq![lf6, lf7]);
        let nd5 = NodeView { id: 5, name: "Leaf7"@, node_type: TreeNodeType::Leaf, children: Option::Some(seq![lf6, lf7]) };
        assert(cur[0].children->0[2].children->0[0] =~~= nd5);
        assert(cur[0].children->0[2].children->0[1].children is Some);
        assert(cur[0].children->0[2].children->0[1].children->0.len() == 1);
        let lf9 = leaf_shape("Leaf9"@, 9);
        assert(cur[0].children->0[2].children->0[1].children->0[0] =~~= lf9);
        assert(cur[0].children->0[2].children->0[1].children->0 =~= seq![lf9]);
        let nd8 = NodeView { id: 8, name: "Leaf8"@, node_type: TreeNodeType::Leaf, children: Option::Some(seq![lf9]) };
        assert(cur[0].children->0[2].children->0[1] =~~= nd8);
        assert(cur[0].children->0[2].children->0 =~= seq![nd5, nd8]);
        let nd4 = NodeView { id: 4, name: "Leaf3"@, node_type: TreeNodeType::Leaf, children: Option::Some(seq![nd5, nd8]) };
        assert(cur[0].children->0[2] =~~= nd4);
        assert(cur[0].children->0 =~= seq![lf2, lf3, nd4]);
        let nd1 = NodeView { id: 1, name: "Root"@, node_type: TreeNodeType::Leaf, children: Option::Some(seq![lf2, lf3, nd4]) };
        assert(cur[0] =~~= nd1);
        assert(cur =~= seq![nd1]);
    }
    let _leaf4 = initial_tree.add_node("Leaf4", Option::Some(root_node.id), true, false);
    proof {
        reveal_with_fuel(insert_from, 12);
        let cur = initial_tree@.nodes;
        assert(cur.len() == 1);
        assert(cur[0].children is Some);
        assert(cur[0].children->0.len() == 4);
        let lf2 = leaf_shape("Leaf1"@, 2);
        assert(cur[0].children->0[0] =~~= lf2);
        let lf3 = leaf_shape("Leaf2"@, 3);
        assert(cur[0].children->0[1] =~~= lf3);
        assert(cur[0].children->0[2].children is Some);
        assert(cur[0].children->0[2].children->0.len() == 2);
        assert(cur[0].children->0[2].children->0[0].children is Some);
        assert(cur[0].children->0[2].children->0[0].children->0.len() == 2);
        let lf6 = leaf_shape("Leaf13"@, 6);
        assert(cur[0].children->0[2].children->0[0].children->0[0] =~~= lf6);
        let lf7 = leaf_shape("Leaf14"@, 7);
        assert(cur[0].children->0[2].children->0[0].children->0[1] =~~= lf7);
        assert(cur[0].children->0[2].children->0[0].children->0 =~= seq![lf6, lf7]);
        let nd5 = NodeView { id: 5, name: "Leaf7"@, node_type: TreeNodeType::Leaf, children: Option::Some(seq![lf6, lf7]) };
        assert(cur[0].children->0[2].children->0[0] =~~= nd5);
        assert(cur[0].children->0[2].children->0[1].children is Some);
        assert(cur[0].children->0[2].children->0[1].children->0.len() == 1);
        let lf9 = leaf_shape("Leaf9"@, 9);
        assert(cur[0].children->0[2].children->0[1].children->0[0] =~~= lf9);
        assert(cur[0].children->0[2].children->0[1].children->0 =~= seq![lf9]);
        let nd8 = NodeView { id: 8, name: "Leaf8"@, node_type: TreeNodeType::Leaf, children: Option::Some(seq![lf9]) };
        assert(cur[0].children->0[2].children->0[1] =~~= nd8);
        assert(cur[0].children->0[2].children->0 =~= seq![nd5, nd8]);
        let nd4 = NodeView { id: 4, name: "Leaf3"@, node_type: TreeNodeType::Leaf, children: Option::Some(seq![nd5, nd8]) };
        assert(cur[0].children->0[2] =~~= nd4);
        let lf10 = leaf_shape("Leaf4"@, 10);
        assert(cur[0].children->0[3] =~~= lf10);
        assert(cur[0].children->0 =~= seq![lf2, lf3, nd4, lf10]);
        let nd1 = NodeView { id: 1, name: "Root"@, node_type: TreeNodeType::Leaf, children: Option::Some(seq![lf2, lf3, nd4, lf10]) };
        assert(cur[0] =~~= nd1);
        assert(cur =~= seq![nd1]);
    }
    let _leaf5 = initial_tree.add_node("Leaf5", Option::Some(root_node.id), true, false);
    proof {
        reveal_with_fuel(insert_from, 12);
        let cur = initial_tree@.nodes;
        assert(cur.len() == 1);
        assert(cur[0].children is Some);
        assert(cur[0].children->0.len() == 5);
        let lf2 = leaf_shape("Leaf1"@, 2);
        assert(cur[0].children->0[0] =~~= lf2);
        let lf3 = leaf_shape("Leaf2"@, 3);
        assert(cur[0].children->0[1] =~~= lf3);
        assert(cur[0].children->0[2].children is Some);
        assert(cur[0].children->0[2].children->0.len() == 2);
        assert(cur[0].children->0[2].children->0[0].children is Some);
        assert(cur[0].children->0[2].children->0[0].children->0.len() == 2);
        let lf6 = leaf_shape("Leaf13"@, 6);
        assert(cur[0].children->0[2].children->0[0].children->0[0] =~~= lf6);
        let lf7 = leaf_shape("Leaf14"@, 7);
        assert(cur[0].children->0[2].children->0[0].children->0[1] =~~= lf7);
        assert(cur[0].children->0[2].children->0[0].children->0 =~= seq![lf6, lf7]);
        let nd5 = NodeView { id: 5, name: "Leaf7"@, node_type: TreeNodeType::Leaf, children: Option::Some(seq![lf6, lf7]) };
        assert(cur[0].children->0[2].children->0[0] =~~= nd5);
        assert(cur[0].children->0[2].children->0[1].children is Some);
        assert(cur[0].children->0[2].children->0[1].children->0.len() == 1);
        let lf9 = leaf_shape("Leaf9"@, 9);
        assert(cur[0].children->0[2].children->0[1].children->0[0] =~~= lf9);
        assert(cur[0].children->0[2].children->0[1].children->0 =~= seq![lf9]);
        let nd8 = NodeView { id: 8, name: "Leaf8"@, node_type: TreeNodeType::Leaf, children: Option::Some(seq![lf9]) };
        assert(cur[0].children->0[2].children->0[1] =~~= nd8);
        assert(cur[0].children->0[2].children->0 =~= seq![nd5, nd8]);
        let nd4 = NodeView { id: 4, name: "Leaf3"@, node_type: TreeNodeType::Leaf, children: Option::Some(seq![nd5, nd8]) };
        assert(cur[0].children->0[2] =~~= nd4);
        let lf10 = leaf_shape("Leaf4"@, 10);
        assert(cur[0].children->0[3] =~~= lf10);
        let lf11 = leaf_shape("Leaf5"@, 11);
        assert(cur[0].children->0[4] =~~= lf11);
        assert(cur[0].children->0 =~= seq![lf2, lf3, nd4, lf10, lf11]);
        let nd1 = NodeView { id: 1, name: "Root"@, node_type: TreeNodeType::Leaf, children: Option::Some(seq![lf2, lf3, nd4, lf10, lf11]) };
        assert(cur[0] =~~= nd1);
        assert(cur =~= seq![nd1]);
    }
    proof {
        assert(initial_tree@ =~~= initial_catalog());
    }
    initial_tree
}

/// A node description read from an external document: the identifier is
/// optional, and a fresh one is allocated where it is missing.
#[derive(Debug)]
pub struct TreeNodeDeserialize {
    pub id: Option<usize>,
    pub name: String,
    pub node_type: TreeNodeType,
    pub children: Option<Vec<TreeNodeDeserialize>>,
}

/// The mathematical shape of a node description.
#[verifier::ext_equal]
pub ghost struct NodeDataView {
    pub id: Option<usize>,
    pub name: Seq<char>,
    pub node_type: TreeNodeType,
    pub children: Option<Seq<NodeDataView>>,
}

impl TreeNodeDeserialize {
    /// The shape of this description, children included.
    pub open spec fn view(self) -> NodeDataView
        decreases self,
    {
        NodeDataView {
            id: self.id,
            name: self.name@,
            node_type: self.node_type,
            children: match self.children {
                Option::Some(cs) => Option::Some(data_views_of(cs@)),
                Option::None => Option::None,
            },
        }
    }
}

/// The shapes of a sequence of node descriptions, in order.
pub open spec fn data_views_of(nodes: Seq<TreeNodeDeserialize>) -> Seq<NodeDataView>
    decreases nodes,
{
    if nodes.len() == 0 {
        Seq::empty()
    } else {
        data_views_of(nodes.subrange(0, nodes.len() - 1)).push(nodes[nodes.len() - 1].view())
    }
}

/// `data_views_of` keeps the length of the sequence it maps.
pub broadcast proof fn lemma_data_views_of_len(nodes: Seq<TreeNodeDeserialize>)
    ensures
        #[trigger] data_views_of(nodes).len() == nodes.len(),
    decreases nodes.len(),
{
    if nodes.len() > 0 {
        lemma_data_views_of_len(nodes.subrange(0, nodes.len() - 1));
    }
}

/// `data_views_of` maps each description to its shape, position by position.
pub broadcast proof fn lemma_data_views_of_index(nodes: Seq<TreeNodeDeserialize>, i: int)
    requires
        0 <= i < nodes.len(),
    ensures
        #[trigger] data_views_of(nodes)[i] == nodes[i].view(),
    decreases nodes.len(),
{
    lemma_data_views_of_len(nodes.subrange(0, nodes.len() - 1));
    if i < nodes.len() - 1 {
        lemma_data_views_of_index(nodes.subrange(0, nodes.len() - 1), i);
    }
}

/// How many descriptions in this subtree carry no identifier; each of them
/// consumes one fresh identifier from the catalog's counter.
pub open spec fn missing_id_count(node: NodeDataView) -> nat
    decreases node, 0int,
{
    (if node.id is None {
        1nat
    } else {
        0nat
    }) + match node.children {
        Option::Some(cs) => missing_ids_from(cs, 0),
        Option::None => 0nat,
    }
}

/// How many descriptions from position `i` on carry no identifier.
pub open spec fn missing_ids_from(cs: Seq<NodeDataView>, i: int) -> nat
    decreases cs, cs.len() - i,
{
    if i < 0 || i >= cs.len() {
        0nat
    } else {
        missing_id_count(cs[i]) + missing_ids_from(cs, i + 1)
    }
}

/// What `parse_json_value` does to the catalog: the description becomes a
/// childless node (under the first node carrying `parent_id`, or at root
/// level), and its child descriptions follow recursively under the new
/// node's identifier.
pub open spec fn spec_parse_value(node: NodeDataView, t: TreeView, parent_id: Option<usize>) -> TreeView
    decreases node, 0int,
{
    let new_id = match node.id {
        Option::Some(id) => id,
        Option::None => t.counter,
    };
    let counter1 = match node.id {
        Option::Some(id) => t.counter,
        Option::None => (t.counter + 1) as usize,
    };
    let fresh = NodeView {
        id: new_id,
        name: node.name,
        node_type: node.node_type,
        children: Option::None,
    };
    let nodes1 = match parent_id {
        Option::Some(pid) => match insert_from(t.nodes, 0, pid, fresh) {
            Option::Some(f2) => f2,
            Option::None => t.nodes,
        },
        Option::None => t.nodes.push(fresh),
    };
    let t1 = TreeView { nodes: nodes1, counter: counter1 };
    match node.children {
        Option::Some(cs) => spec_parse_children(cs, 0, t1, Option::Some(new_id)),
        Option::None => t1,
    }
}

/// The catalog after parsing the child descriptions from position `i` on.
pub open spec fn spec_parse_children(
    cs: Seq<NodeDataView>,
    i: int,
    t: TreeView,
    parent_id: Option<usize>,
) -> TreeView
    decreases cs, cs.len() - i,
{
    if i < 0 || i >= cs.len() {
        t
    } else {
        spec_parse_children(cs, i + 1, spec_parse_value(cs[i], t, parent_id), parent_id)
    }
}

/// Parsing one description advances the counter by exactly the number of
/// missing identifiers in its subtree.
proof fn lemma_parse_value_counter(node: NodeDataView, t: TreeView, parent_id: Option<usize>)
    requires
        t.counter + missing_id_count(node) <= usize::MAX,
    ensures
        spec_parse_value(node, t, parent_id).counter == t.counter + missing_id_count(node),
    decreases node, 0int,
{
    let new_id = match node.id {
        Option::Some(id) => id,
        Option::None => t.counter,
    };
    let counter1 = match node.id {
        Option::Some(id) => t.counter,
        Option::None => (t.counter + 1) as usize,
    };
    let fresh = NodeView {
        id: new_id,
        name: node.name,
        node_type: node.node_type,
        children: Option::None,
    };
    let nodes1 = match parent_id {
        Option::Some(pid) => match insert_from(t.nodes, 0, pid, fresh) {
            Option::Some(f2) => f2,
            Option::None => t.nodes,
        },
        Option::None => t.nodes.push(fresh),
    };
    let t1 = TreeView { nodes: nodes1, counter: counter1 };
    match node.children {
        Option::Some(cs) => {
            lemma_parse_children_counter(cs, 0, t1, Option::Some(new_id));
        },
        Option::None => {},
    }
}

/// Parsing the descriptions from position `i` on advances the counter by
/// exactly the number of missing identifiers among them.
proof fn lemma_parse_children_counter(
    cs: Seq<NodeDataView>,
    i: int,
    t: TreeView,
    parent_id: Option<usize>,
)
    requires
        t.counter + missing_ids_from(cs, i) <= usize::MAX,
    ensures
        spec_parse_children(cs, i, t, parent_id).counter == t.counter + missing_ids_from(cs, i),
    decreases cs, cs.len() - i,
{
    if 0 <= i < cs.len() {
        lemma_parse_value_counter(cs[i], t, parent_id);
        lemma_parse_children_counter(cs, i + 1, spec_parse_value(cs[i], t, parent_id), parent_id);
    }
}

/// Enters one description and, recursively, its children into the catalog,
/// as `spec_parse_value` describes.
pub fn parse_json_value(node: &TreeNodeDeserialize, tree: &mut Tree, parent_id: Option<usize>)
    requires
        old(tree)@.counter + missing_id_count(node@) <= usize::MAX,
    ensures
        final(tree)@ == spec_parse_value(node@, old(tree)@, parent_id),
    decreases node@,
{
    broadcast use lemma_data_views_of_len, lemma_data_views_of_index;

    let new_id = match node.id {
        Option::Some(id) => id,
        Option::None => tree.get_id(),
    };
    let fresh = TreeNode {
        id: new_id,
        name: node.name.clone(),
        node_type: node.node_type,
        children: Option::None,
    };
    match parent_id {
        Option::Some(pid) => {
            let mut taken: Vec<TreeNode> = Vec::new();
            core::mem::swap(&mut tree.nodes, &mut taken);
            let (given_back, _leftover) = insert_child_from(taken, 0, pid, fresh);
            tree.nodes = given_back;
        },
        Option::None => {
            let ghost before = tree.nodes@;
            tree.nodes.push(fresh);
            proof {
                broadcast use lemma_views_of_len, lemma_views_of_index;

                assert(tree.nodes@.subrange(0, before.len() as int) =~= before);
                assert(views_of(tree.nodes@) =~= views_of(before).push(
                    NodeView {
                        id: new_id,
                        name: node@.name,
                        node_type: node@.node_type,
                        children: Option::None,
                    },
                ));
            }
        },
    }
    let ghost t1 = tree@;
    if let Option::Some(cs) = &node.children {
        let ghost cv = data_views_of(cs@);
        proof {
            assert(node@.children == Option::Some(cv));
        }
        let mut j: usize = 0;
        while j < cs.len()
            invariant
                j <= cs@.len(),
                cv == data_views_of(cs@),
                cv.len() == cs@.len(),
                node@.children == Option::Some(cv),
                tree@.counter + missing_ids_from(cv, j as int) <= usize::MAX,
                spec_parse_children(cv, j as int, tree@, Option::Some(new_id))
                    == spec_parse_children(cv, 0, t1, Option::Some(new_id)),
            decreases cs@.len() - j,
        {
            proof {
                lemma_data_views_of_index(cs@, j as int);
                assert(decreases_to!(node@ => node@.children));
                assert(decreases_to!(node@.children => node@.children->Some_0));
                assert(decreases_to!(cv => cv[j as int]));
            }
            let ghost t_before = tree@;
            parse_json_value(&cs[j], tree, Option::Some(new_id));
            proof {
                lemma_parse_value_counter(cv[j as int], t_before, Option::Some(new_id));
            }
            j = j + 1;
        }
    }
}

/// A fresh branch node over the given children.
fn new_branch(name: &str, id: usize, children: Option<Vec<TreeNode>>) -> (r: TreeNode)
    ensures
        r@ == branch_shape(
            name@,
            id,
            match children {
                Option::Some(cs) => Option::Some(views_of(cs@)),
                Option::None => Option::None,
            },
        ),
{
    TreeNode { id, name: name.to_owned(), node_type: TreeNodeType::Branch, children }
}

} // verus!
