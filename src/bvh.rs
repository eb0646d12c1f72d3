//! Flattened bounding-volume hierarchy: the arena of nodes that a median
//! split builds over a run of primitives, and the fixed-capacity stack that
//! walks it nearest child first.
//!
//! The layout depends only on the number of primitives: the boxes of the
//! nodes, the choice of split axis and the ordering of the primitives inside
//! each run are geometric work that the caller does per node, in index order
//! (a parent always comes before its children).
use vstd::prelude::*;

verus! {

/// Nodes at this depth are never split, whatever their primitive count.
pub const MAX_BVH_DEPTH: usize = 16;

/// Slots of a traversal stack: enough for any layout that honours
/// `MAX_BVH_DEPTH`.
pub const STACK_CAPACITY: usize = MAX_BVH_DEPTH + 1;

/// One node of the arena. It owns the run `first .. first + count` of the
/// primitive array. A leaf has `children == None`; an interior node has
/// `children == Some(c)`, its two children being the nodes `c` and `c + 1`.
#[derive(Clone, Copy, Debug, PartialEq, Eq)]
pub struct Node {
    pub first: usize,
    pub count: usize,
    pub depth: usize,
    pub children: Option<usize>,
}

impl Node {
    pub open spec fn is_leaf(self) -> bool {
        self.children is None
    }

    pub open spec fn end(self) -> int {
        self.first + self.count
    }

    /// Primitive `p` lies in the node's run.
    pub open spec fn covers(self, p: int) -> bool {
        self.first <= p < self.end()
    }
}

/// A run of `count` primitives at depth `depth` is split in two.
pub open spec fn splits(count: nat, depth: nat) -> bool {
    count > 1 && depth < MAX_BVH_DEPTH
}

/// Node `i` is at most `MAX_BVH_DEPTH` deep, and if it is interior, it is one
/// that must be split, and its children come after it, one level deeper, and
/// split its run at the midpoint index.
pub open spec fn node_ok(nodes: Seq<Node>, i: int) -> bool {
    let n = nodes[i];
    &&& n.depth <= MAX_BVH_DEPTH
    &&& n.end() <= usize::MAX
    &&& match n.children {
        None => true,
        Some(c) => {
            let l = nodes[c as int];
            let r = nodes[c + 1];
            &&& i < c
            &&& c + 1 < nodes.len()
            &&& splits(n.count as nat, n.depth as nat)
            &&& l.first == n.first && l.count == n.count / 2 && l.depth == n.depth + 1
            &&& r.first == n.first + n.count / 2 && r.count == n.count - n.count / 2 && r.depth
                == n.depth + 1
        },
    }
}

/// A leaf is a run that is not to be split: one primitive (or none), or the
/// depth bound reached.
pub open spec fn leaf_ok(n: Node) -> bool {
    n.is_leaf() ==> !splits(n.count as nat, n.depth as nat)
}

/// Node `j` is `idx` or one of the nodes `lo .. hi`.
pub open spec fn in_group(idx: int, lo: int, hi: int, j: int) -> bool {
    j == idx || lo <= j < hi
}

/// Some leaf among node `idx` and nodes `lo .. hi` holds primitive `p`.
pub open spec fn held(nodes: Seq<Node>, idx: int, lo: int, hi: int, p: int) -> bool {
    exists|j: int|
        #![trigger nodes[j].covers(p)]
        in_group(idx, lo, hi, j) && nodes[j].is_leaf() && nodes[j].covers(p)
}

/// The leaves among node `idx` and nodes `lo .. hi` tile the primitive run
/// `first .. end`: each lies inside it, and each primitive of it lies in
/// exactly one of them.
pub open spec fn tiles(nodes: Seq<Node>, idx: int, lo: int, hi: int, first: int, end: int) -> bool {
    &&& forall|j: int|
        #![trigger nodes[j]]
        in_group(idx, lo, hi, j) && nodes[j].is_leaf() ==> first <= nodes[j].first
            && nodes[j].end() <= end
    &&& forall|p: int| first <= p < end ==> #[trigger] held(nodes, idx, lo, hi, p)
    &&& forall|p: int, j1: int, j2: int|
        #![trigger nodes[j1].covers(p), nodes[j2].covers(p)]
        in_group(idx, lo, hi, j1) && in_group(idx, lo, hi, j2) && nodes[j1].is_leaf()
            && nodes[j2].is_leaf() && nodes[j1].covers(p) && nodes[j2].covers(p) ==> j1 == j2
}

/// Node `i` is interior and `j` is one of its two children.
pub open spec fn parent_of(nodes: Seq<Node>, j: int, i: int) -> bool {
    match nodes[i].children {
        Some(c) => j == c || j == c + 1,
        None => false,
    }
}

/// No node is the child of two nodes.
pub open spec fn unique_parents(nodes: Seq<Node>) -> bool {
    forall|j: int, i1: int, i2: int|
        0 <= i1 < nodes.len() && 0 <= i2 < nodes.len() && #[trigger] parent_of(nodes, j, i1)
            && #[trigger] parent_of(nodes, j, i2) ==> i1 == i2
}

/// A complete layout over `n` primitives: the root is node 0 and owns all of
/// them at depth 0, every node is well placed, every leaf is a run that is
/// not to be split, no node has two parents, and the leaves tile the
/// primitives.
pub open spec fn layout_ok(nodes: Seq<Node>, n: nat) -> bool {
    &&& nodes.len() >= 1
    &&& unique_parents(nodes)
    &&& nodes[0].first == 0 && nodes[0].count == n && nodes[0].depth == 0
    &&& forall|i: int| 0 <= i < nodes.len() ==> #[trigger] node_ok(nodes, i)
    &&& forall|i: int| 0 <= i < nodes.len() ==> #[trigger] leaf_ok(nodes[i])
    &&& tiles(nodes, 0, 1, nodes.len() as int, 0, n as int)
}

/// The node arena of a hierarchy over a fixed number of primitives.
#[derive(Debug)]
pub struct BvhLayout {
    nodes: Vec<Node>,
    primitive_count: usize,
}

/// The tiling of a group only reads the nodes of the group.
proof fn lemma_tiles_frame(
    a: Seq<Node>,
    b: Seq<Node>,
    idx: int,
    lo: int,
    hi: int,
    first: int,
    end: int,
)
    requires
        tiles(a, idx, lo, hi, first, end),
        forall|j: int| in_group(idx, lo, hi, j) ==> a[j] == b[j],
    ensures
        tiles(b, idx, lo, hi, first, end),
{
    assert forall|p: int| first <= p < end implies #[trigger] held(b, idx, lo, hi, p) by {
        assert(held(a, idx, lo, hi, p));
        let j = choose|j: int|
            #![trigger a[j].covers(p)]
            in_group(idx, lo, hi, j) && a[j].is_leaf() && a[j].covers(p);
        assert(b[j] == a[j]);
        assert(b[j].covers(p));
    }
    assert forall|j: int| in_group(idx, lo, hi, j) && b[j].is_leaf() implies first <= b[j].first
        && b[j].end() <= end by {
        assert(b[j] == a[j]);
    }
    assert forall|p: int, j1: int, j2: int|
        in_group(idx, lo, hi, j1) && in_group(idx, lo, hi, j2) && b[j1].is_leaf()
            && b[j2].is_leaf() && b[j1].covers(p) && b[j2].covers(p) implies j1 == j2 by {
        assert(b[j1] == a[j1]);
        assert(b[j2] == a[j2]);
    }
}

/// An interior node `idx` whose children `c`, `c + 1` tile the two halves of
/// its run, with their own descendants in `c + 2 .. l1` and `l1 .. l2`, is
/// tiled by its whole group `c .. l2`.
proof fn lemma_tiles_join(
    nodes: Seq<Node>,
    idx: int,
    c: int,
    l1: int,
    l2: int,
    first: int,
    mid: int,
    end: int,
)
    requires
        idx < c,
        c + 2 <= l1 <= l2 <= nodes.len(),
        !nodes[idx].is_leaf(),
        first <= mid <= end,
        tiles(nodes, c, c + 2, l1, first, mid),
        tiles(nodes, c + 1, l1, l2, mid, end),
    ensures
        tiles(nodes, idx, c, l2, first, end),
{
    assert forall|p: int| first <= p < end implies #[trigger] held(nodes, idx, c, l2, p) by {
        if p < mid {
            assert(held(nodes, c, c + 2, l1, p));
            let j = choose|j: int|
                #![trigger nodes[j].covers(p)]
                in_group(c, c + 2, l1, j) && nodes[j].is_leaf() && nodes[j].covers(p);
            assert(in_group(idx, c, l2, j) && nodes[j].covers(p));
        } else {
            assert(held(nodes, c + 1, l1, l2, p));
            let j = choose|j: int|
                #![trigger nodes[j].covers(p)]
                in_group(c + 1, l1, l2, j) && nodes[j].is_leaf() && nodes[j].covers(p);
            assert(in_group(idx, c, l2, j) && nodes[j].covers(p));
        }
    }
    assert forall|j: int| in_group(idx, c, l2, j) && nodes[j].is_leaf() implies first
        <= nodes[j].first && nodes[j].end() <= end by {
        if in_group(c, c + 2, l1, j) {
        } else {
            assert(in_group(c + 1, l1, l2, j));
        }
    }
    assert forall|p: int, j1: int, j2: int|
        in_group(idx, c, l2, j1) && in_group(idx, c, l2, j2) && nodes[j1].is_leaf()
            && nodes[j2].is_leaf() && nodes[j1].covers(p) && nodes[j2].covers(p) implies j1
        == j2 by {
        let left1 = in_group(c, c + 2, l1, j1);
        let left2 = in_group(c, c + 2, l1, j2);
        assert(left1 || in_group(c + 1, l1, l2, j1));
        assert(left2 || in_group(c + 1, l1, l2, j2));
        if left1 && !left2 {
            assert(nodes[j1].end() <= mid && mid <= nodes[j2].first);
        } else if !left1 && left2 {
            assert(nodes[j2].end() <= mid && mid <= nodes[j1].first);
        }
    }
}

/// Splits the (still childless) node `idx` and, recursively, its children,
/// appending the new nodes to the arena.
fn split(nodes: &mut Vec<Node>, idx: usize)
    requires
        idx < old(nodes).len(),
        old(nodes)[idx as int].is_leaf(),
        forall|i: int| 0 <= i < old(nodes).len() ==> #[trigger] node_ok(old(nodes)@, i),
        unique_parents(old(nodes)@),
    ensures
        unique_parents(final(nodes)@),
        final(nodes).len() >= old(nodes).len(),
        forall|j: int|
            0 <= j < old(nodes).len() && j != idx ==> #[trigger] final(nodes)[j] == old(nodes)[j],
        final(nodes)[idx as int].first == old(nodes)[idx as int].first,
        final(nodes)[idx as int].count == old(nodes)[idx as int].count,
        final(nodes)[idx as int].depth == old(nodes)[idx as int].depth,
        forall|i: int| 0 <= i < final(nodes).len() ==> #[trigger] node_ok(final(nodes)@, i),
        forall|j: int|
            in_group(idx as int, old(nodes).len() as int, final(nodes).len() as int, j)
                ==> #[trigger] leaf_ok(final(nodes)[j]),
        tiles(
            final(nodes)@,
            idx as int,
            old(nodes).len() as int,
            final(nodes).len() as int,
            old(nodes)[idx as int].first as int,
            old(nodes)[idx as int].end(),
        ),
    decreases old(nodes)[idx as int].count,
{
    let node = nodes[idx];
    if node.count <= 1 || node.depth >= MAX_BVH_DEPTH {
        assert forall|p: int| node.first <= p < node.end() implies #[trigger] held(
            nodes@,
            idx as int,
            nodes.len() as int,
            nodes.len() as int,
            p,
        ) by {
            assert(nodes@[idx as int].covers(p));
        }
        return ;
    }
    let ghost start = nodes@;
    assert(node_ok(start, idx as int));
    let half = node.count / 2;
    let c = nodes.len();
    nodes.push(Node { first: node.first, count: half, depth: node.depth + 1, children: None });
    nodes.push(
        Node {
            first: node.first + half,
            count: node.count - half,
            depth: node.depth + 1,
            children: None,
        },
    );
    nodes.set(idx, Node { children: Some(c), ..node });
    assert forall|i: int| 0 <= i < nodes.len() implies #[trigger] node_ok(nodes@, i) by {
        if i < c {
            assert(node_ok(start, i));
            if i != idx {
                assert(nodes@[i] == start[i]);
                if let Some(ci) = nodes@[i].children {
                    let (l, r) = (ci as int, ci + 1);
                    assert(nodes@[l].first == start[l].first && nodes@[l].count == start[l].count
                        && nodes@[l].depth == start[l].depth);
                    assert(nodes@[r].first == start[r].first && nodes@[r].count == start[r].count
                        && nodes@[r].depth == start[r].depth);
                }
            }
        }
    }
    assert forall|j: int, i1: int, i2: int|
        0 <= i1 < nodes.len() && 0 <= i2 < nodes.len() && #[trigger] parent_of(nodes@, j, i1)
            && #[trigger] parent_of(nodes@, j, i2) implies i1 == i2 by {
        if i1 != idx && i1 < c {
            assert(node_ok(start, i1) && nodes@[i1] == start[i1]);
        }
        if i2 != idx && i2 < c {
            assert(node_ok(start, i2) && nodes@[i2] == start[i2]);
        }
        if i1 != idx && i2 != idx {
            assert(parent_of(start, j, i1) && parent_of(start, j, i2));
        }
    }
    let ghost before_left = nodes@;
    split(nodes, c);
    let ghost l1 = nodes.len() as int;
    let ghost after_left = nodes@;
    split(nodes, c + 1);
    proof {
        let l2 = nodes.len() as int;
        lemma_tiles_frame(after_left, nodes@, c as int, c + 2, l1, node.first as int, node.first + half);
        lemma_tiles_join(
            nodes@,
            idx as int,
            c as int,
            l1,
            l2,
            node.first as int,
            node.first + half,
            node.end(),
        );
        assert forall|j: int| 0 <= j < start.len() && j != idx implies #[trigger] nodes@[j]
            == start[j] by {
            assert(before_left[j] == start[j]);
            assert(after_left[j] == before_left[j]);
        }
        assert forall|j: int| in_group(idx as int, c as int, l2, j) implies #[trigger] leaf_ok(
            nodes@[j],
        ) by {
            if in_group(c as int, c + 2, l1, j) {
                assert(after_left[j] == nodes@[j]);
            }
        }
    }
}

/// In a complete layout every primitive lies in exactly one leaf: the
/// leaves' runs partition the primitive array.
pub proof fn lemma_leaves_partition(nodes: Seq<Node>, n: nat, p: int)
    requires
        layout_ok(nodes, n),
        0 <= p < n,
    ensures
        exists|j: int| 0 <= j < nodes.len() && nodes[j].is_leaf() && #[trigger] nodes[j].covers(p),
        forall|j1: int, j2: int|
            0 <= j1 < nodes.len() && 0 <= j2 < nodes.len() && nodes[j1].is_leaf()
                && nodes[j2].is_leaf() && #[trigger] nodes[j1].covers(p)
                && #[trigger] nodes[j2].covers(p) ==> j1 == j2,
{
    assert(held(nodes, 0, 1, nodes.len() as int, p));
    let j = choose|j: int|
        #![trigger nodes[j].covers(p)]
        in_group(0, 1, nodes.len() as int, j) && nodes[j].is_leaf() && nodes[j].covers(p);
    assert(0 <= j < nodes.len() && nodes[j].is_leaf() && nodes[j].covers(p));
    assert forall|j1: int, j2: int|
        0 <= j1 < nodes.len() && 0 <= j2 < nodes.len() && nodes[j1].is_leaf()
            && nodes[j2].is_leaf() && #[trigger] nodes[j1].covers(p)
            && #[trigger] nodes[j2].covers(p) implies j1 == j2 by {
        assert(in_group(0, 1, nodes.len() as int, j1));
        assert(in_group(0, 1, nodes.len() as int, j2));
    }
}

impl BvhLayout {
    #[verifier::type_invariant]
    spec fn inv(self) -> bool {
        &&& layout_ok(self.nodes@, self.primitive_count as nat)
        &&& self.nodes@.len() <= usize::MAX
    }

    /// The nodes, root first.
    pub closed spec fn nodes(self) -> Seq<Node> {
        self.nodes@
    }

    /// The number of primitives the layout is built over.
    pub closed spec fn spec_primitive_count(self) -> nat {
        self.primitive_count as nat
    }

    /// Builds the median-split layout over `primitive_count` primitives.
    pub fn new(primitive_count: usize) -> (r: BvhLayout)
        ensures
            r.spec_primitive_count() == primitive_count,
            layout_ok(r.nodes(), primitive_count as nat),
    {
        let mut nodes: Vec<Node> = Vec::new();
        nodes.push(Node { first: 0, count: primitive_count, depth: 0, children: None });
        split(&mut nodes, 0);
        assert(nodes@.len() == nodes.len());
        BvhLayout { nodes, primitive_count }
    }

    /// The number of primitives the layout is built over.
    pub fn primitive_count(&self) -> (r: usize)
        ensures
            r == self.spec_primitive_count(),
    {
        self.primitive_count
    }

    /// The depth of the deepest node: 0 for a lone root leaf.
    pub fn max_depth(&self) -> (r: usize)
        ensures
            r <= MAX_BVH_DEPTH,
            forall|i: int| 0 <= i < self.nodes().len() ==> self.nodes()[i].depth <= r,
            exists|i: int| 0 <= i < self.nodes().len() && self.nodes()[i].depth == r,
    {
        proof {
            use_type_invariant(self);
        }
        let mut deepest: usize = 0;
        let mut i: usize = 0;
        while i < self.nodes.len()
            invariant
                layout_ok(self.nodes@, self.primitive_count as nat),
                i <= self.nodes.len(),
                deepest <= MAX_BVH_DEPTH,
                forall|k: int| 0 <= k < i ==> self.nodes@[k].depth <= deepest,
                exists|k: int| 0 <= k < self.nodes@.len() && self.nodes@[k].depth == deepest,
            decreases self.nodes.len() - i,
        {
            assert(node_ok(self.nodes@, i as int));
            if self.nodes[i].depth > deepest {
                deepest = self.nodes[i].depth;
            }
            i += 1;
        }
        deepest
    }

    /// The number of nodes.
    pub fn len(&self) -> (r: usize)
        ensures
            r == self.nodes().len(),
    {
        self.nodes.len()
    }

    /// Node `i`; the root is node 0.
    pub fn node(&self, i: usize) -> (r: Node)
        requires
            i < self.nodes().len(),
        ensures
            r == self.nodes()[i as int],
    {
        self.nodes[i]
    }
}

/// What a walk asks of its caller next.
#[derive(Clone, Copy, Debug, PartialEq, Eq)]
pub enum Visit {
    /// Test primitives `first .. first + count` against the ray.
    Leaf { first: usize, count: usize },
    /// Measure the boxes of nodes `left` and `right`, then call `descend`.
    Interior { left: usize, right: usize },
}

/// The stack after the children of a node are offered: the farther one is
/// pushed first, the nearer last (so that it is taken first), each only when
/// it is within reach.
pub open spec fn offered(
    stack: Seq<usize>,
    near: usize,
    far: usize,
    near_in_reach: bool,
    far_in_reach: bool,
) -> Seq<usize> {
    let s = if far_in_reach {
        stack.push(far)
    } else {
        stack
    };
    if near_in_reach {
        s.push(near)
    } else {
        s
    }
}

/// The pruned set after the children of a node are offered: each child out
/// of reach joins it.
pub open spec fn dropped(
    pruned: Set<int>,
    near: usize,
    far: usize,
    near_in_reach: bool,
    far_in_reach: bool,
) -> Set<int> {
    let s = if far_in_reach {
        pruned
    } else {
        pruned.insert(far as int)
    };
    if near_in_reach {
        s
    } else {
        s.insert(near as int)
    }
}

/// Primitive `p` lies in a leaf already handed out, or in a node pruned
/// from the walk.
pub open spec fn settled(nodes: Seq<Node>, visited: Set<int>, pruned: Set<int>, p: int) -> bool {
    exists|j: int|
        #![trigger nodes[j].covers(p)]
        0 <= j < nodes.len() && nodes[j].covers(p) && (visited.contains(j) && nodes[j].is_leaf()
            || pruned.contains(j))
}

/// Primitive `p` is settled, or lies in the pending node or in a stacked one.
pub open spec fn accounted(
    nodes: Seq<Node>,
    stack: [usize; STACK_CAPACITY],
    len: usize,
    pending: Option<usize>,
    visited: Set<int>,
    pruned: Set<int>,
    p: int,
) -> bool {
    ||| settled(nodes, visited, pruned, p)
    ||| (pending matches Some(q) && nodes[q as int].covers(p))
    ||| exists|k: int| 0 <= k < len && #[trigger] nodes[stack[k] as int].covers(p)
}

/// The state of a walk over `nodes`, a layout of `n` primitives. Each
/// stacked node lies at least as deep as its slot, so a node of depth
/// `MAX_BVH_DEPTH` can be pushed only into the last slot; the node whose
/// children await `descend` lay in the slot now at the top. Stacked nodes
/// are distinct and not yet visited, and every parent of a stacked or
/// visited node has been visited and has had its children offered already.
/// Every primitive is accounted for.
pub open spec fn walk_ok(
    nodes: Seq<Node>,
    n: nat,
    stack: [usize; STACK_CAPACITY],
    len: usize,
    pending: Option<usize>,
    visited: Set<int>,
    pruned: Set<int>,
) -> bool {
    &&& len <= STACK_CAPACITY
    &&& forall|k: int| 0 <= k < len ==> !visited.contains(#[trigger] stack[k] as int)
    &&& forall|k1: int, k2: int|
        0 <= k1 < len && 0 <= k2 < len && k1 != k2 ==> #[trigger] stack[k1] != #[trigger] stack[k2]
    &&& forall|k: int, p: int|
        0 <= k < len && 0 <= p < nodes.len() && #[trigger] parent_of(nodes, stack[k] as int, p)
            ==> visited.contains(p) && pending != Some(p as usize)
    &&& forall|j: int, p: int|
        visited.contains(j) && 0 <= p < nodes.len() && #[trigger] parent_of(nodes, j, p)
            ==> visited.contains(p) && pending != Some(p as usize)
    &&& forall|j: int| #[trigger] visited.contains(j) ==> 0 <= j < nodes.len()
    &&& forall|j: int| #[trigger] pruned.contains(j) ==> 0 <= j < nodes.len()
    &&& forall|k: int|
        #![trigger stack[k]]
        0 <= k < len ==> (stack[k] as int) < nodes.len() && nodes[stack[k] as int].depth >= k
    &&& match pending {
        Some(p) => (p as int) < nodes.len() && !nodes[p as int].is_leaf() && nodes[p as int].depth
            >= len && visited.contains(p as int),
        None => true,
    }
    &&& forall|p: int|
        0 <= p < n ==> #[trigger] accounted(nodes, stack, len, pending, visited, pruned, p)
}

/// An iterative nearest-child-first walk over a layout, with a stack of
/// `STACK_CAPACITY` slots that provably never overflows. No node is handed
/// out twice, and when the walk ends every primitive lies in a leaf handed
/// out or in a node pruned by the caller.
pub struct Traversal<'a> {
    layout: &'a BvhLayout,
    stack: [usize; STACK_CAPACITY],
    len: usize,
    pending: Option<usize>,
    visited: Ghost<Set<int>>,
    pruned: Ghost<Set<int>>,
}

impl<'a> Traversal<'a> {
    #[verifier::type_invariant]
    spec fn inv(self) -> bool {
        walk_ok(
            self.layout.nodes(),
            self.layout.spec_primitive_count(),
            self.stack,
            self.len,
            self.pending,
            self.visited@,
            self.pruned@,
        )
    }

    /// The nodes of the layout walked.
    pub closed spec fn nodes(self) -> Seq<Node> {
        self.layout.nodes()
    }

    /// The number of primitives of the layout walked.
    pub closed spec fn primitive_count(self) -> nat {
        self.layout.spec_primitive_count()
    }

    /// The stacked node indices, bottom first.
    pub closed spec fn stack(self) -> Seq<usize> {
        self.stack@.subrange(0, self.len as int)
    }

    /// The nodes handed out so far.
    pub closed spec fn visited(self) -> Set<int> {
        self.visited@
    }

    /// The nodes dropped without being handed out: children out of reach,
    /// and pending nodes whose children were never offered.
    pub closed spec fn pruned(self) -> Set<int> {
        self.pruned@
    }

    /// The interior node whose children await `descend`.
    pub closed spec fn pending(self) -> Option<usize> {
        self.pending
    }

    /// A walk that starts at the root.
    pub fn new(layout: &'a BvhLayout) -> (r: Traversal<'a>)
        ensures
            r.nodes() == layout.nodes(),
            r.primitive_count() == layout.spec_primitive_count(),
            r.stack() == seq![0usize],
            r.pending() is None,
            r.visited() == Set::<int>::empty(),
            r.pruned() == Set::<int>::empty(),
    {
        proof {
            use_type_invariant(layout);
        }
        let stack = [0usize; STACK_CAPACITY];
        proof {
            let nodes = layout.nodes();
            assert forall|p: int| 0 <= p < nodes.len() implies !parent_of(nodes, 0, p) by {
                assert(node_ok(nodes, p));
            }
            assert forall|p: int| 0 <= p < layout.spec_primitive_count() implies #[trigger] accounted(
                nodes,
                stack,
                1,
                None,
                Set::empty(),
                Set::empty(),
                p,
            ) by {
                assert(nodes[stack[0] as int].covers(p));
            }
        }
        let r = Traversal {
            layout,
            stack,
            len: 1,
            pending: None,
            visited: Ghost(Set::empty()),
            pruned: Ghost(Set::empty()),
        };
        assert(r.stack() =~= seq![0usize]);
        r
    }

    /// Takes the top node off the stack and says what to do with it: `None`
    /// once the stack is empty. A node left pending by the previous call is
    /// pruned.
    pub fn next(&mut self) -> (r: Option<Visit>)
        ensures
            final(self).nodes() == old(self).nodes(),
            final(self).primitive_count() == old(self).primitive_count(),
            final(self).pruned() == match old(self).pending() {
                Some(q) => old(self).pruned().insert(q as int),
                None => old(self).pruned(),
            },
            old(self).stack().len() == 0 ==> {
                &&& r is None
                &&& final(self).stack() == old(self).stack()
                &&& final(self).pending() is None
                &&& final(self).visited() == old(self).visited()
                &&& forall|p: int|
                    0 <= p < final(self).primitive_count() ==> #[trigger] settled(
                        final(self).nodes(),
                        final(self).visited(),
                        final(self).pruned(),
                        p,
                    )
            },
            old(self).stack().len() > 0 ==> {
                let top = old(self).stack().last();
                let n = old(self).nodes()[top as int];
                &&& final(self).stack() == old(self).stack().drop_last()
                &&& !old(self).visited().contains(top as int)
                &&& final(self).visited() == old(self).visited().insert(top as int)
                &&& match n.children {
                    None => r == Some(Visit::Leaf { first: n.first, count: n.count })
                        && final(self).pending() is None,
                    Some(c) => r == Some(Visit::Interior { left: c, right: (c + 1) as usize })
                        && final(self).pending() == Some(top),
                }
            },
    {
        proof {
            use_type_invariant(&*self);
            use_type_invariant(self.layout);
        }
        let ghost nodes = self.layout.nodes();
        let ghost count = self.layout.spec_primitive_count();
        let ghost pruned = match self.pending {
            Some(q) => self.pruned@.insert(q as int),
            None => self.pruned@,
        };
        if self.len == 0 {
            proof {
                assert forall|p: int| 0 <= p < count implies #[trigger] settled(
                    nodes,
                    self.visited@,
                    pruned,
                    p,
                ) by {
                    assert(accounted(
                        nodes,
                        self.stack,
                        self.len,
                        self.pending,
                        self.visited@,
                        self.pruned@,
                        p,
                    ));
                    if settled(nodes, self.visited@, self.pruned@, p) {
                        let j = choose|j: int|
                            #![trigger nodes[j].covers(p)]
                            0 <= j < nodes.len() && nodes[j].covers(p) && (self.visited@.contains(j)
                                && nodes[j].is_leaf() || self.pruned@.contains(j));
                        assert(nodes[j].covers(p));
                    } else {
                        let q = self.pending->0;
                        assert(nodes[q as int].covers(p));
                    }
                }
                assert forall|p: int| 0 <= p < count implies #[trigger] accounted(
                    nodes,
                    self.stack,
                    0,
                    None,
                    self.visited@,
                    pruned,
                    p,
                ) by {
                    assert(settled(nodes, self.visited@, pruned, p));
                }
            }
            *self = Traversal {
                layout: self.layout,
                stack: self.stack,
                len: 0,
                pending: None,
                visited: self.visited,
                pruned: Ghost(pruned),
            };
            assert(self.stack() =~= old(self).stack());
            return None;
        }
        let len = self.len - 1;
        let top = self.stack[len];
        let n = self.layout.node(top);
        let ghost visited = self.visited@.insert(top as int);
        let pending = match n.children {
            None => None,
            Some(_) => Some(top),
        };
        proof {
            assert(node_ok(nodes, top as int));
            assert forall|k: int| 0 <= k < len implies #[trigger] self.stack[k] != top by {
                assert(self.stack[len as int] == top);
            }
            assert forall|q: int| 0 <= q < nodes.len() && #[trigger] parent_of(nodes, top as int, q)
                implies q != top by {
                assert(node_ok(nodes, q));
            }
            assert forall|p: int| 0 <= p < count implies #[trigger] accounted(
                nodes,
                self.stack,
                len,
                pending,
                visited,
                pruned,
                p,
            ) by {
                assert(accounted(
                    nodes,
                    self.stack,
                    self.len,
                    self.pending,
                    self.visited@,
                    self.pruned@,
                    p,
                ));
                if settled(nodes, self.visited@, self.pruned@, p) {
                    let j = choose|j: int|
                        #![trigger nodes[j].covers(p)]
                        0 <= j < nodes.len() && nodes[j].covers(p) && (self.visited@.contains(j)
                            && nodes[j].is_leaf() || self.pruned@.contains(j));
                    assert(nodes[j].covers(p));
                } else if self.pending is Some && nodes[self.pending->0 as int].covers(p) {
                    assert(pruned.contains(self.pending->0 as int));
                } else {
                    let k = choose|k: int|
                        0 <= k < self.len && #[trigger] nodes[self.stack[k] as int].covers(p);
                    if k < len {
                        assert(nodes[self.stack[k] as int].covers(p));
                    } else {
                        assert(self.stack[k] == top);
                        assert(nodes[top as int].covers(p));
                    }
                }
            }
        }
        *self = Traversal {
            layout: self.layout,
            stack: self.stack,
            len,
            pending,
            visited: Ghost(visited),
            pruned: Ghost(pruned),
        };
        assert(self.stack() =~= old(self).stack().drop_last());
        match n.children {
            None => Some(Visit::Leaf { first: n.first, count: n.count }),
            Some(c) => Some(Visit::Interior { left: c, right: c + 1 }),
        }
    }

    /// Offers the children of the pending node: `left_nearer` says which of
    /// the two boxes the ray meets first, the other two flags whether each
    /// box is met before the nearest hit found so far. A child out of reach
    /// is pruned. Does nothing when no node is pending.
    pub fn descend(&mut self, left_nearer: bool, left_in_reach: bool, right_in_reach: bool)
        ensures
            final(self).nodes() == old(self).nodes(),
            final(self).primitive_count() == old(self).primitive_count(),
            final(self).visited() == old(self).visited(),
            final(self).pending() is None,
            old(self).pending() is None ==> final(self).stack() == old(self).stack()
                && final(self).pruned() == old(self).pruned(),
            old(self).pending() is Some ==> {
                let c = old(self).nodes()[old(self).pending()->0 as int].children->0;
                let right = (c + 1) as usize;
                if left_nearer {
                    &&& final(self).stack() == offered(
                        old(self).stack(),
                        c,
                        right,
                        left_in_reach,
                        right_in_reach,
                    )
                    &&& final(self).pruned() == dropped(
                        old(self).pruned(),
                        c,
                        right,
                        left_in_reach,
                        right_in_reach,
                    )
                } else {
                    &&& final(self).stack() == offered(
                        old(self).stack(),
                        right,
                        c,
                        right_in_reach,
                        left_in_reach,
                    )
                    &&& final(self).pruned() == dropped(
                        old(self).pruned(),
                        right,
                        c,
                        right_in_reach,
                        left_in_reach,
                    )
                }
            },
    {
        proof {
            use_type_invariant(&*self);
            use_type_invariant(self.layout);
        }
        let ghost nodes = self.layout.nodes();
        let ghost count = self.layout.spec_primitive_count();
        let p = match self.pending {
            None => {
                return ;
            },
            Some(p) => p,
        };
        let n = self.layout.node(p);
        assert(node_ok(nodes, p as int));
        let c = match n.children {
            Some(c) => c,
            None => {
                return ;
            },
        };
        let (near, far, near_in_reach, far_in_reach) = if left_nearer {
            (c, c + 1, left_in_reach, right_in_reach)
        } else {
            (c + 1, c, right_in_reach, left_in_reach)
        };
        let ghost before = self.stack();
        let ghost pruned = dropped(self.pruned@, near, far, near_in_reach, far_in_reach);
        assert(n.depth >= self.len && n.depth < MAX_BVH_DEPTH);
        proof {
            assert(parent_of(nodes, c as int, p as int));
            assert(parent_of(nodes, c + 1, p as int));
            assert forall|k: int| 0 <= k < self.len implies #[trigger] self.stack[k] != c
                && self.stack[k] != c + 1 by {
                if self.stack[k] == c {
                    assert(parent_of(nodes, self.stack[k] as int, p as int));
                }
                if self.stack[k] == c + 1 {
                    assert(parent_of(nodes, self.stack[k] as int, p as int));
                }
            }
            assert forall|q: int| 0 <= q < nodes.len() && (#[trigger] parent_of(nodes, c as int, q)
                || parent_of(nodes, c + 1, q)) implies q == p by {
                assert(parent_of(nodes, c as int, q) ==> parent_of(nodes, c as int, p as int));
            }
        }
        let mut stack = self.stack;
        let mut len = self.len;
        if far_in_reach {
            stack[len] = far;
            len = len + 1;
        }
        let ghost mid_len = len;
        if near_in_reach {
            stack[len] = near;
            len = len + 1;
        }
        proof {
            assert forall|k: int| 0 <= k < self.len implies stack[k] == self.stack[k] by {}
            assert forall|q: int| 0 <= q < count implies #[trigger] accounted(
                nodes,
                stack,
                len,
                None,
                self.visited@,
                pruned,
                q,
            ) by {
                assert(accounted(
                    nodes,
                    self.stack,
                    self.len,
                    self.pending,
                    self.visited@,
                    self.pruned@,
                    q,
                ));
                if settled(nodes, self.visited@, self.pruned@, q) {
                    let j = choose|j: int|
                        #![trigger nodes[j].covers(q)]
                        0 <= j < nodes.len() && nodes[j].covers(q) && (self.visited@.contains(j)
                            && nodes[j].is_leaf() || self.pruned@.contains(j));
                    assert(nodes[j].covers(q));
                } else if nodes[p as int].covers(q) {
                    let child = if nodes[near as int].covers(q) {
                        near
                    } else {
                        far
                    };
                    assert(nodes[child as int].covers(q));
                    if child == far {
                        if far_in_reach {
                            assert(stack[self.len as int] == far);
                            assert(nodes[stack[self.len as int] as int].covers(q));
                        } else {
                            assert(pruned.contains(far as int));
                        }
                    } else {
                        if near_in_reach {
                            assert(stack[mid_len as int] == near);
                            assert(nodes[stack[mid_len as int] as int].covers(q));
                        } else {
                            assert(pruned.contains(near as int));
                        }
                    }
                } else {
                    let k = choose|k: int|
                        0 <= k < self.len && #[trigger] nodes[self.stack[k] as int].covers(q);
                    assert(stack[k] == self.stack[k]);
                    assert(nodes[stack[k] as int].covers(q));
                }
            }
        }
        *self = Traversal {
            layout: self.layout,
            stack,
            len,
            pending: None,
            visited: self.visited,
            pruned: Ghost(pruned),
        };
        assert(self.stack() =~= offered(before, near, far, near_in_reach, far_in_reach));
    }
}

/// A walk that ran to its end without pruning anything handed out, for each
/// primitive, exactly one leaf that holds it: it tested every primitive, and
/// none twice.
pub proof fn lemma_unpruned_walk_tests_each_primitive_once(
    nodes: Seq<Node>,
    n: nat,
    visited: Set<int>,
    p: int,
)
    requires
        layout_ok(nodes, n),
        0 <= p < n,
        settled(nodes, visited, Set::empty(), p),
    ensures
        exists|j: int|
            0 <= j < nodes.len() && visited.contains(j) && nodes[j].is_leaf()
                && #[trigger] nodes[j].covers(p),
        forall|j1: int, j2: int|
            0 <= j1 < nodes.len() && 0 <= j2 < nodes.len() && nodes[j1].is_leaf()
                && nodes[j2].is_leaf() && #[trigger] nodes[j1].covers(p)
                && #[trigger] nodes[j2].covers(p) ==> j1 == j2,
{
    let j = choose|j: int|
        #![trigger nodes[j].covers(p)]
        0 <= j < nodes.len() && nodes[j].covers(p) && (visited.contains(j) && nodes[j].is_leaf()
            || Set::<int>::empty().contains(j));
    assert(nodes[j].covers(p));
    lemma_leaves_partition(nodes, n, p);
}

} // verus!
