use vstd::prelude::*;

use crate::scalar::Scalar;
use crate::value::{operations_of, Graph, Value, ValueOperation};

verus! {

/// One box of a drawing: a node of the expression tree, where it stands in
/// the breadth-first order (`index`), its depth, and the index of the box it
/// hangs from.
#[derive(Clone, Copy, Debug, PartialEq, Eq, Structural)]
pub struct NodeDescription {
    pub node: Value,
    pub depth: usize,
    pub index: usize,
    pub parent: Option<usize>,
}

/// The number of boxes of the tree that unfolds from `v`: the node, and the
/// trees of its operands (a node read twice is drawn twice).
pub open spec fn tree_size(ops: Seq<ValueOperation>, v: nat) -> nat
    decreases v,
{
    if v >= ops.len() {
        1
    } else {
        let c = ops[v as int].operands();
        1 + (if c.len() > 0 && c[0].id < v {
            tree_size(ops, c[0].id as nat)
        } else {
            0
        }) + (if c.len() > 1 && c[1].id < v {
            tree_size(ops, c[1].id as nat)
        } else {
            0
        })
    }
}

/// The boxes that hang from `parents`, in order: for each parent, one per
/// operand of its node, paired with the parent's index.
pub open spec fn child_entries(ops: Seq<ValueOperation>, parents: Seq<NodeDescription>) -> Seq<(Value, usize)>
    decreases parents.len(),
{
    if parents.len() == 0 {
        seq![]
    } else {
        let p = (parents.len() - 1) as usize;
        child_entries(ops, parents.drop_last()) + ops[parents.last().node.id as int].operands().map_values(
            |c: Value| (c, p),
        )
    }
}

/// A box as the pair of its node and the index it hangs from.
pub open spec fn entry_of(d: NodeDescription) -> (Value, usize) {
    (d.node, d.parent.unwrap_or(0))
}

/// `nodes` is the breadth-first unfolding of the tree from `root`: the root
/// first, at depth 0; then, for each box in order, one box per operand of
/// its node, one level deeper.
pub open spec fn is_breadth_first(ops: Seq<ValueOperation>, root: Value, nodes: Seq<NodeDescription>) -> bool {
    &&& nodes.len() >= 1
    &&& nodes[0] == NodeDescription { node: root, depth: 0, index: 0, parent: None }
    &&& forall|i: int| 0 <= i < nodes.len() ==> (#[trigger] nodes[i]).index == i
    &&& nodes.subrange(1, nodes.len() as int).map_values(|d: NodeDescription| entry_of(d)) == child_entries(ops, nodes)
    &&& forall|i: int|
        1 <= i < nodes.len() ==> {
            &&& (#[trigger] nodes[i]).parent is Some
            &&& nodes[i].parent.unwrap() < i
            &&& nodes[i].depth == nodes[nodes[i].parent.unwrap() as int].depth + 1
        }
}

/// The boxes still to be unfolded count `tree_size - 1` more boxes each.
pub open spec fn pending(ops: Seq<ValueOperation>, s: Seq<NodeDescription>) -> int
    decreases s.len(),
{
    if s.len() == 0 {
        0
    } else {
        pending(ops, s.drop_last()) + tree_size(ops, s.last().node.id as nat) - 1
    }
}

proof fn lemma_pending_front(ops: Seq<ValueOperation>, s: Seq<NodeDescription>)
    requires
        s.len() > 0,
    ensures
        pending(ops, s) == tree_size(ops, s[0].node.id as nat) - 1 + pending(ops, s.drop_first()),
    decreases s.len(),
{
    if s.len() > 1 {
        lemma_pending_front(ops, s.drop_last());
        assert(s.drop_last().drop_first() =~= s.drop_first().drop_last());
    } else {
        assert(s.drop_first() =~= Seq::<NodeDescription>::empty());
        assert(s.drop_last() =~= Seq::<NodeDescription>::empty());
    }
}

/// What the breadth-first walk knows after unfolding the first `head` boxes.
pub open spec fn walk_state(
    ops: Seq<ValueOperation>,
    len: nat,
    root: Value,
    total: int,
    nodes: Seq<NodeDescription>,
    head: int,
) -> bool {
    &&& 0 <= head <= nodes.len()
    &&& nodes.len() >= 1
    &&& nodes[0] == (NodeDescription { node: root, depth: 0, index: 0, parent: None })
    &&& forall|i: int| 0 <= i < nodes.len() ==> (#[trigger] nodes[i]).index == i
    &&& forall|i: int| 0 <= i < nodes.len() ==> (#[trigger] nodes[i]).node.id < len
    &&& forall|i: int| 0 <= i < nodes.len() ==> (#[trigger] nodes[i]).depth <= i
    &&& nodes.subrange(1, nodes.len() as int).map_values(|d: NodeDescription| entry_of(d)) == child_entries(
        ops,
        nodes.subrange(0, head),
    )
    &&& forall|i: int|
        1 <= i < nodes.len() ==> {
            &&& (#[trigger] nodes[i]).parent is Some
            &&& nodes[i].parent.unwrap() < head
            &&& nodes[i].parent.unwrap() < i
            &&& nodes[i].depth == nodes[nodes[i].parent.unwrap() as int].depth + 1
        }
    &&& nodes.len() + pending(ops, nodes.subrange(head, nodes.len() as int)) == total
}

/// Unfolding box `head` appends to the list of hanging boxes those of `head`.
proof fn lemma_step_entries(
    ops: Seq<ValueOperation>,
    before: Seq<NodeDescription>,
    nodes: Seq<NodeDescription>,
    head: int,
    children: Seq<Value>,
)
    requires
        0 <= head,
        before.len() >= 1,
        before.subrange(1, before.len() as int).map_values(|d: NodeDescription| entry_of(d)) == child_entries(
            ops,
            before.subrange(0, head),
        ),
        head < before.len(),
        children == ops[before[head].node.id as int].operands(),
        children.len() <= 2,
        nodes.len() == before.len() + children.len(),
        forall|j: int| 0 <= j < before.len() ==> #[trigger] nodes[j] == before[j],
        forall|j: int|
            before.len() <= j < nodes.len() ==> {
                &&& (#[trigger] nodes[j]).node == children[j - before.len()]
                &&& nodes[j].depth == before[head].depth + 1
                &&& nodes[j].index == j
                &&& nodes[j].parent == Some(head as usize)
            },
    ensures
        nodes.subrange(1, nodes.len() as int).map_values(|d: NodeDescription| entry_of(d)) == child_entries(
            ops,
            nodes.subrange(0, head + 1),
        ),
{
    let n0 = before.len() as int;
    let current = before[head];
    let p = head as usize;
    let added = children.map_values(|c: Value| (c, p));
    assert(nodes.subrange(0, head + 1).drop_last() =~= nodes.subrange(0, head));
    assert(nodes.subrange(0, head) =~= before.subrange(0, head));
    assert(nodes.subrange(0, head + 1).last() == current);
    assert(child_entries(ops, nodes.subrange(0, head + 1)) == child_entries(ops, nodes.subrange(0, head)) + added);
    let a = nodes.subrange(1, nodes.len() as int).map_values(|d: NodeDescription| entry_of(d));
    let b = before.subrange(1, n0).map_values(|d: NodeDescription| entry_of(d)) + added;
    assert(a.len() == b.len());
    assert forall|x: int| 0 <= x < a.len() implies a[x] == b[x] by {
        if x + 1 < n0 {
            assert(nodes[x + 1] == before[x + 1]);
        } else {
            assert(nodes[x + 1].node == children[x + 1 - n0]);
        }
    }
    assert(a =~= b);
}

proof fn lemma_pending_nonnegative(ops: Seq<ValueOperation>, s: Seq<NodeDescription>)
    ensures
        pending(ops, s) >= 0,
    decreases s.len(),
{
    if s.len() > 0 {
        lemma_pending_nonnegative(ops, s.drop_last());
    }
}

/// Unfolding box `head` keeps the count of boxes still to come.
proof fn lemma_step_pending(
    ops: Seq<ValueOperation>,
    total: int,
    before: Seq<NodeDescription>,
    nodes: Seq<NodeDescription>,
    head: int,
    children: Seq<Value>,
)
    requires
        0 <= head,
        before.len() + pending(ops, before.subrange(head, before.len() as int)) == total,
        forall|j: int| 0 <= j < children.len() ==> (#[trigger] children[j]).id < before[head].node.id,
        before[head].node.id < ops.len(),
        head < before.len(),
        children == ops[before[head].node.id as int].operands(),
        children.len() <= 2,
        nodes.len() == before.len() + children.len(),
        forall|j: int| 0 <= j < before.len() ==> #[trigger] nodes[j] == before[j],
        forall|j: int|
            before.len() <= j < nodes.len() ==> {
                &&& (#[trigger] nodes[j]).node == children[j - before.len()]
                &&& nodes[j].depth == before[head].depth + 1
                &&& nodes[j].index == j
                &&& nodes[j].parent == Some(head as usize)
            },
    ensures
        nodes.len() + pending(ops, nodes.subrange(head + 1, nodes.len() as int)) == total,
{
    let n0 = before.len() as int;
    let current = before[head];
    let old_queue = before.subrange(head, n0);
    let new_queue = nodes.subrange(head + 1, nodes.len() as int);
    lemma_pending_front(ops, old_queue);
    assert(old_queue.drop_first() =~= before.subrange(head + 1, n0));
    assert(old_queue[0] == current);
    let rest = before.subrange(head + 1, n0);
    let c = ops[current.node.id as int].operands();
    assert(c == children);
    if children.len() == 0 {
        assert(tree_size(ops, current.node.id as nat) == 1);
        assert(new_queue =~= rest);
    } else if children.len() == 1 {
        assert(children[0].id < current.node.id);
        assert(tree_size(ops, current.node.id as nat) == 1 + tree_size(ops, children[0].id as nat));
        assert(new_queue.drop_last() =~= rest);
        assert(new_queue.last() == nodes[n0]);
        assert(pending(ops, new_queue) == pending(ops, rest) + tree_size(ops, children[0].id as nat) - 1);
    } else {
        assert(children[0].id < current.node.id);
        assert(children[1].id < current.node.id);
        assert(tree_size(ops, current.node.id as nat) == 1 + tree_size(ops, children[0].id as nat) + tree_size(
            ops,
            children[1].id as nat,
        ));
        assert(new_queue.drop_last().drop_last() =~= rest);
        assert(new_queue.drop_last().last() == nodes[n0]);
        assert(new_queue.last() == nodes[n0 + 1]);
        assert(pending(ops, new_queue.drop_last()) == pending(ops, rest) + tree_size(ops, children[0].id as nat) - 1);
        assert(pending(ops, new_queue) == pending(ops, new_queue.drop_last()) + tree_size(ops, children[1].id as nat) - 1);
    }
}

/// Unfolding box `head` keeps what is known of each box.
proof fn lemma_step_fields(
    ops: Seq<ValueOperation>,
    len: nat,
    root: Value,
    before: Seq<NodeDescription>,
    nodes: Seq<NodeDescription>,
    head: int,
    children: Seq<Value>,
)
    requires
        0 <= head,
        before.len() >= 1,
        before[0] == (NodeDescription { node: root, depth: 0, index: 0, parent: None }),
        forall|i: int| 0 <= i < before.len() ==> (#[trigger] before[i]).index == i,
        forall|i: int| 0 <= i < before.len() ==> (#[trigger] before[i]).node.id < len,
        forall|i: int| 0 <= i < before.len() ==> (#[trigger] before[i]).depth <= i,
        forall|j: int| 0 <= j < children.len() ==> (#[trigger] children[j]).id < len,
        forall|j: int|
            before.len() <= j < nodes.len() ==> {
                &&& (#[trigger] nodes[j]).node == children[j - before.len()]
                &&& nodes[j].depth == before[head].depth + 1
                &&& nodes[j].index == j
                &&& nodes[j].parent == Some(head as usize)
            },
        head < before.len(),
        nodes.len() == before.len() + children.len(),
        forall|j: int| 0 <= j < before.len() ==> #[trigger] nodes[j] == before[j],
    ensures
        nodes.len() >= 1,
        nodes[0] == (NodeDescription { node: root, depth: 0, index: 0, parent: None }),
        forall|i: int| 0 <= i < nodes.len() ==> (#[trigger] nodes[i]).index == i,
        forall|i: int| 0 <= i < nodes.len() ==> (#[trigger] nodes[i]).node.id < len,
        forall|i: int| 0 <= i < nodes.len() ==> (#[trigger] nodes[i]).depth <= i,
{
    let n0 = before.len() as int;
    assert(nodes[0] == before[0]);
    assert forall|i: int| 0 <= i < nodes.len() implies (#[trigger] nodes[i]).depth <= i by {
        if i < n0 {
            assert(nodes[i] == before[i]);
        } else {
            assert(before[head].depth <= head);
        }
    }
    assert forall|i: int| 0 <= i < nodes.len() implies (#[trigger] nodes[i]).index == i by {
        if i < n0 {
            assert(nodes[i] == before[i]);
        }
    }
    assert forall|i: int| 0 <= i < nodes.len() implies (#[trigger] nodes[i]).node.id < len by {
        if i < n0 {
            assert(nodes[i] == before[i]);
        } else {
            assert(nodes[i].node == children[i - n0]);
        }
    }
}

/// Unfolding box `head` keeps what is known of the boxes' parents.
proof fn lemma_step_parents(
    before: Seq<NodeDescription>,
    nodes: Seq<NodeDescription>,
    head: int,
    children: Seq<Value>,
)
    requires
        0 <= head < before.len(),
        forall|i: int|
            1 <= i < before.len() ==> {
                &&& (#[trigger] before[i]).parent is Some
                &&& before[i].parent.unwrap() < head
                &&& before[i].parent.unwrap() < i
                &&& before[i].depth == before[before[i].parent.unwrap() as int].depth + 1
            },
        nodes.len() == before.len() + children.len(),
        forall|j: int| 0 <= j < before.len() ==> #[trigger] nodes[j] == before[j],
        forall|j: int|
            before.len() <= j < nodes.len() ==> {
                &&& (#[trigger] nodes[j]).node == children[j - before.len()]
                &&& nodes[j].depth == before[head].depth + 1
                &&& nodes[j].index == j
                &&& nodes[j].parent == Some(head as usize)
            },
    ensures
        forall|i: int|
            1 <= i < nodes.len() ==> {
                &&& (#[trigger] nodes[i]).parent is Some
                &&& nodes[i].parent.unwrap() < head + 1
                &&& nodes[i].parent.unwrap() < i
                &&& nodes[i].depth == nodes[nodes[i].parent.unwrap() as int].depth + 1
            },
{
    let n0 = before.len() as int;
    assert(nodes[head] == before[head]);
    assert forall|i: int| 1 <= i < nodes.len() implies {
        &&& (#[trigger] nodes[i]).parent is Some
        &&& nodes[i].parent.unwrap() < head + 1
        &&& nodes[i].parent.unwrap() < i
        &&& nodes[i].depth == nodes[nodes[i].parent.unwrap() as int].depth + 1
    } by {
        if i < n0 {
            assert(nodes[i] == before[i]);
            assert(nodes[before[i].parent.unwrap() as int] == before[before[i].parent.unwrap() as int]);
        }
    }
}

/// The boxes of the tree that unfolds from `root`, in breadth-first order.
pub fn breadth_first<S: Scalar>(graph: &Graph<S>, root: Value) -> (nodes: Vec<NodeDescription>)
    requires
        graph.wf(),
        root.id < graph@.len(),
    ensures
        is_breadth_first(operations_of(graph@), root, nodes@),
        nodes@.len() == tree_size(operations_of(graph@), root.id as nat),
        forall|i: int| 0 <= i < nodes@.len() ==> (#[trigger] nodes@[i]).node.id < graph@.len(),
{
    let ghost ops = operations_of(graph@);
    let ghost total = tree_size(ops, root.id as nat) as int;
    let mut nodes: Vec<NodeDescription> = Vec::new();
    nodes.push(NodeDescription { node: root, depth: 0, index: 0, parent: None });
    let mut head: usize = 0;
    proof {
        assert(nodes@.subrange(1, 1).map_values(|d: NodeDescription| entry_of(d)) =~= child_entries(
            ops,
            nodes@.subrange(0, 0),
        ));
        assert(nodes@.subrange(0, 1).drop_last() =~= Seq::<NodeDescription>::empty());
        assert(nodes@.subrange(0, 1).last() == nodes@[0]);
        assert(nodes@.subrange(0, 1) =~= nodes@);
        assert(pending(ops, Seq::<NodeDescription>::empty()) == 0);
        assert(nodes@.drop_last() =~= Seq::<NodeDescription>::empty());
        assert(pending(ops, nodes@) == tree_size(ops, root.id as nat) - 1);
    }
    while head < nodes.len()
        invariant
            ops == operations_of(graph@),
            graph.wf(),
            total == tree_size(ops, root.id as nat),
            walk_state(ops, graph@.len(), root, total, nodes@, head as int),
        decreases total - head,
    {
        proof {
            lemma_pending_nonnegative(ops, nodes@.subrange(head as int, nodes@.len() as int));
        }
        let current = nodes[head];
        let children = current.node.children(graph);
        let ghost before = nodes@;
        proof {
            current.node.lemma_operands_below_graph(graph@);
        }
        let mut k: usize = 0;
        while k < children.len()
            invariant
                ops == operations_of(graph@),
                head < before.len(),
                current == before[head as int],
                children@ == ops[current.node.id as int].operands(),
                k <= children@.len(),
                children@.len() <= 2,
                current.depth <= head,
                nodes@.len() == before.len() + k,
                forall|j: int| 0 <= j < before.len() ==> #[trigger] nodes@[j] == before[j],
                forall|j: int|
                    before.len() <= j < nodes@.len() ==> {
                        &&& (#[trigger] nodes@[j]).node == children@[j - before.len()]
                        &&& nodes@[j].depth == current.depth + 1
                        &&& nodes@[j].index == j
                        &&& nodes@[j].parent == Some(head)
                    },
            decreases children@.len() - k,
        {
            let index = nodes.len();
            nodes.push(NodeDescription { node: children[k], depth: current.depth + 1, index, parent: Some(head) });
            k = k + 1;
        }
        proof {
            assert(forall|j: int| 0 <= j < children@.len() ==> (#[trigger] children@[j]).id < graph@.len());
            lemma_step_entries(ops, before, nodes@, head as int, children@);
            lemma_step_pending(ops, total, before, nodes@, head as int, children@);
            lemma_step_fields(ops, graph@.len(), root, before, nodes@, head as int, children@);
            lemma_step_parents(before, nodes@, head as int, children@);
        }
        head = head + 1;
    }
    proof {
        assert(nodes@.subrange(0, head as int) =~= nodes@);
        assert(nodes@.subrange(head as int, nodes@.len() as int) =~= Seq::<NodeDescription>::empty());
        assert(pending(ops, Seq::<NodeDescription>::empty()) == 0);
    }
    nodes
}

/// The width of a box.
pub const NODE_WIDTH: u128 = 80;

/// The height of a box.
pub const NODE_HEIGHT: u128 = 70;

/// The space between two boxes of a row.
pub const HORIZONTAL_SPACING: u128 = 20;

/// The space between two rows.
pub const VERTICAL_SPACING: u128 = 50;

/// The space around the drawing.
pub const MARGIN: u128 = 20;

/// The distance between two lines of text in a box.
pub const LINE_HEIGHT: u128 = 16;

/// The narrowest a drawing is.
pub const MIN_WIDTH: u128 = 400;

/// The number of boxes at depth `d`.
pub open spec fn depth_count(nodes: Seq<NodeDescription>, d: int) -> nat
    decreases nodes.len(),
{
    if nodes.len() == 0 {
        0
    } else {
        depth_count(nodes.drop_last(), d) + if nodes.last().depth == d {
            1nat
        } else {
            0nat
        }
    }
}

/// The number of rows: one more than the greatest depth.
pub open spec fn levels(nodes: Seq<NodeDescription>) -> nat
    decreases nodes.len(),
{
    if nodes.len() == 0 {
        0
    } else {
        let rest = levels(nodes.drop_last());
        if rest > nodes.last().depth + 1 {
            rest
        } else {
            (nodes.last().depth + 1) as nat
        }
    }
}

/// The number of boxes of the fullest of the first `n` rows.
pub open spec fn widest(nodes: Seq<NodeDescription>, n: nat) -> nat
    decreases n,
{
    if n == 0 {
        0
    } else {
        let rest = widest(nodes, (n - 1) as nat);
        let here = depth_count(nodes, n - 1);
        if rest > here {
            rest
        } else {
            here
        }
    }
}

/// The width of a row of `n` boxes.
pub open spec fn row_width(n: int) -> int {
    if n <= 0 {
        0
    } else {
        n * NODE_WIDTH + (n - 1) * HORIZONTAL_SPACING
    }
}

/// The drawing's width: the widest row with a margin on each side, or the
/// least width if that is wider.
pub open spec fn canvas_width(nodes: Seq<NodeDescription>) -> int {
    let widest_row = if levels(nodes) == 0 {
        1
    } else {
        widest(nodes, levels(nodes)) as int
    };
    let content = MARGIN * 2 + row_width(widest_row);
    if content > MIN_WIDTH {
        content
    } else {
        MIN_WIDTH as int
    }
}

/// The drawing's height: the rows and the space between them, with a margin
/// above and below.
pub open spec fn canvas_height(nodes: Seq<NodeDescription>) -> int {
    let n = levels(nodes) as int;
    MARGIN * 2 + n * NODE_HEIGHT + (if n > 0 {
        n - 1
    } else {
        0
    }) * VERTICAL_SPACING
}

/// The left edge of box `i`: its row is centred, and the box follows the
/// boxes of its row that come before it.
pub open spec fn box_x(nodes: Seq<NodeDescription>, i: int) -> int {
    let d = nodes[i].depth as int;
    (canvas_width(nodes) - row_width(depth_count(nodes, d) as int)) / 2 + depth_count(nodes.subrange(0, i), d) * (
    NODE_WIDTH + HORIZONTAL_SPACING)
}

/// The top edge of box `i`: rows are stacked by depth.
pub open spec fn box_y(nodes: Seq<NodeDescription>, i: int) -> int {
    MARGIN + nodes[i].depth * (NODE_HEIGHT + VERTICAL_SPACING)
}

proof fn lemma_depth_count_bounds(nodes: Seq<NodeDescription>, d: int)
    ensures
        depth_count(nodes, d) <= nodes.len(),
        d >= levels(nodes) ==> depth_count(nodes, d) == 0,
    decreases nodes.len(),
{
    if nodes.len() > 0 {
        lemma_depth_count_bounds(nodes.drop_last(), d);
    }
}

proof fn lemma_widest_bounds(nodes: Seq<NodeDescription>, n: nat, d: int)
    ensures
        0 <= d < n ==> depth_count(nodes, d) <= widest(nodes, n),
        widest(nodes, n) <= nodes.len(),
    decreases n,
{
    if n > 0 {
        lemma_widest_bounds(nodes, (n - 1) as nat, d);
        lemma_depth_count_bounds(nodes, n - 1);
    }
}

proof fn lemma_levels_bound(nodes: Seq<NodeDescription>)
    requires
        forall|i: int| 0 <= i < nodes.len() ==> (#[trigger] nodes[i]).depth <= i,
    ensures
        levels(nodes) <= nodes.len(),
        forall|i: int| 0 <= i < nodes.len() ==> (#[trigger] nodes[i]).depth < levels(nodes),
        nodes.len() > 0 ==> levels(nodes) > 0,
    decreases nodes.len(),
{
    if nodes.len() > 0 {
        let front = nodes.drop_last();
        assert forall|i: int| 0 <= i < front.len() implies (#[trigger] front[i]).depth <= i by {
            assert(front[i] == nodes[i]);
        }
        lemma_levels_bound(front);
        assert forall|i: int| 0 <= i < nodes.len() implies (#[trigger] nodes[i]).depth < levels(nodes) by {
            if i < front.len() {
                assert(front[i] == nodes[i]);
            }
        }
    }
}

/// The rows are the depths that occur: every box is at a depth below
/// `levels`, and some box is on the last row.
proof fn lemma_levels_are_depths(nodes: Seq<NodeDescription>)
    ensures
        forall|i: int| 0 <= i < nodes.len() ==> (#[trigger] nodes[i]).depth < levels(nodes),
        nodes.len() > 0 ==> exists|i: int| 0 <= i < nodes.len() && (#[trigger] nodes[i]).depth + 1 == levels(nodes),
    decreases nodes.len(),
{
    if nodes.len() > 0 {
        let front = nodes.drop_last();
        lemma_levels_are_depths(front);
        assert forall|i: int| 0 <= i < nodes.len() implies (#[trigger] nodes[i]).depth < levels(nodes) by {
            if i < front.len() {
                assert(front[i] == nodes[i]);
            }
        }
        if levels(front) > nodes.last().depth + 1 {
            let i = choose|i: int| 0 <= i < front.len() && (#[trigger] front[i]).depth + 1 == levels(front);
            assert(nodes[i] == front[i]);
        } else {
            assert(nodes[nodes.len() - 1].depth + 1 == levels(nodes));
        }
    }
}

/// The fullest of the first `n` rows has as many boxes as some row.
proof fn lemma_widest_is_a_row(nodes: Seq<NodeDescription>, n: nat)
    requires
        n > 0,
    ensures
        exists|d: int| 0 <= d < n && #[trigger] depth_count(nodes, d) == widest(nodes, n),
    decreases n,
{
    if n > 1 && widest(nodes, (n - 1) as nat) > depth_count(nodes, n - 1) {
        lemma_widest_is_a_row(nodes, (n - 1) as nat);
    } else {
        assert(widest(nodes, 0) == 0);
        assert(depth_count(nodes, n - 1) == widest(nodes, n));
    }
}

/// A box counts in the row of its depth.
proof fn lemma_own_row_counts(nodes: Seq<NodeDescription>, i: int)
    requires
        0 <= i < nodes.len(),
    ensures
        depth_count(nodes.subrange(0, i), nodes[i].depth as int) + 1 <= depth_count(nodes, nodes[i].depth as int),
    decreases nodes.len(),
{
    let d = nodes[i].depth as int;
    let front = nodes.drop_last();
    if i == nodes.len() - 1 {
        assert(nodes.subrange(0, i) =~= front);
    } else {
        lemma_own_row_counts(front, i);
        assert(front.subrange(0, i) =~= nodes.subrange(0, i));
        assert(front[i] == nodes[i]);
    }
}

/// The drawing of a non-empty tree in closed form. With `D` rows (one more
/// than the greatest depth) and `M` boxes in the fullest row, the canvas is
/// `W = max(400, 40 + 80 M + 20 (M - 1))` wide and
/// `40 + 70 D + 50 (D - 1)` high; box `i`, the `r`-th of the `k` boxes at
/// depth `d`, has its top left corner at
/// `((W - (80 k + 20 (k - 1))) / 2 + 100 r, 20 + 120 d)`, so every row is
/// centred.
pub proof fn lemma_layout_closed_form(nodes: Seq<NodeDescription>)
    requires
        nodes.len() > 0,
    ensures
        forall|i: int| 0 <= i < nodes.len() ==> (#[trigger] nodes[i]).depth < levels(nodes),
        exists|i: int| 0 <= i < nodes.len() && (#[trigger] nodes[i]).depth + 1 == levels(nodes),
        forall|d: int| 0 <= d < levels(nodes) ==> #[trigger] depth_count(nodes, d) <= widest(nodes, levels(nodes)),
        exists|d: int| 0 <= d < levels(nodes) && #[trigger] depth_count(nodes, d) == widest(nodes, levels(nodes)),
        canvas_height(nodes) == 40 + 70 * levels(nodes) + 50 * (levels(nodes) - 1),
        ({
            let m = widest(nodes, levels(nodes)) as int;
            canvas_width(nodes) == if 40 + 80 * m + 20 * (m - 1) > 400 {
                40 + 80 * m + 20 * (m - 1)
            } else {
                400
            }
        }),
        forall|i: int|
            0 <= i < nodes.len() ==> {
                let d = (#[trigger] nodes[i]).depth as int;
                let k = depth_count(nodes, d) as int;
                let r = depth_count(nodes.subrange(0, i), d) as int;
                &&& 1 <= k
                &&& box_x(nodes, i) == (canvas_width(nodes) - (80 * k + 20 * (k - 1))) / 2 + 100 * r
                &&& box_y(nodes, i) == 20 + 120 * d
            },
{
    lemma_levels_are_depths(nodes);
    let n = levels(nodes);
    assert forall|d: int| 0 <= d < n implies #[trigger] depth_count(nodes, d) <= widest(nodes, n) by {
        lemma_widest_bounds(nodes, n, d);
    }
    lemma_widest_is_a_row(nodes, n);
    let m = widest(nodes, n) as int;
    let d0 = choose|d: int| 0 <= d < n && #[trigger] depth_count(nodes, d) == widest(nodes, n);
    assert(nodes[0].depth < n);
    lemma_own_row_counts(nodes, 0);
    lemma_widest_bounds(nodes, n, nodes[0].depth as int);
    assert(m >= 1);
    assert forall|i: int| 0 <= i < nodes.len() implies {
        let d = (#[trigger] nodes[i]).depth as int;
        let k = depth_count(nodes, d) as int;
        let r = depth_count(nodes.subrange(0, i), d) as int;
        &&& 1 <= k
        &&& box_x(nodes, i) == (canvas_width(nodes) - (80 * k + 20 * (k - 1))) / 2 + 100 * r
        &&& box_y(nodes, i) == 20 + 120 * d
    } by {
        lemma_own_row_counts(nodes, i);
    }
}

/// A line from the bottom middle of one box to the top middle of another.
#[derive(Clone, Copy, Debug, PartialEq, Eq, Structural)]
pub struct Segment {
    pub x1: u128,
    pub y1: u128,
    pub x2: u128,
    pub y2: u128,
}

/// A line of text, centred on `x`, with its baseline at `y`.
pub struct TextLine {
    pub text: String,
    pub x: u128,
    pub y: u128,
}

/// A box with its top left corner at (`x`, `y`) and its lines of text.
pub struct NodeBox {
    pub x: u128,
    pub y: u128,
    pub width: u128,
    pub height: u128,
    pub lines: Vec<TextLine>,
}

/// A drawing of an expression tree: its size, the lines between boxes, and
/// the boxes, each of which shows a node's operation, number and gradient.
pub struct GraphDrawing {
    pub width: u128,
    pub height: u128,
    pub segments: Vec<Segment>,
    pub boxes: Vec<NodeBox>,
}

/// The number of boxes at each depth, for every depth there is.
fn depth_counts(nodes: &Vec<NodeDescription>) -> (counts: Vec<usize>)
    requires
        forall|i: int| 0 <= i < nodes@.len() ==> (#[trigger] nodes@[i]).depth <= i,
    ensures
        counts@.len() == levels(nodes@),
        forall|d: int| 0 <= d < counts@.len() ==> #[trigger] counts@[d] == depth_count(nodes@, d),
{
    let mut counts: Vec<usize> = Vec::new();
    let mut i: usize = 0;
    while i < nodes.len()
        invariant
            i <= nodes@.len(),
            forall|j: int| 0 <= j < nodes@.len() ==> (#[trigger] nodes@[j]).depth <= j,
            counts@.len() == levels(nodes@.subrange(0, i as int)),
            forall|d: int| 0 <= d < counts@.len() ==> #[trigger] counts@[d] == depth_count(nodes@.subrange(0, i as int), d),
        decreases nodes@.len() - i,
    {
        let ghost prefix = nodes@.subrange(0, i as int);
        let ghost next = nodes@.subrange(0, i + 1);
        let depth = nodes[i].depth;
        proof {
            assert(next.drop_last() =~= prefix);
            assert(next.last() == nodes@[i as int]);
            assert forall|j: int| 0 <= j < prefix.len() implies (#[trigger] prefix[j]).depth <= j by {
                assert(prefix[j] == nodes@[j]);
            }
            lemma_levels_bound(prefix);
        }
        while counts.len() <= depth
            invariant
                levels(prefix) <= counts@.len(),
                counts@.len() <= depth + 1 || counts@.len() == levels(prefix),
                forall|d: int| 0 <= d < counts@.len() ==> #[trigger] counts@[d] == depth_count(prefix, d),
            decreases depth + 1 - counts@.len(),
        {
            proof {
                lemma_depth_count_bounds(prefix, counts@.len() as int);
            }
            counts.push(0);
        }
        proof {
            lemma_depth_count_bounds(prefix, depth as int);
        }
        let count = counts[depth];
        counts.set(depth, count + 1);
        proof {
            assert forall|d: int| 0 <= d < counts@.len() implies #[trigger] counts@[d] == depth_count(next, d) by {}

        }
        i = i + 1;
    }
    proof {
        assert(nodes@.subrange(0, nodes@.len() as int) =~= nodes@);
    }
    counts
}

/// No coordinate of a drawing reaches this bound (a graph has fewer than
/// 2^64 nodes, and each box adds at most a few hundred units).
pub const COORDINATE_LIMIT: u128 = 0x1_0000_0000_0000_0000_0000;

/// The number of boxes of the fullest row.
fn widest_row(nodes: Ghost<Seq<NodeDescription>>, counts: &Vec<usize>) -> (w: usize)
    requires
        counts@.len() == levels(nodes@),
        forall|d: int| 0 <= d < counts@.len() ==> #[trigger] counts@[d] == depth_count(nodes@, d),
    ensures
        w == widest(nodes@, levels(nodes@)),
{
    let mut w: usize = 0;
    let mut d: usize = 0;
    while d < counts.len()
        invariant
            d <= counts@.len(),
            counts@.len() == levels(nodes@),
            forall|e: int| 0 <= e < counts@.len() ==> #[trigger] counts@[e] == depth_count(nodes@, e),
            w == widest(nodes@, d as nat),
        decreases counts@.len() - d,
    {
        if counts[d] > w {
            w = counts[d];
        }
        d = d + 1;
    }
    w
}

/// The width of a row of `n` boxes.
fn row_width_of(n: usize) -> (w: u128)
    ensures
        w == row_width(n as int),
{
    let n: u128 = n as u128;
    if n == 0 {
        0
    } else {
        n * NODE_WIDTH + (n - 1) * HORIZONTAL_SPACING
    }
}

/// The corners of the boxes, in order.
fn box_positions(nodes: &Vec<NodeDescription>, counts: &Vec<usize>, width: u128) -> (positions: Vec<(u128, u128)>)
    requires
        forall|i: int| 0 <= i < nodes@.len() ==> (#[trigger] nodes@[i]).depth <= i,
        counts@.len() == levels(nodes@),
        forall|d: int| 0 <= d < counts@.len() ==> #[trigger] counts@[d] == depth_count(nodes@, d),
        width == canvas_width(nodes@),
    ensures
        positions@.len() == nodes@.len(),
        forall|i: int|
            0 <= i < nodes@.len() ==> (#[trigger] positions@[i]).0 == box_x(nodes@, i) && positions@[i].1 == box_y(
                nodes@,
                i,
            ),
        forall|i: int|
            0 <= i < nodes@.len() ==> (#[trigger] positions@[i]).0 < COORDINATE_LIMIT && positions@[i].1
                < COORDINATE_LIMIT,
{
    proof {
        lemma_levels_bound(nodes@);
    }
    let mut seen: Vec<usize> = Vec::new();
    let mut d: usize = 0;
    while d < counts.len()
        invariant
            d <= counts@.len(),
            seen@.len() == d,
            forall|e: int| 0 <= e < d ==> #[trigger] seen@[e] == 0,
        decreases counts@.len() - d,
    {
        seen.push(0);
        d = d + 1;
    }
    let mut positions: Vec<(u128, u128)> = Vec::new();
    let mut i: usize = 0;
    while i < nodes.len()
        invariant
            i <= nodes@.len(),
            forall|j: int| 0 <= j < nodes@.len() ==> (#[trigger] nodes@[j]).depth <= j,
            forall|j: int| 0 <= j < nodes@.len() ==> (#[trigger] nodes@[j]).depth < levels(nodes@),
            levels(nodes@) <= nodes@.len(),
            counts@.len() == levels(nodes@),
            forall|e: int| 0 <= e < counts@.len() ==> #[trigger] counts@[e] == depth_count(nodes@, e),
            width == canvas_width(nodes@),
            seen@.len() == counts@.len(),
            forall|e: int| 0 <= e < seen@.len() ==> #[trigger] seen@[e] == depth_count(nodes@.subrange(0, i as int), e),
            positions@.len() == i,
            forall|j: int|
                0 <= j < i ==> (#[trigger] positions@[j]).0 == box_x(nodes@, j) && positions@[j].1 == box_y(nodes@, j),
            forall|j: int|
                0 <= j < i ==> (#[trigger] positions@[j]).0 < COORDINATE_LIMIT && positions@[j].1 < COORDINATE_LIMIT,
        decreases nodes@.len() - i,
    {
        let depth = nodes[i].depth;
        let count = counts[depth];
        let rank = seen[depth];
        proof {
            lemma_widest_bounds(nodes@, levels(nodes@), depth as int);
            lemma_depth_count_bounds(nodes@, depth as int);
            lemma_depth_count_bounds(nodes@.subrange(0, i as int), depth as int);
            assert(widest(nodes@, levels(nodes@)) >= count);
            assert(row_width(count as int) <= row_width(widest(nodes@, levels(nodes@)) as int));
            assert(widest(nodes@, levels(nodes@)) <= nodes@.len());
            assert(nodes@.len() <= usize::MAX);
            assert(width <= MIN_WIDTH + MARGIN * 2 + row_width(nodes@.len() as int));
            assert(rank <= nodes@.len());
            assert(rank * (NODE_WIDTH + HORIZONTAL_SPACING) <= 0x1_0000_0000_0000_0000 * 100) by (nonlinear_arith)
                requires
                    rank <= 0x1_0000_0000_0000_0000int,
                    NODE_WIDTH + HORIZONTAL_SPACING == 100,
            ;
            assert(depth * (NODE_HEIGHT + VERTICAL_SPACING) <= 0x1_0000_0000_0000_0000 * 120) by (nonlinear_arith)
                requires
                    depth <= 0x1_0000_0000_0000_0000int,
                    NODE_HEIGHT + VERTICAL_SPACING == 120,
            ;
            assert(row_width(nodes@.len() as int) <= 0x1_0000_0000_0000_0000 * 100) by (nonlinear_arith)
                requires
                    nodes@.len() <= 0x1_0000_0000_0000_0000int,
                    row_width(nodes@.len() as int) <= nodes@.len() * 100,
            ;
        }
        let row: u128 = row_width_of(count);
        let x: u128 = (width - row) / 2 + (rank as u128) * (NODE_WIDTH + HORIZONTAL_SPACING);
        let y: u128 = MARGIN + (depth as u128) * (NODE_HEIGHT + VERTICAL_SPACING);
        positions.push((x, y));
        seen.set(depth, rank + 1);
        proof {
            let next = nodes@.subrange(0, i + 1);
            assert(next.drop_last() =~= nodes@.subrange(0, i as int));
            assert(next.last() == nodes@[i as int]);
            assert forall|e: int| 0 <= e < seen@.len() implies #[trigger] seen@[e] == depth_count(next, e) by {}
        }
        i = i + 1;
    }
    positions
}

/// How far below a box's top edge its first line of text stands.
pub open spec fn first_line_offset() -> int {
    (NODE_HEIGHT - LINE_HEIGHT * 3) / 2 + LINE_HEIGHT * 3 / 4
}

/// The line that shows a node's number: `v=` and the number with three
/// decimals, or `v=?` when numbers are not shown.
pub open spec fn value_line<S: Scalar>(v: S, with_values: bool, text: Seq<char>) -> bool {
    if with_values {
        exists|t: String| #[trigger] call_ensures(S::to_fixed_text, (&v, 3usize), t) && text == "v="@ + t@
    } else {
        text == "v=?"@
    }
}

/// The line that shows a node's gradient: `g=` and the gradient with three
/// decimals, or `g=?` when it has none.
pub open spec fn gradient_line<S: Scalar>(g: Option<S>, text: Seq<char>) -> bool {
    match g {
        Some(x) => exists|t: String| #[trigger] call_ensures(S::to_fixed_text, (&x, 3usize), t) && text == "g="@ + t@,
        None => text == "g=?"@,
    }
}

/// Box `i` of the drawing of `descs` shows its node as it stands in `nodes`.
pub open spec fn box_drawn<S: Scalar>(
    nodes: Seq<crate::value::ValueInner<S>>,
    descs: Seq<NodeDescription>,
    i: int,
    with_values: bool,
    b: NodeBox,
) -> bool {
    let x = box_x(descs, i);
    let y = box_y(descs, i);
    let node = nodes[descs[i].node.id as int];
    &&& b.x == x
    &&& b.y == y
    &&& b.width == NODE_WIDTH
    &&& b.height == NODE_HEIGHT
    &&& b.lines@.len() == 3
    &&& forall|k: int|
        0 <= k < 3 ==> (#[trigger] b.lines@[k]).x == x + NODE_WIDTH / 2 && b.lines@[k].y == y + first_line_offset() + k
            * LINE_HEIGHT
    &&& b.lines@[0].text@ == node.operation.symbol_spec()
    &&& value_line(node.current_evaluation, with_values, b.lines@[1].text@)
    &&& gradient_line(node.gradient, b.lines@[2].text@)
}

/// The line from the box that box `i` hangs from to box `i`.
pub open spec fn segment_to(descs: Seq<NodeDescription>, i: int) -> Segment {
    let p = descs[i].parent.unwrap() as int;
    Segment {
        x1: (box_x(descs, p) + NODE_WIDTH / 2) as u128,
        y1: (box_y(descs, p) + NODE_HEIGHT) as u128,
        x2: (box_x(descs, i) + NODE_WIDTH / 2) as u128,
        y2: box_y(descs, i) as u128,
    }
}

/// `drawing` lays out the boxes `descs` of the graph `nodes`.
pub open spec fn laid_out<S: Scalar>(
    nodes: Seq<crate::value::ValueInner<S>>,
    descs: Seq<NodeDescription>,
    with_values: bool,
    drawing: GraphDrawing,
) -> bool {
    &&& drawing.width == canvas_width(descs)
    &&& drawing.height == canvas_height(descs)
    &&& drawing.boxes@.len() == descs.len()
    &&& forall|i: int| 0 <= i < descs.len() ==> box_drawn(nodes, descs, i, with_values, #[trigger] drawing.boxes@[i])
    &&& drawing.segments@.len() + 1 == descs.len()
    &&& forall|i: int| 1 <= i < descs.len() ==> #[trigger] drawing.segments@[i - 1] == segment_to(descs, i)
}

/// `drawing` draws the tree that unfolds from `root` in the graph `nodes`.
pub open spec fn drawing_of<S: Scalar>(
    nodes: Seq<crate::value::ValueInner<S>>,
    root: Value,
    with_values: bool,
    drawing: GraphDrawing,
) -> bool {
    exists|descs: Seq<NodeDescription>|
        {
            &&& #[trigger] is_breadth_first(operations_of(nodes), root, descs)
            &&& descs.len() == tree_size(operations_of(nodes), root.id as nat)
            &&& laid_out(nodes, descs, with_values, drawing)
        }
}

/// A line of text of its own.
fn owned(text: &str) -> (s: String)
    ensures
        s@ == text@,
{
    let mut s = String::new();
    s.append(text);
    s
}

/// A line of text, `prefix` then `text`.
fn joined(prefix: &str, text: &str) -> (s: String)
    ensures
        s@ == prefix@ + text@,
{
    let mut s = String::new();
    s.append(prefix);
    s.append(text);
    s
}

/// The lines of box `i`.
fn box_lines<S: Scalar>(node: crate::value::ValueInner<S>, with_values: bool, x: u128, y: u128) -> (lines: Vec<TextLine>)
    requires
        x + NODE_WIDTH <= u128::MAX,
        y + NODE_HEIGHT <= u128::MAX,
    ensures
        lines@.len() == 3,
        forall|k: int|
            0 <= k < 3 ==> (#[trigger] lines@[k]).x == x + NODE_WIDTH / 2 && lines@[k].y == y + first_line_offset() + k
                * LINE_HEIGHT,
        lines@[0].text@ == node.operation.symbol_spec(),
        value_line(node.current_evaluation, with_values, lines@[1].text@),
        gradient_line(node.gradient, lines@[2].text@),
{
    let center = x + NODE_WIDTH / 2;
    let first = y + (NODE_HEIGHT - LINE_HEIGHT * 3) / 2 + LINE_HEIGHT * 3 / 4;
    let label = owned(node.operation.symbol());
    let value_text = if with_values {
        let t = node.current_evaluation.to_fixed_text(3);
        joined("v=", t.as_str())
    } else {
        owned("v=?")
    };
    let gradient_text = match node.gradient {
        Some(g) => {
            let t = g.to_fixed_text(3);
            joined("g=", t.as_str())
        },
        None => owned("g=?"),
    };
    let mut lines: Vec<TextLine> = Vec::new();
    lines.push(TextLine { text: label, x: center, y: first });
    lines.push(TextLine { text: value_text, x: center, y: first + LINE_HEIGHT });
    lines.push(TextLine { text: gradient_text, x: center, y: first + LINE_HEIGHT * 2 });
    lines
}

/// The lines from each box to the box it hangs from, in the order of the
/// boxes, starting from the second.
fn segments_between(nodes: &Vec<NodeDescription>, positions: &Vec<(u128, u128)>) -> (segments: Vec<Segment>)
    requires
        nodes@.len() >= 1,
        forall|i: int|
            1 <= i < nodes@.len() ==> (#[trigger] nodes@[i]).parent is Some && nodes@[i].parent.unwrap() < i,
        positions@.len() == nodes@.len(),
        forall|j: int|
            0 <= j < nodes@.len() ==> (#[trigger] positions@[j]).0 == box_x(nodes@, j) && positions@[j].1 == box_y(
                nodes@,
                j,
            ),
        forall|j: int|
            0 <= j < nodes@.len() ==> (#[trigger] positions@[j]).0 < COORDINATE_LIMIT && positions@[j].1
                < COORDINATE_LIMIT,
    ensures
        segments@.len() + 1 == nodes@.len(),
        forall|j: int| 1 <= j < nodes@.len() ==> #[trigger] segments@[j - 1] == segment_to(nodes@, j),
{
    let mut segments: Vec<Segment> = Vec::new();
    let mut i: usize = 1;
    while i < nodes.len()
        invariant
            1 <= i <= nodes@.len(),
            forall|j: int|
                1 <= j < nodes@.len() ==> (#[trigger] nodes@[j]).parent is Some && nodes@[j].parent.unwrap() < j,
            positions@.len() == nodes@.len(),
            forall|j: int|
                0 <= j < nodes@.len() ==> (#[trigger] positions@[j]).0 == box_x(nodes@, j) && positions@[j].1
                    == box_y(nodes@, j),
            forall|j: int|
                0 <= j < nodes@.len() ==> (#[trigger] positions@[j]).0 < COORDINATE_LIMIT && positions@[j].1
                    < COORDINATE_LIMIT,
            segments@.len() + 1 == i,
            forall|j: int| 1 <= j < i ==> #[trigger] segments@[j - 1] == segment_to(nodes@, j),
        decreases nodes@.len() - i,
    {
        let parent = match nodes[i].parent {
            Some(p) => p,
            None => 0,
        };
        let (px, py) = positions[parent];
        let (cx, cy) = positions[i];
        segments.push(Segment { x1: px + NODE_WIDTH / 2, y1: py + NODE_HEIGHT, x2: cx + NODE_WIDTH / 2, y2: cy });
        proof {
            assert(segments@[i - 1] == segment_to(nodes@, i as int));
        }
        i = i + 1;
    }
    segments
}

/// The boxes, in order, each showing its node as it stands in `graph`.
fn boxes_at<S: Scalar>(
    graph: &Graph<S>,
    nodes: &Vec<NodeDescription>,
    positions: &Vec<(u128, u128)>,
    with_values: bool,
) -> (boxes: Vec<NodeBox>)
    requires
        forall|j: int| 0 <= j < nodes@.len() ==> (#[trigger] nodes@[j]).node.id < graph@.len(),
        positions@.len() == nodes@.len(),
        forall|j: int|
            0 <= j < nodes@.len() ==> (#[trigger] positions@[j]).0 == box_x(nodes@, j) && positions@[j].1 == box_y(
                nodes@,
                j,
            ),
        forall|j: int|
            0 <= j < nodes@.len() ==> (#[trigger] positions@[j]).0 < COORDINATE_LIMIT && positions@[j].1
                < COORDINATE_LIMIT,
    ensures
        boxes@.len() == nodes@.len(),
        forall|j: int| 0 <= j < nodes@.len() ==> box_drawn(graph@, nodes@, j, with_values, #[trigger] boxes@[j]),
{
    let mut boxes: Vec<NodeBox> = Vec::new();
    let mut i: usize = 0;
    while i < nodes.len()
        invariant
            i <= nodes@.len(),
            forall|j: int| 0 <= j < nodes@.len() ==> (#[trigger] nodes@[j]).node.id < graph@.len(),
            positions@.len() == nodes@.len(),
            forall|j: int|
                0 <= j < nodes@.len() ==> (#[trigger] positions@[j]).0 == box_x(nodes@, j) && positions@[j].1
                    == box_y(nodes@, j),
            forall|j: int|
                0 <= j < nodes@.len() ==> (#[trigger] positions@[j]).0 < COORDINATE_LIMIT && positions@[j].1
                    < COORDINATE_LIMIT,
            boxes@.len() == i,
            forall|j: int| 0 <= j < i ==> box_drawn(graph@, nodes@, j, with_values, #[trigger] boxes@[j]),
        decreases nodes@.len() - i,
    {
        let (x, y) = positions[i];
        let node = graph.node(nodes[i].node);
        let lines = box_lines(node, with_values, x, y);
        boxes.push(NodeBox { x, y, width: NODE_WIDTH, height: NODE_HEIGHT, lines });
        proof {
            assert(box_drawn(graph@, nodes@, i as int, with_values, boxes@[i as int]));
        }
        i = i + 1;
    }
    boxes
}

/// In a breadth-first unfolding a box stands no deeper than its index.
proof fn lemma_depth_below_index(ops: Seq<ValueOperation>, root: Value, descs: Seq<NodeDescription>)
    requires
        is_breadth_first(ops, root, descs),
    ensures
        forall|i: int| 0 <= i < descs.len() ==> (#[trigger] descs[i]).depth <= i,
{
    assert forall|i: int| 0 <= i < descs.len() implies (#[trigger] descs[i]).depth <= i by {
        lemma_depth_at_most_index(ops, root, descs, i);
    }
}

proof fn lemma_depth_at_most_index(ops: Seq<ValueOperation>, root: Value, descs: Seq<NodeDescription>, i: int)
    requires
        is_breadth_first(ops, root, descs),
        0 <= i < descs.len(),
    ensures
        descs[i].depth <= i,
    decreases i,
{
    if i > 0 {
        let p = descs[i].parent.unwrap() as int;
        lemma_depth_at_most_index(ops, root, descs, p);
    }
}

/// The drawing's width and height.
fn canvas_size(nodes: &Vec<NodeDescription>, counts: &Vec<usize>) -> (size: (u128, u128))
    requires
        forall|i: int| 0 <= i < nodes@.len() ==> (#[trigger] nodes@[i]).depth <= i,
        counts@.len() == levels(nodes@),
        forall|d: int| 0 <= d < counts@.len() ==> #[trigger] counts@[d] == depth_count(nodes@, d),
    ensures
        size.0 == canvas_width(nodes@),
        size.1 == canvas_height(nodes@),
{
    let ghost descs = nodes@;
    proof {
        lemma_levels_bound(descs);
        lemma_widest_bounds(descs, levels(descs), 0);
    }
    let widest_count = widest_row(Ghost(nodes@), counts);
    let max_row_len: usize = if counts.len() == 0 { 1 } else { widest_count };
    proof {
        assert(max_row_len <= descs.len() || max_row_len == 1);
        assert(row_width(max_row_len as int) <= max_row_len * 100);
        assert(max_row_len * 100 <= 0x1_0000_0000_0000_0000 * 100) by (nonlinear_arith)
            requires
                max_row_len <= 0x1_0000_0000_0000_0000int,
        ;
        assert(counts@.len() * (NODE_HEIGHT + VERTICAL_SPACING) <= 0x1_0000_0000_0000_0000 * 120) by (nonlinear_arith)
            requires
                counts@.len() <= 0x1_0000_0000_0000_0000int,
                NODE_HEIGHT + VERTICAL_SPACING == 120,
        ;
    }
    let content_width: u128 = MARGIN * 2 + row_width_of(max_row_len);
    let width: u128 = if content_width > MIN_WIDTH { content_width } else { MIN_WIDTH };
    let rows: u128 = counts.len() as u128;
    let gaps: u128 = if rows > 0 { rows - 1 } else { 0 };
    let height: u128 = MARGIN * 2 + rows * NODE_HEIGHT + gaps * VERTICAL_SPACING;
    (width, height)
}

/// Lays out the expression tree that unfolds from `expr` (a node read twice
/// is drawn twice): boxes in breadth-first order, one row per depth, each row
/// centred, each box hanging from the box of the node that reads it by a
/// line. Each box shows the node's operation, its number (when `with_values`)
/// and its gradient.
pub fn build_graph<S: Scalar>(graph: &Graph<S>, expr: Value, with_values: bool) -> (drawing: GraphDrawing)
    requires
        graph.wf(),
        expr.id < graph@.len(),
    ensures
        drawing_of(graph@, expr, with_values, drawing),
{
    let nodes = breadth_first(graph, expr);
    let ghost descs = nodes@;
    proof {
        lemma_depth_below_index(operations_of(graph@), expr, descs);
    }
    let counts = depth_counts(&nodes);
    let (width, height) = canvas_size(&nodes, &counts);
    let positions = box_positions(&nodes, &counts, width);
    let segments = segments_between(&nodes, &positions);
    let boxes = boxes_at(graph, &nodes, &positions, with_values);
    let drawing = GraphDrawing { width, height, segments, boxes };
    proof {
        assert(laid_out(graph@, descs, with_values, drawing));
    }
    drawing
}

/// Each box is 80 wide and 70 high and holds three lines of text centred
/// on the box (40 from its left edge), 23, 39 and 55 below its top: the
/// operation's symbol; `v=` and the number with three decimals (or `v=?`
/// when numbers are not shown); `g=` and the gradient with three decimals
/// (or `g=?` when there is none).
pub proof fn lemma_box_contents<S: Scalar>(
    nodes: Seq<crate::value::ValueInner<S>>,
    descs: Seq<NodeDescription>,
    i: int,
    with_values: bool,
    b: NodeBox,
)
    requires
        box_drawn(nodes, descs, i, with_values, b),
    ensures
        b.width == 80 && b.height == 70,
        b.lines@.len() == 3,
        forall|k: int| 0 <= k < 3 ==> (#[trigger] b.lines@[k]).x == b.x + 40 && b.lines@[k].y == b.y + 23 + 16 * k,
        b.lines@[0].text@ == nodes[descs[i].node.id as int].operation.symbol_spec(),
        with_values ==> exists|t: String|
            #[trigger] call_ensures(
                S::to_fixed_text,
                (&nodes[descs[i].node.id as int].current_evaluation, 3usize),
                t,
            ) && b.lines@[1].text@ == "v="@ + t@,
        !with_values ==> b.lines@[1].text@ == "v=?"@,
        nodes[descs[i].node.id as int].gradient is Some ==> exists|t: String|
            #[trigger] call_ensures(
                S::to_fixed_text,
                (&nodes[descs[i].node.id as int].gradient.unwrap(), 3usize),
                t,
            ) && b.lines@[2].text@ == "g="@ + t@,
        nodes[descs[i].node.id as int].gradient is None ==> b.lines@[2].text@ == "g=?"@,
{
    assert(first_line_offset() == 23);
}

} // verus!
