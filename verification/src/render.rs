use vstd::prelude::*;

use crate::task::{Task, TaskList};
use crate::fit::children_forward;
use crate::tree::{Forest, TreeNode};

verus! {

/// One line of the rendered listing: which task to print and how deep to
/// indent it.
#[derive(Clone, Copy, Debug, PartialEq, Eq, Structural)]
pub struct RenderLine {
    pub task: usize,
    pub depth: usize,
}

/// Every non-root node carries a task reference.
pub open spec fn nodes_have_tasks(nodes: Seq<TreeNode>) -> bool {
    forall|m: int| 1 <= m < nodes.len() ==> (#[trigger] nodes[m].task) is Some
}

/// The rendering order of the subtree at node `n`: the node's own task first
/// (unless `n` is the synthetic root), then each child's subtree in order,
/// one level deeper.
pub open spec fn render_of(nodes: Seq<TreeNode>, n: int, depth: int) -> Seq<RenderLine>
    decreases nodes.len() - n, nodes[n].children@.len() + 1,
    when 0 <= n < nodes.len() && children_forward(nodes)
{
    let own: Seq<RenderLine> = if n == 0 {
        Seq::empty()
    } else {
        seq![RenderLine { task: nodes[n].task->0, depth: depth as usize }]
    };
    own + render_of_children(nodes, n, depth, nodes[n].children@.len() as int)
}

/// The rendering order of the first `k` children of node `n`.
pub open spec fn render_of_children(
    nodes: Seq<TreeNode>,
    n: int,
    depth: int,
    k: int,
) -> Seq<RenderLine>
    decreases nodes.len() - n, k,
    when 0 <= n < nodes.len() && 0 <= k <= nodes[n].children@.len() && children_forward(nodes)
{
    if k <= 0 {
        Seq::empty()
    } else {
        render_of_children(nodes, n, depth, k - 1) + render_of(
            nodes,
            nodes[n].children@[k - 1] as int,
            depth + 1,
        )
    }
}

/// Appends the rendering order of the subtree at node `n` to `out`.
fn render_lines(forest: &Forest, n: usize, depth: usize, out: &mut Vec<RenderLine>)
    requires
        children_forward(forest.nodes@),
        nodes_have_tasks(forest.nodes@),
        n < forest.nodes@.len(),
        depth <= n,
    ensures
        final(out)@ == old(out)@ + render_of(forest.nodes@, n as int, depth as int),
    decreases forest.nodes@.len() - n,
{
    let ghost base = out@;
    let ghost nodes = forest.nodes@;
    if n > 0 {
        let ti = forest.nodes[n].task.unwrap();
        out.push(RenderLine { task: ti, depth });
    }
    let ghost own = out@;
    let cl = forest.nodes[n].children.len();
    let mut k: usize = 0;
    while k < cl
        invariant
            children_forward(nodes),
            nodes_have_tasks(nodes),
            nodes == forest.nodes@,
            n < nodes.len(),
            depth <= n,
            cl == nodes[n as int].children@.len(),
            k <= cl,
            out@ == own + render_of_children(nodes, n as int, depth as int, k as int),
        decreases cl - k,
    {
        let c = forest.nodes[n].children[k];
        render_lines(forest, c, depth + 1, out);
        proof {
            assert(out@ == own + (render_of_children(nodes, n as int, depth as int, k as int)
                + render_of(nodes, c as int, depth as int + 1)));
            assert(own + (render_of_children(nodes, n as int, depth as int, k as int)
                + render_of(nodes, c as int, depth as int + 1)) =~= own + render_of_children(
                nodes,
                n as int,
                depth as int,
                k as int + 1,
            ));
        }
        k = k + 1;
    }
    proof {
        assert(out@ =~= base + render_of(nodes, n as int, depth as int));
    }
}

/// The order in which the forest is listed: a preorder walk, every task one
/// level deeper than its parent, the trees in root order.
pub fn render_order(forest: &Forest) -> (r: Vec<RenderLine>)
    requires
        children_forward(forest.nodes@),
        nodes_have_tasks(forest.nodes@),
        forest.nodes@.len() >= 1,
    ensures
        r@ == render_of(forest.nodes@, 0, 0),
{
    let mut out: Vec<RenderLine> = Vec::new();
    render_lines(forest, 0, 0, &mut out);
    proof {
        assert(out@ =~= render_of(forest.nodes@, 0, 0));
    }
    out
}

/// The points of the tasks of `tasks`, all of them.
pub open spec fn sum_points_all(tasks: Seq<Task>) -> int
    decreases tasks.len(),
{
    if tasks.len() == 0 {
        0
    } else {
        sum_points_all(tasks.drop_last()) + tasks.last().points
    }
}

/// The points of the complete tasks of `tasks`.
pub open spec fn sum_points_complete(tasks: Seq<Task>) -> int
    decreases tasks.len(),
{
    if tasks.len() == 0 {
        0
    } else {
        sum_points_complete(tasks.drop_last()) + if tasks.last().complete {
            tasks.last().points as int
        } else {
            0
        }
    }
}

impl TaskList {
    /// The points earned by complete tasks and the points of all tasks, for
    /// the summary line of the listing.
    pub fn points_summary(&self) -> (r: (u64, u64))
        requires
            self.tasks@.len() <= 0x1_0000_0000,
        ensures
            r.0 == sum_points_complete(self.tasks@),
            r.1 == sum_points_all(self.tasks@),
    {
        let mut earned: u64 = 0;
        let mut total: u64 = 0;
        let nt = self.tasks.len();
        for i in 0..nt
            invariant
                nt == self.tasks@.len(),
                nt <= 0x1_0000_0000,
                earned == sum_points_complete(self.tasks@.subrange(0, i as int)),
                total == sum_points_all(self.tasks@.subrange(0, i as int)),
                earned <= total,
                total <= i * 0xffff_ffffu64,
        {
            proof {
                lemma_sum_bounds(self.tasks@.subrange(0, i as int));
                assert(self.tasks@.subrange(0, i as int + 1).drop_last() =~= self.tasks@.subrange(
                    0,
                    i as int,
                ));
                assert(self.tasks@.subrange(0, i as int + 1).last() == self.tasks@[i as int]);
            }
            let p = self.tasks[i].points;
            total = total + p as u64;
            if self.tasks[i].complete {
                earned = earned + p as u64;
            }
        }
        proof {
            assert(self.tasks@.subrange(0, nt as int) =~= self.tasks@);
        }
        (earned, total)
    }
}

/// Point sums are non-negative and earned points never exceed the total.
proof fn lemma_sum_bounds(tasks: Seq<Task>)
    ensures
        0 <= sum_points_complete(tasks) <= sum_points_all(tasks),
    decreases tasks.len(),
{
    if tasks.len() > 0 {
        lemma_sum_bounds(tasks.drop_last());
    }
}

} // verus!
