use vstd::prelude::*;

use crate::task::{Task, TaskList};
use crate::tree::{node_refs_ok, Forest, TreeNode};

verus! {

/// Child entries stay inside the node list and point forward, which grounds
/// recursion over subtrees.
pub open spec fn children_forward(nodes: Seq<TreeNode>) -> bool {
    forall|p: int, k: int|
        0 <= p < nodes.len() && 0 <= k < nodes[p].children@.len() ==> p < #[trigger] nodes[p].children@[k]
            < nodes.len()
}

/// The earlier of two optional times; absent only when both are absent.
pub open spec fn opt_min(a: Option<i64>, b: Option<i64>) -> Option<i64> {
    match (a, b) {
        (Some(x), Some(y)) => if x <= y {
            Some(x)
        } else {
            Some(y)
        },
        (Some(x), None) => Some(x),
        (None, y) => y,
    }
}

/// The later of two optional times; absent only when both are absent.
pub open spec fn opt_max(a: Option<i64>, b: Option<i64>) -> Option<i64> {
    match (a, b) {
        (Some(x), Some(y)) => if x >= y {
            Some(x)
        } else {
            Some(y)
        },
        (Some(x), None) => Some(x),
        (None, y) => y,
    }
}

/// The fully propagated window (start, due) of node `n`: a childless node
/// keeps its task's own stored values, a node with children takes the least
/// start and the greatest due over its children's propagated windows.
pub open spec fn computed_window(tasks: Seq<Task>, nodes: Seq<TreeNode>, n: int) -> (
    Option<i64>,
    Option<i64>,
)
    decreases nodes.len() - n, nodes[n].children@.len() + 1,
    when 0 <= n < nodes.len() && children_forward(nodes)
{
    if nodes[n].children@.len() == 0 {
        match nodes[n].task {
            Some(ti) => (tasks[ti as int].start_time, tasks[ti as int].due_date),
            None => (None, None),
        }
    } else {
        window_over_children(tasks, nodes, n, nodes[n].children@.len() as int)
    }
}

/// The combined propagated window over the first `k` children of node `n`.
pub open spec fn window_over_children(
    tasks: Seq<Task>,
    nodes: Seq<TreeNode>,
    n: int,
    k: int,
) -> (Option<i64>, Option<i64>)
    decreases nodes.len() - n, k,
    when 0 <= n < nodes.len() && 0 <= k <= nodes[n].children@.len() && children_forward(nodes)
{
    if k <= 0 {
        (None, None)
    } else {
        let prev = window_over_children(tasks, nodes, n, k - 1);
        let cw = computed_window(tasks, nodes, nodes[n].children@[k - 1] as int);
        (opt_min(prev.0, cw.0), opt_max(prev.1, cw.1))
    }
}

/// Node `d` lies in the subtree rooted at node `a`.
pub open spec fn in_subtree(nodes: Seq<TreeNode>, a: int, d: int) -> bool
    decreases nodes.len() - a,
    when 0 <= a < nodes.len() && children_forward(nodes)
{
    a == d || exists|k: int|
        0 <= k < nodes[a].children@.len() && in_subtree(
            nodes,
            #[trigger] nodes[a].children@[k] as int,
            d,
        )
}

/// The two tasks agree on everything except the schedule window.
pub open spec fn same_but_window(a: Task, b: Task) -> bool {
    &&& a.id == b.id
    &&& a.name == b.name
    &&& a.points == b.points
    &&& a.complete == b.complete
    &&& a.priority == b.priority
    &&& a.parent == b.parent
    &&& a.resources == b.resources
}

/// The value propagation writes onto the task of the internal node `d`.
pub open spec fn written_task(tasks0: Seq<Task>, nodes: Seq<TreeNode>, d: int) -> Task {
    Task {
        start_time: computed_window(tasks0, nodes, d).0,
        due_date: computed_window(tasks0, nodes, d).1,
        ..tasks0[nodes[d].task->0 as int]
    }
}

/// The task at index `ti` belongs to a node with children inside the subtree
/// of `n`, so propagation from `n` overwrites its window.
pub open spec fn written_in(nodes: Seq<TreeNode>, n: int, ti: int) -> bool {
    exists|d: int|
        1 <= d < nodes.len() && #[trigger] in_subtree(nodes, n, d) && nodes[d].children@.len() > 0
            && nodes[d].task->0 == ti
}

/// What propagation from node `n` does: every task of an internal node in the
/// subtree gets the window computed from the pre-state, every other task is
/// untouched, and no field outside the window changes anywhere.
pub open spec fn fit_post(
    tasks0: Seq<Task>,
    tasks1: Seq<Task>,
    nodes: Seq<TreeNode>,
    n: int,
) -> bool {
    &&& tasks1.len() == tasks0.len()
    &&& forall|ti: int|
        0 <= ti < tasks0.len() ==> same_but_window(#[trigger] tasks1[ti], tasks0[ti])
    &&& forall|d: int|
        1 <= d < nodes.len() && #[trigger] in_subtree(nodes, n, d) && nodes[d].children@.len() > 0
            ==> tasks1[nodes[d].task->0 as int] == written_task(tasks0, nodes, d)
    &&& forall|ti: int|
        0 <= ti < tasks0.len() && !written_in(nodes, n, ti) ==> #[trigger] tasks1[ti] == tasks0[ti]
}

/// The two collections give every childless node's task the same window.
pub open spec fn leaf_windows_equal(
    tasks0: Seq<Task>,
    tasks1: Seq<Task>,
    nodes: Seq<TreeNode>,
) -> bool {
    forall|d: int|
        1 <= d < nodes.len() && (#[trigger] nodes[d].children@).len() == 0 ==> {
            let ti = nodes[d].task->0 as int;
            tasks1[ti].start_time == tasks0[ti].start_time && tasks1[ti].due_date
                == tasks0[ti].due_date
        }
}

/// A childless node's task is overwritten by no propagation: only nodes with
/// children are written, and no two nodes share a task.
pub proof fn lemma_leaf_not_written(tasks: Seq<Task>, nodes: Seq<TreeNode>, m: int, d: int)
    requires
        node_refs_ok(tasks, nodes),
        1 <= d < nodes.len(),
        nodes[d].children@.len() == 0,
    ensures
        !written_in(nodes, m, nodes[d].task->0 as int),
{
    if written_in(nodes, m, nodes[d].task->0 as int) {
        let dd = choose|dd: int|
            1 <= dd < nodes.len() && #[trigger] in_subtree(nodes, m, dd) && nodes[dd].children@.len()
                > 0 && nodes[dd].task->0 == nodes[d].task->0 as int;
        assert(dd == d);
    }
}

/// The propagated window of a node depends only on the windows stored at the
/// childless nodes, which propagation never changes.
pub proof fn lemma_window_frame(
    tasks0: Seq<Task>,
    tasks1: Seq<Task>,
    nodes: Seq<TreeNode>,
    n: int,
)
    requires
        children_forward(nodes),
        nodes.len() >= 1,
        nodes[0].task is None,
        0 <= n < nodes.len(),
        leaf_windows_equal(tasks0, tasks1, nodes),
    ensures
        computed_window(tasks1, nodes, n) == computed_window(tasks0, nodes, n),
    decreases nodes.len() - n, nodes[n].children@.len() + 1,
{
    if nodes[n].children@.len() == 0 {
        if n >= 1 {
            assert(nodes[n].children@.len() == 0);
        }
    } else {
        lemma_window_frame_children(tasks0, tasks1, nodes, n, nodes[n].children@.len() as int);
    }
}

/// Helper for `lemma_window_frame`, over the first `k` children.
proof fn lemma_window_frame_children(
    tasks0: Seq<Task>,
    tasks1: Seq<Task>,
    nodes: Seq<TreeNode>,
    n: int,
    k: int,
)
    requires
        children_forward(nodes),
        nodes.len() >= 1,
        nodes[0].task is None,
        0 <= n < nodes.len(),
        0 <= k <= nodes[n].children@.len(),
        leaf_windows_equal(tasks0, tasks1, nodes),
    ensures
        window_over_children(tasks1, nodes, n, k) == window_over_children(tasks0, nodes, n, k),
    decreases nodes.len() - n, k,
{
    if k > 0 {
        lemma_window_frame_children(tasks0, tasks1, nodes, n, k - 1);
        lemma_window_frame(tasks0, tasks1, nodes, nodes[n].children@[k - 1] as int);
    }
}

/// With unchanged leaf windows and unchanged non-window fields, the value
/// propagation writes onto an internal node's task is the same.
pub proof fn lemma_written_task_stable(
    tasks0: Seq<Task>,
    tasks1: Seq<Task>,
    nodes: Seq<TreeNode>,
    d: int,
)
    requires
        children_forward(nodes),
        nodes.len() >= 1,
        nodes[0].task is None,
        0 <= d < nodes.len(),
        leaf_windows_equal(tasks0, tasks1, nodes),
        same_but_window(tasks1[nodes[d].task->0 as int], tasks0[nodes[d].task->0 as int]),
    ensures
        written_task(tasks1, nodes, d) == written_task(tasks0, nodes, d),
{
    lemma_window_frame(tasks0, tasks1, nodes, d);
}

/// The earlier/later of two optional times, as executable code.
pub fn opt_min_join(a: Option<i64>, b: Option<i64>) -> (r: Option<i64>)
    ensures
        r == opt_min(a, b),
{
    match (a, b) {
        (Some(x), Some(y)) => if x <= y {
            Some(x)
        } else {
            Some(y)
        },
        (Some(x), None) => Some(x),
        (None, y) => y,
    }
}

/// See `opt_min_join`.
pub fn opt_max_join(a: Option<i64>, b: Option<i64>) -> (r: Option<i64>)
    ensures
        r == opt_max(a, b),
{
    match (a, b) {
        (Some(x), Some(y)) => if x >= y {
            Some(x)
        } else {
            Some(y)
        },
        (Some(x), None) => Some(x),
        (None, y) => y,
    }
}

/// Nodes of the subtree of a child of `n`, looking only at the first `k`
/// children.
pub open spec fn subtree_of_prefix(nodes: Seq<TreeNode>, n: int, k: int, d: int) -> bool {
    exists|kk: int|
        0 <= kk < k && in_subtree(nodes, #[trigger] nodes[n].children@[kk] as int, d)
}

impl TaskList {
    /// Recomputes, bottom-up, the window of every task with children in the
    /// subtree of node `n`: `start_time` becomes the least start over the
    /// children's recomputed windows and `due_date` the greatest due date,
    /// each absent only when absent on every child. Childless tasks keep
    /// their own values untouched.
    pub fn fit_subtree(&mut self, forest: &Forest, n: usize)
        requires
            node_refs_ok(old(self).tasks@, forest.nodes@),
            children_forward(forest.nodes@),
            n < forest.nodes@.len(),
        ensures
            fit_post(old(self).tasks@, final(self).tasks@, forest.nodes@, n as int),
        decreases forest.nodes@.len() - n,
    {
        let ghost t0 = self.tasks@;
        let ghost nodes = forest.nodes@;
        let c_len = forest.nodes[n].children.len();
        if c_len == 0 {
            proof {
                assert forall|d: int|
                    1 <= d < nodes.len() && #[trigger] in_subtree(nodes, n as int, d)
                        && nodes[d].children@.len() > 0 implies self.tasks@[nodes[d].task->0 as int]
                    == written_task(t0, nodes, d) by {
                    assert(n as int == d);
                    assert(false);
                }
            }
            return ;
        }
        let mut start: Option<i64> = None;
        let mut due: Option<i64> = None;
        let mut k: usize = 0;
        while k < c_len
            invariant
                node_refs_ok(t0, nodes),
                children_forward(nodes),
                n < nodes.len(),
                nodes == forest.nodes@,
                c_len == nodes[n as int].children@.len(),
                k <= c_len,
                self.tasks@.len() == t0.len(),
                forall|ti: int|
                    0 <= ti < t0.len() ==> same_but_window(#[trigger] self.tasks@[ti], t0[ti]),
                forall|ti: int|
                    0 <= ti < t0.len() && !written_in(nodes, n as int, ti)
                        ==> #[trigger] self.tasks@[ti] == t0[ti],
                forall|d: int|
                    1 <= d < nodes.len() && #[trigger] subtree_of_prefix(nodes, n as int, k as int, d)
                        && nodes[d].children@.len() > 0 ==> self.tasks@[nodes[d].task->0 as int]
                        == written_task(t0, nodes, d),
                (start, due) == window_over_children(t0, nodes, n as int, k as int),
            decreases c_len - k,
        {
            let c = forest.nodes[n].children[k];
            let ghost t_pre = self.tasks@;
            proof {
                assert(n < c < nodes.len());
                assert(node_refs_ok(t_pre, nodes)) by {
                    assert forall|m: int|
                        1 <= m < nodes.len() implies (#[trigger] nodes[m].task) is Some
                        && nodes[m].task->0 < t_pre.len() by {}
                }
                assert(leaf_windows_equal(t0, t_pre, nodes)) by {
                    assert forall|d: int|
                        1 <= d < nodes.len() && (#[trigger] nodes[d].children@).len()
                            == 0 implies t_pre[nodes[d].task->0 as int] == t0[nodes[d].task->0 as int] by {
                        lemma_leaf_not_written(t0, nodes, n as int, d);
                    }
                }
            }
            self.fit_subtree(forest, c);
            proof {
                let t_now = self.tasks@;
                // The subtree of `c` lies inside the subtree of `n`.
                assert forall|d: int| #[trigger]
                    in_subtree(nodes, c as int, d) implies in_subtree(nodes, n as int, d) by {
                    assert(nodes[n as int].children@[k as int] == c);
                }
                assert forall|ti: int|
                    0 <= ti < t0.len() && !written_in(nodes, n as int, ti)
                        implies #[trigger] t_now[ti] == t0[ti] by {
                    if written_in(nodes, c as int, ti) {
                        let dd = choose|dd: int|
                            1 <= dd < nodes.len() && #[trigger] in_subtree(nodes, c as int, dd)
                                && nodes[dd].children@.len() > 0 && nodes[dd].task->0 == ti;
                        assert(in_subtree(nodes, n as int, dd));
                        assert(written_in(nodes, n as int, ti));
                    }
                    assert(t_now[ti] == t_pre[ti]);
                }
                assert(leaf_windows_equal(t0, t_now, nodes)) by {
                    assert forall|d: int|
                        1 <= d < nodes.len() && (#[trigger] nodes[d].children@).len()
                            == 0 implies t_now[nodes[d].task->0 as int] == t0[nodes[d].task->0 as int] by {
                        lemma_leaf_not_written(t0, nodes, n as int, d);
                    }
                }
                // Every internal node already written keeps the value computed
                // from the entry state, and the whole subtree of `c` now has it.
                assert forall|d: int|
                    1 <= d < nodes.len() && #[trigger] subtree_of_prefix(
                        nodes,
                        n as int,
                        k as int + 1,
                        d,
                    ) && nodes[d].children@.len() > 0 implies t_now[nodes[d].task->0 as int]
                    == written_task(t0, nodes, d) by {
                    let ti = nodes[d].task->0 as int;
                    if in_subtree(nodes, c as int, d) {
                        assert(t_now[ti] == written_task(t_pre, nodes, d));
                        lemma_written_task_stable(t0, t_pre, nodes, d);
                    } else {
                        let kk = choose|kk: int|
                            0 <= kk < k as int + 1 && in_subtree(
                                nodes,
                                #[trigger] nodes[n as int].children@[kk] as int,
                                d,
                            );
                        assert(kk < k as int);
                        assert(subtree_of_prefix(nodes, n as int, k as int, d));
                        assert(t_pre[ti] == written_task(t0, nodes, d));
                        if written_in(nodes, c as int, ti) {
                            let dd = choose|dd: int|
                                1 <= dd < nodes.len() && #[trigger] in_subtree(nodes, c as int, dd)
                                    && nodes[dd].children@.len() > 0 && nodes[dd].task->0 == ti;
                            assert(dd == d);
                            assert(t_now[ti] == written_task(t_pre, nodes, d));
                            lemma_written_task_stable(t0, t_pre, nodes, d);
                        } else {
                            assert(t_now[ti] == t_pre[ti]);
                        }
                    }
                }
            }
            let tc = forest.nodes[c].task.unwrap();
            let cs = self.tasks[tc].start_time;
            let cd = self.tasks[tc].due_date;
            proof {
                // The child's stored window now equals its computed window
                // over the entry state.
                let cw = computed_window(t0, nodes, c as int);
                if nodes[c as int].children@.len() == 0 {
                    lemma_leaf_not_written(t0, nodes, n as int, c as int);
                    lemma_leaf_not_written(t_pre, nodes, c as int, c as int);
                    assert(self.tasks@[tc as int] == t0[tc as int]);
                    assert((cs, cd) == cw);
                } else {
                    assert(in_subtree(nodes, c as int, c as int));
                    assert(self.tasks@[tc as int] == written_task(t_pre, nodes, c as int));
                    lemma_window_frame(t0, t_pre, nodes, c as int);
                    assert((cs, cd) == cw);
                }
            }
            start = opt_min_join(start, cs);
            due = opt_max_join(due, cd);
            k = k + 1;
        }
        if n > 0 {
            let ti = forest.nodes[n].task.unwrap();
            let ghost t_fin = self.tasks@;
            self.tasks[ti].start_time = start;
            self.tasks[ti].due_date = due;
            proof {
                assert(self.tasks@ =~= t_fin.update(
                    ti as int,
                    Task { start_time: start, due_date: due, ..t_fin[ti as int] },
                ));
                lemma_fit_post_final(t0, t_fin, self.tasks@, nodes, n as int, ti as int, start, due);
            }
        } else {
            proof {
                assert forall|d: int|
                    1 <= d < nodes.len() && #[trigger] in_subtree(nodes, 0, d)
                        && nodes[d].children@.len() > 0 implies self.tasks@[nodes[d].task->0 as int]
                    == written_task(t0, nodes, d) by {
                    assert(subtree_of_prefix(nodes, 0, c_len as int, d));
                }
            }
        }
    }
}

/// After the children of `n` are fitted and the accumulated window is written
/// onto `n`'s own task, propagation from `n` is complete.
proof fn lemma_fit_post_final(
    t0: Seq<Task>,
    t_fin: Seq<Task>,
    t_end: Seq<Task>,
    nodes: Seq<TreeNode>,
    n: int,
    ti: int,
    start: Option<i64>,
    due: Option<i64>,
)
    requires
        node_refs_ok(t0, nodes),
        children_forward(nodes),
        1 <= n < nodes.len(),
        nodes[n].children@.len() > 0,
        nodes[n].task->0 == ti,
        t_fin.len() == t0.len(),
        forall|tx: int| 0 <= tx < t0.len() ==> same_but_window(#[trigger] t_fin[tx], t0[tx]),
        forall|tx: int|
            0 <= tx < t0.len() && !written_in(nodes, n, tx) ==> #[trigger] t_fin[tx] == t0[tx],
        forall|d: int|
            1 <= d < nodes.len() && #[trigger] subtree_of_prefix(
                nodes,
                n,
                nodes[n].children@.len() as int,
                d,
            ) && nodes[d].children@.len() > 0 ==> t_fin[nodes[d].task->0 as int] == written_task(
                t0,
                nodes,
                d,
            ),
        (start, due) == window_over_children(t0, nodes, n, nodes[n].children@.len() as int),
        t_end == t_fin.update(
            ti,
            Task { start_time: start, due_date: due, ..t_fin[ti] },
        ),
    ensures
        fit_post(t0, t_end, nodes, n),
{
    assert(in_subtree(nodes, n, n));
    assert(written_in(nodes, n, ti));
    assert(computed_window(t0, nodes, n) == window_over_children(
        t0,
        nodes,
        n,
        nodes[n].children@.len() as int,
    ));
    assert(t_end[ti] == written_task(t0, nodes, n));
    assert forall|d: int|
        1 <= d < nodes.len() && #[trigger] in_subtree(nodes, n, d) && nodes[d].children@.len()
            > 0 implies t_end[nodes[d].task->0 as int] == written_task(t0, nodes, d) by {
        if d == n {
        } else {
            assert(subtree_of_prefix(nodes, n, nodes[n].children@.len() as int, d));
            assert(nodes[d].task->0 != ti);
        }
    }
}

/// Interval propagation is idempotent: a second propagation from the same
/// node, run on the outcome of the first, changes nothing.
pub proof fn lemma_fit_idempotent(
    t0: Seq<Task>,
    t1: Seq<Task>,
    t2: Seq<Task>,
    nodes: Seq<TreeNode>,
    n: int,
)
    requires
        node_refs_ok(t0, nodes),
        children_forward(nodes),
        0 <= n < nodes.len(),
        fit_post(t0, t1, nodes, n),
        fit_post(t1, t2, nodes, n),
    ensures
        t2 =~= t1,
{
    assert(leaf_windows_equal(t0, t1, nodes)) by {
        assert forall|d: int|
            1 <= d < nodes.len() && (#[trigger] nodes[d].children@).len() == 0 implies t1[nodes[d].task->0 as int]
            == t0[nodes[d].task->0 as int] by {
            lemma_leaf_not_written(t0, nodes, n, d);
        }
    }
    assert forall|ti: int| 0 <= ti < t1.len() implies t2[ti] == t1[ti] by {
        if written_in(nodes, n, ti) {
            let d = choose|d: int|
                1 <= d < nodes.len() && #[trigger] in_subtree(nodes, n, d)
                    && nodes[d].children@.len() > 0 && nodes[d].task->0 == ti;
            assert(t1[ti] == written_task(t0, nodes, d));
            assert(t2[ti] == written_task(t1, nodes, d));
            lemma_written_task_stable(t0, t1, nodes, d);
        } else {
            assert(t1[ti] == t0[ti]);
            assert(t2[ti] == t1[ti]);
        }
    }
}

/// Monotonic widening up the tree: the propagated window of any node spans
/// the stored window of every childless node in its subtree, so an ancestor's
/// start is at or before each descendant leaf's own start, and its due date
/// at or after each descendant leaf's own due date.
pub proof fn lemma_window_spans_leaves(tasks: Seq<Task>, nodes: Seq<TreeNode>, n: int, d: int)
    requires
        children_forward(nodes),
        0 <= n < nodes.len(),
        1 <= d < nodes.len(),
        in_subtree(nodes, n, d),
        nodes[d].children@.len() == 0,
        nodes[d].task is Some,
    ensures
        ({
            let leaf = tasks[nodes[d].task->0 as int];
            let w = computed_window(tasks, nodes, n);
            &&& leaf.start_time is Some ==> w.0 is Some && w.0->0 <= leaf.start_time->0
            &&& leaf.due_date is Some ==> w.1 is Some && w.1->0 >= leaf.due_date->0
        }),
    decreases nodes.len() - n,
{
    if n == d {
    } else {
        let k = choose|k: int|
            0 <= k < nodes[n].children@.len() && in_subtree(
                nodes,
                #[trigger] nodes[n].children@[k] as int,
                d,
            );
        let c = nodes[n].children@[k] as int;
        lemma_window_spans_leaves(tasks, nodes, c, d);
        lemma_child_in_window(tasks, nodes, n, k, nodes[n].children@.len() as int);
    }
}

/// The combined window over the first `j` children of `n` spans the computed
/// window of the child at position `k < j`.
proof fn lemma_child_in_window(tasks: Seq<Task>, nodes: Seq<TreeNode>, n: int, k: int, j: int)
    requires
        children_forward(nodes),
        0 <= n < nodes.len(),
        0 <= k < j <= nodes[n].children@.len(),
    ensures
        ({
            let cw = computed_window(tasks, nodes, nodes[n].children@[k] as int);
            let w = window_over_children(tasks, nodes, n, j);
            &&& cw.0 is Some ==> w.0 is Some && w.0->0 <= cw.0->0
            &&& cw.1 is Some ==> w.1 is Some && w.1->0 >= cw.1->0
        }),
    decreases j,
{
    if j == k + 1 {
    } else {
        lemma_child_in_window(tasks, nodes, n, k, j - 1);
    }
}

/// After propagation from `n`, every task with children in the subtree
/// stores a window that spans each of its descendant leaves' own stored
/// windows: start at or before every leaf start, due date at or after every
/// leaf due date.
pub proof fn lemma_fit_monotone(
    t0: Seq<Task>,
    t1: Seq<Task>,
    nodes: Seq<TreeNode>,
    n: int,
    a: int,
    d: int,
)
    requires
        node_refs_ok(t0, nodes),
        children_forward(nodes),
        0 <= n < nodes.len(),
        fit_post(t0, t1, nodes, n),
        1 <= a < nodes.len(),
        in_subtree(nodes, n, a),
        nodes[a].children@.len() > 0,
        1 <= d < nodes.len(),
        in_subtree(nodes, a, d),
        nodes[d].children@.len() == 0,
    ensures
        ({
            let anc = t1[nodes[a].task->0 as int];
            let leaf = t1[nodes[d].task->0 as int];
            &&& leaf.start_time is Some ==> anc.start_time is Some && anc.start_time->0
                <= leaf.start_time->0
            &&& leaf.due_date is Some ==> anc.due_date is Some && anc.due_date->0
                >= leaf.due_date->0
        }),
{
    lemma_leaf_not_written(t0, nodes, n, d);
    assert(t1[nodes[d].task->0 as int] == t0[nodes[d].task->0 as int]);
    assert(t1[nodes[a].task->0 as int] == written_task(t0, nodes, a));
    lemma_window_spans_leaves(t0, nodes, a, d);
}

} // verus!
