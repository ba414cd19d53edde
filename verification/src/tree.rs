use vstd::prelude::*;

use crate::errors::PlannerError;
use crate::task::{distinct_ids, has_id, index_of_id, Task, TaskList};

verus! {

/// One node of the derived forest. `task` is the index (into the collection's
/// task sequence) of the task this node stands for, or `None` for the single
/// synthetic root; `children` holds the indices of the direct children in the
/// node list.
pub struct TreeNode {
    pub task: Option<usize>,
    pub children: Vec<usize>,
}

/// The rooted forest derived from a task collection: node 0 is the synthetic
/// root, and every other node stands for exactly one task.
pub struct Forest {
    pub nodes: Vec<TreeNode>,
}

/// The parent reference of the task at index `ti`, resolved against the
/// collection: a dangling id (no task carries it) counts as no parent.
pub open spec fn spec_resolved_parent(tasks: Seq<Task>, ti: int) -> Option<usize> {
    match tasks[ti].parent {
        Some(p) => if has_id(tasks, p) {
            Some(p)
        } else {
            None
        },
        None => None,
    }
}

/// Following resolved parent links from the task at index `ti` reaches a
/// root-level task within `fuel` steps.
pub open spec fn steps_to_root(tasks: Seq<Task>, ti: int, fuel: nat) -> bool
    decreases fuel,
{
    match spec_resolved_parent(tasks, ti) {
        None => true,
        Some(p) => fuel > 0 && steps_to_root(
            tasks,
            index_of_id(tasks, p),
            (fuel - 1) as nat,
        ),
    }
}

/// The resolved parent chain of the task at index `ti` reaches a root.
pub open spec fn can_reach_root(tasks: Seq<Task>, ti: int) -> bool {
    exists|fuel: nat| steps_to_root(tasks, ti, fuel)
}

/// Every task's resolved parent chain reaches a root: the parent relation is
/// acyclic once dangling references are read as "no parent".
pub open spec fn resolvable(tasks: Seq<Task>) -> bool {
    forall|ti: int| 0 <= ti < tasks.len() ==> can_reach_root(tasks, ti)
}

/// Node 0 is the synthetic root, every other node references a distinct
/// existing task.
pub open spec fn node_refs_ok(tasks: Seq<Task>, nodes: Seq<TreeNode>) -> bool {
    &&& nodes.len() >= 1
    &&& nodes[0].task is None
    &&& forall|n: int|
        1 <= n < nodes.len() ==> (#[trigger] nodes[n].task) is Some && nodes[n].task->0
            < tasks.len()
    &&& forall|n1: int, n2: int|
        #![trigger nodes[n1].task, nodes[n2].task]
        1 <= n1 < n2 < nodes.len() ==> nodes[n1].task->0 != nodes[n2].task->0
}

/// The node `c` hangs under the node that its task's resolved parent names:
/// under the synthetic root when the task is root-level, else under the node
/// whose task carries the parent id.
pub open spec fn child_link_ok(tasks: Seq<Task>, nodes: Seq<TreeNode>, p: int, c: int) -> bool {
    match spec_resolved_parent(tasks, nodes[c].task->0 as int) {
        None => p == 0,
        Some(pid) => nodes[p].task is Some && tasks[nodes[p].task->0 as int].id == pid,
    }
}

/// Child entries point forward (a child node comes after its parent in the
/// node list), are globally distinct, and respect the parent links.
pub open spec fn children_ok(tasks: Seq<Task>, nodes: Seq<TreeNode>) -> bool {
    &&& forall|p: int, k: int|
        0 <= p < nodes.len() && 0 <= k < nodes[p].children@.len() ==> p < #[trigger] nodes[p].children@[k]
            < nodes.len()
    &&& forall|p1: int, k1: int, p2: int, k2: int|
        0 <= p1 < nodes.len() && 0 <= k1 < nodes[p1].children@.len() && 0 <= p2 < nodes.len() && 0
            <= k2 < nodes[p2].children@.len() && !(p1 == p2 && k1 == k2) ==> #[trigger] nodes[p1].children@[k1]
            != #[trigger] nodes[p2].children@[k2]
    &&& forall|p: int, k: int|
        #![trigger nodes[p].children@[k]]
        0 <= p < nodes.len() && 0 <= k < nodes[p].children@.len() ==> child_link_ok(
            tasks,
            nodes,
            p,
            nodes[p].children@[k] as int,
        )
}

/// The node `c` stands in some node's child list.
pub open spec fn placed_as_child(nodes: Seq<TreeNode>, c: int) -> bool {
    exists|p: int, k: int|
        0 <= p < nodes.len() && 0 <= k < nodes[p].children@.len() && #[trigger] nodes[p].children@[k]
            == c
}

/// Some node stands for the task at index `ti`.
pub open spec fn task_placed(nodes: Seq<TreeNode>, ti: usize) -> bool {
    exists|n: int| 1 <= n < nodes.len() && (#[trigger] nodes[n].task) == Some(ti)
}

/// Some non-root node's task carries the id `pid`.
pub open spec fn node_with_id(tasks: Seq<Task>, nodes: Seq<TreeNode>, pid: usize) -> bool {
    exists|n: int|
        1 <= n < nodes.len() && (#[trigger] nodes[n].task) is Some && tasks[nodes[n].task->0 as int].id
            == pid
}

/// A structurally sound forest over `tasks`.
pub open spec fn forest_wf(tasks: Seq<Task>, nodes: Seq<TreeNode>) -> bool {
    &&& node_refs_ok(tasks, nodes)
    &&& children_ok(tasks, nodes)
    &&& forall|c: int| 1 <= c < nodes.len() ==> placed_as_child(nodes, c)
}

/// The forest covers the whole collection: every task is placed, and (with
/// `node_refs_ok`) exactly once.
pub open spec fn forest_complete(tasks: Seq<Task>, nodes: Seq<TreeNode>) -> bool {
    &&& nodes.len() == tasks.len() + 1
    &&& forall|ti: usize| ti < tasks.len() ==> task_placed(nodes, ti)
}

impl Forest {
    /// The forest is sound and covers every task of `tasks` exactly once.
    pub open spec fn wf(&self, tasks: Seq<Task>) -> bool {
        &&& forest_wf(tasks, self.nodes@)
        &&& forest_complete(tasks, self.nodes@)
    }
}

/// The rolling state of the builder: sound partial forest, every unplaced
/// index valid and listed once, placement and the pending queue partition the
/// task set, and every placed task's chain reaches a root.
spec fn build_state_ok(tasks: Seq<Task>, nodes: Seq<TreeNode>, unplaced: Seq<usize>) -> bool {
    &&& node_refs_ok(tasks, nodes)
    &&& children_ok(tasks, nodes)
    &&& forall|c: int| 1 <= c < nodes.len() ==> placed_as_child(nodes, c)
    &&& forall|n: int|
        1 <= n < nodes.len() ==> can_reach_root(tasks, (#[trigger] nodes[n].task)->0 as int)
    &&& forall|j: int| 0 <= j < unplaced.len() ==> #[trigger] unplaced[j] < tasks.len()
    &&& forall|j1: int, j2: int| 0 <= j1 < j2 < unplaced.len() ==> unplaced[j1] != unplaced[j2]
    &&& forall|ti: usize| ti < tasks.len() ==> (task_placed(nodes, ti) <==> !unplaced.contains(ti))
    &&& nodes.len() + unplaced.len() == tasks.len() + 1
}

impl TaskList {
    /// The resolved parent of the task at position `ti`: its `parent` id if
    /// some task carries that id, `None` otherwise.
    pub fn resolved_parent(&self, ti: usize) -> (r: Option<usize>)
        requires
            ti < self.tasks@.len(),
        ensures
            r == spec_resolved_parent(self.tasks@, ti as int),
    {
        match self.tasks[ti].parent {
            Some(p) => {
                if self.contains_id(p) {
                    Some(p)
                } else {
                    None
                }
            },
            None => None,
        }
    }
}

/// The position of the non-root node whose task carries the id `pid`, if any.
fn find_node(tasks: &Vec<Task>, nodes: &Vec<TreeNode>, pid: usize) -> (r: Option<usize>)
    requires
        node_refs_ok(tasks@, nodes@),
    ensures
        r is Some <==> node_with_id(tasks@, nodes@, pid),
        r is Some ==> 1 <= r->0 < nodes@.len() && nodes@[r->0 as int].task is Some && tasks@[nodes@[r->0 as int].task->0 as int].id == pid,
{
    let n = nodes.len();
    for i in 1..n
        invariant
            n == nodes@.len(),
            node_refs_ok(tasks@, nodes@),
            forall|m: int|
                1 <= m < i ==> !((#[trigger] nodes@[m].task) is Some
                    && tasks@[nodes@[m].task->0 as int].id == pid),
    {
        match nodes[i].task {
            Some(ti) => {
                if tasks[ti].id == pid {
                    return Some(i);
                }
            },
            None => {},
        }
    }
    None
}

/// If every task in `pend` has a resolved parent whose task is itself in
/// `pend`, no chain out of `pend` ever reaches a root.
proof fn lemma_stuck_unreachable(tasks: Seq<Task>, pend: Seq<usize>, ti: usize, fuel: nat)
    requires
        distinct_ids(tasks),
        tasks.len() <= usize::MAX,
        forall|j: int| 0 <= j < pend.len() ==> #[trigger] pend[j] < tasks.len(),
        forall|j: int|
            0 <= j < pend.len() ==> (#[trigger] spec_resolved_parent(tasks, pend[j] as int))
                is Some && pend.contains(
                index_of_id(tasks, spec_resolved_parent(tasks, pend[j] as int)->0) as usize,
            ),
        pend.contains(ti),
    ensures
        !steps_to_root(tasks, ti as int, fuel),
    decreases fuel,
{
    let j = choose|j: int| 0 <= j < pend.len() && pend[j] == ti;
    assert(0 <= j < pend.len() && pend[j] == ti);
    let rp = spec_resolved_parent(tasks, ti as int);
    assert(rp is Some && pend.contains(index_of_id(tasks, rp->0) as usize)) by {
        assert(spec_resolved_parent(tasks, pend[j] as int) == rp);
    }
    assert(has_id(tasks, rp->0));
    let pi = index_of_id(tasks, rp->0);
    assert(0 <= pi < tasks.len() && tasks[pi].id == rp->0);
    if fuel > 0 {
        lemma_stuck_unreachable(tasks, pend, pi as usize, (fuel - 1) as nat);
        assert(!steps_to_root(tasks, pi, (fuel - 1) as nat));
    }
}

impl TaskList {
    /// Derives the rooted forest of the collection: the synthetic root's
    /// children are the tasks whose resolved parent is `None`, and every other
    /// task hangs under the node holding its parent id. Succeeds exactly when
    /// the resolved parent relation is acyclic; a cycle is detected and
    /// reported instead of looping.
    pub fn build_forest(&self) -> (r: Result<Forest, PlannerError>)
        requires
            self.wf(),
        ensures
            r is Ok <==> resolvable(self.tasks@),
            r is Ok ==> r->Ok_0.wf(self.tasks@),
            r is Err ==> r->Err_0 == PlannerError::CyclicHierarchy,
    {
        let n = self.tasks.len();
        let mut nodes: Vec<TreeNode> = Vec::new();
        nodes.push(TreeNode { task: None, children: Vec::new() });
        let mut pending: Vec<usize> = Vec::new();
        for i in 0..n
            invariant
                n == self.tasks@.len(),
                pending@.len() == i,
                forall|j: int| 0 <= j < i ==> #[trigger] pending@[j] == j,
        {
            pending.push(i);
        }
        proof {
            assert forall|ti: usize| ti < self.tasks@.len() implies (task_placed(nodes@, ti)
                <==> !pending@.contains(ti)) by {
                assert(pending@[ti as int] == ti);
            }
        }
        loop
            invariant
                self.wf(),
                n == self.tasks@.len(),
                build_state_ok(self.tasks@, nodes@, pending@),
            decreases pending@.len(),
        {
            if pending.len() == 0 {
                proof {
                    assert forall|ti: usize| ti < self.tasks@.len() implies task_placed(nodes@, ti) by {
                        assert(!pending@.contains(ti));
                    }
                    assert forall|ti: int| 0 <= ti < self.tasks@.len() implies can_reach_root(
                        self.tasks@,
                        ti,
                    ) by {
                        assert(task_placed(nodes@, ti as usize));
                        let m = choose|m: int|
                            1 <= m < nodes@.len() && nodes@[m].task == Some(ti as usize);
                        assert(can_reach_root(self.tasks@, nodes@[m].task->0 as int));
                    }
                }
                return Ok(Forest { nodes });
            }
            let ghost nodes0 = nodes@;
            let mut next_pending: Vec<usize> = Vec::new();
            let mut progress = false;
            let plen = pending.len();
            proof {
                assert(next_pending@ + pending@.subrange(0, plen as int) =~= pending@);
            }
            for j in 0..plen
                invariant
                    self.wf(),
                    n == self.tasks@.len(),
                    plen == pending@.len(),
                    build_state_ok(
                        self.tasks@,
                        nodes@,
                        next_pending@ + pending@.subrange(j as int, plen as int),
                    ),
                    nodes@.len() >= nodes0.len(),
                    progress <==> nodes@.len() > nodes0.len(),
                    !progress ==> nodes@ == nodes0 && next_pending@ == pending@.subrange(
                        0,
                        j as int,
                    ),
                    !progress ==> forall|q: int|
                        0 <= q < j ==> (#[trigger] spec_resolved_parent(self.tasks@, pending@[q] as int))
                            is Some && !node_with_id(
                            self.tasks@,
                            nodes@,
                            spec_resolved_parent(self.tasks@, pending@[q] as int)->0,
                        ),
            {
                let ghost unplaced_pre = next_pending@ + pending@.subrange(j as int, plen as int);
                let ti = pending[j];
                assert(unplaced_pre[next_pending@.len() as int] == ti);
                assert(ti < n);
                let rp = self.resolved_parent(ti);
                let target: Option<usize> = match rp {
                    None => Some(0),
                    Some(pid) => find_node(&self.tasks, &nodes, pid),
                };
                match target {
                    Some(p) => {
                        let ni = nodes.len();
                        assert(p < ni);
                        let ghost nodes_pre = nodes@;
                        nodes[p].children.push(ni);
                        nodes.push(TreeNode { task: Some(ti), children: Vec::new() });
                        progress = true;
                        let post_len = nodes.len();
                        assert(post_len == ni + 1);
                        proof {
                            let unplaced_post = next_pending@ + pending@.subrange(
                                j as int + 1,
                                plen as int,
                            );
                            let pos = next_pending@.len() as int;
                            assert(unplaced_post =~= unplaced_pre.subrange(0, pos)
                                + unplaced_pre.subrange(pos + 1, unplaced_pre.len() as int));
                            assert(nodes@[p as int].task == nodes_pre[p as int].task);
                            assert(nodes@[p as int].children@ =~= nodes_pre[p as int].children@.push(
                                ni,
                            ));
                            assert(nodes@[ni as int].children@ =~= Seq::<usize>::empty());
                            assert(forall|q: int|
                                0 <= q < nodes_pre.len() && q != p ==> nodes@[q] == nodes_pre[q]);
                            lemma_place_step(
                                self.tasks@,
                                nodes_pre,
                                nodes@,
                                unplaced_pre,
                                unplaced_post,
                                pos,
                                p as int,
                                ti,
                            );
                        }
                    },
                    None => {
                        next_pending.push(ti);
                        proof {
                            let up_post = next_pending@ + pending@.subrange(
                                j as int + 1,
                                plen as int,
                            );
                            assert(up_post =~= unplaced_pre);
                        }
                    },
                }
            }
            if !progress {
                proof {
                    let pend = pending@;
                    assert(next_pending@ + pending@.subrange(plen as int, plen as int)
                        =~= pend) by {
                        assert(pending@.subrange(0, plen as int) =~= pend);
                    }
                    assert(build_state_ok(self.tasks@, nodes@, pend));
                    assert forall|q: int| 0 <= q < pend.len() implies (
                    #[trigger] spec_resolved_parent(self.tasks@, pend[q] as int)) is Some
                        && pend.contains(
                        index_of_id(
                            self.tasks@,
                            spec_resolved_parent(self.tasks@, pend[q] as int)->0,
                        ) as usize,
                    ) by {
                        let rp = spec_resolved_parent(self.tasks@, pend[q] as int);
                        assert(rp is Some && !node_with_id(self.tasks@, nodes@, rp->0));
                        let pid = rp->0;
                        assert(has_id(self.tasks@, pid));
                        let pi = index_of_id(self.tasks@, pid);
                        assert(0 <= pi < self.tasks@.len() && self.tasks@[pi].id == pid);
                        if task_placed(nodes@, pi as usize) {
                            let m = choose|m: int|
                                1 <= m < nodes@.len() && nodes@[m].task == Some(pi as usize);
                            assert(nodes@[m].task is Some && self.tasks@[nodes@[m].task->0 as int].id
                                == pid);
                            assert(node_with_id(self.tasks@, nodes@, pid));
                        }
                        assert(pend.contains(pi as usize));
                    }
                    let t0 = pend[0];
                    assert(pend.contains(t0));
                    assert forall|fuel: nat| !steps_to_root(self.tasks@, t0 as int, fuel) by {
                        lemma_stuck_unreachable(self.tasks@, pend, t0, fuel);
                    }
                    assert(!can_reach_root(self.tasks@, t0 as int));
                    assert(!resolvable(self.tasks@));
                }
                return Err(PlannerError::CyclicHierarchy);
            }
            pending = next_pending;
        }
    }
}

/// Placing one unplaced task as a fresh node under the node its resolved
/// parent names keeps the builder's state sound.
proof fn lemma_place_step(
    tasks: Seq<Task>,
    nodes0: Seq<TreeNode>,
    nodes1: Seq<TreeNode>,
    unplaced0: Seq<usize>,
    unplaced1: Seq<usize>,
    pos: int,
    p: int,
    ti: usize,
)
    requires
        distinct_ids(tasks),
        build_state_ok(tasks, nodes0, unplaced0),
        nodes0.len() < usize::MAX,
        0 <= pos < unplaced0.len(),
        unplaced0[pos] == ti,
        ti < tasks.len(),
        unplaced1 =~= unplaced0.subrange(0, pos) + unplaced0.subrange(
            pos + 1,
            unplaced0.len() as int,
        ),
        0 <= p < nodes0.len(),
        match spec_resolved_parent(tasks, ti as int) {
            None => p == 0,
            Some(pid) => 1 <= p && nodes0[p].task is Some && tasks[nodes0[p].task->0 as int].id
                == pid,
        },
        nodes1.len() == nodes0.len() + 1,
        nodes1[nodes0.len() as int].task == Some(ti),
        nodes1[nodes0.len() as int].children@ =~= Seq::<usize>::empty(),
        nodes1[p].task == nodes0[p].task,
        nodes1[p].children@ =~= nodes0[p].children@.push(nodes0.len() as usize),
        forall|q: int| 0 <= q < nodes0.len() && q != p ==> nodes1[q] == nodes0[q],
    ensures
        build_state_ok(tasks, nodes1, unplaced1),
{
    let len0 = nodes0.len() as int;
    let ni = nodes0.len() as usize;
    assert(ni as int == len0);
    let rp = spec_resolved_parent(tasks, ti as int);

    assert(unplaced0.contains(ti));
    assert(!task_placed(nodes0, ti));

    // Task references stay valid and distinct.
    assert forall|n: int| 1 <= n < nodes1.len() implies (#[trigger] nodes1[n].task) is Some
        && nodes1[n].task->0 < tasks.len() by {
        if n < len0 {
            assert(nodes1[n].task == nodes0[n].task);
        }
    }
    assert forall|n1: int, n2: int| 1 <= n1 < n2 < nodes1.len() implies #[trigger] nodes1[n1].task->0
        != #[trigger] nodes1[n2].task->0 by {
        if n2 < len0 {
            assert(nodes1[n1].task == nodes0[n1].task && nodes1[n2].task == nodes0[n2].task);
        } else {
            assert(nodes1[n1].task == nodes0[n1].task);
            if nodes0[n1].task->0 == ti {
                assert(nodes0[n1].task == Some(ti));
                assert(task_placed(nodes0, ti));
            }
        }
    }

    // Child entries stay forward-pointing, distinct and correctly linked.
    assert forall|q: int, k: int|
        0 <= q < nodes1.len() && 0 <= k < nodes1[q].children@.len() implies q
        < #[trigger] nodes1[q].children@[k] < nodes1.len() && nodes1[q].children@[k] <= ni by {
        if q == p && k == nodes0[p].children@.len() {
            assert(nodes1[q].children@[k] == ni);
        } else if q < len0 {
            assert(nodes1[q].children@[k] == nodes0[q].children@[k]);
        }
    }
    assert forall|p1: int, k1: int, p2: int, k2: int|
        0 <= p1 < nodes1.len() && 0 <= k1 < nodes1[p1].children@.len() && 0 <= p2 < nodes1.len()
            && 0 <= k2 < nodes1[p2].children@.len() && !(p1 == p2 && k1 == k2)
        implies #[trigger] nodes1[p1].children@[k1] != #[trigger] nodes1[p2].children@[k2] by {
        let new1 = p1 == p && k1 == nodes0[p].children@.len();
        let new2 = p2 == p && k2 == nodes0[p].children@.len();
        if new1 && !new2 {
            assert(nodes1[p2].children@[k2] == nodes0[p2].children@[k2]);
            assert(nodes0[p2].children@[k2] < len0);
        } else if !new1 && new2 {
            assert(nodes1[p1].children@[k1] == nodes0[p1].children@[k1]);
            assert(nodes0[p1].children@[k1] < len0);
        } else if !new1 && !new2 {
            assert(nodes1[p1].children@[k1] == nodes0[p1].children@[k1]);
            assert(nodes1[p2].children@[k2] == nodes0[p2].children@[k2]);
        }
    }
    assert forall|q: int, k: int|
        #![trigger nodes1[q].children@[k]]
        0 <= q < nodes1.len() && 0 <= k < nodes1[q].children@.len() implies child_link_ok(
        tasks,
        nodes1,
        q,
        nodes1[q].children@[k] as int,
    ) by {
        if q == p && k == nodes0[p].children@.len() {
            assert(nodes1[q].children@[k] == ni);
            assert(nodes1[ni as int].task == Some(ti));
        } else {
            assert(nodes1[q].children@[k] == nodes0[q].children@[k]);
            let c = nodes0[q].children@[k] as int;
            assert(child_link_ok(tasks, nodes0, q, c));
            assert(nodes1[c].task == nodes0[c].task);
            assert(nodes1[q].task == nodes0[q].task);
        }
    }

    // Every non-root node still stands in exactly one child list.
    assert forall|c: int| 1 <= c < nodes1.len() implies placed_as_child(nodes1, c) by {
        if c < len0 {
            assert(placed_as_child(nodes0, c));
            let (q, k): (int, int) = choose|q: int, k: int|
                0 <= q < nodes0.len() && 0 <= k < nodes0[q].children@.len()
                    && #[trigger] nodes0[q].children@[k] == c;
            assert(nodes1[q].children@[k] == c);
        } else {
            assert(nodes1[p].children@[nodes0[p].children@.len() as int] == ni);
        }
    }

    // Every placed task still reaches a root.
    assert forall|n: int| 1 <= n < nodes1.len() implies can_reach_root(
        tasks,
        (#[trigger] nodes1[n].task)->0 as int,
    ) by {
        if n < len0 {
            assert(nodes1[n].task == nodes0[n].task);
            assert(can_reach_root(tasks, nodes0[n].task->0 as int));
        } else {
            match rp {
                None => {
                    assert(steps_to_root(tasks, ti as int, 0));
                    assert(can_reach_root(tasks, ti as int));
                },
                Some(pid) => {
                    let tp = nodes0[p].task->0;
                    assert(can_reach_root(tasks, tp as int));
                    let f = choose|f: nat| steps_to_root(tasks, tp as int, f);
                    assert(has_id(tasks, pid));
                    let i = index_of_id(tasks, pid);
                    assert(0 <= i < tasks.len() && tasks[i].id == pid);
                    assert(i == tp as int) by {
                        if i != tp as int {
                            assert(tasks[i].id != tasks[tp as int].id);
                        }
                    }
                    assert(steps_to_root(tasks, ti as int, f + 1));
                    assert(can_reach_root(tasks, ti as int));
                },
            }
        }
    }

    // The shrunk queue still lists exactly the unplaced tasks, once each.
    assert forall|m: int| 0 <= m < unplaced1.len() implies #[trigger] unplaced1[m]
        < tasks.len() by {
        if m < pos {
            assert(unplaced1[m] == unplaced0[m]);
        } else {
            assert(unplaced1[m] == unplaced0[m + 1]);
        }
    }
    assert forall|m1: int, m2: int| 0 <= m1 < m2 < unplaced1.len() implies unplaced1[m1]
        != unplaced1[m2] by {
        let o1: int = if m1 < pos { m1 } else { m1 + 1 };
        let o2: int = if m2 < pos { m2 } else { m2 + 1 };
        assert(unplaced1[m1] == unplaced0[o1] && unplaced1[m2] == unplaced0[o2]);
    }
    assert forall|tx: usize| tx < tasks.len() implies (task_placed(nodes1, tx)
        <==> !unplaced1.contains(tx)) by {
        if tx == ti {
            assert(nodes1[len0].task == Some(ti));
            assert(task_placed(nodes1, ti));
            if unplaced1.contains(ti) {
                let m = choose|m: int| 0 <= m < unplaced1.len() && unplaced1[m] == ti;
                let o: int = if m < pos { m } else { m + 1 };
                assert(unplaced0[o] == ti && o != pos);
            }
        } else {
            assert(task_placed(nodes0, tx) <==> !unplaced0.contains(tx));
            assert(task_placed(nodes1, tx) <==> task_placed(nodes0, tx)) by {
                if task_placed(nodes0, tx) {
                    let m = choose|m: int|
                        1 <= m < nodes0.len() && (#[trigger] nodes0[m].task) == Some(tx);
                    assert(nodes1[m].task == nodes0[m].task);
                }
                if task_placed(nodes1, tx) {
                    let m = choose|m: int|
                        1 <= m < nodes1.len() && (#[trigger] nodes1[m].task) == Some(tx);
                    assert(m < len0);
                    assert(nodes1[m].task == nodes0[m].task);
                }
            }
            assert(unplaced1.contains(tx) <==> unplaced0.contains(tx)) by {
                if unplaced0.contains(tx) {
                    let m = choose|m: int| 0 <= m < unplaced0.len() && unplaced0[m] == tx;
                    if m < pos {
                        assert(unplaced1[m] == tx);
                    } else {
                        assert(unplaced1[m - 1] == tx);
                    }
                }
                if unplaced1.contains(tx) {
                    let m = choose|m: int| 0 <= m < unplaced1.len() && unplaced1[m] == tx;
                    let o: int = if m < pos { m } else { m + 1 };
                    assert(unplaced0[o] == tx);
                }
            }
        }
    }
}

} // verus!
