use vstd::prelude::*;

use crate::errors::PlannerError;
use crate::fit::{children_forward, fit_post, in_subtree};
use crate::task::{distinct_ids, has_id, index_of_id, Task, TaskList};
use crate::tree::{
    forest_complete, forest_wf, placed_as_child, resolvable, task_placed, Forest, TreeNode,
};

verus! {

/// Every direct child of the task with id `id` is complete.
pub open spec fn direct_children_complete(tasks: Seq<Task>, id: usize) -> bool {
    forall|i: int|
        0 <= i < tasks.len() && (#[trigger] tasks[i]).parent == Some(id) ==> tasks[i].complete
}

/// `t` with its parent reference cleared when it names `id`.
pub open spec fn orphan_of(t: Task, id: usize) -> Task {
    if t.parent == Some(id) {
        Task { parent: None, ..t }
    } else {
        t
    }
}

/// The collection after removing the task at position `i` (which carried id
/// `id`) and demoting its direct children to roots.
pub open spec fn removed_view(tasks: Seq<Task>, i: int, id: usize) -> Seq<Task> {
    (tasks.subrange(0, i) + tasks.subrange(i + 1, tasks.len() as int)).map_values(
        |t: Task| orphan_of(t, id),
    )
}

/// The task `add_task` appends, before any window propagation.
pub open spec fn new_task_of(
    id: usize,
    name: String,
    points: u32,
    due_date: Option<i64>,
    start_time: Option<i64>,
    priority: i32,
    parent: Option<usize>,
    resources: Vec<String>,
) -> Task {
    Task { id, name, points, complete: false, due_date, start_time, priority, parent, resources }
}

/// What adding a task with a parent does after the append: some sound,
/// complete forest over the appended collection has a root-level node `rt`
/// whose subtree holds the new task's node, and the windows of that whole
/// tree are repropagated from `rt`.
pub open spec fn add_fit_post(
    pushed: Seq<Task>,
    ftasks: Seq<Task>,
    nodes: Seq<TreeNode>,
    rt: int,
) -> bool {
    &&& forest_wf(pushed, nodes)
    &&& forest_complete(pushed, nodes)
    &&& 1 <= rt < nodes.len()
    &&& exists|k: int| 0 <= k < nodes[0].children@.len() && #[trigger] nodes[0].children@[k] == rt
    &&& exists|m: int|
        1 <= m < nodes.len() && (#[trigger] nodes[m].task) == Some((pushed.len() - 1) as usize)
            && in_subtree(nodes, rt, m)
    &&& fit_post(pushed, ftasks, nodes, rt)
}

impl TaskList {
    /// The name of the task with id `id`, if any.
    pub fn task_name(&self, id: usize) -> (r: Option<String>)
        ensures
            r is Some <==> has_id(self.tasks@, id),
            r is Some ==> exists|i: int|
                0 <= i < self.tasks@.len() && self.tasks@[i].id == id && (#[trigger] self.tasks@[i]).name
                    == r->0,
    {
        match self.find_index(id) {
            Some(i) => Some(self.tasks[i].name.clone()),
            None => None,
        }
    }

    /// The completion gate: marks the task with id `id` complete, but only
    /// if every direct child is already complete; a failed gate leaves the
    /// collection as it was.
    pub fn check_task(&mut self, id: usize) -> (r: Result<(), PlannerError>)
        requires
            old(self).wf(),
        ensures
            final(self).wf(),
            match r {
                Ok(_) => {
                    &&& has_id(old(self).tasks@, id)
                    &&& direct_children_complete(old(self).tasks@, id)
                    &&& final(self).tasks@ == old(self).tasks@.update(
                        index_of_id(old(self).tasks@, id),
                        Task {
                            complete: true,
                            ..old(self).tasks@[index_of_id(old(self).tasks@, id)]
                        },
                    )
                },
                Err(PlannerError::NotFound) => !has_id(old(self).tasks@, id) && final(self).tasks@
                    == old(self).tasks@,
                Err(PlannerError::IncompleteChildren) => {
                    &&& has_id(old(self).tasks@, id)
                    &&& !direct_children_complete(old(self).tasks@, id)
                    &&& final(self).tasks@ == old(self).tasks@
                },
                Err(_) => false,
            },
    {
        let ghost t0 = self.tasks@;
        let idx = match self.find_index(id) {
            Some(i) => i,
            None => {
                return Err(PlannerError::NotFound);
            },
        };
        let nt = self.tasks.len();
        for i in 0..nt
            invariant
                nt == self.tasks@.len(),
                self.tasks@ == t0,
                distinct_ids(t0),
                idx < nt,
                t0[idx as int].id == id,
                forall|j: int|
                    0 <= j < i && (#[trigger] self.tasks@[j]).parent == Some(id)
                        ==> self.tasks@[j].complete,
        {
            let is_child = match self.tasks[i].parent {
                Some(p) => p == id,
                None => false,
            };
            if is_child && !self.tasks[i].complete {
                proof {
                    assert(has_id(t0, id));
                    assert(!direct_children_complete(t0, id));
                }
                return Err(PlannerError::IncompleteChildren);
            }
        }
        self.tasks[idx].complete = true;
        proof {
            assert(index_of_id(t0, id) == idx as int) by {
                let i = index_of_id(t0, id);
                if i != idx as int {
                    assert(t0[i].id != t0[idx as int].id);
                }
            }
            assert forall|i: int, j: int|
                0 <= i < j < self.tasks@.len() implies self.tasks@[i].id != self.tasks@[j].id by {
                assert(t0[i].id != t0[j].id);
            }
        }
        Ok(())
    }

    /// Removes the task with id `id` and demotes its direct children to
    /// root-level (`parent` cleared); grandchildren are untouched. Reports
    /// `NotFound`, without changes, when no task carries the id.
    pub fn remove_task(&mut self, id: usize) -> (r: Result<(), PlannerError>)
        requires
            old(self).wf(),
        ensures
            final(self).wf(),
            match r {
                Ok(_) => has_id(old(self).tasks@, id) && final(self).tasks@ == removed_view(
                    old(self).tasks@,
                    index_of_id(old(self).tasks@, id),
                    id,
                ),
                Err(PlannerError::NotFound) => !has_id(old(self).tasks@, id) && final(self).tasks@
                    == old(self).tasks@,
                Err(_) => false,
            },
    {
        let ghost t0 = self.tasks@;
        let idx = match self.find_index(id) {
            Some(i) => i,
            None => {
                return Err(PlannerError::NotFound);
            },
        };
        proof {
            assert(index_of_id(t0, id) == idx as int) by {
                let i = index_of_id(t0, id);
                if i != idx as int {
                    assert(t0[i].id != t0[idx as int].id);
                }
            }
        }
        self.tasks.remove(idx);
        let ghost mid = self.tasks@;
        let nt = self.tasks.len();
        for i in 0..nt
            invariant
                nt == self.tasks@.len(),
                mid.len() == nt,
                distinct_ids(t0),
                forall|j: int| 0 <= j < i ==> #[trigger] self.tasks@[j] == orphan_of(mid[j], id),
                forall|j: int| i <= j < nt ==> #[trigger] self.tasks@[j] == mid[j],
        {
            let is_child = match self.tasks[i].parent {
                Some(p) => p == id,
                None => false,
            };
            if is_child {
                self.tasks[i].parent = None;
            }
        }
        proof {
            assert(self.tasks@ =~= removed_view(t0, idx as int, id));
            assert forall|i: int, j: int|
                0 <= i < j < self.tasks@.len() implies self.tasks@[i].id != self.tasks@[j].id by {
                let oi: int = if i < idx as int {
                    i
                } else {
                    i + 1
                };
                let oj: int = if j < idx as int {
                    j
                } else {
                    j + 1
                };
                assert(self.tasks@[i].id == t0[oi].id && self.tasks@[j].id == t0[oj].id);
            }
        }
        Ok(())
    }

    /// Creates a task: the id is the smallest unused one, `complete` starts
    /// false, and a given parent id must exist. When a parent is given, the
    /// schedule windows of the whole tree the new task lands in are
    /// repropagated from that tree's root; a parent relation that cannot be
    /// resolved into a forest is reported as `CyclicHierarchy` and leaves the
    /// collection unchanged.
    pub fn add_task(
        &mut self,
        name: String,
        points: u32,
        due_date: Option<i64>,
        start_time: Option<i64>,
        priority: i32,
        parent: Option<usize>,
        resources: Vec<String>,
    ) -> (r: Result<usize, PlannerError>)
        requires
            old(self).wf(),
            old(self).tasks@.len() < usize::MAX,
        ensures
            final(self).wf(),
            match r {
                Ok(id) => {
                    &&& !has_id(old(self).tasks@, id)
                    &&& forall|k: usize| k < id ==> has_id(old(self).tasks@, k)
                    &&& ({
                        let pushed = old(self).tasks@.push(
                            new_task_of(
                                id,
                                name,
                                points,
                                due_date,
                                start_time,
                                priority,
                                parent,
                                resources,
                            ),
                        );
                        match parent {
                            None => final(self).tasks@ == pushed,
                            Some(pid) => has_id(old(self).tasks@, pid) && resolvable(pushed)
                                && exists|nodes: Seq<TreeNode>, rt: int|
                                add_fit_post(pushed, final(self).tasks@, nodes, rt),
                        }
                    })
                },
                Err(PlannerError::InvalidParent) => parent is Some && !has_id(
                    old(self).tasks@,
                    parent->0,
                ) && final(self).tasks@ == old(self).tasks@,
                Err(PlannerError::CyclicHierarchy) => {
                    &&& parent is Some
                    &&& has_id(old(self).tasks@, parent->0)
                    &&& final(self).tasks@ == old(self).tasks@
                    &&& exists|id: usize|
                        !has_id(old(self).tasks@, id) && !resolvable(
                            #[trigger] old(self).tasks@.push(
                                new_task_of(
                                    id,
                                    name,
                                    points,
                                    due_date,
                                    start_time,
                                    priority,
                                    parent,
                                    resources,
                                ),
                            ),
                        )
                },
                Err(_) => false,
            },
    {
        let ghost t0 = self.tasks@;
        match parent {
            Some(p) => {
                if !self.contains_id(p) {
                    return Err(PlannerError::InvalidParent);
                }
            },
            None => {},
        }
        let id = self.next_available_id();
        let t = Task {
            id,
            name,
            points,
            complete: false,
            due_date,
            start_time,
            priority,
            parent,
            resources,
        };
        self.tasks.push(t);
        proof {
            assert forall|i: int, j: int|
                0 <= i < j < self.tasks@.len() implies self.tasks@[i].id != self.tasks@[j].id by {
                if j < t0.len() {
                    assert(t0[i].id != t0[j].id);
                } else {
                    assert(has_id(t0, t0[i].id));
                }
            }
        }
        if parent.is_none() {
            return Ok(id);
        }
        let forest = match self.build_forest() {
            Ok(f) => f,
            Err(_) => {
                proof {
                    let nt = new_task_of(
                        id,
                        name,
                        points,
                        due_date,
                        start_time,
                        priority,
                        parent,
                        resources,
                    );
                    assert(self.tasks@ =~= t0.push(nt));
                    assert(!resolvable(t0.push(nt)));
                }
                self.tasks.pop();
                proof {
                    assert(self.tasks@ =~= t0);
                }
                return Err(PlannerError::CyclicHierarchy);
            },
        };
        let ghost pushed = self.tasks@;
        proof {
            assert(children_forward(forest.nodes@));
            assert(task_placed(forest.nodes@, (pushed.len() - 1) as usize));
        }
        let newidx = self.tasks.len() - 1;
        let m = node_of_task(&forest, newidx);
        let rt = chain_root(&forest, m);
        self.fit_subtree(&forest, rt);
        proof {
            let nodes = forest.nodes@;
            assert(add_fit_post(pushed, self.tasks@, nodes, rt as int));
            assert forall|i: int, j: int|
                0 <= i < j < self.tasks@.len() implies self.tasks@[i].id != self.tasks@[j].id by {
                assert(self.tasks@[i].id == pushed[i].id && self.tasks@[j].id == pushed[j].id);
            }
        }
        Ok(id)
    }
}

/// The position of the node standing for the task at index `ti`.
fn node_of_task(forest: &Forest, ti: usize) -> (m: usize)
    requires
        task_placed(forest.nodes@, ti),
        forest.nodes@.len() >= 1,
    ensures
        1 <= m < forest.nodes@.len(),
        forest.nodes@[m as int].task == Some(ti),
{
    let n = forest.nodes.len();
    for i in 1..n
        invariant
            n == forest.nodes@.len(),
            task_placed(forest.nodes@, ti),
            forall|j: int| 1 <= j < i ==> (#[trigger] forest.nodes@[j].task) != Some(ti),
    {
        match forest.nodes[i].task {
            Some(t) => {
                if t == ti {
                    return i;
                }
            },
            None => {},
        }
    }
    proof {
        let w = choose|w: int|
            1 <= w < forest.nodes@.len() && (#[trigger] forest.nodes@[w].task) == Some(ti);
        assert(false);
    }
    0
}

/// The position of the node whose child list holds node `c`.
fn parent_node_of(forest: &Forest, c: usize) -> (p: usize)
    requires
        children_forward(forest.nodes@),
        placed_as_child(forest.nodes@, c as int),
        1 <= c < forest.nodes@.len(),
    ensures
        p < c,
        exists|k: int|
            0 <= k < forest.nodes@[p as int].children@.len() && #[trigger] forest.nodes@[p as int].children@[k]
                == c,
{
    let nodes = &forest.nodes;
    for q in 0..c
        invariant
            c < forest.nodes@.len(),
            children_forward(forest.nodes@),
            placed_as_child(forest.nodes@, c as int),
            forall|q2: int, k: int|
                0 <= q2 < q && 0 <= k < forest.nodes@[q2].children@.len()
                    ==> #[trigger] forest.nodes@[q2].children@[k] != c,
    {
        let cl = forest.nodes[q].children.len();
        for k in 0..cl
            invariant
                q < c < forest.nodes@.len(),
                cl == forest.nodes@[q as int].children@.len(),
                forall|k2: int| 0 <= k2 < k ==> #[trigger] forest.nodes@[q as int].children@[k2] != c,
        {
            if forest.nodes[q].children[k] == c {
                return q;
            }
        }
    }
    proof {
        let (q, k): (int, int) = choose|q: int, k: int|
            0 <= q < forest.nodes@.len() && 0 <= k < forest.nodes@[q].children@.len()
                && #[trigger] forest.nodes@[q].children@[k] == c as int;
        assert(q < c);
        assert(false);
    }
    0
}

/// Climbs the forest from node `c` to the root-level node of its tree: the
/// child of the synthetic root whose subtree holds `c`.
fn chain_root(forest: &Forest, c: usize) -> (rt: usize)
    requires
        children_forward(forest.nodes@),
        forall|d: int| 1 <= d < forest.nodes@.len() ==> placed_as_child(forest.nodes@, d),
        1 <= c < forest.nodes@.len(),
    ensures
        1 <= rt < forest.nodes@.len(),
        exists|k: int|
            0 <= k < forest.nodes@[0].children@.len() && #[trigger] forest.nodes@[0].children@[k]
                == rt,
        in_subtree(forest.nodes@, rt as int, c as int),
{
    let mut cur = c;
    proof {
        assert(in_subtree(forest.nodes@, cur as int, c as int));
    }
    loop
        invariant
            children_forward(forest.nodes@),
            forall|d: int| 1 <= d < forest.nodes@.len() ==> placed_as_child(forest.nodes@, d),
            1 <= cur < forest.nodes@.len(),
            c < forest.nodes@.len(),
            in_subtree(forest.nodes@, cur as int, c as int),
        decreases cur,
    {
        let p = parent_node_of(forest, cur);
        if p == 0 {
            return cur;
        }
        proof {
            let k = choose|k: int|
                0 <= k < forest.nodes@[p as int].children@.len()
                    && #[trigger] forest.nodes@[p as int].children@[k] == cur;
            assert(in_subtree(forest.nodes@, p as int, c as int));
        }
        cur = p;
    }
}

} // verus!
