use vstd::prelude::*;

verus! {

/// One unit of work.
///
/// Timestamps (`due_date`, `start_time`) are held as seconds since the Unix
/// epoch; turning the textual local-time form into such a value and back is
/// the store's concern. `parent` is a weak reference by value: it names
/// another task's id, and a dangling value is tolerated (the task is then
/// treated as root-level).
#[derive(Clone, Debug, PartialEq)]
pub struct Task {
    pub id: usize,
    pub name: String,
    pub points: u32,
    pub complete: bool,
    pub due_date: Option<i64>,
    pub start_time: Option<i64>,
    pub priority: i32,
    pub parent: Option<usize>,
    pub resources: Vec<String>,
}

/// The ids in `tasks` are pairwise distinct.
pub open spec fn distinct_ids(tasks: Seq<Task>) -> bool {
    forall|i: int, j: int| 0 <= i < j < tasks.len() ==> tasks[i].id != tasks[j].id
}

/// Some task in `tasks` carries the id `id`.
pub open spec fn has_id(tasks: Seq<Task>, id: usize) -> bool {
    exists|i: int| 0 <= i < tasks.len() && tasks[i].id == id
}

/// An index of a task with id `id`; meaningful only when `has_id` holds,
/// and then unique under `distinct_ids`.
pub open spec fn index_of_id(tasks: Seq<Task>, id: usize) -> int {
    choose|i: int| 0 <= i < tasks.len() && tasks[i].id == id
}

/// The full collection of tasks of one planner instance, as an
/// insertion-ordered sequence.
#[derive(Clone, Debug, PartialEq)]
pub struct TaskList {
    pub tasks: Vec<Task>,
}

impl TaskList {
    /// The collection's invariant: ids are pairwise distinct.
    pub open spec fn wf(&self) -> bool {
        distinct_ids(self.tasks@)
    }

    /// An empty collection, as `init` creates it.
    pub fn new() -> (r: TaskList)
        ensures
            r.tasks@.len() == 0,
            r.wf(),
    {
        TaskList { tasks: Vec::new() }
    }

    /// The position of the task with id `id`, if any.
    pub fn find_index(&self, id: usize) -> (r: Option<usize>)
        ensures
            r is Some <==> has_id(self.tasks@, id),
            r is Some ==> r->0 < self.tasks@.len() && self.tasks@[r->0 as int].id == id,
    {
        let n = self.tasks.len();
        for i in 0..n
            invariant
                n == self.tasks@.len(),
                forall|j: int| 0 <= j < i ==> self.tasks@[j].id != id,
        {
            if self.tasks[i].id == id {
                return Some(i);
            }
        }
        None
    }

    /// Whether some task carries the id `id`.
    pub fn contains_id(&self, id: usize) -> (r: bool)
        ensures
            r == has_id(self.tasks@, id),
    {
        self.find_index(id).is_some()
    }

    /// The smallest non-negative integer not currently used as an id.
    pub fn next_available_id(&self) -> (r: usize)
        requires
            self.tasks@.len() < usize::MAX,
        ensures
            !has_id(self.tasks@, r),
            forall|k: usize| k < r ==> has_id(self.tasks@, k),
            r <= self.tasks@.len(),
    {
        let mut id: usize = 0;
        loop
            invariant
                self.tasks@.len() < usize::MAX,
                forall|k: usize| k < id ==> has_id(self.tasks@, k),
                id <= self.tasks@.len(),
            decreases self.tasks@.len() - id,
        {
            if !self.contains_id(id) {
                return id;
            }
            proof {
                lemma_used_ids_bound(self.tasks@, (id + 1) as usize);
            }
            id = id + 1;
        }
    }
}

/// If every id below `bound` is used, there are at least `bound` tasks:
/// the map from each such id to the task carrying it is injective.
proof fn lemma_used_ids_bound(tasks: Seq<Task>, bound: usize)
    requires
        forall|k: usize| k < bound ==> has_id(tasks, k),
    ensures
        bound <= tasks.len(),
{
    broadcast use vstd::seq_lib::seq_to_set_is_finite;

    let ids = tasks.map_values(|t: Task| t.id as int);
    let low = vstd::set_lib::set_int_range(0, bound as int);
    vstd::set_lib::lemma_int_range(0, bound as int);
    assert forall|k: int| low.contains(k) implies ids.to_set().contains(k) by {
        assert(has_id(tasks, k as usize));
        let i = choose|i: int| 0 <= i < tasks.len() && tasks[i].id == k as usize;
        assert(ids[i] == k);
        assert(ids.contains(k));
    };
    vstd::set_lib::lemma_len_subset(low, ids.to_set());
    ids.lemma_cardinality_of_set();
}

} // verus!
