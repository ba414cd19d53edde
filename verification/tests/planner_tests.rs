use planner::errors::PlannerError;
use planner::render::render_order;
use planner::task::{Task, TaskList};
use planner::timeparse::{parse_date_parts, parse_local_time, DateParts};

fn task(id: usize, parent: Option<usize>) -> Task {
    Task {
        id,
        name: format!("task {id}"),
        points: 0,
        complete: false,
        due_date: None,
        start_time: None,
        priority: 0,
        parent,
        resources: Vec::new(),
    }
}

fn task_with_window(
    id: usize,
    parent: Option<usize>,
    start_time: Option<i64>,
    due_date: Option<i64>,
) -> Task {
    Task {
        start_time,
        due_date,
        ..task(id, parent)
    }
}

#[test]
fn next_id_skips_to_smallest_gap() {
    let list = TaskList {
        tasks: vec![task(0, None), task(1, None), task(3, None)],
    };
    assert_eq!(list.next_available_id(), 2);
}

#[test]
fn next_id_on_empty_collection_is_zero() {
    let list = TaskList::new();
    assert_eq!(list.next_available_id(), 0);
}

#[test]
fn next_id_reuses_freed_id() {
    let mut list = TaskList {
        tasks: vec![task(0, None), task(1, None), task(2, None)],
    };
    assert!(list.remove_task(1).is_ok());
    assert_eq!(list.next_available_id(), 1);
}

#[test]
fn forest_places_every_task_exactly_once() {
    let list = TaskList {
        tasks: vec![
            task(0, None),
            task(1, Some(0)),
            task(2, Some(1)),
            task(3, None),
            task(4, Some(0)),
        ],
    };
    let forest = list.build_forest().expect("acyclic hierarchy must build");
    assert_eq!(forest.nodes.len(), list.tasks.len() + 1);
    assert!(forest.nodes[0].task.is_none());

    // Every task index appears exactly once among the nodes.
    let mut seen = vec![0usize; list.tasks.len()];
    for node in forest.nodes.iter().skip(1) {
        seen[node.task.expect("non-root nodes hold a task")] += 1;
    }
    assert_eq!(seen, vec![1, 1, 1, 1, 1]);

    // The child lists partition the non-root nodes.
    let mut child_count = vec![0usize; forest.nodes.len()];
    for node in &forest.nodes {
        for &c in &node.children {
            child_count[c] += 1;
        }
    }
    assert_eq!(child_count[0], 0);
    for &n in child_count.iter().skip(1) {
        assert_eq!(n, 1);
    }

    // Links respect the parent references.
    for (p, node) in forest.nodes.iter().enumerate() {
        for &c in &node.children {
            let ti = forest.nodes[c].task.unwrap();
            match list.tasks[ti].parent {
                None => assert_eq!(p, 0),
                Some(pid) => {
                    let pt = forest.nodes[p].task.unwrap();
                    assert_eq!(list.tasks[pt].id, pid);
                }
            }
        }
    }
}

#[test]
fn forest_rejects_cycle() {
    let list = TaskList {
        tasks: vec![task(0, Some(1)), task(1, Some(0))],
    };
    assert_eq!(
        list.build_forest().err(),
        Some(PlannerError::CyclicHierarchy)
    );
}

#[test]
fn forest_rejects_self_parent() {
    let list = TaskList {
        tasks: vec![task(0, Some(0))],
    };
    assert_eq!(
        list.build_forest().err(),
        Some(PlannerError::CyclicHierarchy)
    );
}

#[test]
fn dangling_parent_becomes_root() {
    let list = TaskList {
        tasks: vec![task(0, Some(99))],
    };
    let forest = list.build_forest().expect("a dangling parent is tolerated");
    assert_eq!(forest.nodes[0].children, vec![1]);
    assert_eq!(forest.nodes[1].task, Some(0));
}

#[test]
fn add_assigns_smallest_id_and_appends() {
    let mut list = TaskList::new();
    let id = list
        .add_task("Root".to_string(), 10, None, None, 0, None, Vec::new())
        .expect("adding a root task succeeds");
    assert_eq!(id, 0);
    assert_eq!(list.tasks.len(), 1);
    assert_eq!(list.tasks[0].name, "Root");
    assert_eq!(list.tasks[0].points, 10);
    assert!(!list.tasks[0].complete);
}

#[test]
fn add_rejects_unknown_parent() {
    let mut list = TaskList::new();
    let before = list.clone();
    let r = list.add_task(
        "Child".to_string(),
        5,
        None,
        None,
        0,
        Some(7),
        Vec::new(),
    );
    assert_eq!(r.err(), Some(PlannerError::InvalidParent));
    assert_eq!(list, before);
}

#[test]
fn add_with_parent_propagates_window_to_ancestors() {
    // init; add "Root" --points 10; add "Child" --points 5 --parent-id 0
    // with a start time and a due date: the root's window must match the
    // child's afterward.
    let mut list = TaskList::new();
    let root = list
        .add_task("Root".to_string(), 10, None, None, 0, None, Vec::new())
        .unwrap();
    assert_eq!(root, 0);
    let child = list
        .add_task(
            "Child".to_string(),
            5,
            Some(1704123000),
            Some(1704094200),
            0,
            Some(0),
            Vec::new(),
        )
        .unwrap();
    assert_eq!(child, 1);
    assert_eq!(list.tasks[0].start_time, Some(1704094200));
    assert_eq!(list.tasks[0].due_date, Some(1704123000));
    assert_eq!(list.tasks[1].start_time, Some(1704094200));
    assert_eq!(list.tasks[1].due_date, Some(1704123000));

    // The listing renders the child one level under the root.
    let forest = list.build_forest().unwrap();
    let lines = render_order(&forest);
    assert_eq!(lines.len(), 2);
    assert_eq!(lines[0].task, 0);
    assert_eq!(lines[1].task, 1);
    assert_eq!(lines[1].depth, lines[0].depth + 1);
}

#[test]
fn propagation_spans_grandchildren() {
    let mut list = TaskList::new();
    list.add_task("a".to_string(), 1, None, None, 0, None, Vec::new())
        .unwrap();
    list.add_task(
        "b".to_string(),
        1,
        Some(500),
        Some(400),
        0,
        Some(0),
        Vec::new(),
    )
    .unwrap();
    list.add_task(
        "c".to_string(),
        1,
        Some(900),
        Some(100),
        0,
        Some(1),
        Vec::new(),
    )
    .unwrap();
    // The grandparent's window spans the grandchild's own values.
    assert_eq!(list.tasks[0].start_time, Some(100));
    assert_eq!(list.tasks[0].due_date, Some(900));
    // The middle task aggregates its only child.
    assert_eq!(list.tasks[1].start_time, Some(100));
    assert_eq!(list.tasks[1].due_date, Some(900));
    // The leaf keeps its own values.
    assert_eq!(list.tasks[2].start_time, Some(100));
    assert_eq!(list.tasks[2].due_date, Some(900));
}

#[test]
fn propagation_is_idempotent_on_a_hierarchy() {
    let mut list = TaskList {
        tasks: vec![
            task_with_window(0, None, Some(7), None),
            task_with_window(1, Some(0), Some(50), Some(60)),
            task_with_window(2, Some(1), Some(10), Some(90)),
            task_with_window(3, Some(1), None, Some(20)),
        ],
    };
    let forest = list.build_forest().unwrap();
    list.fit_subtree(&forest, 0);
    let once = list.clone();
    list.fit_subtree(&forest, 0);
    assert_eq!(list, once);
}

#[test]
fn propagation_ignores_absent_values() {
    let mut list = TaskList {
        tasks: vec![
            task_with_window(0, None, None, None),
            task_with_window(1, Some(0), None, None),
            task_with_window(2, Some(0), Some(5), None),
        ],
    };
    let forest = list.build_forest().unwrap();
    list.fit_subtree(&forest, 0);
    assert_eq!(list.tasks[0].start_time, Some(5));
    assert_eq!(list.tasks[0].due_date, None);
}

#[test]
fn check_rejects_incomplete_children_and_leaves_store_unchanged() {
    // Task 0's only child is task 1, which itself has an incomplete child:
    // checking 1 before its child must be rejected.
    let mut list = TaskList {
        tasks: vec![task(0, None), task(1, Some(0)), task(2, Some(1))],
    };
    let before = list.clone();
    assert_eq!(
        list.check_task(1).err(),
        Some(PlannerError::IncompleteChildren)
    );
    assert_eq!(list, before);
}

#[test]
fn check_succeeds_once_direct_children_are_complete() {
    let mut list = TaskList {
        tasks: vec![task(0, None), task(1, Some(0)), task(2, Some(1))],
    };
    assert!(list.check_task(2).is_ok());
    assert!(list.tasks[2].complete);
    assert!(list.check_task(1).is_ok());
    assert!(list.tasks[1].complete);
    assert!(list.check_task(0).is_ok());
    assert!(list.tasks[0].complete);
}

#[test]
fn check_unknown_id_reports_not_found() {
    let mut list = TaskList {
        tasks: vec![task(0, None)],
    };
    let before = list.clone();
    assert_eq!(list.check_task(9).err(), Some(PlannerError::NotFound));
    assert_eq!(list, before);
}

#[test]
fn remove_reparents_direct_children_to_root_only() {
    let mut list = TaskList {
        tasks: vec![task(0, None), task(1, Some(0)), task(2, Some(1)), task(3, Some(2))],
    };
    assert!(list.remove_task(1).is_ok());
    assert_eq!(list.tasks.len(), 3);
    // The direct child of the removed task becomes a root.
    assert_eq!(list.tasks[1].id, 2);
    assert_eq!(list.tasks[1].parent, None);
    // The grandchild keeps its parent.
    assert_eq!(list.tasks[2].id, 3);
    assert_eq!(list.tasks[2].parent, Some(2));
    // Unrelated tasks are untouched.
    assert_eq!(list.tasks[0], task(0, None));
}

#[test]
fn remove_unknown_id_reports_not_found() {
    let mut list = TaskList {
        tasks: vec![task(0, None)],
    };
    let before = list.clone();
    assert_eq!(list.remove_task(5).err(), Some(PlannerError::NotFound));
    assert_eq!(list, before);
}

#[test]
fn task_name_finds_by_id() {
    let list = TaskList {
        tasks: vec![task(0, None), task(7, None)],
    };
    assert_eq!(list.task_name(7), Some("task 7".to_string()));
    assert_eq!(list.task_name(3), None);
}

#[test]
fn points_summary_counts_complete_points() {
    let mut list = TaskList {
        tasks: vec![task(0, None), task(1, None), task(2, None)],
    };
    list.tasks[0].points = 10;
    list.tasks[1].points = 5;
    list.tasks[2].points = 3;
    list.tasks[1].complete = true;
    list.tasks[2].complete = true;
    assert_eq!(list.points_summary(), (8, 18));
}

#[test]
fn render_order_walks_trees_in_preorder() {
    let list = TaskList {
        tasks: vec![
            task(0, None),
            task(1, Some(0)),
            task(2, Some(0)),
            task(3, None),
        ],
    };
    let forest = list.build_forest().unwrap();
    let lines = render_order(&forest);
    let order: Vec<(usize, usize)> = lines.iter().map(|l| (l.task, l.depth)).collect();
    assert_eq!(order, vec![(0, 1), (1, 2), (2, 2), (3, 1)]);
}

#[test]
fn parse_date_parts_reads_the_fixed_format() {
    assert_eq!(
        parse_date_parts("2024-01-01 09:00:00"),
        Ok(DateParts {
            year: 2024,
            month: 1,
            day: 1,
            hour: 9,
            minute: 0,
            second: 0,
        })
    );
    assert_eq!(
        parse_date_parts("1999-12-31 23:59:59"),
        Ok(DateParts {
            year: 1999,
            month: 12,
            day: 31,
            hour: 23,
            minute: 59,
            second: 59,
        })
    );
}

#[test]
fn parse_date_parts_rejects_malformed_strings() {
    for bad in [
        "",
        "2024-01-01",
        "2024/01/01 09:00:00",
        "2024-13-01 09:00:00",
        "2024-00-01 09:00:00",
        "2024-01-32 09:00:00",
        "2024-01-00 09:00:00",
        "2024-01-01 24:00:00",
        "2024-01-01 09:60:00",
        "2024-01-01 09:00:60",
        "2024-01-01 09:00:0x",
        "2024-01-01T09:00:00",
    ] {
        assert_eq!(
            parse_date_parts(bad).err(),
            Some(PlannerError::ParseFailure),
            "{bad:?} must be rejected"
        );
    }
}

#[test]
fn parse_date_parts_knows_leap_years() {
    assert!(parse_date_parts("2024-02-29 00:00:00").is_ok());
    assert_eq!(
        parse_date_parts("2023-02-29 00:00:00").err(),
        Some(PlannerError::ParseFailure)
    );
    assert_eq!(
        parse_date_parts("1900-02-29 00:00:00").err(),
        Some(PlannerError::ParseFailure)
    );
    assert!(parse_date_parts("2000-02-29 00:00:00").is_ok());
}

#[test]
fn parse_local_time_orders_a_day() {
    let morning = parse_local_time("2024-01-15 09:00:00").expect("a plain date resolves");
    let evening = parse_local_time("2024-01-15 17:00:00").expect("a plain date resolves");
    assert!(morning < evening);
    assert_eq!(
        parse_local_time("not a date").err(),
        Some(PlannerError::ParseFailure)
    );
}
