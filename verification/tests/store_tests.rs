use tasklist::store::{
    add_main, add_sub, clear_all, complete_all, get_index_of_previous_main_task,
    mark_subtasks_as_done, remove, remove_task, toggle_done, toggle_undone, TaskError,
};
use tasklist::task::{tasks_from_lines, tasks_to_lines, Task};

#[test]
fn get_index_of_previous_main_task_works_properly() {
    let mut tasks = Vec::new();
    tasks.push(Task::new("main".to_string(), false, None));
    tasks.push(Task::new(
        "sub".to_string(),
        true,
        Some(get_index_of_previous_main_task(&tasks)),
    ));

    tasks.push(Task::new("main1".to_string(), false, None));
    tasks.push(Task::new(
        "sub1".to_string(),
        true,
        Some(get_index_of_previous_main_task(&tasks)),
    ));

    assert_eq!(Some(0), tasks[1].parent_index());
    assert_eq!(Some(2), tasks[3].parent_index());
}

#[test]
fn main_task_also_completes_sub_tasks() {
    let task = Task::new("Test".to_string(), false, None);
    let mut tasks = vec![task];
    let sub_task = Task::new("Sub".to_string(), true, Some(get_index_of_previous_main_task(&tasks)));
    let sub_task2 = Task::new("Sub2".to_string(), true, Some(get_index_of_previous_main_task(&tasks)));
    tasks.push(sub_task);
    tasks.push(sub_task2);
    tasks[0].complete();
    mark_subtasks_as_done(&mut tasks, 0);
    assert!(tasks[1].is_completed());
    assert!(tasks[2].is_completed());
}

#[test]
fn removing_a_task_works_properly() {
    let mut tasks = Vec::new();
    tasks.push(Task::new("main".to_string(), false, None));
    tasks.push(Task::new("sub".to_string(), true, Some(get_index_of_previous_main_task(&tasks))));
    tasks.push(Task::new("main1".to_string(), false, None));
    tasks.push(Task::new("sub1".to_string(), true, Some(get_index_of_previous_main_task(&tasks))));
    remove_task(&mut tasks, 0);
    assert_eq!(2, tasks.len());
}

#[test]
fn removing_a_task_with_multiple_sub_tasks_works_properly() {
    let mut tasks = Vec::new();
    tasks.push(Task::new("main".to_string(), false, None));
    tasks.push(Task::new("sub".to_string(), true, Some(get_index_of_previous_main_task(&tasks))));
    tasks.push(Task::new("main1".to_string(), false, None));
    tasks.push(Task::new("sub1".to_string(), true, Some(get_index_of_previous_main_task(&tasks))));
    tasks.push(Task::new("sub2".to_string(), true, Some(get_index_of_previous_main_task(&tasks))));
    tasks.push(Task::new("sub3".to_string(), true, Some(get_index_of_previous_main_task(&tasks))));
    tasks.push(Task::new("sub4".to_string(), true, Some(get_index_of_previous_main_task(&tasks))));
    tasks.push(Task::new("sub5".to_string(), true, Some(get_index_of_previous_main_task(&tasks))));
    tasks.push(Task::new("sub6".to_string(), true, Some(get_index_of_previous_main_task(&tasks))));
    tasks.push(Task::new("sub7".to_string(), true, Some(get_index_of_previous_main_task(&tasks))));
    tasks.push(Task::new("sub8".to_string(), true, Some(get_index_of_previous_main_task(&tasks))));
    tasks.push(Task::new("sub9".to_string(), true, Some(get_index_of_previous_main_task(&tasks))));
    tasks.push(Task::new("sub10".to_string(), true, Some(get_index_of_previous_main_task(&tasks))));

    remove_task(&mut tasks, 2);

    assert_eq!(2, tasks.len());
}

#[test]
fn add_main_appends_only_main_tasks() {
    let mut tasks = Vec::new();
    add_main(&mut tasks, "a".to_string());
    add_main(&mut tasks, "b".to_string());
    add_main(&mut tasks, "c".to_string());
    assert_eq!(3, tasks.len());
    for (i, name) in ["a", "b", "c"].iter().enumerate() {
        assert_eq!(*name, tasks[i].name());
        assert!(!tasks[i].is_sub());
        assert!(!tasks[i].is_completed());
        assert_eq!(None, tasks[i].parent_index());
    }
}

#[test]
fn add_sub_anchors_to_the_nearest_preceding_main_task() {
    let mut tasks = Vec::new();
    add_main(&mut tasks, "a".to_string());
    add_sub(&mut tasks, "a1".to_string()).unwrap();
    add_sub(&mut tasks, "a2".to_string()).unwrap();
    add_main(&mut tasks, "b".to_string());
    add_sub(&mut tasks, "b1".to_string()).unwrap();
    assert_eq!(Some(0), tasks[1].parent_index());
    assert_eq!(Some(0), tasks[2].parent_index());
    assert_eq!(Some(3), tasks[4].parent_index());
    assert!(tasks[1].is_sub());
    assert!(tasks[4].is_sub());
}

#[test]
fn add_sub_without_a_main_task_is_refused() {
    let mut tasks: Vec<Task> = Vec::new();
    assert_eq!(Err(TaskError::NoMainTask), add_sub(&mut tasks, "orphan".to_string()));
    assert_eq!(0, tasks.len());

    tasks.push(Task::new("floating".to_string(), true, None));
    assert_eq!(Err(TaskError::NoMainTask), add_sub(&mut tasks, "orphan".to_string()));
    assert_eq!(1, tasks.len());
}

#[test]
fn toggle_done_on_a_main_task_cascades_to_its_sub_tasks() {
    let mut tasks = Vec::new();
    add_main(&mut tasks, "a".to_string());
    add_sub(&mut tasks, "a1".to_string()).unwrap();
    add_sub(&mut tasks, "a2".to_string()).unwrap();
    add_main(&mut tasks, "b".to_string());
    add_sub(&mut tasks, "b1".to_string()).unwrap();
    toggle_done(&mut tasks, 0).unwrap();
    assert!(tasks[0].is_completed());
    assert!(tasks[1].is_completed());
    assert!(tasks[2].is_completed());
    assert!(!tasks[3].is_completed());
    assert!(!tasks[4].is_completed());
}

#[test]
fn toggle_done_on_a_sub_task_completes_only_itself() {
    let mut tasks = Vec::new();
    add_main(&mut tasks, "a".to_string());
    add_sub(&mut tasks, "a1".to_string()).unwrap();
    add_sub(&mut tasks, "a2".to_string()).unwrap();
    toggle_done(&mut tasks, 1).unwrap();
    assert!(!tasks[0].is_completed());
    assert!(tasks[1].is_completed());
    assert!(!tasks[2].is_completed());
}

#[test]
fn toggle_undone_never_alters_the_sub_tasks() {
    let mut tasks = Vec::new();
    add_main(&mut tasks, "a".to_string());
    add_sub(&mut tasks, "a1".to_string()).unwrap();
    add_sub(&mut tasks, "a2".to_string()).unwrap();
    toggle_done(&mut tasks, 0).unwrap();
    toggle_undone(&mut tasks, 0).unwrap();
    assert!(!tasks[0].is_completed());
    assert!(tasks[1].is_completed());
    assert!(tasks[2].is_completed());
}

#[test]
fn toggle_done_out_of_range_leaves_the_store_unchanged() {
    let mut tasks = Vec::new();
    add_main(&mut tasks, "a".to_string());
    add_sub(&mut tasks, "a1".to_string()).unwrap();
    add_main(&mut tasks, "b".to_string());
    assert_eq!(Err(TaskError::IndexOutOfRange), toggle_done(&mut tasks, 5));
    assert_eq!(3, tasks.len());
    assert_eq!("a", tasks[0].name());
    assert_eq!("a1", tasks[1].name());
    assert_eq!("b", tasks[2].name());
    assert!(tasks.iter().all(|t| !t.is_completed()));
    assert_eq!(Some(0), tasks[1].parent_index());
}

#[test]
fn toggle_undone_out_of_range_is_refused() {
    let mut tasks = Vec::new();
    add_main(&mut tasks, "a".to_string());
    assert_eq!(Err(TaskError::IndexOutOfRange), toggle_undone(&mut tasks, 1));
    assert_eq!(1, tasks.len());
}

#[test]
fn remove_out_of_range_is_refused() {
    let mut tasks = Vec::new();
    add_main(&mut tasks, "a".to_string());
    assert_eq!(Err(TaskError::IndexOutOfRange), remove(&mut tasks, 9));
    assert_eq!(1, tasks.len());
    assert_eq!("a", tasks[0].name());
}

#[test]
fn remove_keeps_the_surviving_parent_snapshots_unrenumbered() {
    let mut tasks = Vec::new();
    add_main(&mut tasks, "A".to_string());
    add_sub(&mut tasks, "B".to_string()).unwrap();
    add_main(&mut tasks, "C".to_string());
    add_sub(&mut tasks, "D".to_string()).unwrap();
    remove(&mut tasks, 0).unwrap();
    assert_eq!(2, tasks.len());
    assert_eq!("C", tasks[0].name());
    assert_eq!("D", tasks[1].name());
    // The surviving sub-task keeps the position its anchor had when it was
    // added; removals never renumber parent snapshots.
    assert_eq!(Some(2), tasks[1].parent_index());
}

#[test]
fn remove_of_a_main_task_with_eleven_sub_tasks_empties_the_store() {
    let mut tasks = Vec::new();
    add_main(&mut tasks, "only".to_string());
    for i in 0..11 {
        add_sub(&mut tasks, format!("s{}", i)).unwrap();
    }
    assert_eq!(12, tasks.len());
    remove(&mut tasks, 0).unwrap();
    assert_eq!(0, tasks.len());
}

#[test]
fn complete_all_marks_every_task() {
    let mut tasks = Vec::new();
    add_main(&mut tasks, "a".to_string());
    add_sub(&mut tasks, "a1".to_string()).unwrap();
    add_main(&mut tasks, "b".to_string());
    complete_all(&mut tasks);
    assert!(tasks.iter().all(|t| t.is_completed()));
    assert_eq!(3, tasks.len());
}

#[test]
fn clear_all_empties_the_store() {
    let mut tasks = Vec::new();
    add_main(&mut tasks, "a".to_string());
    add_sub(&mut tasks, "a1".to_string()).unwrap();
    clear_all(&mut tasks);
    assert_eq!(0, tasks.len());
}

#[test]
fn store_round_trip_through_lines_reproduces_every_task() {
    let mut tasks = Vec::new();
    add_main(&mut tasks, "Shopping".to_string());
    add_sub(&mut tasks, "Milk".to_string()).unwrap();
    add_sub(&mut tasks, "Bread".to_string()).unwrap();
    add_main(&mut tasks, "Garden".to_string());
    toggle_done(&mut tasks, 0).unwrap();
    let lines = tasks_to_lines(&tasks);
    let back = tasks_from_lines(&lines);
    assert_eq!(tasks.len(), back.len());
    for (t, b) in tasks.iter().zip(back.iter()) {
        assert_eq!(t.name(), b.name());
        assert_eq!(t.is_sub(), b.is_sub());
        assert_eq!(t.is_completed(), b.is_completed());
        assert_eq!(t.parent_index(), b.parent_index());
    }
}

#[test]
fn lines_that_do_not_parse_are_skipped() {
    let lines = vec![
        "good,false,false,18446744073709551615".to_string(),
        "garbage".to_string(),
        "also,bad".to_string(),
        "fine,true,true,0".to_string(),
    ];
    let tasks = tasks_from_lines(&lines);
    assert_eq!(2, tasks.len());
    assert_eq!("good", tasks[0].name());
    assert_eq!("fine", tasks[1].name());
}
