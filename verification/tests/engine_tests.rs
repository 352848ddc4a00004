use tasker::cli::{AddTasks, EditTask, ListTasks, SortTasks, ToggleState};
use tasker::query::{select_tasks, sorted_projects, tasks_of_project};
use tasker::tasks::{State, Task};
use tasker::todos::{get_index, ToDo, ToDoError};

fn sample_board() -> ToDo {
    ToDo::from(vec![
        Task::create("Buy milk")
            .id(0)
            .project("Errands")
            .tag("grocery")
            .build(),
        Task::create("Call Bob").id(1).project("Calls").build(),
        Task::create("Write report")
            .id(2)
            .project("Work")
            .tag("writing")
            .state(State::Doing)
            .build(),
        Task::create("Wait for parts")
            .id(3)
            .project("Errands")
            .state(State::Waiting)
            .build(),
        Task::create("Ship package")
            .id(4)
            .project("Errands")
            .state(State::Done)
            .build(),
    ])
}

#[test]
fn tag_set_ignores_duplicates() {
    let mut task = Task::create("This is a test").build();
    task.add_tag("Test Tag");
    task.add_tag("test-tag");
    task.add_tag("Test  Tag!");
    assert_eq!(task.tags, vec!["test-tag".to_string()]);
}

#[test]
fn next_id_for_empty_collection_is_zero() {
    let todo = ToDo::from(vec![]);
    assert_eq!(get_index(&todo), 0);
}

#[test]
fn next_id_follows_last_task() {
    let todo = ToDo::from(vec![
        Task::create("a").id(3).build(),
        Task::create("b").id(7).build(),
    ]);
    assert_eq!(get_index(&todo), 8);
}

#[test]
fn add_tasks_assigns_consecutive_ids() {
    let mut todo = ToDo::from(vec![Task::create("first").id(4).build()]);
    todo.add_tasks(&AddTasks {
        descriptions: vec!["second".to_string(), "third".to_string()],
        project: Some("Calls".to_string()),
        tag: None,
    });
    assert_eq!(todo.tasks.len(), 3);
    assert_eq!(todo.tasks[1].id, 5);
    assert_eq!(todo.tasks[1].description, "second".to_string());
    assert_eq!(todo.tasks[1].project, "Calls".to_string());
    assert_eq!(todo.tasks[2].id, 6);
    assert_eq!(todo.tasks[2].description, "third".to_string());
}

#[test]
fn add_tasks_defaults_project_and_normalizes_tags() {
    let mut todo = ToDo::from(vec![]);
    todo.add_tasks(&AddTasks {
        descriptions: vec!["solo".to_string()],
        project: None,
        tag: Some(vec!["My Tag".to_string(), "my-tag".to_string()]),
    });
    assert_eq!(todo.tasks[0].id, 0);
    assert_eq!(todo.tasks[0].project, "Inbox".to_string());
    assert_eq!(todo.tasks[0].tags, vec!["my-tag".to_string()]);
    assert_eq!(todo.tasks[0].state, State::ToDo);
}

#[test]
fn delete_removes_exactly_the_listed_ids() {
    let mut todo = sample_board();
    todo.delete(&vec![1, 3, 99]);
    let ids: Vec<usize> = todo.tasks.iter().map(|t| t.id).collect();
    assert_eq!(ids, vec![0, 2, 4]);
}

#[test]
fn clean_removes_exactly_the_done_tasks() {
    let mut todo = sample_board();
    todo.clean();
    let ids: Vec<usize> = todo.tasks.iter().map(|t| t.id).collect();
    assert_eq!(ids, vec![0, 1, 2, 3]);
}

#[test]
fn toggle_changes_listed_and_ignores_unmatched() {
    let mut todo = sample_board();
    todo.toggle(&vec![1, 77], State::Done);
    assert_eq!(todo.tasks[1].state, State::Done);
    assert_eq!(todo.tasks[0].state, State::ToDo);
    assert_eq!(todo.tasks[2].state, State::Doing);
    assert_eq!(todo.tasks.len(), 5);
}

#[test]
fn edit_changes_only_the_given_fields() {
    let mut todo = sample_board();
    let before = todo.clone();
    let outcome = todo.edit(&EditTask {
        task: 2,
        description: Some("Write the yearly report".to_string()),
        state: Some(ToggleState::Waiting),
        project: None,
        tags: None,
    });
    assert_eq!(outcome, Ok(()));
    assert_eq!(todo.tasks[2].description, "Write the yearly report".to_string());
    assert_eq!(todo.tasks[2].state, State::Waiting);
    assert_eq!(todo.tasks[2].project, before.tasks[2].project);
    assert_eq!(todo.tasks[2].tags, before.tasks[2].tags);
    assert_eq!(todo.tasks[2].id, 2);
    assert_eq!(todo.tasks[0], before.tasks[0]);
    assert_eq!(todo.tasks[1], before.tasks[1]);
    assert_eq!(todo.tasks[3], before.tasks[3]);
    assert_eq!(todo.tasks[4], before.tasks[4]);
}

#[test]
fn edit_replaces_tags_wholesale() {
    let mut todo = sample_board();
    let outcome = todo.edit(&EditTask {
        task: 0,
        description: None,
        state: None,
        project: None,
        tags: Some(vec!["New Tag".to_string(), "Other".to_string()]),
    });
    assert_eq!(outcome, Ok(()));
    assert_eq!(
        todo.tasks[0].tags,
        vec!["new-tag".to_string(), "other".to_string()]
    );
}

#[test]
fn edit_of_absent_id_fails_and_changes_nothing() {
    let mut todo = sample_board();
    let before = todo.clone();
    let outcome = todo.edit(&EditTask {
        task: 42,
        description: Some("nope".to_string()),
        state: None,
        project: None,
        tags: None,
    });
    assert_eq!(outcome, Err(ToDoError::TaskNotFound));
    assert_eq!(todo, before);
}

fn no_filters() -> ListTasks {
    ListTasks {
        sort_by: None,
        description: None,
        state: None,
        tag: None,
        project: None,
    }
}

#[test]
fn description_filter_is_case_insensitive() {
    let todo = sample_board();
    let hits = select_tasks(
        &todo,
        &ListTasks {
            description: Some("MILK".to_string()),
            ..no_filters()
        },
    );
    assert_eq!(hits.len(), 1);
    assert_eq!(hits[0].id, 0);
}

#[test]
fn tag_filter_keeps_tasks_sharing_a_tag() {
    let todo = sample_board();
    let hits = select_tasks(
        &todo,
        &ListTasks {
            tag: Some(vec!["writing".to_string(), "absent".to_string()]),
            ..no_filters()
        },
    );
    assert_eq!(hits.len(), 1);
    assert_eq!(hits[0].id, 2);
}

#[test]
fn two_filters_select_the_intersection() {
    let todo = sample_board();
    let by_project = select_tasks(
        &todo,
        &ListTasks {
            project: Some("errands".to_string()),
            ..no_filters()
        },
    );
    let by_state = select_tasks(
        &todo,
        &ListTasks {
            state: Some(ToggleState::Waiting),
            ..no_filters()
        },
    );
    let by_both = select_tasks(
        &todo,
        &ListTasks {
            project: Some("errands".to_string()),
            state: Some(ToggleState::Waiting),
            ..no_filters()
        },
    );
    let project_ids: Vec<usize> = by_project.iter().map(|t| t.id).collect();
    let state_ids: Vec<usize> = by_state.iter().map(|t| t.id).collect();
    let both_ids: Vec<usize> = by_both.iter().map(|t| t.id).collect();
    assert_eq!(project_ids, vec![0, 3, 4]);
    assert_eq!(state_ids, vec![3]);
    let intersection: Vec<usize> = project_ids
        .iter()
        .copied()
        .filter(|id| state_ids.contains(id))
        .collect();
    assert_eq!(both_ids, intersection);
}

#[test]
fn sort_by_state_follows_the_declared_order() {
    let todo = ToDo::from(vec![
        Task::create("d").id(0).state(State::Done).build(),
        Task::create("w").id(1).state(State::Waiting).build(),
        Task::create("t").id(2).state(State::ToDo).build(),
        Task::create("p").id(3).state(State::Doing).build(),
    ]);
    let listed = select_tasks(
        &todo,
        &ListTasks {
            sort_by: Some(SortTasks::State),
            ..no_filters()
        },
    );
    let states: Vec<State> = listed.iter().map(|t| t.state).collect();
    assert_eq!(
        states,
        vec![State::ToDo, State::Doing, State::Waiting, State::Done]
    );
}

#[test]
fn sort_by_description_is_case_insensitive_and_stable() {
    let todo = ToDo::from(vec![
        Task::create("beta").id(0).build(),
        Task::create("Alpha").id(1).build(),
        Task::create("BETA").id(2).build(),
        Task::create("alpha").id(3).build(),
    ]);
    let listed = select_tasks(
        &todo,
        &ListTasks {
            sort_by: Some(SortTasks::Description),
            ..no_filters()
        },
    );
    let ids: Vec<usize> = listed.iter().map(|t| t.id).collect();
    assert_eq!(ids, vec![1, 3, 0, 2]);
}

#[test]
fn sort_by_id_is_numeric() {
    let todo = ToDo::from(vec![
        Task::create("a").id(10).build(),
        Task::create("b").id(2).build(),
        Task::create("c").id(30).build(),
    ]);
    let listed = select_tasks(
        &todo,
        &ListTasks {
            sort_by: Some(SortTasks::ID),
            ..no_filters()
        },
    );
    let ids: Vec<usize> = listed.iter().map(|t| t.id).collect();
    assert_eq!(ids, vec![2, 10, 30]);
}

#[test]
fn grouped_view_sorts_projects_and_keeps_task_order() {
    let todo = sample_board();
    let projects = sorted_projects(&todo);
    assert_eq!(
        projects,
        vec![
            "Calls".to_string(),
            "Errands".to_string(),
            "Work".to_string()
        ]
    );
    let errands = tasks_of_project(&todo, &"Errands".to_string());
    let ids: Vec<usize> = errands.iter().map(|t| t.id).collect();
    assert_eq!(ids, vec![0, 3, 4]);
}

#[test]
fn find_by_id_returns_the_matching_task() {
    let todo = sample_board();
    assert_eq!(todo.find_by_id(3).map(|t| t.id), Some(3));
    assert!(todo.find_by_id(42).is_none());
}

#[test]
fn toggle_state_converts_to_task_state() {
    assert_eq!(State::from(ToggleState::ToDo), State::ToDo);
    assert_eq!(State::from(ToggleState::Doing), State::Doing);
    assert_eq!(State::from(ToggleState::Done), State::Done);
    assert_eq!(State::from(ToggleState::Waiting), State::Waiting);
}

#[test]
fn example_scenario_runs_end_to_end() {
    let mut todo = ToDo::from(vec![]);
    todo.add_tasks(&AddTasks {
        descriptions: vec!["Buy milk".to_string()],
        project: Some("Errands".to_string()),
        tag: Some(vec!["grocery".to_string()]),
    });
    assert_eq!(todo.tasks.len(), 1);
    assert_eq!(todo.tasks[0].id, 0);
    assert_eq!(todo.tasks[0].project, "Errands".to_string());
    assert_eq!(todo.tasks[0].tags, vec!["grocery".to_string()]);

    todo.add_tasks(&AddTasks {
        descriptions: vec!["Call Bob".to_string(), "Call Alice".to_string()],
        project: Some("Calls".to_string()),
        tag: None,
    });
    assert_eq!(todo.tasks.len(), 3);
    assert_eq!(todo.tasks[1].id, 1);
    assert_eq!(todo.tasks[2].id, 2);

    todo.toggle(&vec![1], State::Done);
    assert_eq!(todo.tasks[1].state, State::Done);
    assert_eq!(todo.tasks[0].state, State::ToDo);
    assert_eq!(todo.tasks[2].state, State::ToDo);

    todo.clean();
    let ids: Vec<usize> = todo.tasks.iter().map(|t| t.id).collect();
    assert_eq!(ids, vec![0, 2]);

    todo.delete(&vec![0]);
    assert_eq!(todo.tasks.len(), 1);
    assert_eq!(todo.tasks[0].id, 2);
    assert_eq!(todo.tasks[0].description, "Call Alice".to_string());
}

#[test]
fn task_equality_ignores_tag_order() {
    let mut a = Task::create("same").build();
    a.add_tag("one");
    a.add_tag("two");
    let mut b = Task::create("same").build();
    b.add_tag("two");
    b.add_tag("one");
    assert_eq!(a, b);

    let mut c = Task::create("same").build();
    c.add_tag("one");
    assert_ne!(a, c);
}

#[test]
fn cloned_collection_compares_equal() {
    let todo = sample_board();
    let copy = todo.clone();
    assert_eq!(todo, copy);
}
