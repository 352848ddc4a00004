use tasker::tasks::{State, Task};
use tasker::todos::ToDo;

#[test]
fn add_task_works() {
    let mut todo = ToDo::from(vec![Task::create("This is a test")
        .project("Testing")
        .build()]);

    todo.add_task(Task::create("This is from a method").build());

    assert_eq!(
        todo,
        ToDo {
            tasks: vec![
                Task::create("This is a test").project("Testing").build(),
                Task::create("This is from a method").build()
            ]
        }
    );
}

#[test]
fn mod_task_builder_works() {
    let task = Task::create("This is a test").build();

    assert_eq!(
        task,
        Task {
            id: 0,
            description: "This is a test".to_string(),
            state: State::ToDo,
            tags: vec![],
            project: "Inbox".to_string()
        }
    );
}

#[test]
fn mod_task_builder_change_state_works() {
    let task = Task::create("This is a test").state(State::Waiting).build();

    assert_eq!(
        task,
        Task {
            id: 0,
            description: "This is a test".to_string(),
            state: State::Waiting,
            tags: vec![],
            project: "Inbox".to_string()
        }
    );
}

#[test]
fn mod_task_builder_change_tag_works() {
    let task = Task::create("This is a test").tag("Test").build();

    assert_eq!(
        task,
        Task {
            id: 0,
            description: "This is a test".to_string(),
            state: State::ToDo,
            tags: vec!["test".to_string()],
            project: "Inbox".to_string()
        }
    );
}

#[test]
fn mod_task_builder_change_tags_works() {
    let task = Task::create("This is a test")
        .tags(&vec!["Test 1".to_string(), "Test 2".to_string()])
        .build();

    assert_eq!(
        task,
        Task {
            id: 0,
            description: "This is a test".to_string(),
            state: State::ToDo,
            tags: vec!["test-1".to_string(), "test-2".to_string()],
            project: "Inbox".to_string()
        }
    );
}

#[test]
fn mod_task_builder_change_project_works() {
    let task = Task::create("This is a test").project("Testing").build();

    assert_eq!(
        task,
        Task {
            id: 0,
            description: "This is a test".to_string(),
            state: State::ToDo,
            tags: vec![],
            project: "Testing".to_string()
        }
    );
}

#[test]
fn tasks_task_builder_works() {
    let task = Task::create("This is a test").build();

    assert_eq!(
        task,
        Task {
            id: 0,
            description: "This is a test".to_string(),
            state: State::ToDo,
            tags: vec![],
            project: "Inbox".to_string()
        }
    );
}

#[test]
fn tasks_task_builder_change_state_works() {
    let task = Task::create("This is a test").state(State::Waiting).build();

    assert_eq!(
        task,
        Task {
            id: 0,
            description: "This is a test".to_string(),
            state: State::Waiting,
            tags: vec![],
            project: "Inbox".to_string()
        }
    );
}

#[test]
fn tasks_task_builder_change_tag_works() {
    let task = Task::create("This is a test").tag("Test").build();

    assert_eq!(
        task,
        Task {
            id: 0,
            description: "This is a test".to_string(),
            state: State::ToDo,
            tags: vec!["test".to_string()],
            project: "Inbox".to_string()
        }
    );
}

#[test]
fn tasks_task_builder_change_tags_works() {
    let task = Task::create("This is a test")
        .tags(&vec!["Test 1".to_string(), "Test 2".to_string()])
        .build();

    assert_eq!(
        task,
        Task {
            id: 0,
            description: "This is a test".to_string(),
            state: State::ToDo,
            tags: vec!["test-1".to_string(), "test-2".to_string()],
            project: "Inbox".to_string()
        }
    );
}

#[test]
fn tasks_task_builder_change_project_works() {
    let task = Task::create("This is a test").project("Testing").build();

    assert_eq!(
        task,
        Task {
            id: 0,
            description: "This is a test".to_string(),
            state: State::ToDo,
            tags: vec![],
            project: "Testing".to_string()
        }
    );
}

#[test]
fn tasks_add_tag_works() {
    let mut task = Task::create("This is a test").project("Testing").build();
    task.add_tag("Testing tags");

    assert_eq!(
        task,
        Task {
            id: 0,
            description: "This is a test".to_string(),
            state: State::ToDo,
            tags: vec!["testing-tags".to_string()],
            project: "Testing".to_string()
        }
    );
}

#[test]
fn tasks_add_tags_works() {
    let mut task = Task::create("This is a test").project("Testing").build();
    task.add_tags(&vec![
        "Testing tags".to_string(),
        "another tag".to_string(),
        "Yet Another Tag".to_string(),
    ]);

    assert_eq!(
        task,
        Task {
            id: 0,
            description: "This is a test".to_string(),
            state: State::ToDo,
            tags: vec![
                "testing-tags".to_string(),
                "another-tag".to_string(),
                "yet-another-tag".to_string()
            ],
            project: "Testing".to_string()
        }
    );
}
