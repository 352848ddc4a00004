//! The typed commands a front end hands to the collection: what to
//! add, toggle, edit, delete, or list.  Parsing text into these values
//! is the front end's business; the logic here starts from the values.

use vstd::prelude::*;

use crate::tasks::{string_views, State};

verus! {

/// One application command.
#[derive(Debug)]
pub enum Command {
    /// Add task(s)
    Add(AddTasks),
    /// Clean completed tasks
    Clean,
    /// Delete tasks
    Delete(DeleteTasks),
    /// Edit a task
    Edit(EditTask),
    /// List tasks
    List(ListTasks),
    /// Print default paths for the application
    Paths,
    /// Change the state of a task
    Toggle(ToggleTasks),
}

/// Task(s) to accomplish, with an optional project and optional tags
/// shared by all of them.
#[derive(Debug)]
pub struct AddTasks {
    pub descriptions: Vec<String>,
    pub project: Option<String>,
    pub tag: Option<Vec<String>>,
}

/// The mathematical content of an add request.
#[verifier::ext_equal]
pub struct AddTasksView {
    pub descriptions: Seq<Seq<char>>,
    pub project: Option<Seq<char>>,
    pub tag: Option<Seq<Seq<char>>>,
}

impl View for AddTasks {
    type V = AddTasksView;

    open spec fn view(&self) -> AddTasksView {
        AddTasksView {
            descriptions: string_views(self.descriptions@),
            project: match self.project {
                Some(p) => Some(p@),
                None => None,
            },
            tag: match self.tag {
                Some(t) => Some(string_views(t@)),
                None => None,
            },
        }
    }
}

/// A state to assign to every task whose id is listed.
#[derive(Debug)]
pub struct ToggleTasks {
    pub state: ToggleState,
    pub tasks: Vec<usize>,
}

/// The state named on the command line.
#[derive(Debug, Clone, Copy, PartialEq, Eq, Structural)]
pub enum ToggleState {
    /// Not started yet
    ToDo,
    /// In progress
    Doing,
    /// Finished
    Done,
    /// Blocked on something external
    Waiting,
}

/// The task state a command-line state stands for.
pub open spec fn state_of_toggle(value: ToggleState) -> State {
    match value {
        ToggleState::ToDo => State::ToDo,
        ToggleState::Doing => State::Doing,
        ToggleState::Done => State::Done,
        ToggleState::Waiting => State::Waiting,
    }
}

impl From<ToggleState> for State {
    fn from(value: ToggleState) -> (r: Self) {
        match value {
            ToggleState::ToDo => State::ToDo,
            ToggleState::Doing => State::Doing,
            ToggleState::Done => State::Done,
            ToggleState::Waiting => State::Waiting,
        }
    }
}

impl vstd::std_specs::convert::FromSpecImpl<ToggleState> for State {
    open spec fn obeys_from_spec() -> bool {
        true
    }

    open spec fn from_spec(value: ToggleState) -> State {
        state_of_toggle(value)
    }
}

/// A partial update for the task with the given id: only the fields
/// that are present change.
#[derive(Debug)]
pub struct EditTask {
    pub task: usize,
    pub description: Option<String>,
    pub state: Option<ToggleState>,
    pub project: Option<String>,
    pub tags: Option<Vec<String>>,
}

/// The mathematical content of a partial update.
#[verifier::ext_equal]
pub struct EditTaskView {
    pub task: usize,
    pub description: Option<Seq<char>>,
    pub state: Option<ToggleState>,
    pub project: Option<Seq<char>>,
    pub tags: Option<Seq<Seq<char>>>,
}

impl View for EditTask {
    type V = EditTaskView;

    open spec fn view(&self) -> EditTaskView {
        EditTaskView {
            task: self.task,
            description: match self.description {
                Some(d) => Some(d@),
                None => None,
            },
            state: self.state,
            project: match self.project {
                Some(p) => Some(p@),
                None => None,
            },
            tags: match self.tags {
                Some(t) => Some(string_views(t@)),
                None => None,
            },
        }
    }
}

/// Ids of the task(s) to delete.
#[derive(Debug)]
pub struct DeleteTasks {
    pub tasks: Vec<usize>,
}

/// Which tasks to show, and in what order.
#[derive(Debug)]
pub struct ListTasks {
    pub sort_by: Option<SortTasks>,
    pub description: Option<String>,
    pub state: Option<ToggleState>,
    pub tag: Option<Vec<String>>,
    pub project: Option<String>,
}

/// The mathematical content of a listing request.
#[verifier::ext_equal]
pub struct ListTasksView {
    pub sort_by: Option<SortTasks>,
    pub description: Option<Seq<char>>,
    pub state: Option<ToggleState>,
    pub tag: Option<Seq<Seq<char>>>,
    pub project: Option<Seq<char>>,
}

impl View for ListTasks {
    type V = ListTasksView;

    open spec fn view(&self) -> ListTasksView {
        ListTasksView {
            sort_by: self.sort_by,
            description: match self.description {
                Some(d) => Some(d@),
                None => None,
            },
            state: self.state,
            tag: match self.tag {
                Some(t) => Some(string_views(t@)),
                None => None,
            },
            project: match self.project {
                Some(p) => Some(p@),
                None => None,
            },
        }
    }
}

/// The field tasks can be sorted by.
#[derive(Debug, Clone, Copy, PartialEq, Eq, Structural)]
pub enum SortTasks {
    /// Sort by description
    Description,
    /// Sort by project
    Project,
    /// Sort by state
    State,
    /// Sort by ID
    ID,
}

/// The language the front end greets and reports in.  It steers
/// display only, never the logic.
#[derive(Debug, Clone, Copy, PartialEq, Eq, Structural)]
pub enum Language {
    English,
    Spanish,
}

impl Default for Language {
    fn default() -> (r: Self)
        ensures
            r == Language::English,
    {
        Language::English
    }
}

} // verus!
