//! The task collection: an ordered sequence of tasks with id-based
//! lookup, id assignment, bulk insertion, deletion, cleaning, state
//! toggling and partial editing.

use vstd::prelude::*;

use crate::cli::{state_of_toggle, AddTasks, AddTasksView, EditTask, EditTaskView};
use crate::tasks::{clone_strings, norm_insert_all, string_views, State, Task, TaskView};

verus! {

/// The ordered collection of all tasks tracked by one file.
#[derive(Debug)]
pub struct ToDo {
    pub tasks: Vec<Task>,
}

impl View for ToDo {
    type V = Seq<TaskView>;

    open spec fn view(&self) -> Seq<TaskView> {
        self.tasks@.map_values(|t: Task| t@)
    }
}

/// What `edit` answers when the id it was given matches no task.
#[derive(Debug, Clone, Copy, PartialEq, Eq, Structural)]
pub enum ToDoError {
    TaskNotFound,
}

// ---------------------------------------------------------------------------
// Id assignment
// ---------------------------------------------------------------------------

/// The next id to assign: one past the last task's id, or `0` for an
/// empty collection.
pub open spec fn next_id(s: Seq<TaskView>) -> int {
    if s.len() == 0 {
        0
    } else {
        s.last().id + 1
    }
}

/// Computes the next id to assign in this collection.
pub fn get_index(to_do: &ToDo) -> (r: usize)
    requires
        to_do@.len() > 0 ==> to_do@.last().id < usize::MAX,
    ensures
        r == next_id(to_do@),
{
    let n = to_do.tasks.len();
    if n == 0 {
        0
    } else {
        to_do.tasks[n - 1].id + 1
    }
}

// ---------------------------------------------------------------------------
// Finding a task by id
// ---------------------------------------------------------------------------

/// The position of the first task carrying `id`, or `-1` if none does.
pub open spec fn first_with_id(s: Seq<TaskView>, id: usize) -> int
    decreases s.len(),
{
    if s.len() == 0 {
        -1
    } else if s[0].id == id {
        0
    } else {
        let r = first_with_id(s.drop_first(), id);
        if r == -1 {
            -1
        } else {
            r + 1
        }
    }
}

/// Some task in the collection carries `id`.
pub open spec fn has_id(s: Seq<TaskView>, id: usize) -> bool {
    first_with_id(s, id) >= 0
}

/// What `first_with_id` finds: `-1` means no task carries the id, and
/// a position means the earliest task that does.
pub proof fn lemma_first_with_id(s: Seq<TaskView>, id: usize)
    ensures
        first_with_id(s, id) >= -1,
        first_with_id(s, id) == -1 ==> forall|j: int| 0 <= j < s.len() ==> s[j].id != id,
        first_with_id(s, id) >= 0 ==> first_with_id(s, id) < s.len() && s[first_with_id(s, id)].id
            == id && forall|j: int| 0 <= j < first_with_id(s, id) ==> s[j].id != id,
    decreases s.len(),
{
    if s.len() > 0 && s[0].id != id {
        lemma_first_with_id(s.drop_first(), id);
        let r = first_with_id(s.drop_first(), id);
        if r == -1 {
            assert forall|j: int| 0 <= j < s.len() implies s[j].id != id by {
                if j > 0 {
                    assert(s.drop_first()[j - 1] == s[j]);
                }
            }
        } else {
            assert(s.drop_first()[r] == s[r + 1]);
            assert forall|j: int| 0 <= j < r + 1 implies s[j].id != id by {
                if j > 0 {
                    assert(s.drop_first()[j - 1] == s[j]);
                }
            }
        }
    }
}

// ---------------------------------------------------------------------------
// Helpers over id lists and filtered sequences
// ---------------------------------------------------------------------------

/// Decides whether an id list holds the given id.
pub fn ids_contain(ids: &Vec<usize>, id: usize) -> (r: bool)
    ensures
        r == ids@.contains(id),
{
    let mut i: usize = 0;
    while i < ids.len()
        invariant
            i <= ids@.len(),
            forall|j: int| 0 <= j < i ==> ids@[j] != id,
        decreases ids@.len() - i,
    {
        if ids[i] == id {
            return true;
        }
        i = i + 1;
    }
    false
}

/// Filtering one more element keeps the filter of the rest and appends
/// the element exactly when it passes.
pub(crate) proof fn lemma_filter_snoc(s: Seq<TaskView>, pred: spec_fn(TaskView) -> bool, x: TaskView)
    ensures
        s.push(x).filter(pred) == s.filter(pred) + (if pred(x) {
            seq![x]
        } else {
            Seq::<TaskView>::empty()
        }),
{
    assert(s.push(x).drop_last() =~= s);
    assert(s.push(x).last() == x);
    reveal_with_fuel(Seq::filter, 1);
    if pred(x) {
        assert(s.push(x).filter(pred) =~= s.filter(pred) + seq![x]);
    } else {
        assert(s.push(x).filter(pred) =~= s.filter(pred) + Seq::<TaskView>::empty());
    }
}

// ---------------------------------------------------------------------------
// The collection's operations
// ---------------------------------------------------------------------------

/// The view of a task whose state was toggled, if its id is listed.
pub open spec fn toggled(t: TaskView, ids: Seq<usize>, st: State) -> TaskView {
    if ids.contains(t.id) {
        TaskView { state: st, ..t }
    } else {
        t
    }
}

/// A partial update applied to one task: present fields replace the
/// task's, absent fields leave them untouched.  Tags, when present,
/// are a full replacement in normalized form.
pub open spec fn apply_edit(t: TaskView, up: EditTaskView) -> TaskView {
    TaskView {
        id: t.id,
        description: match up.description {
            Some(d) => d,
            None => t.description,
        },
        state: match up.state {
            Some(st) => state_of_toggle(st),
            None => t.state,
        },
        project: match up.project {
            Some(p) => p,
            None => t.project,
        },
        tags: match up.tags {
            Some(ts) => norm_insert_all(Seq::empty(), ts),
            None => t.tags,
        },
    }
}

/// The tasks an add request appends, ids assigned consecutively from
/// `base`: defaults as the builder gives them, the requested project
/// and tags on every task.
pub open spec fn added_tasks(base: int, a: AddTasksView) -> Seq<TaskView> {
    Seq::new(
        a.descriptions.len(),
        |k: int|
            TaskView {
                id: (base + k) as usize,
                description: a.descriptions[k],
                state: State::ToDo,
                tags: norm_insert_all(
                    Seq::empty(),
                    match a.tag {
                        Some(t) => t,
                        None => Seq::empty(),
                    },
                ),
                project: match a.project {
                    Some(p) => p,
                    None => "Inbox"@,
                },
            },
    )
}

impl ToDo {
    /// Appends one task at the end of the sequence.  The caller is
    /// responsible for the id it carries.
    pub fn add_task(&mut self, task: Task)
        ensures
            final(self)@ == old(self)@.push(task@),
    {
        let ghost tv = task@;
        self.tasks.push(task);
        proof {
            assert(self@ =~= old(self)@.push(tv));
        }
    }

    /// Builds one task per requested description, ids assigned
    /// consecutively starting at the collection's next id, and appends
    /// them all.
    pub fn add_tasks(&mut self, to_add: &AddTasks)
        requires
            old(self)@.len() > 0 ==> old(self)@.last().id < usize::MAX,
            next_id(old(self)@) + to_add.descriptions@.len() <= usize::MAX as int + 1,
        ensures
            final(self)@ == old(self)@ + added_tasks(next_id(old(self)@), to_add@),
    {
        let base = get_index(self);
        let empty_tags: Vec<String> = Vec::new();
        let tag_list: &Vec<String> = match &to_add.tag {
            Some(v) => v,
            None => &empty_tags,
        };
        proof {
            if to_add@.tag is None {
                assert(string_views(tag_list@) =~= Seq::<Seq<char>>::empty());
            }
        }
        let n = to_add.descriptions.len();
        let mut k: usize = 0;
        proof {
            assert(old(self)@ + added_tasks(next_id(old(self)@), to_add@).take(0) =~= old(self)@);
        }
        while k < n
            invariant
                k <= n,
                n == to_add.descriptions@.len(),
                base == next_id(old(self)@),
                base + n <= usize::MAX as int + 1,
                string_views(tag_list@) == (match to_add@.tag {
                    Some(t) => t,
                    None => Seq::<Seq<char>>::empty(),
                }),
                self@ == old(self)@ + added_tasks(base as int, to_add@).take(k as int),
            decreases n - k,
        {
            let builder = Task::create(to_add.descriptions[k].as_str()).id(base + k).tags(tag_list);
            let task = match &to_add.project {
                Some(p) => builder.project(p.as_str()).build(),
                None => builder.build(),
            };
            let ghost tv = task@;
            self.tasks.push(task);
            proof {
                let added = added_tasks(base as int, to_add@);
                assert(tv =~= added[k as int]);
                assert(self@ =~= (old(self)@ + added.take(k as int)).push(tv));
                assert(self@ =~= old(self)@ + added.take(k + 1));
            }
            k = k + 1;
        }
        proof {
            assert(added_tasks(base as int, to_add@).take(n as int) =~= added_tasks(
                base as int,
                to_add@,
            ));
        }
    }

    /// Returns the first task carrying the given id, if any does.
    pub fn find_by_id(&self, id: usize) -> (r: Option<&Task>)
        ensures
            has_id(self@, id) ==> (r matches Some(t) && t@ == self@[first_with_id(self@, id)]),
            !has_id(self@, id) ==> r is None,
    {
        proof {
            lemma_first_with_id(self@, id);
        }
        let n = self.tasks.len();
        let mut i: usize = 0;
        while i < n
            invariant
                i <= n,
                n == self.tasks@.len(),
                forall|j: int| 0 <= j < i ==> self@[j].id != id,
        decreases n - i,
        {
            if self.tasks[i].id == id {
                proof {
                    lemma_first_with_id(self@, id);
                    assert(self@[i as int] == self.tasks@[i as int]@);
                    assert(self@[i as int].id == id);
                    assert(first_with_id(self@, id) == i);
                }
                return Some(&self.tasks[i]);
            }
            i = i + 1;
        }
        None
    }

    /// Removes every task whose id is listed; the rest keep their
    /// relative order.
    pub fn delete(&mut self, ids: &Vec<usize>)
        ensures
            final(self)@ == old(self)@.filter(|t: TaskView| !ids@.contains(t.id)),
    {
        let ghost pred = |t: TaskView| !ids@.contains(t.id);
        let mut kept: Vec<Task> = Vec::new();
        let n = self.tasks.len();
        let mut i: usize = 0;
        proof {
            reveal_with_fuel(Seq::filter, 1);
            assert(old(self)@.take(0) =~= Seq::<TaskView>::empty());
            assert(kept@.map_values(|t: Task| t@) =~= old(self)@.take(0).filter(pred));
        }
        while i < n
            invariant
                i <= n,
                n == self.tasks@.len(),
                self@ == old(self)@,
                kept@.map_values(|t: Task| t@) == old(self)@.take(i as int).filter(pred),
                pred == (|t: TaskView| !ids@.contains(t.id)),
            decreases n - i,
        {
            let keep = !ids_contain(ids, self.tasks[i].id);
            let ghost prev = kept@.map_values(|t: Task| t@);
            if keep {
                kept.push(self.tasks[i].clone());
            }
            proof {
                let tv = self@[i as int];
                assert(old(self)@.take(i + 1) =~= old(self)@.take(i as int).push(tv));
                lemma_filter_snoc(old(self)@.take(i as int), pred, tv);
                if keep {
                    assert(kept@.map_values(|t: Task| t@) =~= prev.push(tv));
                    assert(prev.push(tv) =~= prev + seq![tv]);
                } else {
                    assert(kept@.map_values(|t: Task| t@) =~= prev + Seq::<TaskView>::empty());
                }
            }
            i = i + 1;
        }
        self.tasks = kept;
        proof {
            assert(old(self)@.take(n as int) =~= old(self)@);
        }
    }

    /// Removes every task whose state is `Done`; the rest keep their
    /// relative order.
    pub fn clean(&mut self)
        ensures
            final(self)@ == old(self)@.filter(|t: TaskView| t.state != State::Done),
    {
        let ghost pred = |t: TaskView| t.state != State::Done;
        let mut kept: Vec<Task> = Vec::new();
        let n = self.tasks.len();
        let mut i: usize = 0;
        proof {
            reveal_with_fuel(Seq::filter, 1);
            assert(old(self)@.take(0) =~= Seq::<TaskView>::empty());
            assert(kept@.map_values(|t: Task| t@) =~= old(self)@.take(0).filter(pred));
        }
        while i < n
            invariant
                i <= n,
                n == self.tasks@.len(),
                self@ == old(self)@,
                kept@.map_values(|t: Task| t@) == old(self)@.take(i as int).filter(pred),
                pred == (|t: TaskView| t.state != State::Done),
            decreases n - i,
        {
            let keep = !(self.tasks[i].state == State::Done);
            let ghost prev = kept@.map_values(|t: Task| t@);
            if keep {
                kept.push(self.tasks[i].clone());
            }
            proof {
                let tv = self@[i as int];
                assert(old(self)@.take(i + 1) =~= old(self)@.take(i as int).push(tv));
                lemma_filter_snoc(old(self)@.take(i as int), pred, tv);
                if keep {
                    assert(kept@.map_values(|t: Task| t@) =~= prev.push(tv));
                    assert(prev.push(tv) =~= prev + seq![tv]);
                } else {
                    assert(kept@.map_values(|t: Task| t@) =~= prev + Seq::<TaskView>::empty());
                }
            }
            i = i + 1;
        }
        self.tasks = kept;
        proof {
            assert(old(self)@.take(n as int) =~= old(self)@);
        }
    }

    /// Gives every task whose id is listed the new state; unmatched
    /// ids are silently ignored.
    pub fn toggle(&mut self, ids: &Vec<usize>, state: State)
        ensures
            final(self)@ == old(self)@.map_values(|t: TaskView| toggled(t, ids@, state)),
    {
        let n = self.tasks.len();
        let mut i: usize = 0;
        while i < n
            invariant
                i <= n,
                n == self.tasks@.len(),
                forall|j: int| 0 <= j < i ==> self@[j] == toggled(#[trigger] old(self)@[j], ids@, state),
                forall|j: int| i <= j < n ==> self@[j] == old(self)@[j],
            decreases n - i,
        {
            let listed = ids_contain(ids, self.tasks[i].id);
            if listed {
                let mut t = self.tasks[i].clone();
                t.change_state(state);
                self.tasks[i] = t;
            }
            i = i + 1;
        }
        proof {
            assert(final(self)@ =~= old(self)@.map_values(|t: TaskView| toggled(t, ids@, state)));
        }
    }

    /// Edits the task carrying the requested id: present fields of the
    /// update replace the task's, the rest stay as they were.  The only
    /// failing operation of the collection: an unmatched id is an
    /// error, and the collection is then left unchanged.
    pub fn edit(&mut self, update: &EditTask) -> (r: Result<(), ToDoError>)
        ensures
            !has_id(old(self)@, update.task) ==> r == Err::<(), ToDoError>(ToDoError::TaskNotFound)
                && final(self)@ == old(self)@,
            has_id(old(self)@, update.task) ==> r == Ok::<(), ToDoError>(()) && final(self)@ == old(
                self,
            )@.update(
                first_with_id(old(self)@, update.task),
                apply_edit(old(self)@[first_with_id(old(self)@, update.task)], update@),
            ),
    {
        proof {
            lemma_first_with_id(old(self)@, update.task);
        }
        let n = self.tasks.len();
        let mut i: usize = 0;
        while i < n
            invariant
                i <= n,
                n == self.tasks@.len(),
                self@ == old(self)@,
                forall|j: int| 0 <= j < i ==> self@[j].id != update.task,
            decreases n - i,
        {
            if self.tasks[i].id == update.task {
                proof {
                    lemma_first_with_id(old(self)@, update.task);
                    assert(first_with_id(old(self)@, update.task) == i);
                }
                let mut t = self.tasks[i].clone();
                if let Some(d) = &update.description {
                    t.change_description(d.as_str());
                }
                if let Some(st) = update.state {
                    t.change_state(State::from(st));
                }
                if let Some(p) = &update.project {
                    t.project = p.clone();
                }
                if let Some(ts) = &update.tags {
                    t.replace_tags(ts);
                }
                proof {
                    assert(t@ =~= apply_edit(old(self)@[i as int], update@));
                }
                self.tasks[i] = t;
                proof {
                    assert(first_with_id(old(self)@, update.task) == i);
                    assert(final(self)@ =~= old(self)@.update(
                        i as int,
                        apply_edit(old(self)@[i as int], update@),
                    ));
                }
                return Ok(());
            }
            i = i + 1;
        }
        Err(ToDoError::TaskNotFound)
    }
}

impl From<Vec<Task>> for ToDo {
    fn from(tasks: Vec<Task>) -> (r: Self) {
        ToDo { tasks }
    }
}

impl vstd::std_specs::convert::FromSpecImpl<Vec<Task>> for ToDo {
    open spec fn obeys_from_spec() -> bool {
        true
    }

    open spec fn from_spec(tasks: Vec<Task>) -> ToDo {
        ToDo { tasks }
    }
}

impl Clone for ToDo {
    /// The copy carries the same mathematical content.
    fn clone(&self) -> (r: Self)
        ensures
            r@ == self@,
    {
        let mut tasks: Vec<Task> = Vec::new();
        let mut i: usize = 0;
        while i < self.tasks.len()
            invariant
                i <= self.tasks@.len(),
                tasks@.map_values(|t: Task| t@) == self@.take(i as int),
            decreases self.tasks@.len() - i,
        {
            let ghost prev = tasks@.map_values(|t: Task| t@);
            tasks.push(self.tasks[i].clone());
            proof {
                assert(tasks@.map_values(|t: Task| t@) =~= prev.push(self@[i as int]));
                assert(prev.push(self@[i as int]) =~= self@.take(i + 1));
            }
            i = i + 1;
        }
        let r = ToDo { tasks };
        proof {
            assert(self@.take(self.tasks@.len() as int) =~= self@);
            assert(r@ =~= self@);
        }
        r
    }
}

impl PartialEq for ToDo {
    /// Collections are equal when they hold equal tasks in the same
    /// order.
    fn eq(&self, other: &Self) -> (r: bool) {
        let n = self.tasks.len();
        if n != other.tasks.len() {
            proof {
                assert(self@.len() != other@.len());
            }
            return false;
        }
        let mut i: usize = 0;
        while i < n
            invariant
                i <= n,
                n == self.tasks@.len(),
                n == other.tasks@.len(),
                forall|j: int| 0 <= j < i ==> (#[trigger] self@[j]).equiv(other@[j]),
            decreases n - i,
        {
            let same = self.tasks[i] == other.tasks[i];
            if !same {
                proof {
                    assert(!((self@[i as int]).equiv(other@[i as int])));
                }
                return false;
            }
            i = i + 1;
        }
        true
    }
}

impl Eq for ToDo {

}

impl vstd::std_specs::cmp::PartialEqSpecImpl for ToDo {
    open spec fn obeys_eq_spec() -> bool {
        true
    }

    open spec fn eq_spec(&self, other: &ToDo) -> bool {
        self@.len() == other@.len() && forall|j: int|
            0 <= j < self@.len() ==> (#[trigger] self@[j]).equiv(other@[j])
    }
}

} // verus!

