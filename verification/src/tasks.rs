//! The task record: a description, a state of progress, a set of
//! normalized tags and a project label, plus the builder that
//! constructs well-formed tasks and the in-place mutators.

use vstd::prelude::*;

use crate::tags::{canonical, lemma_normalize_canonical, normalize, normalize_spec};

verus! {

/// The state of progress of a task.  The declared order
/// `ToDo < Doing < Waiting < Done` is used only for sorting.
#[derive(Debug, Clone, Copy, PartialEq, Eq, Structural)]
pub enum State {
    ToDo,
    Doing,
    Waiting,
    Done,
}

impl Default for State {
    fn default() -> (r: Self)
        ensures
            r == State::ToDo,
    {
        State::ToDo
    }
}

/// The position of a state in the declared sorting order.
pub open spec fn state_rank(s: State) -> int {
    match s {
        State::ToDo => 0,
        State::Doing => 1,
        State::Waiting => 2,
        State::Done => 3,
    }
}

/// The character sequences of a list of strings.
pub open spec fn string_views(v: Seq<String>) -> Seq<Seq<char>> {
    v.map_values(|s: String| s@)
}

/// A tag list grows by one tag unless the tag is already present.
pub open spec fn insert_tag(l: Seq<Seq<char>>, t: Seq<char>) -> Seq<Seq<char>> {
    if l.contains(t) {
        l
    } else {
        l.push(t)
    }
}

/// Each text in `ts`, normalized and inserted into `l` in turn.
pub open spec fn norm_insert_all(l: Seq<Seq<char>>, ts: Seq<Seq<char>>) -> Seq<Seq<char>>
    decreases ts.len(),
{
    if ts.len() == 0 {
        l
    } else {
        insert_tag(norm_insert_all(l, ts.drop_last()), normalize_spec(ts.last()))
    }
}

/// A tag list in good standing: every entry canonical, no entry twice.
pub open spec fn tags_wf(l: Seq<Seq<char>>) -> bool {
    &&& forall|i: int| 0 <= i < l.len() ==> canonical(#[trigger] l[i])
    &&& forall|i: int, j: int| 0 <= i < j < l.len() ==> l[i] != l[j]
}

/// The mathematical content of a task.
#[verifier::ext_equal]
pub struct TaskView {
    pub id: usize,
    pub description: Seq<char>,
    pub state: State,
    pub tags: Seq<Seq<char>>,
    pub project: Seq<char>,
}

impl TaskView {
    /// The tags as a set; their stored order carries no meaning.
    pub open spec fn tag_set(self) -> Set<Seq<char>> {
        self.tags.to_set()
    }

    /// Well-formed: the tag list is canonical and duplicate-free.
    pub open spec fn wf(self) -> bool {
        tags_wf(self.tags)
    }

    /// Equivalence: equal fields, with the tags compared as sets.
    pub open spec fn equiv(self, other: TaskView) -> bool {
        &&& self.id == other.id
        &&& self.description == other.description
        &&& self.state == other.state
        &&& self.tag_set() == other.tag_set()
        &&& self.project == other.project
    }
}

/// One trackable unit of work.
#[derive(Debug)]
pub struct Task {
    pub id: usize,
    pub description: String,
    pub state: State,
    pub tags: Vec<String>,
    pub project: String,
}

impl View for Task {
    type V = TaskView;

    open spec fn view(&self) -> TaskView {
        TaskView {
            id: self.id,
            description: self.description@,
            state: self.state,
            tags: string_views(self.tags@),
            project: self.project@,
        }
    }
}

/// Copies a list of strings; the copy holds the same character
/// sequences in the same order.
pub fn clone_strings(v: &Vec<String>) -> (r: Vec<String>)
    ensures
        string_views(r@) == string_views(v@),
{
    let mut r: Vec<String> = Vec::new();
    let mut i: usize = 0;
    while i < v.len()
        invariant
            i <= v@.len(),
            r@.len() == i,
            forall|j: int| 0 <= j < i ==> r@[j]@ == v@[j]@,
        decreases v@.len() - i,
    {
        r.push(v[i].clone());
        i = i + 1;
    }
    proof {
        assert(string_views(r@) =~= string_views(v@));
    }
    r
}

/// Decides whether a tag list holds the given character sequence.
pub fn tag_list_contains(v: &Vec<String>, t: &String) -> (r: bool)
    ensures
        r == string_views(v@).contains(t@),
{
    let mut i: usize = 0;
    while i < v.len()
        invariant
            i <= v@.len(),
            forall|j: int| 0 <= j < i ==> string_views(v@)[j] != t@,
        decreases v@.len() - i,
    {
        if crate::strutil::str_eq(v[i].as_str(), t.as_str()) {
            assert(string_views(v@)[i as int] == t@);
            return true;
        }
        i = i + 1;
    }
    false
}

/// Appends the normalized form of `tag` to the list unless it is
/// already there.
fn insert_normalized(tags: &mut Vec<String>, tag: &str)
    ensures
        string_views(final(tags)@) == insert_tag(string_views(old(tags)@), normalize_spec(tag@)),
        tags_wf(string_views(old(tags)@)) ==> tags_wf(string_views(final(tags)@)),
{
    let n = normalize(tag);
    if !tag_list_contains(tags, &n) {
        tags.push(n);
        proof {
            assert(string_views(tags@) =~= string_views(old(tags)@).push(normalize_spec(tag@)));
            if tags_wf(string_views(old(tags)@)) {
                lemma_normalize_canonical(tag@);
                let l = string_views(tags@);
                let o = string_views(old(tags)@);
                assert forall|i: int, j: int| 0 <= i < j < l.len() implies l[i] != l[j] by {
                    if j < o.len() {
                        assert(l[i] == o[i] && l[j] == o[j]);
                    } else {
                        assert(l[j] == normalize_spec(tag@));
                        assert(!o.contains(normalize_spec(tag@)));
                        assert(l[i] == o[i]);
                    }
                }
                assert forall|i: int| 0 <= i < l.len() implies canonical(#[trigger] l[i]) by {
                    if i < o.len() {
                        assert(l[i] == o[i]);
                    }
                }
            }
        }
    }
}

impl Task {
    /// Starts building a task from its description; everything else
    /// gets a default until the builder says otherwise.
    pub fn create(description: &str) -> (b: TaskBuilder)
        ensures
            b@.id == 0,
            b@.description == description@,
            b@.state == State::ToDo,
            b@.tags is None,
            b@.project is None,
    {
        TaskBuilder {
            id: 0,
            description: description.to_owned(),
            state: State::ToDo,
            tags: None,
            project: None,
        }
    }

    /// Normalizes one tag and adds it to the task's tag set.
    pub fn add_tag(&mut self, tag: &str)
        ensures
            final(self)@ == (TaskView {
                tags: insert_tag(old(self)@.tags, normalize_spec(tag@)),
                ..old(self)@
            }),
            old(self)@.wf() ==> final(self)@.wf(),
    {
        insert_normalized(&mut self.tags, tag);
    }

    /// Normalizes many tags and adds them all to the task's tag set.
    pub fn add_tags(&mut self, tags: &Vec<String>)
        ensures
            final(self)@ == (TaskView {
                tags: norm_insert_all(old(self)@.tags, string_views(tags@)),
                ..old(self)@
            }),
            old(self)@.wf() ==> final(self)@.wf(),
    {
        let ghost ts = string_views(tags@);
        let mut i: usize = 0;
        proof {
            assert(ts.take(0) =~= Seq::<Seq<char>>::empty());
        }
        while i < tags.len()
            invariant
                i <= tags@.len(),
                ts == string_views(tags@),
                self.id == old(self).id,
                self.description@ == old(self).description@,
                self.state == old(self).state,
                self.project@ == old(self).project@,
                string_views(self.tags@) == norm_insert_all(old(self)@.tags, ts.take(i as int)),
                tags_wf(old(self)@.tags) ==> tags_wf(string_views(self.tags@)),
            decreases tags@.len() - i,
        {
            proof {
                assert(ts.take(i + 1).drop_last() =~= ts.take(i as int));
                assert(ts.take(i + 1).last() == ts[i as int]);
            }
            insert_normalized(&mut self.tags, tags[i].as_str());
            i = i + 1;
        }
        proof {
            assert(ts.take(tags@.len() as int) =~= ts);
        }
    }

    /// Discards the existing tags and installs the normalized forms of
    /// the given ones.
    pub fn replace_tags(&mut self, tags: &Vec<String>)
        ensures
            final(self)@ == (TaskView {
                tags: norm_insert_all(Seq::empty(), string_views(tags@)),
                ..old(self)@
            }),
            final(self)@.wf(),
    {
        self.tags = Vec::new();
        proof {
            assert(string_views(self.tags@) =~= Seq::<Seq<char>>::empty());
        }
        self.add_tags(tags);
    }

    /// Replaces the description, unconditionally.
    pub fn change_description(&mut self, description: &str)
        ensures
            final(self)@ == (TaskView { description: description@, ..old(self)@ }),
    {
        self.description = description.to_owned();
    }

    /// Replaces the state; any state may move to any other.
    pub fn change_state(&mut self, state: State)
        ensures
            final(self)@ == (TaskView { state: state, ..old(self)@ }),
    {
        self.state = state;
    }
}

impl Clone for Task {
    /// The copy carries the same mathematical content.
    fn clone(&self) -> (r: Self)
        ensures
            r@ == self@,
    {
        let r = Task {
            id: self.id,
            description: self.description.clone(),
            state: self.state,
            tags: clone_strings(&self.tags),
            project: self.project.clone(),
        };
        proof {
            assert(r@ =~= self@);
        }
        r
    }
}

// ---------------------------------------------------------------------------
// The builder
// ---------------------------------------------------------------------------

/// The mathematical content of a builder in progress.
#[verifier::ext_equal]
pub struct TaskBuilderView {
    pub id: usize,
    pub description: Seq<char>,
    pub state: State,
    pub tags: Option<Seq<Seq<char>>>,
    pub project: Option<Seq<char>>,
}

impl TaskBuilderView {
    /// The tag list the built task will carry.
    pub open spec fn tags_or_empty(self) -> Seq<Seq<char>> {
        match self.tags {
            Some(l) => l,
            None => Seq::empty(),
        }
    }

    /// Well-formed: whatever tags were collected are canonical and
    /// duplicate-free.
    pub open spec fn wf(self) -> bool {
        tags_wf(self.tags_or_empty())
    }
}

/// Collects a description and optional overrides, then builds a task.
#[derive(Debug)]
pub struct TaskBuilder {
    id: usize,
    description: String,
    state: State,
    tags: Option<Vec<String>>,
    project: Option<String>,
}

impl View for TaskBuilder {
    type V = TaskBuilderView;

    closed spec fn view(&self) -> TaskBuilderView {
        TaskBuilderView {
            id: self.id,
            description: self.description@,
            state: self.state,
            tags: match self.tags {
                Some(v) => Some(string_views(v@)),
                None => None,
            },
            project: match self.project {
                Some(p) => Some(p@),
                None => None,
            },
        }
    }
}

impl TaskBuilder {
    /// Sets the id the built task will carry.
    pub fn id(self, id: usize) -> (r: Self)
        ensures
            r@ == (TaskBuilderView { id: id, ..self@ }),
    {
        TaskBuilder { id, ..self }
    }

    /// Sets the state the built task will carry.
    pub fn state(self, state: State) -> (r: Self)
        ensures
            r@ == (TaskBuilderView { state: state, ..self@ }),
    {
        TaskBuilder { state, ..self }
    }

    /// Sets the project the built task will carry.
    pub fn project(self, project: &str) -> (r: Self)
        ensures
            r@ == (TaskBuilderView { project: Some(project@), ..self@ }),
    {
        TaskBuilder { project: Some(project.to_owned()), ..self }
    }

    /// Normalizes one tag and adds it to the collected tag set.
    pub fn tag(self, tag: &str) -> (r: Self)
        ensures
            r@ == (TaskBuilderView {
                tags: Some(insert_tag(self@.tags_or_empty(), normalize_spec(tag@))),
                ..self@
            }),
            self@.wf() ==> r@.wf(),
    {
        let mut collected = match self.tags {
            Some(v) => v,
            None => Vec::new(),
        };
        proof {
            if self@.tags is None {
                assert(string_views(collected@) =~= Seq::<Seq<char>>::empty());
            }
        }
        insert_normalized(&mut collected, tag);
        TaskBuilder { tags: Some(collected), ..self }
    }

    /// Replaces the collected tag set with the normalized forms of the
    /// given tags.
    pub fn tags(self, tags: &Vec<String>) -> (r: Self)
        ensures
            r@ == (TaskBuilderView {
                tags: Some(norm_insert_all(Seq::empty(), string_views(tags@))),
                ..self@
            }),
            r@.wf(),
    {
        let ghost ts = string_views(tags@);
        let mut collected: Vec<String> = Vec::new();
        let mut i: usize = 0;
        proof {
            assert(string_views(collected@) =~= Seq::<Seq<char>>::empty());
            assert(ts.take(0) =~= Seq::<Seq<char>>::empty());
            assert(tags_wf(Seq::<Seq<char>>::empty()));
        }
        while i < tags.len()
            invariant
                i <= tags@.len(),
                ts == string_views(tags@),
                string_views(collected@) == norm_insert_all(Seq::empty(), ts.take(i as int)),
                tags_wf(string_views(collected@)),
            decreases tags@.len() - i,
        {
            proof {
                assert(ts.take(i + 1).drop_last() =~= ts.take(i as int));
                assert(ts.take(i + 1).last() == ts[i as int]);
            }
            insert_normalized(&mut collected, tags[i].as_str());
            i = i + 1;
        }
        proof {
            assert(ts.take(tags@.len() as int) =~= ts);
        }
        TaskBuilder { tags: Some(collected), ..self }
    }

    /// Builds the task: absent overrides become the defaults — state
    /// `ToDo`, project `"Inbox"`, no tags.
    pub fn build(&self) -> (t: Task)
        ensures
            t@.id == self@.id,
            t@.description == self@.description,
            t@.state == self@.state,
            t@.tags == self@.tags_or_empty(),
            t@.project == match self@.project {
                Some(p) => p,
                None => "Inbox"@,
            },
            self@.wf() ==> t@.wf(),
    {
        Task {
            id: self.id,
            description: self.description.clone(),
            state: self.state,
            tags: match &self.tags {
                Some(v) => clone_strings(v),
                None => Vec::new(),
            },
            project: match &self.project {
                Some(p) => p.clone(),
                None => "Inbox".to_owned(),
            },
        }
    }
}

// ---------------------------------------------------------------------------
// Laws of the tag set
// ---------------------------------------------------------------------------

/// Adding the same tag twice — the same text, or any two texts with
/// the same normalized form — leaves the tag list unchanged after the
/// first insertion.
pub proof fn lemma_insert_tag_twice(l: Seq<Seq<char>>, x: Seq<char>, y: Seq<char>)
    requires
        normalize_spec(x) == normalize_spec(y),
    ensures
        insert_tag(insert_tag(l, normalize_spec(x)), normalize_spec(y)) == insert_tag(
            l,
            normalize_spec(x),
        ),
{
    let t = normalize_spec(x);
    if !l.contains(t) {
        assert(l.push(t)[l.len() as int] == t);
        assert(l.push(t).contains(t));
    }
}

// ---------------------------------------------------------------------------
// Equality of tasks: fields equal, tags as sets
// ---------------------------------------------------------------------------

/// Decides whether every tag of `a` occurs in `b`.
fn tag_set_subset(a: &Vec<String>, b: &Vec<String>) -> (r: bool)
    ensures
        r == string_views(a@).to_set().subset_of(string_views(b@).to_set()),
{
    let mut i: usize = 0;
    while i < a.len()
        invariant
            i <= a@.len(),
            forall|j: int| 0 <= j < i ==> string_views(b@).contains(#[trigger] string_views(a@)[j]),
        decreases a@.len() - i,
    {
        let present = tag_list_contains(b, &a[i]);
        if !present {
            proof {
                let av = string_views(a@);
                let bv = string_views(b@);
                assert(av.contains(av[i as int]));
                vstd::seq_lib::seq_to_set_is_finite::<Seq<char>>(av);
                assert(av.to_set().contains(av[i as int]));
                assert(!bv.contains(av[i as int]));
                if bv.to_set().contains(av[i as int]) {
                    assert(bv.contains(av[i as int]));
                }
            }
            return false;
        }
        i = i + 1;
    }
    proof {
        let av = string_views(a@);
        let bv = string_views(b@);
        assert forall|t: Seq<char>| av.to_set().contains(t) implies bv.to_set().contains(t) by {
            assert(av.contains(t));
            let j = choose|j: int| 0 <= j < av.len() && av[j] == t;
            assert(bv.contains(av[j]));
        }
    }
    true
}

impl PartialEq for Task {
    /// Tasks are equal when every field agrees; the tag collections
    /// are compared as sets.
    fn eq(&self, other: &Self) -> (r: bool) {
        let fields = self.id == other.id && self.state == other.state && self.description
            == other.description && self.project == other.project;
        let r = fields && tag_set_subset(&self.tags, &other.tags) && tag_set_subset(
            &other.tags,
            &self.tags,
        );
        proof {
            if r {
                assert(self@.tag_set() =~= other@.tag_set());
            }
        }
        r
    }
}

impl Eq for Task {

}

impl vstd::std_specs::cmp::PartialEqSpecImpl for Task {
    open spec fn obeys_eq_spec() -> bool {
        true
    }

    open spec fn eq_spec(&self, other: &Task) -> bool {
        self@.equiv(other@)
    }
}

} // verus!
