//! The query engine: a read-only, ordered view of a subset of tasks.
//! Filters are independent and combine as a conjunction; an optional
//! single-key sort is applied after filtering and is stable — ties
//! keep their original relative order.

use vstd::multiset::Multiset;
use vstd::prelude::*;

use crate::cli::{state_of_toggle, ListTasks, ListTasksView, SortTasks, ToggleState};
use crate::strutil::{
    contains_seq, lemma_lex_le_total, lemma_lex_le_trans, lex_le, lower_of, lowercase,
    str_contains, str_eq, str_lex_le,
};
use crate::tasks::{state_rank, string_views, tag_list_contains, State, Task, TaskView};
use crate::todos::ToDo;

verus! {

// ---------------------------------------------------------------------------
// The four filters
// ---------------------------------------------------------------------------

/// Case-insensitive containment of the query in the description.
pub open spec fn desc_matches(t: TaskView, q: Seq<char>) -> bool {
    contains_seq(lower_of(t.description), lower_of(q))
}

/// The task's state equals the requested one.
pub open spec fn state_matches(t: TaskView, st: ToggleState) -> bool {
    t.state == state_of_toggle(st)
}

/// The task's tag set meets the requested tags.
pub open spec fn tag_matches(t: TaskView, tags: Seq<Seq<char>>) -> bool {
    exists|i: int| 0 <= i < tags.len() && t.tags.contains(#[trigger] tags[i])
}

/// Case-insensitive containment of the query in the project.
pub open spec fn project_matches(t: TaskView, q: Seq<char>) -> bool {
    contains_seq(lower_of(t.project), lower_of(q))
}

/// A task passes a listing request when it passes every filter the
/// request carries; an absent filter passes everything.
pub open spec fn passes(t: TaskView, o: ListTasksView) -> bool {
    &&& match o.description {
        Some(d) => desc_matches(t, d),
        None => true,
    }
    &&& match o.state {
        Some(st) => state_matches(t, st),
        None => true,
    }
    &&& match o.tag {
        Some(ts) => tag_matches(t, ts),
        None => true,
    }
    &&& match o.project {
        Some(p) => project_matches(t, p),
        None => true,
    }
}

/// Decides whether any of the given tags occurs in the task's tags.
fn any_tag_shared(task_tags: &Vec<String>, given: &Vec<String>) -> (r: bool)
    ensures
        r == (exists|i: int|
            0 <= i < given@.len() && string_views(task_tags@).contains(
                #[trigger] string_views(given@)[i],
            )),
{
    let mut i: usize = 0;
    while i < given.len()
        invariant
            i <= given@.len(),
            forall|j: int|
                0 <= j < i ==> !string_views(task_tags@).contains(
                    #[trigger] string_views(given@)[j],
                ),
        decreases given@.len() - i,
    {
        if tag_list_contains(task_tags, &given[i]) {
            assert(string_views(given@)[i as int] == given@[i as int]@);
            return true;
        }
        i = i + 1;
    }
    false
}

/// Decides whether a task passes every filter of a listing request.
pub fn passes_task(t: &Task, options: &ListTasks) -> (r: bool)
    ensures
        r == passes(t@, options@),
{
    if let Some(d) = &options.description {
        let hay = lowercase(t.description.as_str());
        let needle = lowercase(d.as_str());
        if !str_contains(hay.as_str(), needle.as_str()) {
            return false;
        }
    }
    if let Some(st) = options.state {
        if !(t.state == State::from(st)) {
            return false;
        }
    }
    if let Some(ts) = &options.tag {
        if !any_tag_shared(&t.tags, ts) {
            return false;
        }
    }
    if let Some(p) = &options.project {
        let hay = lowercase(t.project.as_str());
        let needle = lowercase(p.as_str());
        if !str_contains(hay.as_str(), needle.as_str()) {
            return false;
        }
    }
    true
}

// ---------------------------------------------------------------------------
// The sort order
// ---------------------------------------------------------------------------

/// The order a sort key puts on tasks: case-insensitive lexicographic
/// on the text keys, the declared state order, numeric on ids.
pub open spec fn task_le(key: SortTasks, a: TaskView, b: TaskView) -> bool {
    match key {
        SortTasks::Description => lex_le(lower_of(a.description), lower_of(b.description)),
        SortTasks::Project => lex_le(lower_of(a.project), lower_of(b.project)),
        SortTasks::State => state_rank(a.state) <= state_rank(b.state),
        SortTasks::ID => a.id <= b.id,
    }
}

/// Strictly before under the key.
pub open spec fn task_lt(key: SortTasks, a: TaskView, b: TaskView) -> bool {
    task_le(key, a, b) && !task_le(key, b, a)
}

/// The order relates every pair of tasks.
pub proof fn lemma_task_le_total(key: SortTasks, a: TaskView, b: TaskView)
    ensures
        task_le(key, a, b) || task_le(key, b, a),
{
    match key {
        SortTasks::Description => {
            lemma_lex_le_total(lower_of(a.description), lower_of(b.description));
        },
        SortTasks::Project => {
            lemma_lex_le_total(lower_of(a.project), lower_of(b.project));
        },
        SortTasks::State => {},
        SortTasks::ID => {},
    }
}

/// The order is transitive.
pub proof fn lemma_task_le_trans(key: SortTasks, a: TaskView, b: TaskView, c: TaskView)
    requires
        task_le(key, a, b),
        task_le(key, b, c),
    ensures
        task_le(key, a, c),
{
    match key {
        SortTasks::Description => {
            lemma_lex_le_trans(
                lower_of(a.description),
                lower_of(b.description),
                lower_of(c.description),
            );
        },
        SortTasks::Project => {
            lemma_lex_le_trans(lower_of(a.project), lower_of(b.project), lower_of(c.project));
        },
        SortTasks::State => {},
        SortTasks::ID => {},
    }
}

/// The position of a state in the declared order, as a machine value.
fn state_rank_exec(s: State) -> (r: u8)
    ensures
        r as int == state_rank(s),
{
    match s {
        State::ToDo => 0,
        State::Doing => 1,
        State::Waiting => 2,
        State::Done => 3,
    }
}

/// Compares two tasks under the key.
fn task_le_exec(key: SortTasks, a: &Task, b: &Task) -> (r: bool)
    ensures
        r == task_le(key, a@, b@),
{
    match key {
        SortTasks::Description => {
            let la = lowercase(a.description.as_str());
            let lb = lowercase(b.description.as_str());
            str_lex_le(la.as_str(), lb.as_str())
        },
        SortTasks::Project => {
            let la = lowercase(a.project.as_str());
            let lb = lowercase(b.project.as_str());
            str_lex_le(la.as_str(), lb.as_str())
        },
        SortTasks::State => state_rank_exec(a.state) <= state_rank_exec(b.state),
        SortTasks::ID => a.id <= b.id,
    }
}

/// Decides whether `a` comes strictly before `b` under the key.
fn task_lt_exec(key: SortTasks, a: &Task, b: &Task) -> (r: bool)
    ensures
        r == task_lt(key, a@, b@),
{
    let le_ab = task_le_exec(key, a, b);
    let le_ba = task_le_exec(key, b, a);
    le_ab && !le_ba
}

// ---------------------------------------------------------------------------
// Stable insertion sort
// ---------------------------------------------------------------------------

/// Inserting into a sorted run: the new task goes before the first
/// task strictly greater than it, hence after every task it ties with.
pub open spec fn insert_sorted(key: SortTasks, x: TaskView, s: Seq<TaskView>) -> Seq<TaskView>
    decreases s.len(),
{
    if s.len() == 0 {
        seq![x]
    } else if task_lt(key, x, s[0]) {
        seq![x] + s
    } else {
        seq![s[0]] + insert_sorted(key, x, s.drop_first())
    }
}

/// The stable sort: tasks inserted left to right, each after its ties.
pub open spec fn sort_by_key(key: SortTasks, s: Seq<TaskView>) -> Seq<TaskView>
    decreases s.len(),
{
    if s.len() == 0 {
        s
    } else {
        insert_sorted(key, s.last(), sort_by_key(key, s.drop_last()))
    }
}

/// The position where the insertion lands: the first strictly greater
/// entry, or the end.
pub open spec fn ins_pos(key: SortTasks, x: TaskView, s: Seq<TaskView>) -> int
    decreases s.len(),
{
    if s.len() == 0 {
        0
    } else if task_lt(key, x, s[0]) {
        0
    } else {
        1 + ins_pos(key, x, s.drop_first())
    }
}

/// What the insertion position is, and what inserting there yields.
proof fn lemma_ins_pos(key: SortTasks, x: TaskView, s: Seq<TaskView>)
    ensures
        0 <= ins_pos(key, x, s) <= s.len(),
        forall|m: int| 0 <= m < ins_pos(key, x, s) ==> !task_lt(key, x, s[m]),
        ins_pos(key, x, s) < s.len() ==> task_lt(key, x, s[ins_pos(key, x, s)]),
        insert_sorted(key, x, s) == s.take(ins_pos(key, x, s)) + seq![x] + s.skip(
            ins_pos(key, x, s),
        ),
    decreases s.len(),
{
    let p = ins_pos(key, x, s);
    if s.len() == 0 {
        assert(insert_sorted(key, x, s) =~= s.take(0) + seq![x] + s.skip(0));
    } else if task_lt(key, x, s[0]) {
        assert(insert_sorted(key, x, s) =~= s.take(0) + seq![x] + s.skip(0));
    } else {
        lemma_ins_pos(key, x, s.drop_first());
        let d = s.drop_first();
        let q = ins_pos(key, x, d);
        assert forall|m: int| 0 <= m < p implies !task_lt(key, x, s[m]) by {
            if m > 0 {
                assert(d[m - 1] == s[m]);
            }
        }
        if p < s.len() {
            assert(d[q] == s[p]);
        }
        assert(insert_sorted(key, x, s) =~= seq![s[0]] + (d.take(q) + seq![x] + d.skip(q)));
        assert(seq![s[0]] + (d.take(q) + seq![x] + d.skip(q)) =~= s.take(p) + seq![x] + s.skip(p));
    }
}

/// A run sorted under the key: every earlier task is less than or
/// equal to every later one.
pub open spec fn sorted_by(key: SortTasks, s: Seq<TaskView>) -> bool {
    forall|i: int, j: int| 0 <= i < j < s.len() ==> task_le(key, #[trigger] s[i], #[trigger] s[j])
}

/// Concatenation adds the element counts of the two parts.
proof fn lemma_to_multiset_concat(a: Seq<TaskView>, b: Seq<TaskView>)
    ensures
        (a + b).to_multiset() == a.to_multiset().add(b.to_multiset()),
    decreases b.len(),
{
    broadcast use vstd::seq_lib::group_to_multiset_ensures;

    if b.len() == 0 {
        assert(a + b =~= a);
        assert(b.to_multiset() =~= Multiset::<TaskView>::empty());
        assert(a.to_multiset().add(b.to_multiset()) =~= a.to_multiset());
    } else {
        lemma_to_multiset_concat(a, b.drop_last());
        assert(a + b =~= (a + b.drop_last()).push(b.last()));
        assert(b =~= b.drop_last().push(b.last()));
        assert((a + b).to_multiset() =~= a.to_multiset().add(b.to_multiset()));
    }
}

/// Inserting into a sorted run keeps it sorted and adds exactly the
/// new task.
proof fn lemma_insert_sorted_props(key: SortTasks, x: TaskView, s: Seq<TaskView>)
    requires
        sorted_by(key, s),
    ensures
        sorted_by(key, insert_sorted(key, x, s)),
        insert_sorted(key, x, s).to_multiset() == s.to_multiset().insert(x),
{
    broadcast use vstd::seq_lib::group_to_multiset_ensures;

    lemma_ins_pos(key, x, s);
    let p = ins_pos(key, x, s);
    let out = insert_sorted(key, x, s);
    assert forall|i: int, j: int| 0 <= i < j < out.len() implies task_le(
        key,
        #[trigger] out[i],
        #[trigger] out[j],
    ) by {
        let oi = if i < p {
            s[i]
        } else if i == p {
            x
        } else {
            s[i - 1]
        };
        let oj = if j < p {
            s[j]
        } else if j == p {
            x
        } else {
            s[j - 1]
        };
        assert(out[i] == oi && out[j] == oj);
        if i == p {
            // x against a later entry: x is strictly before s[p], which
            // is at or before every later entry.
            if j == p + 1 && p < s.len() {
                assert(task_le(key, x, s[p]));
            } else {
                assert(task_le(key, x, s[p]));
                lemma_task_le_trans(key, x, s[p], s[j - 1]);
            }
        } else if j == p {
            // an earlier entry against x: nothing before the position
            // is strictly greater, and the order is total.
            lemma_task_le_total(key, x, s[i]);
        } else if i < p && j > p {
            assert(task_le(key, s[i], s[j - 1]));
        }
    }
    assert(out.to_multiset() == s.to_multiset().insert(x)) by {
        lemma_to_multiset_concat(s.take(p), seq![x] + s.skip(p));
        lemma_to_multiset_concat(seq![x], s.skip(p));
        lemma_to_multiset_concat(s.take(p), s.skip(p));
        assert(s.take(p) + s.skip(p) =~= s);
        assert(seq![x].to_multiset() =~= Multiset::<TaskView>::empty().insert(x)) by {
            assert(seq![x] =~= Seq::<TaskView>::empty().push(x));
            assert(Seq::<TaskView>::empty().to_multiset() =~= Multiset::<TaskView>::empty());
        }
        assert(out =~= s.take(p) + (seq![x] + s.skip(p)));
        assert(out.to_multiset() =~= s.to_multiset().insert(x));
    }
}

/// The sort yields a sorted run holding exactly the tasks it was
/// given, counted with multiplicity.
pub proof fn lemma_sort_by_key_sorted(key: SortTasks, s: Seq<TaskView>)
    ensures
        sorted_by(key, sort_by_key(key, s)),
        sort_by_key(key, s).to_multiset() == s.to_multiset(),
    decreases s.len(),
{
    broadcast use vstd::seq_lib::group_to_multiset_ensures;

    if s.len() > 0 {
        lemma_sort_by_key_sorted(key, s.drop_last());
        lemma_insert_sorted_props(key, s.last(), sort_by_key(key, s.drop_last()));
        assert(s =~= s.drop_last().push(s.last()));
        assert(sort_by_key(key, s).to_multiset() =~= s.to_multiset());
    }
}

/// Finds where to insert `x` into the sorted run `out`.
fn find_insert_pos(key: SortTasks, out: &Vec<Task>, x: &Task) -> (r: usize)
    ensures
        r == ins_pos(key, x@, out@.map_values(|t: Task| t@)),
{
    let n = out.len();
    let mut j: usize = 0;
    while j < n
        invariant
            j <= n,
            n == out@.len(),
            forall|m: int| 0 <= m < j ==> !task_lt(key, x@, (#[trigger] out@[m])@),
        decreases n - j,
    {
        let before = task_lt_exec(key, x, &out[j]);
        if before {
            proof {
                let mapped = out@.map_values(|t: Task| t@);
                lemma_ins_pos(key, x@, mapped);
                assert(forall|m: int| 0 <= m < mapped.len() ==> #[trigger] mapped[m] == out@[m]@);
                let p = ins_pos(key, x@, mapped);
                assert(task_lt(key, x@, mapped[j as int]));
                if p < j {
                    assert(task_lt(key, x@, mapped[p]));
                    assert(!task_lt(key, x@, out@[p]@));
                    assert(false);
                } else if p > j {
                    assert(!task_lt(key, x@, mapped[j as int]));
                    assert(false);
                }
            }
            return j;
        }
        j = j + 1;
    }
    proof {
        let mapped = out@.map_values(|t: Task| t@);
        lemma_ins_pos(key, x@, mapped);
        assert(forall|m: int| 0 <= m < mapped.len() ==> #[trigger] mapped[m] == out@[m]@);
        let p = ins_pos(key, x@, mapped);
        if p < n {
            assert(task_lt(key, x@, mapped[p]));
            assert(!task_lt(key, x@, out@[p]@));
            assert(false);
        }
    }
    n
}

/// Sorts the tasks under the key; the sort is stable.
pub fn sort_tasks_by(tasks: &mut Vec<Task>, key: SortTasks)
    ensures
        final(tasks)@.map_values(|t: Task| t@) == sort_by_key(
            key,
            old(tasks)@.map_values(|t: Task| t@),
        ),
{
    let ghost orig = old(tasks)@.map_values(|t: Task| t@);
    let mut out: Vec<Task> = Vec::new();
    let n = tasks.len();
    let mut i: usize = 0;
    proof {
        assert(orig.take(0) =~= Seq::<TaskView>::empty());
        assert(out@.map_values(|t: Task| t@) =~= sort_by_key(key, orig.take(0)));
    }
    while i < n
        invariant
            i <= n,
            n == tasks@.len(),
            tasks@ == old(tasks)@,
            orig == old(tasks)@.map_values(|t: Task| t@),
            out@.map_values(|t: Task| t@) == sort_by_key(key, orig.take(i as int)),
        decreases n - i,
    {
        let x = tasks[i].clone();
        let j = find_insert_pos(key, &out, &x);
        let ghost prev = out@.map_values(|t: Task| t@);
        proof {
            lemma_ins_pos(key, x@, prev);
        }
        out.insert(j, x);
        proof {
            assert(out@.map_values(|t: Task| t@) =~= prev.insert(j as int, old(tasks)@[i as int]@));
            assert(prev.insert(j as int, orig[i as int]) =~= prev.take(j as int) + seq![
                orig[i as int],
            ] + prev.skip(j as int));
            assert(out@.map_values(|t: Task| t@) =~= insert_sorted(key, orig[i as int], prev));
            assert(orig.take(i + 1).drop_last() =~= orig.take(i as int));
            assert(orig.take(i + 1).last() == orig[i as int]);
            assert(out@.map_values(|t: Task| t@) =~= sort_by_key(key, orig.take(i + 1)));
        }
        i = i + 1;
    }
    *tasks = out;
    proof {
        assert(orig.take(n as int) =~= orig);
    }
}

// ---------------------------------------------------------------------------
// The listing itself
// ---------------------------------------------------------------------------

/// The tasks a listing request selects, in the order it presents them.
pub open spec fn selected(s: Seq<TaskView>, o: ListTasksView) -> Seq<TaskView> {
    let f = s.filter(|t: TaskView| passes(t, o));
    match o.sort_by {
        Some(k) => sort_by_key(k, f),
        None => f,
    }
}

/// Produces the filtered, optionally sorted view of the collection;
/// the collection itself is untouched.
pub fn select_tasks(to_do: &ToDo, options: &ListTasks) -> (r: Vec<Task>)
    ensures
        r@.map_values(|t: Task| t@) == selected(to_do@, options@),
{
    let ghost pred = |t: TaskView| passes(t, options@);
    let mut picked: Vec<Task> = Vec::new();
    let n = to_do.tasks.len();
    let mut i: usize = 0;
    proof {
        reveal_with_fuel(Seq::filter, 1);
        assert(to_do@.take(0) =~= Seq::<TaskView>::empty());
        assert(picked@.map_values(|t: Task| t@) =~= to_do@.take(0).filter(pred));
    }
    while i < n
        invariant
            i <= n,
            n == to_do.tasks@.len(),
            picked@.map_values(|t: Task| t@) == to_do@.take(i as int).filter(pred),
            pred == (|t: TaskView| passes(t, options@)),
        decreases n - i,
    {
        let keep = passes_task(&to_do.tasks[i], options);
        let ghost prev = picked@.map_values(|t: Task| t@);
        if keep {
            picked.push(to_do.tasks[i].clone());
        }
        proof {
            let tv = to_do@[i as int];
            assert(to_do@.take(i + 1) =~= to_do@.take(i as int).push(tv));
            crate::todos::lemma_filter_snoc(to_do@.take(i as int), pred, tv);
            if keep {
                assert(picked@.map_values(|t: Task| t@) =~= prev.push(tv));
                assert(prev.push(tv) =~= prev + seq![tv]);
            } else {
                assert(picked@.map_values(|t: Task| t@) =~= prev + Seq::<TaskView>::empty());
            }
        }
        i = i + 1;
    }
    proof {
        assert(to_do@.take(n as int) =~= to_do@);
    }
    if let Some(key) = options.sort_by {
        sort_tasks_by(&mut picked, key);
    }
    picked
}

// ---------------------------------------------------------------------------
// The default grouped view
// ---------------------------------------------------------------------------

/// The place a new project belongs in the sorted list: right before
/// the first entry it does not come after.
fn project_insert_pos(r: &Vec<String>, p: &String) -> (pos: usize)
    ensures
        pos <= r@.len(),
        forall|j: int| 0 <= j < pos ==> lex_le((#[trigger] r@[j])@, p@),
        pos < r@.len() ==> !lex_le(r@[pos as int]@, p@),
{
    let n = r.len();
    let mut pos: usize = 0;
    while pos < n
        invariant
            pos <= n,
            n == r@.len(),
            forall|j: int| 0 <= j < pos ==> lex_le((#[trigger] r@[j])@, p@),
        decreases n - pos,
    {
        if !str_lex_le(r[pos].as_str(), p.as_str()) {
            return pos;
        }
        pos = pos + 1;
    }
    pos
}

/// Some string in the list reads `p`.
pub open spec fn project_listed(r: Seq<String>, p: Seq<char>) -> bool {
    exists|i: int| 0 <= i < r.len() && (#[trigger] r[i])@ == p
}

/// Some task of the collection belongs to project `p`.
pub open spec fn is_project_of(s: Seq<TaskView>, p: Seq<char>) -> bool {
    exists|k: int| 0 <= k < s.len() && (#[trigger] s[k]).project == p
}

/// The distinct projects of the collection, in code-point
/// lexicographic order: each project once, every project present.
#[verifier::rlimit(100)]
pub fn sorted_projects(to_do: &ToDo) -> (r: Vec<String>)
    ensures
        forall|i: int, j: int|
            0 <= i < j < r@.len() ==> lex_le(#[trigger] r@[i]@, #[trigger] r@[j]@) && r@[i]@
                != r@[j]@,
        forall|i: int| 0 <= i < r@.len() ==> is_project_of(to_do@, (#[trigger] r@[i])@),
        forall|m: int|
            0 <= m < to_do@.len() ==> project_listed(r@, (#[trigger] to_do@[m]).project),
{
    let mut r: Vec<String> = Vec::new();
    let n = to_do.tasks.len();
    let mut k: usize = 0;
    while k < n
        invariant
            k <= n,
            n == to_do.tasks@.len(),
            forall|i: int, j: int|
                0 <= i < j < r@.len() ==> lex_le(#[trigger] r@[i]@, #[trigger] r@[j]@) && r@[i]@
                    != r@[j]@,
            forall|i: int| 0 <= i < r@.len() ==> is_project_of(to_do@, (#[trigger] r@[i])@),
            forall|m: int| 0 <= m < k ==> project_listed(r@, (#[trigger] to_do@[m]).project),
        decreases n - k,
    {
        let p = &to_do.tasks[k].project;
        let mut already = false;
        let mut i: usize = 0;
        let rl = r.len();
        while i < rl
            invariant
                i <= rl,
                rl == r@.len(),
                already == (exists|j: int| 0 <= j < i && (#[trigger] r@[j])@ == p@),
            decreases rl - i,
        {
            if str_eq(r[i].as_str(), p.as_str()) {
                already = true;
            }
            i = i + 1;
        }
        if !already {
            let pos = project_insert_pos(&r, p);
            proof {
                if pos < r@.len() {
                    lemma_lex_le_total(r@[pos as int]@, p@);
                    assert(lex_le(p@, r@[pos as int]@));
                }
            }
            let ghost prev = r@;
            r.insert(pos, p.clone());
            proof {
                let rv = r@;
                assert forall|i2: int, j2: int| 0 <= i2 < j2 < rv.len() implies lex_le(
                    #[trigger] rv[i2]@,
                    #[trigger] rv[j2]@,
                ) && rv[i2]@ != rv[j2]@ by {
                    let a = if i2 < pos {
                        prev[i2]
                    } else if i2 == pos {
                        rv[pos as int]
                    } else {
                        prev[i2 - 1]
                    };
                    let b = if j2 < pos {
                        prev[j2]
                    } else if j2 == pos {
                        rv[pos as int]
                    } else {
                        prev[j2 - 1]
                    };
                    assert(rv[i2] == a && rv[j2] == b);
                    if i2 == pos {
                        assert(a@ == p@);
                        if j2 == pos + 1 && pos < prev.len() {
                            assert(lex_le(p@, prev[pos as int]@));
                        } else {
                            lemma_lex_le_trans(p@, prev[pos as int]@, prev[j2 - 1]@);
                        }
                        assert(!(exists|j: int| 0 <= j < prev.len() && (#[trigger] prev[j])@ == p@));
                        assert(b@ != p@);
                    } else if j2 == pos {
                        assert(b@ == p@);
                        assert(lex_le(a@, p@));
                        assert(a@ != p@);
                    } else if i2 < pos && j2 > pos {
                        assert(lex_le(prev[i2]@, prev[j2 - 1]@) && prev[i2]@ != prev[j2 - 1]@);
                    }
                }
                assert forall|i2: int| 0 <= i2 < rv.len() implies is_project_of(
                    to_do@,
                    (#[trigger] rv[i2])@,
                ) by {
                    if i2 == pos {
                        assert((#[trigger] to_do@[k as int]).project == rv[i2]@);
                    } else {
                        let i3: int = if i2 < pos {
                            i2
                        } else {
                            i2 - 1
                        };
                        assert(rv[i2] == prev[i3]);
                        assert(is_project_of(to_do@, prev[i3]@));
                    }
                }
                assert forall|m: int| 0 <= m < k + 1 implies project_listed(
                    rv,
                    (#[trigger] to_do@[m]).project,
                ) by {
                    if m == k {
                        assert((#[trigger] rv[pos as int])@ == to_do@[m].project);
                    } else {
                        assert(project_listed(prev, to_do@[m].project));
                        let i3 = choose|i3: int|
                            0 <= i3 < prev.len() && (#[trigger] prev[i3])@ == to_do@[m].project;
                        let i2: int = if i3 < pos {
                            i3
                        } else {
                            i3 + 1
                        };
                        assert((#[trigger] rv[i2]) == prev[i3]);
                    }
                }
            }
        } else {
            proof {
                let j = choose|j: int| 0 <= j < r@.len() && (#[trigger] r@[j])@ == p@;
                assert forall|m: int| 0 <= m < k + 1 implies project_listed(
                    r@,
                    (#[trigger] to_do@[m]).project,
                ) by {
                    if m == k {
                        assert((#[trigger] r@[j])@ == to_do@[m].project);
                    }
                }
            }
        }
        k = k + 1;
    }
    proof {
        assert(n == to_do@.len());
        assert(k == n);
    }
    r
}

/// The tasks of one project, in their original relative order.
pub fn tasks_of_project(to_do: &ToDo, project: &String) -> (r: Vec<Task>)
    ensures
        r@.map_values(|t: Task| t@) == to_do@.filter(|t: TaskView| t.project == project@),
{
    let ghost pred = |t: TaskView| t.project == project@;
    let mut picked: Vec<Task> = Vec::new();
    let n = to_do.tasks.len();
    let mut i: usize = 0;
    proof {
        reveal_with_fuel(Seq::filter, 1);
        assert(to_do@.take(0) =~= Seq::<TaskView>::empty());
        assert(picked@.map_values(|t: Task| t@) =~= to_do@.take(0).filter(pred));
    }
    while i < n
        invariant
            i <= n,
            n == to_do.tasks@.len(),
            picked@.map_values(|t: Task| t@) == to_do@.take(i as int).filter(pred),
            pred == (|t: TaskView| t.project == project@),
        decreases n - i,
    {
        let keep = str_eq(to_do.tasks[i].project.as_str(), project.as_str());
        let ghost prev = picked@.map_values(|t: Task| t@);
        if keep {
            picked.push(to_do.tasks[i].clone());
        }
        proof {
            let tv = to_do@[i as int];
            assert(to_do@.take(i + 1) =~= to_do@.take(i as int).push(tv));
            crate::todos::lemma_filter_snoc(to_do@.take(i as int), pred, tv);
            if keep {
                assert(picked@.map_values(|t: Task| t@) =~= prev.push(tv));
                assert(prev.push(tv) =~= prev + seq![tv]);
            } else {
                assert(picked@.map_values(|t: Task| t@) =~= prev + Seq::<TaskView>::empty());
            }
        }
        i = i + 1;
    }
    proof {
        assert(to_do@.take(n as int) =~= to_do@);
    }
    picked
}

// ---------------------------------------------------------------------------
// The filters combine as a conjunction
// ---------------------------------------------------------------------------

/// A sequence filter holds exactly the elements of the original that
/// pass the predicate.
proof fn lemma_filter_membership(s: Seq<TaskView>, pred: spec_fn(TaskView) -> bool, x: TaskView)
    ensures
        s.filter(pred).contains(x) <==> s.contains(x) && pred(x),
    decreases s.len(),
{
    reveal_with_fuel(Seq::filter, 1);
    if s.len() == 0 {
    } else {
        lemma_filter_membership(s.drop_last(), pred, x);
        let d = s.drop_last();
        assert(s =~= d.push(s.last()));
        if d.filter(pred).contains(x) || (pred(s.last()) && x == s.last()) {
            assert(s.filter(pred).contains(x)) by {
                if pred(s.last()) && x == s.last() {
                    assert(s.filter(pred)[s.filter(pred).len() - 1] == x);
                } else {
                    let j = choose|j: int|
                        0 <= j < d.filter(pred).len() && d.filter(pred)[j] == x;
                    assert(s.filter(pred)[j] == x);
                }
            }
        }
        if s.filter(pred).contains(x) {
            let j = choose|j: int| 0 <= j < s.filter(pred).len() && s.filter(pred)[j] == x;
            if pred(s.last()) {
                if j < s.filter(pred).len() - 1 {
                    assert(d.filter(pred)[j] == x);
                }
            } else {
                assert(d.filter(pred)[j] == x);
            }
            assert(s.contains(x) && pred(x)) by {
                if d.contains(x) {
                    let m = choose|m: int| 0 <= m < d.len() && d[m] == x;
                    assert(s[m] == x);
                }
            }
        }
        if s.contains(x) && pred(x) {
            let m = choose|m: int| 0 <= m < s.len() && s[m] == x;
            if m < d.len() {
                assert(d[m] == x);
            }
        }
    }
}

/// A listing request carrying only the description filter.
pub open spec fn only_description(o: ListTasksView) -> ListTasksView {
    ListTasksView {
        sort_by: None,
        description: o.description,
        state: None,
        tag: None,
        project: None,
    }
}

/// A listing request carrying only the state filter.
pub open spec fn only_state(o: ListTasksView) -> ListTasksView {
    ListTasksView { sort_by: None, description: None, state: o.state, tag: None, project: None }
}

/// A listing request carrying only the tag filter.
pub open spec fn only_tag(o: ListTasksView) -> ListTasksView {
    ListTasksView { sort_by: None, description: None, state: None, tag: o.tag, project: None }
}

/// A listing request carrying only the project filter.
pub open spec fn only_project(o: ListTasksView) -> ListTasksView {
    ListTasksView {
        sort_by: None,
        description: None,
        state: None,
        tag: None,
        project: o.project,
    }
}

/// Filters are a conjunction: an unsorted listing under several
/// filters holds a task exactly when the listing under each filter
/// alone holds it.
pub proof fn lemma_filter_conjunction(s: Seq<TaskView>, o: ListTasksView, t: TaskView)
    requires
        o.sort_by is None,
    ensures
        selected(s, o).contains(t) <==> selected(s, only_description(o)).contains(t) && selected(
            s,
            only_state(o),
        ).contains(t) && selected(s, only_tag(o)).contains(t) && selected(
            s,
            only_project(o),
        ).contains(t),
{
    lemma_filter_membership(s, |tv: TaskView| passes(tv, o), t);
    lemma_filter_membership(s, |tv: TaskView| passes(tv, only_description(o)), t);
    lemma_filter_membership(s, |tv: TaskView| passes(tv, only_state(o)), t);
    lemma_filter_membership(s, |tv: TaskView| passes(tv, only_tag(o)), t);
    lemma_filter_membership(s, |tv: TaskView| passes(tv, only_project(o)), t);
}

} // verus!
