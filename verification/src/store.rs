//! The task store: an ordered, index-addressed sequence of tasks, with the
//! operations of the command layer. A new sub-task is anchored to the nearest
//! preceding main task; completing a main task cascades to its direct
//! sub-tasks; removing a task removes the tasks anchored to it as well,
//! walking indices downward so that pending positions stay valid.

use vstd::prelude::*;

use crate::task::{Task, TaskView};

verus! {

/// Why an operation was refused.
#[derive(Debug, Clone, Copy, PartialEq, Eq, Structural)]
pub enum TaskError {
    /// The given index is not a position of the store.
    IndexOutOfRange,
    /// A sub-task was added while the store holds no main task.
    NoMainTask,
}

/// Whether some task of the store is a main task.
pub open spec fn has_main(s: Seq<TaskView>) -> bool {
    exists|i: int| 0 <= i < s.len() && !s[i].is_sub
}

/// The index of the nearest main task, scanning backward from the end.
pub open spec fn spec_nearest_main(s: Seq<TaskView>) -> Option<int>
    decreases s.len(),
{
    if s.len() == 0 {
        None
    } else if !s.last().is_sub {
        Some(s.len() - 1)
    } else {
        spec_nearest_main(s.drop_last())
    }
}

/// Appending a main task: not a sub-task, not completed, no parent.
pub open spec fn spec_add_main(s: Seq<TaskView>, name: Seq<char>) -> Seq<TaskView> {
    s.push(TaskView { name, is_sub: false, is_completed: false, parent: None })
}

/// Appending a sub-task anchored to the nearest preceding main task.
pub open spec fn spec_add_sub(s: Seq<TaskView>, name: Seq<char>) -> Seq<TaskView> {
    s.push(
        TaskView {
            name,
            is_sub: true,
            is_completed: false,
            parent: Some(spec_nearest_main(s).unwrap() as usize),
        },
    )
}

/// Completing every task whose parent field names position `i`.
pub open spec fn spec_mark_subtasks(s: Seq<TaskView>, i: int) -> Seq<TaskView> {
    Seq::new(
        s.len(),
        |j: int|
            TaskView {
                is_completed: s[j].is_completed || s[j].parent == Some(i as usize),
                ..s[j]
            },
    )
}

/// Marking position `i` completed; when `i` is a main task the completion
/// cascades to every task anchored to it.
pub open spec fn spec_toggle_done(s: Seq<TaskView>, i: int) -> Seq<TaskView> {
    Seq::new(
        s.len(),
        |j: int|
            TaskView {
                is_completed: s[j].is_completed || j == i || (!s[i].is_sub && s[j].parent == Some(
                    i as usize,
                )),
                ..s[j]
            },
    )
}

/// Marking position `i` not completed; no cascade.
pub open spec fn spec_toggle_undone(s: Seq<TaskView>, i: int) -> Seq<TaskView> {
    Seq::new(
        s.len(),
        |j: int|
            if j == i {
                TaskView { is_completed: false, ..s[j] }
            } else {
                s[j]
            },
    )
}

/// Marking every task completed.
pub open spec fn spec_complete_all(s: Seq<TaskView>) -> Seq<TaskView> {
    Seq::new(s.len(), |j: int| TaskView { is_completed: true, ..s[j] })
}

/// Whether removing position `i` also removes position `j`: the position
/// itself, and every sub-task anchored to it.
pub open spec fn removed_by(s: Seq<TaskView>, i: int, j: int) -> bool {
    j == i || (s[j].is_sub && s[j].parent == Some(i as usize))
}

/// The tasks at positions `n` and later that survive removing position `i`,
/// in their original order.
pub open spec fn spec_remove_from(s: Seq<TaskView>, i: int, n: int) -> Seq<TaskView>
    decreases s.len() - n,
{
    if n < 0 || n >= s.len() {
        Seq::empty()
    } else if removed_by(s, i, n) {
        spec_remove_from(s, i, n + 1)
    } else {
        seq![s[n]] + spec_remove_from(s, i, n + 1)
    }
}

/// The store after removing position `i` together with the tasks anchored to
/// it. Surviving parent fields keep their original values: positions are
/// snapshots and are not renumbered.
pub open spec fn spec_remove(s: Seq<TaskView>, i: int) -> Seq<TaskView> {
    spec_remove_from(s, i, 0)
}

/// The number of sub-tasks at positions `n` and later anchored to position `i`.
pub open spec fn count_children_from(s: Seq<TaskView>, i: int, n: int) -> int
    decreases s.len() - n,
{
    if n < 0 || n >= s.len() {
        0
    } else {
        (if n != i && s[n].is_sub && s[n].parent == Some(i as usize) {
            1int
        } else {
            0int
        }) + count_children_from(s, i, n + 1)
    }
}

/// The number of sub-tasks anchored to position `i`.
pub open spec fn count_children(s: Seq<TaskView>, i: int) -> int {
    count_children_from(s, i, 0)
}

/// Appends a main task.
pub fn add_main(tasks: &mut Vec<Task>, name: String)
    ensures
        final(tasks).deep_view() == spec_add_main(old(tasks).deep_view(), name@),
{
    let t = Task::new(name, false, None);
    tasks.push(t);
    proof {
        assert(tasks.deep_view() =~= spec_add_main(old(tasks).deep_view(), name@));
    }
}

/// Finds the nearest main task, scanning backward from the end.
fn find_nearest_main(tasks: &Vec<Task>) -> (r: Option<usize>)
    ensures
        match r {
            Some(k) => spec_nearest_main(tasks.deep_view()) == Some(k as int),
            None => spec_nearest_main(tasks.deep_view()) is None,
        },
{
    let ghost s = tasks.deep_view();
    let mut i = tasks.len();
    proof {
        assert(s.take(i as int) =~= s);
    }
    while i > 0
        invariant
            0 <= i <= s.len(),
            s.len() == tasks@.len(),
            s == tasks.deep_view(),
            spec_nearest_main(s) == spec_nearest_main(s.take(i as int)),
        decreases i,
    {
        i = i - 1;
        proof {
            assert(s.take(i as int + 1).last() == s[i as int]);
            assert(s.take(i as int + 1).drop_last() =~= s.take(i as int));
        }
        if !tasks[i].is_sub() {
            return Some(i);
        }
    }
    proof {
        assert(s.take(0) =~= Seq::<TaskView>::empty());
    }
    None
}

/// The nearest main task exists exactly when the store holds a main task, and
/// it is the last main task: everything after it is a sub-task.
pub proof fn lemma_nearest_main_props(s: Seq<TaskView>)
    ensures
        spec_nearest_main(s) is Some <==> has_main(s),
        spec_nearest_main(s) is Some ==> {
            let k = spec_nearest_main(s).unwrap();
            0 <= k < s.len() && !s[k].is_sub && (forall|j: int| k < j < s.len() ==> s[j].is_sub)
        },
    decreases s.len(),
{
    if s.len() == 0 {
    } else if !s.last().is_sub {
        assert(has_main(s));
    } else {
        lemma_nearest_main_props(s.drop_last());
        if has_main(s) {
            let i = choose|i: int| 0 <= i < s.len() && !s[i].is_sub;
            assert(s.drop_last()[i] == s[i]);
            assert(has_main(s.drop_last()));
        }
        if has_main(s.drop_last()) {
            let i = choose|i: int| 0 <= i < s.drop_last().len() && !s.drop_last()[i].is_sub;
            assert(s[i] == s.drop_last()[i]);
            assert(has_main(s));
        }
        if spec_nearest_main(s) is Some {
            let k = spec_nearest_main(s).unwrap();
            assert(s.drop_last()[k] == s[k]);
            assert forall|j: int| k < j < s.len() implies s[j].is_sub by {
                if j < s.len() - 1 {
                    assert(s[j] == s.drop_last()[j]);
                }
            }
        }
    }
}

/// The index of the nearest preceding main task: the anchor a new sub-task
/// would take.
pub fn get_index_of_previous_main_task(tasks: &Vec<Task>) -> (i: usize)
    requires
        has_main(tasks.deep_view()),
    ensures
        Some(i as int) == spec_nearest_main(tasks.deep_view()),
        i < tasks@.len(),
        !tasks.deep_view()[i as int].is_sub,
        forall|j: int| i < j < tasks@.len() ==> tasks.deep_view()[j].is_sub,
{
    proof {
        lemma_nearest_main_props(tasks.deep_view());
    }
    match find_nearest_main(tasks) {
        Some(k) => k,
        None => {
            proof {
                assert(false);
            }
            0
        },
    }
}

/// Appends a sub-task anchored to the nearest preceding main task; refused
/// when the store holds no main task.
pub fn add_sub(tasks: &mut Vec<Task>, name: String) -> (r: Result<(), TaskError>)
    ensures
        match r {
            Ok(_) => has_main(old(tasks).deep_view()) && final(tasks).deep_view() == spec_add_sub(
                old(tasks).deep_view(),
                name@,
            ),
            Err(e) => e == TaskError::NoMainTask && !has_main(old(tasks).deep_view())
                && *final(tasks) == *old(tasks),
        },
{
    proof {
        lemma_nearest_main_props(tasks.deep_view());
    }
    let anchor = match find_nearest_main(tasks) {
        Some(k) => k,
        None => {
            return Err(TaskError::NoMainTask);
        },
    };
    let t = Task::new(name, true, Some(anchor));
    tasks.push(t);
    proof {
        assert(tasks.deep_view() =~= spec_add_sub(old(tasks).deep_view(), name@));
    }
    Ok(())
}

/// Completes every task whose parent field names position `index`, exactly as
/// `spec_mark_subtasks` describes. The task at `index` itself is not touched.
pub fn mark_subtasks_as_done(tasks: &mut Vec<Task>, index: usize)
    ensures
        final(tasks).deep_view() == spec_mark_subtasks(old(tasks).deep_view(), index as int),
{
    let ghost s0 = old(tasks).deep_view();
    let n = tasks.len();
    let mut j: usize = 0;
    while j < n
        invariant
            0 <= j <= n,
            n == tasks@.len(),
            tasks@.len() == s0.len(),
            s0 == old(tasks).deep_view(),
            forall|k: int| j <= k < n ==> tasks.deep_view()[k] == s0[k],
            forall|k: int|
                0 <= k < j ==> tasks.deep_view()[k] == spec_mark_subtasks(s0, index as int)[k],
        decreases n - j,
    {
        let is_child = match tasks[j].parent_index() {
            Some(p) => p == index,
            None => false,
        };
        if is_child {
            tasks[j].complete();
        }
        proof {
            assert(tasks.deep_view()[j as int] =~= spec_mark_subtasks(s0, index as int)[j as int]);
        }
        j = j + 1;
    }
    proof {
        assert(tasks.deep_view() =~= spec_mark_subtasks(s0, index as int));
    }
}

/// Marks the task at `index` completed; when it is a main task, also completes
/// every task anchored to it. Refused, with the store unchanged, when `index`
/// is out of range.
pub fn toggle_done(tasks: &mut Vec<Task>, index: usize) -> (r: Result<(), TaskError>)
    ensures
        match r {
            Ok(_) => index < old(tasks)@.len() && final(tasks).deep_view() == spec_toggle_done(
                old(tasks).deep_view(),
                index as int,
            ),
            Err(e) => e == TaskError::IndexOutOfRange && index >= old(tasks)@.len() && *final(tasks) == *old(tasks),
        },
{
    if index >= tasks.len() {
        return Err(TaskError::IndexOutOfRange);
    }
    let ghost s0 = old(tasks).deep_view();
    let main = !tasks[index].is_sub();
    tasks[index].complete();
    if main {
        mark_subtasks_as_done(tasks, index);
    }
    proof {
        assert forall|j: int| 0 <= j < s0.len() implies tasks.deep_view()[j] == spec_toggle_done(
            s0,
            index as int,
        )[j] by {
            assert(tasks.deep_view()[j] =~= spec_toggle_done(s0, index as int)[j]);
        }
        assert(tasks.deep_view() =~= spec_toggle_done(s0, index as int));
    }
    Ok(())
}

/// Marks the task at `index` not completed. Never cascades: sub-tasks of a
/// main task marked undone keep their state. Refused, with the store
/// unchanged, when `index` is out of range.
pub fn toggle_undone(tasks: &mut Vec<Task>, index: usize) -> (r: Result<(), TaskError>)
    ensures
        match r {
            Ok(_) => index < old(tasks)@.len() && final(tasks).deep_view() == spec_toggle_undone(
                old(tasks).deep_view(),
                index as int,
            ),
            Err(e) => e == TaskError::IndexOutOfRange && index >= old(tasks)@.len() && *final(tasks) == *old(tasks),
        },
{
    if index >= tasks.len() {
        return Err(TaskError::IndexOutOfRange);
    }
    let ghost s0 = old(tasks).deep_view();
    tasks[index].uncomplete();
    proof {
        assert forall|j: int| 0 <= j < s0.len() implies tasks.deep_view()[j] == spec_toggle_undone(
            s0,
            index as int,
        )[j] by {
            assert(tasks.deep_view()[j] =~= spec_toggle_undone(s0, index as int)[j]);
        }
        assert(tasks.deep_view() =~= spec_toggle_undone(s0, index as int));
    }
    Ok(())
}

/// Marks every task completed.
pub fn complete_all(tasks: &mut Vec<Task>)
    ensures
        final(tasks).deep_view() == spec_complete_all(old(tasks).deep_view()),
{
    let ghost s0 = old(tasks).deep_view();
    let n = tasks.len();
    let mut j: usize = 0;
    while j < n
        invariant
            0 <= j <= n,
            n == tasks@.len(),
            tasks@.len() == s0.len(),
            s0 == old(tasks).deep_view(),
            forall|k: int| j <= k < n ==> tasks.deep_view()[k] == s0[k],
            forall|k: int| 0 <= k < j ==> tasks.deep_view()[k] == spec_complete_all(s0)[k],
        decreases n - j,
    {
        tasks[j].complete();
        proof {
            assert(tasks.deep_view()[j as int] =~= spec_complete_all(s0)[j as int]);
        }
        j = j + 1;
    }
    proof {
        assert(tasks.deep_view() =~= spec_complete_all(s0));
    }
}

/// Removes the task at `index` together with every sub-task anchored to it,
/// walking from the highest position downward so that each pending position
/// is still valid when it is removed.
pub fn remove_task(tasks: &mut Vec<Task>, index: usize)
    requires
        index < old(tasks)@.len(),
    ensures
        final(tasks).deep_view() == spec_remove(old(tasks).deep_view(), index as int),
{
    let ghost s0 = old(tasks).deep_view();
    let n = tasks.len();
    let mut j = n;
    proof {
        assert(s0.take(n as int) =~= s0);
        assert(s0.take(n as int) + spec_remove_from(s0, index as int, n as int) =~= s0);
    }
    while j > 0
        invariant
            0 <= j <= n,
            n == s0.len(),
            s0 == old(tasks).deep_view(),
            tasks@.len() == j + spec_remove_from(s0, index as int, j as int).len(),
            tasks.deep_view() == s0.take(j as int) + spec_remove_from(s0, index as int, j as int),
        decreases j,
    {
        j = j - 1;
        proof {
            assert(spec_remove_from(s0, index as int, j as int + 1).len() >= 0);
            assert(tasks@.len() > j);
        }
        let is_removed = j == index || (tasks[j].is_sub() && match tasks[j].parent_index() {
            Some(p) => p == index,
            None => false,
        });
        proof {
            assert(tasks.deep_view()[j as int] == s0[j as int]);
            assert(is_removed == removed_by(s0, index as int, j as int));
        }
        if is_removed {
            let ghost dv_pre = tasks.deep_view();
            tasks.remove(j);
            proof {
                assert(tasks.deep_view() =~= dv_pre.remove(j as int));
                assert(dv_pre.remove(j as int) =~= s0.take(j as int) + spec_remove_from(
                    s0,
                    index as int,
                    j as int,
                ));
            }
        } else {
            proof {
                assert(tasks.deep_view() =~= s0.take(j as int) + spec_remove_from(
                    s0,
                    index as int,
                    j as int,
                ));
            }
        }
    }
    proof {
        assert(s0.take(0) =~= Seq::<TaskView>::empty());
        assert(tasks.deep_view() =~= spec_remove(s0, index as int));
    }
}

/// Removes the task at `index` and the tasks anchored to it; refused, with
/// the store unchanged, when `index` is out of range.
pub fn remove(tasks: &mut Vec<Task>, index: usize) -> (r: Result<(), TaskError>)
    ensures
        match r {
            Ok(_) => index < old(tasks)@.len() && final(tasks).deep_view() == spec_remove(
                old(tasks).deep_view(),
                index as int,
            ),
            Err(e) => e == TaskError::IndexOutOfRange && index >= old(tasks)@.len() && *final(tasks) == *old(tasks),
        },
{
    if index >= tasks.len() {
        return Err(TaskError::IndexOutOfRange);
    }
    remove_task(tasks, index);
    Ok(())
}

/// The store produced by a sequence of `add_main` calls, oldest first.
pub open spec fn spec_add_mains(names: Seq<Seq<char>>) -> Seq<TaskView>
    decreases names.len(),
{
    if names.len() == 0 {
        Seq::empty()
    } else {
        spec_add_main(spec_add_mains(names.drop_last()), names.last())
    }
}

/// Law: any sequence of `add_main` calls yields one task per call, each a
/// main task — not a sub-task, not completed, no parent — carrying the name
/// of its call, in call order.
pub proof fn lemma_add_main_sequence(names: Seq<Seq<char>>)
    ensures
        spec_add_mains(names).len() == names.len(),
        forall|j: int|
            0 <= j < names.len() ==> {
                let t = #[trigger] spec_add_mains(names)[j];
                !t.is_sub && t.parent is None && !t.is_completed && t.name == names[j]
            },
    decreases names.len(),
{
    if names.len() > 0 {
        lemma_add_main_sequence(names.drop_last());
    }
}

/// Law: `add_sub` on a store with a main task appends one sub-task whose
/// parent is the position of the nearest preceding main task as it stands at
/// the time of the call — the last main task of the store — and touches no
/// existing task. The parent field is a snapshot: later operations never
/// re-resolve it.
pub proof fn lemma_add_sub_anchor(s: Seq<TaskView>, name: Seq<char>)
    requires
        has_main(s),
    ensures
        ({
            let k = spec_nearest_main(s).unwrap();
            let r = spec_add_sub(s, name);
            &&& 0 <= k < s.len()
            &&& !s[k].is_sub
            &&& (forall|j: int| k < j < s.len() ==> s[j].is_sub)
            &&& r.len() == s.len() + 1
            &&& (forall|j: int| 0 <= j < s.len() ==> r[j] == s[j])
            &&& r.last().is_sub
            &&& r.last().name == name
            &&& !r.last().is_completed
            &&& r.last().parent == Some(k as usize)
        }),
{
    lemma_nearest_main_props(s);
}

/// Law: completing a main task at `i` completes exactly `i` and every task
/// anchored to `i`, leaves every other completion flag as it was, and changes
/// no name, kind or parent field.
pub proof fn lemma_toggle_done_cascade(s: Seq<TaskView>, i: int)
    requires
        0 <= i < s.len(),
        !s[i].is_sub,
    ensures
        spec_toggle_done(s, i).len() == s.len(),
        forall|j: int|
            0 <= j < s.len() ==> (#[trigger] spec_toggle_done(s, i)[j]).is_completed == (
            s[j].is_completed || j == i || s[j].parent == Some(i as usize)),
        forall|j: int|
            0 <= j < s.len() ==> {
                let t = #[trigger] spec_toggle_done(s, i)[j];
                t.name == s[j].name && t.is_sub == s[j].is_sub && t.parent == s[j].parent
            },
{
}

/// Law: marking a task undone never alters another task; in particular the
/// sub-tasks of a main task marked undone keep their completion state.
pub proof fn lemma_toggle_undone_isolated(s: Seq<TaskView>, i: int)
    requires
        0 <= i < s.len(),
    ensures
        spec_toggle_undone(s, i).len() == s.len(),
        forall|j: int|
            0 <= j < s.len() && j != i ==> #[trigger] spec_toggle_undone(s, i)[j] == s[j],
        !spec_toggle_undone(s, i)[i].is_completed,
        spec_toggle_undone(s, i)[i].name == s[i].name,
        spec_toggle_undone(s, i)[i].is_sub == s[i].is_sub,
        spec_toggle_undone(s, i)[i].parent == s[i].parent,
{
}

/// The number of positions at `n` and later that removing position `i` takes
/// away.
spec fn count_removed_from(s: Seq<TaskView>, i: int, n: int) -> int
    decreases s.len() - n,
{
    if n < 0 || n >= s.len() {
        0
    } else {
        (if removed_by(s, i, n) {
            1int
        } else {
            0int
        }) + count_removed_from(s, i, n + 1)
    }
}

proof fn lemma_remove_from_len(s: Seq<TaskView>, i: int, n: int)
    requires
        0 <= n <= s.len(),
    ensures
        spec_remove_from(s, i, n).len() == s.len() - n - count_removed_from(s, i, n),
    decreases s.len() - n,
{
    if n < s.len() {
        lemma_remove_from_len(s, i, n + 1);
    }
}

proof fn lemma_count_removed(s: Seq<TaskView>, i: int, n: int)
    requires
        0 <= n <= s.len(),
    ensures
        count_removed_from(s, i, n) == count_children_from(s, i, n) + (if n <= i < s.len() {
            1int
        } else {
            0int
        }),
    decreases s.len() - n,
{
    if n < s.len() {
        lemma_count_removed(s, i, n + 1);
    }
}

proof fn lemma_remove_from_survivors(s: Seq<TaskView>, i: int, n: int)
    requires
        0 <= n <= s.len(),
    ensures
        forall|k: int|
            0 <= k < spec_remove_from(s, i, n).len() ==> !((#[trigger] spec_remove_from(s, i, n)[k]).is_sub
                && spec_remove_from(s, i, n)[k].parent == Some(i as usize)),
    decreases s.len() - n,
{
    if n < s.len() {
        lemma_remove_from_survivors(s, i, n + 1);
    }
}

/// Law: removing a main task at `i` removes exactly it and the sub-tasks
/// anchored to it: the resulting length is the initial length, less one, less
/// the number of anchored sub-tasks; and no surviving task is anchored to `i`.
pub proof fn lemma_remove_cascade(s: Seq<TaskView>, i: int)
    requires
        0 <= i < s.len(),
        !s[i].is_sub,
    ensures
        spec_remove(s, i).len() == s.len() - 1 - count_children(s, i),
        forall|k: int|
            0 <= k < spec_remove(s, i).len() ==> !((#[trigger] spec_remove(s, i)[k]).is_sub
                && spec_remove(s, i)[k].parent == Some(i as usize)),
{
    lemma_remove_from_len(s, i, 0);
    lemma_count_removed(s, i, 0);
    lemma_remove_from_survivors(s, i, 0);
}

/// Empties the store.
pub fn clear_all(tasks: &mut Vec<Task>)
    ensures
        final(tasks).deep_view() == Seq::<TaskView>::empty(),
        final(tasks)@.len() == 0,
{
    tasks.clear();
    proof {
        assert(tasks.deep_view() =~= Seq::<TaskView>::empty());
    }
}

} // verus!
