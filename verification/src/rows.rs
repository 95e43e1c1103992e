use vstd::prelude::*;

use crate::model::{PetState, Status};
use crate::order::{lemma_text_lt_asymmetric, lemma_text_lt_irreflexive, lemma_text_lt_total, text_less, text_lt};
use crate::state_machine::{completed, completed_state, resting, resting_state, working, working_state, COMPLETED_DURATION_MS};
use crate::tasks::{copy_task, rows_sorted, rows_view, TaskModel, TaskSnapshot, TaskStatus, TaskTable};
use crate::text::chars_of;

verus! {

/// How long a task without news stays on the list.
pub const TASK_STALE_AFTER_MS: u64 = 7_200_000;

/// A working task that an input wait at or after its last observation has
/// overtaken is waiting, as of that wait.
pub open spec fn adjusted(t: TaskModel, no_turn_waiting_at_ms: Option<u64>) -> TaskModel {
    match no_turn_waiting_at_ms {
        Some(w) => if t.status == TaskStatus::Working && w >= t.observed_at_ms {
            TaskModel { status: TaskStatus::Waiting, observed_at_ms: w, ..t }
        } else {
            t
        },
        None => t,
    }
}

/// A task observed no more than two hours before `now_ms` (or after it).
pub open spec fn is_fresh(t: TaskModel, now_ms: u64) -> bool {
    now_ms <= t.observed_at_ms + TASK_STALE_AFTER_MS
}

/// The rows, adjusted for input waits, that are fresh, in their order.
pub open spec fn fresh_rows(rows: Seq<TaskModel>, no_turn_waiting_at_ms: Option<u64>, now_ms: u64) -> Seq<TaskModel>
    decreases rows.len(),
{
    if rows.len() == 0 {
        Seq::empty()
    } else {
        let f = fresh_rows(rows.subrange(0, rows.len() - 1), no_turn_waiting_at_ms, now_ms);
        let t = adjusted(rows[rows.len() - 1], no_turn_waiting_at_ms);
        if is_fresh(t, now_ms) { f.push(t) } else { f }
    }
}

pub open spec fn rank(s: TaskStatus) -> int {
    match s {
        TaskStatus::Working => 3,
        TaskStatus::Completed => 2,
        TaskStatus::Waiting => 1,
    }
}

/// `a` represents a project better than `b`: a stronger status, or the same
/// status observed later.
pub open spec fn beats(a: TaskModel, b: TaskModel) -> bool {
    rank(a.status) > rank(b.status) || (rank(a.status) == rank(b.status) && a.observed_at_ms > b.observed_at_ms)
}

/// No row of `f[j]`'s project beats it, and it beats every earlier row of
/// its project.
#[verifier::opaque]
pub open spec fn best_of_project(f: Seq<TaskModel>, j: int) -> bool {
    forall|k: int| 0 <= k < f.len() && (#[trigger] f[k]).title == f[j].title ==> !beats(f[k], f[j]) && (k < j ==> beats(f[j], f[k]))
}

/// `f[j]` is the row that represents its project: the first of its
/// project's rows that no other row of the project beats.
pub open spec fn is_winner(f: Seq<TaskModel>, j: int) -> bool {
    &&& 0 <= j < f.len()
    &&& best_of_project(f, j)
}

/// The display order: newest first, then by turn id.
pub open spec fn row_before(a: TaskModel, b: TaskModel) -> bool {
    a.observed_at_ms > b.observed_at_ms || (a.observed_at_ms == b.observed_at_ms && text_lt(a.turn_id, b.turn_id))
}

/// Every row of `r` is the row that represents its project in `f`.
pub open spec fn rows_are_winners(f: Seq<TaskModel>, r: Seq<TaskModel>) -> bool {
    forall|i: int| 0 <= i < r.len() ==> represents_project(f, #[trigger] r[i])
}

/// `x` is the row that represents its project in `f`.
pub open spec fn represents_project(f: Seq<TaskModel>, x: TaskModel) -> bool {
    exists|j: int| is_winner(f, j) && x == #[trigger] f[j]
}

/// Every project of `f` has a row in `r`.
pub open spec fn rows_cover(f: Seq<TaskModel>, r: Seq<TaskModel>) -> bool {
    forall|j: int| 0 <= j < f.len() ==> has_title(r, (#[trigger] f[j]).title)
}

/// Some row of `r` has the given title.
pub open spec fn has_title(r: Seq<TaskModel>, title: Seq<char>) -> bool {
    exists|i: int| 0 <= i < r.len() && (#[trigger] r[i]).title == title
}

/// No project title appears twice in `r`.
pub open spec fn titles_distinct(r: Seq<TaskModel>) -> bool {
    forall|i: int, k: int| 0 <= i < k < r.len() ==> #[trigger] r[i].title != #[trigger] r[k].title
}

/// The list of project rows that `rows` give: one row per project title, the
/// one that represents it, newest first and then by turn id.
pub open spec fn is_project_list(f: Seq<TaskModel>, r: Seq<TaskModel>) -> bool {
    &&& rows_are_winners(f, r)
    &&& rows_cover(f, r)
    &&& titles_distinct(r)
    &&& in_display_order(r)
}

fn task_status_rank(status: TaskStatus) -> (r: u8)
    ensures
        r as int == rank(status),
{
    match status {
        TaskStatus::Working => 3,
        TaskStatus::Completed => 2,
        TaskStatus::Waiting => 1,
    }
}

fn beats_exec(a: &TaskSnapshot, b: &TaskSnapshot) -> (r: bool)
    ensures
        r == beats(a@, b@),
{
    let ra = task_status_rank(a.status);
    let rb = task_status_rank(b.status);
    ra > rb || (ra == rb && a.observed_at_ms > b.observed_at_ms)
}

fn row_before_exec(a: &TaskSnapshot, b: &TaskSnapshot) -> (r: bool)
    ensures
        r == row_before(a@, b@),
{
    if a.observed_at_ms != b.observed_at_ms {
        return a.observed_at_ms > b.observed_at_ms;
    }
    let ka = chars_of(a.turn_id.as_str());
    let kb = chars_of(b.turn_id.as_str());
    text_less(ka.as_slice(), kb.as_slice())
}

fn same_title(a: &TaskSnapshot, b: &TaskSnapshot) -> (r: bool)
    ensures
        r == (a@.title == b@.title),
{
    a.title == b.title
}

/// The project rows chosen so far for the rows `f`: each is the row that
/// represents its project, every project of `f` has one, and no title is
/// chosen twice.
#[verifier::opaque]
pub open spec fn projects_chosen(f: Seq<TaskModel>, p: Seq<TaskModel>) -> bool {
    &&& forall|x: int| 0 <= x < p.len() ==> exists|j: int| is_winner(f, j) && #[trigger] p[x] == f[j]
    &&& forall|j: int| 0 <= j < f.len() ==> exists|x: int| 0 <= x < p.len() && #[trigger] p[x].title == (#[trigger] f[j]).title
    &&& forall|x: int, y: int| 0 <= x < y < p.len() ==> #[trigger] p[x].title != #[trigger] p[y].title
}

/// The index of the project row with the given title.
fn find_title(projects: &Vec<TaskSnapshot>, task: &TaskSnapshot) -> (r: Option<usize>)
    ensures
        match r {
            Some(p) => p < projects@.len() && projects@[p as int]@.title == task@.title,
            None => forall|q: int| 0 <= q < projects@.len() ==> (#[trigger] projects@[q])@.title != task@.title,
        },
{
    let mut p: usize = 0;
    while p < projects.len()
        invariant
            0 <= p <= projects@.len(),
            forall|q: int| 0 <= q < p ==> (#[trigger] projects@[q])@.title != task@.title,
        decreases projects@.len() - p,
    {
        if same_title(&projects[p], task) {
            return Some(p);
        }
        p = p + 1;
    }
    None
}

proof fn lemma_winner_kept(f0: Seq<TaskModel>, t: TaskModel, j: int)
    requires
        is_winner(f0, j),
        t.title != f0[j].title || !beats(t, f0[j]),
    ensures
        is_winner(f0.push(t), j),
{
    reveal(best_of_project);
    let f = f0.push(t);
    assert forall|k: int| 0 <= k < f.len() && (#[trigger] f[k]).title == f[j].title implies
        !beats(f[k], f[j]) && (k < j ==> beats(f[j], f[k])) by {
        if k < f0.len() {
            assert(f[k] == f0[k]);
        }
    }
}

proof fn lemma_winner_new(f0: Seq<TaskModel>, t: TaskModel, j: int)
    requires
        j == -1 || (is_winner(f0, j) && f0[j].title == t.title && beats(t, f0[j])),
        j == -1 ==> forall|k: int| 0 <= k < f0.len() ==> (#[trigger] f0[k]).title != t.title,
    ensures
        is_winner(f0.push(t), f0.len() as int),
{
    reveal(best_of_project);
    let f = f0.push(t);
    let n = f0.len() as int;
    assert forall|k: int| 0 <= k < f.len() && (#[trigger] f[k]).title == f[n].title implies
        !beats(f[k], f[n]) && (k < n ==> beats(f[n], f[k])) by {
        if k < n {
            assert(f[k] == f0[k]);
            assert(f0[k].title == f0[j].title);
        }
    }
}

#[verifier::rlimit(60)]
proof fn lemma_merge_better(f0: Seq<TaskModel>, p0: Seq<TaskModel>, t: TaskModel, x0: int)
    requires
        projects_chosen(f0, p0),
        0 <= x0 < p0.len(),
        p0[x0].title == t.title,
        beats(t, p0[x0]),
    ensures
        projects_chosen(f0.push(t), p0.update(x0, t)),
{
    reveal(projects_chosen);
    let f = f0.push(t);
    let p1 = p0.update(x0, t);
    let j0 = choose|j: int| is_winner(f0, j) && p0[x0] == f0[j];
    lemma_winner_new(f0, t, j0);
    assert forall|x: int| 0 <= x < p1.len() implies exists|j: int| is_winner(f, j) && #[trigger] p1[x] == f[j] by {
        if x == x0 {
            assert(p1[x] == f[f0.len() as int]);
        } else {
            let j = choose|j: int| is_winner(f0, j) && p0[x] == f0[j];
            assert(p0[x].title != p0[x0].title);
            lemma_winner_kept(f0, t, j);
            assert(p1[x] == f[j]);
        }
    }
    assert forall|j: int| 0 <= j < f.len() implies exists|x: int| 0 <= x < p1.len() && #[trigger] p1[x].title == (#[trigger] f[j]).title by {
        if j == f0.len() {
            assert(p1[x0].title == t.title);
        } else {
            assert(f[j] == f0[j]);
            let x = choose|x: int| 0 <= x < p0.len() && #[trigger] p0[x].title == f0[j].title;
            assert(p1[x].title == p0[x].title);
        }
    }
    assert forall|x: int, y: int| 0 <= x < y < p1.len() implies #[trigger] p1[x].title != #[trigger] p1[y].title by {
        assert(p1[x].title == p0[x].title && p1[y].title == p0[y].title);
    }
}

#[verifier::rlimit(60)]
proof fn lemma_merge_kept(f0: Seq<TaskModel>, p0: Seq<TaskModel>, t: TaskModel, x0: int)
    requires
        projects_chosen(f0, p0),
        0 <= x0 < p0.len(),
        p0[x0].title == t.title,
        !beats(t, p0[x0]),
    ensures
        projects_chosen(f0.push(t), p0),
{
    reveal(projects_chosen);
    let f = f0.push(t);
    assert forall|x: int| 0 <= x < p0.len() implies exists|j: int| is_winner(f, j) && #[trigger] p0[x] == f[j] by {
        let j = choose|j: int| is_winner(f0, j) && p0[x] == f0[j];
        if x != x0 {
            assert(p0[x].title != p0[x0].title);
        }
        lemma_winner_kept(f0, t, j);
        assert(p0[x] == f[j]);
    }
    assert forall|j: int| 0 <= j < f.len() implies exists|x: int| 0 <= x < p0.len() && #[trigger] p0[x].title == (#[trigger] f[j]).title by {
        if j == f0.len() {
            assert(p0[x0].title == t.title);
        } else {
            assert(f[j] == f0[j]);
        }
    }
}

#[verifier::rlimit(60)]
proof fn lemma_merge_new(f0: Seq<TaskModel>, p0: Seq<TaskModel>, t: TaskModel)
    requires
        projects_chosen(f0, p0),
        forall|x: int| 0 <= x < p0.len() ==> (#[trigger] p0[x]).title != t.title,
    ensures
        projects_chosen(f0.push(t), p0.push(t)),
{
    reveal(projects_chosen);
    let f = f0.push(t);
    let p1 = p0.push(t);
    assert forall|k: int| 0 <= k < f0.len() implies (#[trigger] f0[k]).title != t.title by {
        let x = choose|x: int| 0 <= x < p0.len() && #[trigger] p0[x].title == f0[k].title;
    }
    lemma_winner_new(f0, t, -1);
    assert forall|x: int| 0 <= x < p1.len() implies exists|j: int| is_winner(f, j) && #[trigger] p1[x] == f[j] by {
        if x == p0.len() {
            assert(p1[x] == f[f0.len() as int]);
        } else {
            let j = choose|j: int| is_winner(f0, j) && p0[x] == f0[j];
            lemma_winner_kept(f0, t, j);
            assert(p1[x] == f[j]);
        }
    }
    assert forall|j: int| 0 <= j < f.len() implies exists|x: int| 0 <= x < p1.len() && #[trigger] p1[x].title == (#[trigger] f[j]).title by {
        if j == f0.len() {
            assert(p1[p0.len() as int].title == t.title);
        } else {
            assert(f[j] == f0[j]);
            let x = choose|x: int| 0 <= x < p0.len() && #[trigger] p0[x].title == f0[j].title;
            assert(p1[x] == p0[x]);
        }
    }
    assert forall|x: int, y: int| 0 <= x < y < p1.len() implies #[trigger] p1[x].title != #[trigger] p1[y].title by {
        if y == p0.len() {
            assert(p1[x] == p0[x]);
        } else {
            assert(p1[x] == p0[x] && p1[y] == p0[y]);
        }
    }
}

/// Adds one fresh row to the project rows.
fn merge_project(projects: &mut Vec<TaskSnapshot>, task: TaskSnapshot, Ghost(f0): Ghost<Seq<TaskModel>>)
    requires
        projects_chosen(f0, rows_view(old(projects)@)),
    ensures
        projects_chosen(f0.push(task@), rows_view(final(projects)@)),
{
    let ghost t = task@;
    let ghost p0 = rows_view(projects@);
    match find_title(projects, &task) {
        Some(p) => {
            let better = beats_exec(&task, &projects[p]);
            if better {
                projects.set(p, task);
                proof {
                    assert(rows_view(projects@) =~= p0.update(p as int, t));
                    lemma_merge_better(f0, p0, t, p as int);
                }
            } else {
                proof {
                    lemma_merge_kept(f0, p0, t, p as int);
                }
            }
        },
        None => {
            projects.push(task);
            proof {
                assert forall|x: int| 0 <= x < p0.len() implies (#[trigger] p0[x]).title != t.title by {
                    assert(p0[x] == old(projects)@[x]@);
                }
                assert(rows_view(projects@) =~= p0.push(t));
                lemma_merge_new(f0, p0, t);
            }
        },
    }
}

/// The rows that the task list shows: tasks overtaken by an input wait are
/// waiting; tasks older than two hours are dropped; each project title is
/// shown once, by its row with the strongest status (working, then
/// completed, then waiting) and among those the newest, the earliest in
/// turn-id order on a tie; the list is newest first, then by turn id.
pub fn task_snapshots(tasks: &TaskTable, no_turn_waiting_at_ms: Option<u64>, now_ms: u64) -> (out: Vec<TaskSnapshot>)
    ensures
        is_project_list(fresh_rows(tasks.rows(), no_turn_waiting_at_ms, now_ms), rows_view(out@)),
{
    proof {
        use_type_invariant(tasks);
    }
    let ghost rows = tasks.rows();
    let ghost mut f: Seq<TaskModel> = Seq::empty();
    let mut projects: Vec<TaskSnapshot> = Vec::new();
    let mut i: usize = 0;
    let n = tasks.len();
    proof {
        assert(rows.subrange(0, 0) =~= Seq::<TaskModel>::empty());
        reveal(projects_chosen);
        assert(projects_chosen(f, rows_view(projects@)));
    }
    while i < n
        invariant
            0 <= i <= n,
            n == rows.len(),
            rows == tasks.rows(),
            rows_sorted(rows),
            f == fresh_rows(rows.subrange(0, i as int), no_turn_waiting_at_ms, now_ms),
            forall|x: int| 0 <= x < f.len() ==> exists|k: int| 0 <= k < i && (#[trigger] f[x]).turn_id == rows[k].turn_id,
            rows_sorted(f),
            projects_chosen(f, rows_view(projects@)),
        decreases n - i,
    {
        let row = tasks.row(i);
        let mut task = copy_task(row);
        let adjust = match no_turn_waiting_at_ms {
            Some(w) => task.status == TaskStatus::Working && w >= task.observed_at_ms,
            None => false,
        };
        if adjust {
            task.status = TaskStatus::Waiting;
            task.observed_at_ms = match no_turn_waiting_at_ms {
                Some(w) => w,
                None => task.observed_at_ms,
            };
        }
        let ghost t = task@;
        proof {
            assert(rows.subrange(0, i + 1).subrange(0, i as int) =~= rows.subrange(0, i as int));
            assert(rows.subrange(0, i + 1)[i as int] == rows[i as int]);
            assert(t == adjusted(rows[i as int], no_turn_waiting_at_ms));
        }
        let fresh = now_ms <= task.observed_at_ms || now_ms - task.observed_at_ms <= TASK_STALE_AFTER_MS;
        if fresh {
            let ghost f0 = f;
            merge_project(&mut projects, task, Ghost(f0));
            proof {
                f = f0.push(t);
                assert forall|x: int| 0 <= x < f.len() implies exists|k: int| 0 <= k < i + 1 && (#[trigger] f[x]).turn_id == rows[k].turn_id by {
                    if x == f.len() - 1 {
                        assert(f[x].turn_id == rows[i as int].turn_id);
                    } else {
                        assert(f[x] == f0[x]);
                        let k = choose|k: int| 0 <= k < i && (#[trigger] f0[x]).turn_id == rows[k].turn_id;
                    }
                }
                assert forall|a: int, b: int| 0 <= a < b < f.len() implies text_lt(#[trigger] f[a].turn_id, #[trigger] f[b].turn_id) by {
                    if b == f.len() - 1 {
                        assert(f[a] == f0[a]);
                        let k = choose|k: int| 0 <= k < i && (#[trigger] f0[a]).turn_id == rows[k].turn_id;
                        assert(text_lt(rows[k].turn_id, rows[i as int].turn_id));
                    } else {
                        assert(f[a] == f0[a] && f[b] == f0[b]);
                    }
                }
            }
        }
        i = i + 1;
    }
    proof {
        assert(rows.subrange(0, n as int) =~= rows);
    }
    sort_projects(projects, Ghost(f))
}

/// Every row of `out` is one of the first `k` project rows.
#[verifier::opaque]
pub open spec fn placed_from(out: Seq<TaskModel>, p: Seq<TaskModel>, k: int) -> bool {
    forall|x: int| #![trigger out[x]] 0 <= x < out.len() ==> exists|y: int| #![trigger p[y]] 0 <= y < k && out[x] == p[y]
}

/// Each of the first `k` project rows is in `out`.
#[verifier::opaque]
pub open spec fn placed_all(out: Seq<TaskModel>, p: Seq<TaskModel>, k: int) -> bool {
    forall|y: int| #![trigger p[y]] 0 <= y < k ==> exists|x: int| #![trigger out[x]] 0 <= x < out.len() && out[x] == p[y]
}

/// `out` is in display order.
pub open spec fn in_display_order(out: Seq<TaskModel>) -> bool {
    forall|a: int, b: int| 0 <= a < b < out.len() ==> row_before(#[trigger] out[a], #[trigger] out[b])
}

/// `out` holds the first `k` project rows, in display order.
pub open spec fn placed(out: Seq<TaskModel>, p: Seq<TaskModel>, k: int) -> bool {
    &&& out.len() == k
    &&& placed_from(out, p, k)
    &&& placed_all(out, p, k)
    &&& in_display_order(out)
}

/// The project rows have distinct turn ids.
pub open spec fn distinct_turns(p: Seq<TaskModel>) -> bool {
    forall|x: int, y: int| 0 <= x < y < p.len() ==> #[trigger] p[x].turn_id != #[trigger] p[y].turn_id
}

proof fn lemma_chosen_distinct_turns(f: Seq<TaskModel>, p: Seq<TaskModel>)
    requires
        rows_sorted(f),
        projects_chosen(f, p),
    ensures
        distinct_turns(p),
{
    reveal(projects_chosen);
    assert forall|x: int, y: int| 0 <= x < y < p.len() implies #[trigger] p[x].turn_id != #[trigger] p[y].turn_id by {
        let jx = choose|j: int| is_winner(f, j) && p[x] == f[j];
        let jy = choose|j: int| is_winner(f, j) && p[y] == f[j];
        assert(p[x].title != p[y].title);
        if jx < jy {
            assert(text_lt(f[jx].turn_id, f[jy].turn_id));
            lemma_text_lt_irreflexive(f[jy].turn_id);
        } else if jy < jx {
            assert(text_lt(f[jy].turn_id, f[jx].turn_id));
            lemma_text_lt_irreflexive(f[jx].turn_id);
        }
    }
}

#[verifier::rlimit(60)]
proof fn lemma_place_order(before: Seq<TaskModel>, t: TaskModel, q: int)
    requires
        in_display_order(before),
        0 <= q <= before.len(),
        forall|x: int| 0 <= x < q ==> row_before(#[trigger] before[x], t),
        q < before.len() ==> row_before(t, before[q]),
    ensures
        in_display_order(before.insert(q, t)),
{
    let o = before.insert(q, t);
    assert forall|a: int, b: int| 0 <= a < b < o.len() implies row_before(#[trigger] o[a], #[trigger] o[b]) by {
        if b < q {
            assert(o[a] == before[a] && o[b] == before[b]);
        } else if b == q {
            assert(o[a] == before[a]);
        } else if a == q {
            assert(o[b] == before[b - 1]);
            if b - 1 > q {
                assert(row_before(before[q], before[b - 1]));
                lemma_row_before_transitive(t, before[q], before[b - 1]);
            }
        } else if a < q {
            assert(o[a] == before[a] && o[b] == before[b - 1]);
            lemma_row_before_transitive(before[a], t, before[q]);
            if b - 1 > q {
                assert(row_before(before[q], before[b - 1]));
                lemma_row_before_transitive(before[a], before[q], before[b - 1]);
            }
        } else {
            assert(o[a] == before[a - 1] && o[b] == before[b - 1]);
        }
    }
}

proof fn lemma_place_from(before: Seq<TaskModel>, p: Seq<TaskModel>, k: int, t: TaskModel, q: int)
    requires
        0 <= k < p.len(),
        t == p[k],
        placed_from(before, p, k),
        0 <= q <= before.len(),
    ensures
        placed_from(before.insert(q, t), p, k + 1),
{
    reveal(placed_from);
    let o = before.insert(q, t);
    assert forall|x: int| 0 <= x < o.len() implies exists|y: int| 0 <= y < k + 1 && #[trigger] o[x] == p[y] by {
        if x < q {
            assert(o[x] == before[x]);
            let y = choose|y: int| 0 <= y < k && #[trigger] before[x] == p[y];
        } else if x == q {
            assert(o[x] == p[k]);
        } else {
            assert(o[x] == before[x - 1]);
            let y = choose|y: int| 0 <= y < k && #[trigger] before[x - 1] == p[y];
        }
    }
}

proof fn lemma_place_all(before: Seq<TaskModel>, p: Seq<TaskModel>, k: int, t: TaskModel, q: int)
    requires
        0 <= k < p.len(),
        t == p[k],
        placed_all(before, p, k),
        0 <= q <= before.len(),
    ensures
        placed_all(before.insert(q, t), p, k + 1),
{
    reveal(placed_all);
    let o = before.insert(q, t);
    assert forall|y: int| #![trigger p[y]] 0 <= y < k + 1 implies exists|x: int| 0 <= x < o.len() && #[trigger] o[x] == p[y] by {
        if y == k {
            assert(o[q] == p[y]);
        } else {
            let x = choose|x: int| 0 <= x < before.len() && #[trigger] before[x] == p[y];
            if x < q {
                assert(o[x] == before[x]);
            } else {
                assert(o[x + 1] == before[x]);
            }
        }
    }
}

proof fn lemma_place(before: Seq<TaskModel>, p: Seq<TaskModel>, k: int, t: TaskModel, q: int)
    requires
        0 <= k < p.len(),
        t == p[k],
        distinct_turns(p),
        placed(before, p, k),
        0 <= q <= before.len(),
        forall|x: int| 0 <= x < q ==> row_before(#[trigger] before[x], t),
        q < before.len() ==> !row_before(before[q], t),
    ensures
        placed(before.insert(q, t), p, k + 1),
{
    if q < before.len() {
        reveal(placed_from);
        let y = choose|y: int| 0 <= y < k && #[trigger] before[q] == p[y];
        assert(p[y].turn_id != p[k].turn_id);
        lemma_text_lt_total(before[q].turn_id, t.turn_id);
        assert(row_before(t, before[q]));
    }
    lemma_place_order(before, t, q);
    lemma_place_from(before, p, k, t, q);
    lemma_place_all(before, p, k, t, q);
}

/// Inserts the next project row into its place.
fn place_row(out: &mut Vec<TaskSnapshot>, task: TaskSnapshot, Ghost(p): Ghost<Seq<TaskModel>>, Ghost(k): Ghost<int>)
    requires
        0 <= k < p.len(),
        task@ == p[k],
        distinct_turns(p),
        placed(rows_view(old(out)@), p, k),
    ensures
        placed(rows_view(final(out)@), p, k + 1),
{
    let ghost t = task@;
    let ghost before = rows_view(out@);
    let mut q: usize = 0;
    while q < out.len() && row_before_exec(&out[q], &task)
        invariant
            0 <= q <= out@.len(),
            t == task@,
            before == rows_view(out@),
            forall|x: int| 0 <= x < q ==> row_before(#[trigger] before[x], t),
        decreases out@.len() - q,
    {
        q = q + 1;
    }
    out.insert(q, task);
    proof {
        assert(rows_view(out@) =~= before.insert(q as int, t));
        lemma_place(before, p, k, t, q as int);
    }
}

proof fn lemma_placed_list(f: Seq<TaskModel>, p: Seq<TaskModel>, r: Seq<TaskModel>)
    requires
        projects_chosen(f, p),
        placed(r, p, p.len() as int),
    ensures
        is_project_list(f, r),
{
    lemma_placed_winners(f, p, r);
    lemma_placed_covers(f, p, r);
    lemma_placed_titles(f, p, r);
}

#[verifier::rlimit(60)]
proof fn lemma_placed_winners(f: Seq<TaskModel>, p: Seq<TaskModel>, r: Seq<TaskModel>)
    requires
        projects_chosen(f, p),
        placed_from(r, p, p.len() as int),
    ensures
        rows_are_winners(f, r),
{
    reveal(placed_from);
    reveal(projects_chosen);
    assert forall|i: int| 0 <= i < r.len() implies represents_project(f, #[trigger] r[i]) by {
        let ri = r[i];
        assert(exists|y: int| #![trigger p[y]] 0 <= y < p.len() && ri == p[y]);
        let y = choose|y: int| #![trigger p[y]] 0 <= y < p.len() && ri == p[y];
        assert(p[y] == ri);
        assert(exists|j: int| is_winner(f, j) && #[trigger] p[y] == f[j]);
        let j = choose|j: int| is_winner(f, j) && #[trigger] p[y] == f[j];
        assert(is_winner(f, j) && r[i] == f[j]);
    }
    assert(rows_are_winners(f, r));
}

#[verifier::rlimit(60)]
proof fn lemma_placed_covers(f: Seq<TaskModel>, p: Seq<TaskModel>, r: Seq<TaskModel>)
    requires
        projects_chosen(f, p),
        placed_all(r, p, p.len() as int),
    ensures
        rows_cover(f, r),
{
    reveal(placed_all);
    reveal(projects_chosen);
    assert forall|j: int| 0 <= j < f.len() implies has_title(r, (#[trigger] f[j]).title) by {
        let y = choose|y: int| 0 <= y < p.len() && #[trigger] p[y].title == f[j].title;
        let py = p[y];
        assert(exists|x: int| #![trigger r[x]] 0 <= x < r.len() && r[x] == py);
        let x = choose|x: int| #![trigger r[x]] 0 <= x < r.len() && r[x] == py;
        assert(r[x].title == f[j].title);
    }
}

#[verifier::rlimit(60)]
proof fn lemma_placed_titles(f: Seq<TaskModel>, p: Seq<TaskModel>, r: Seq<TaskModel>)
    requires
        projects_chosen(f, p),
        placed_from(r, p, p.len() as int),
        in_display_order(r),
    ensures
        titles_distinct(r),
{
    reveal(placed_from);
    reveal(projects_chosen);
    assert forall|a: int, b: int| 0 <= a < b < r.len() implies #[trigger] r[a].title != #[trigger] r[b].title by {
        let ya = choose|y: int| 0 <= y < p.len() && #[trigger] r[a] == p[y];
        let yb = choose|y: int| 0 <= y < p.len() && #[trigger] r[b] == p[y];
        assert(row_before(r[a], r[b]));
        if ya == yb {
            lemma_row_before_irreflexive(r[a]);
        } else if ya < yb {
            assert(p[ya].title != p[yb].title);
        } else {
            assert(p[yb].title != p[ya].title);
        }
    }
}

/// Puts the project rows in display order.
fn sort_projects(projects: Vec<TaskSnapshot>, Ghost(f): Ghost<Seq<TaskModel>>) -> (out: Vec<TaskSnapshot>)
    requires
        rows_sorted(f),
        projects_chosen(f, rows_view(projects@)),
    ensures
        is_project_list(f, rows_view(out@)),
{
    let ghost p = rows_view(projects@);
    proof {
        lemma_chosen_distinct_turns(f, p);
    }
    let mut out: Vec<TaskSnapshot> = Vec::new();
    let mut k: usize = 0;
    proof {
        reveal(placed_from);
        reveal(placed_all);
            assert(rows_view(out@) =~= Seq::<TaskModel>::empty());
    }
    while k < projects.len()
        invariant
            0 <= k <= projects@.len(),
            p == rows_view(projects@),
            distinct_turns(p),
            placed(rows_view(out@), p, k as int),
        decreases projects@.len() - k,
    {
        let task = copy_task(&projects[k]);
        place_row(&mut out, task, Ghost(p), Ghost(k as int));
        k = k + 1;
    }
    proof {
        lemma_placed_list(f, p, rows_view(out@));
    }
    out
}

proof fn lemma_row_before_irreflexive(a: TaskModel)
    ensures
        !row_before(a, a),
{
    lemma_text_lt_irreflexive(a.turn_id);
}

proof fn lemma_row_before_transitive(a: TaskModel, b: TaskModel, c: TaskModel)
    requires
        row_before(a, b),
        row_before(b, c),
    ensures
        row_before(a, c),
{
    if a.observed_at_ms == b.observed_at_ms && b.observed_at_ms == c.observed_at_ms {
        crate::order::lemma_text_lt_transitive(a.turn_id, b.turn_id, c.turn_id);
    }
}

proof fn lemma_fresh_rows_are_recent(rows: Seq<TaskModel>, no_turn_waiting_at_ms: Option<u64>, now_ms: u64)
    ensures
        forall|j: int|
            0 <= j < fresh_rows(rows, no_turn_waiting_at_ms, now_ms).len() ==> now_ms
                <= (#[trigger] fresh_rows(rows, no_turn_waiting_at_ms, now_ms)[j]).observed_at_ms + 7_200_000,
    decreases rows.len(),
{
    if rows.len() > 0 {
        let front = rows.subrange(0, rows.len() - 1);
        lemma_fresh_rows_are_recent(front, no_turn_waiting_at_ms, now_ms);
        let f = fresh_rows(front, no_turn_waiting_at_ms, now_ms);
        let all = fresh_rows(rows, no_turn_waiting_at_ms, now_ms);
        assert forall|j: int| 0 <= j < all.len() implies now_ms <= (#[trigger] all[j]).observed_at_ms + 7_200_000 by {
            if j < f.len() {
                assert(all[j] == f[j]);
            }
        }
    }
}

/// The task list drops every task not heard of for more than two hours,
/// whatever its status: each row shown was observed no more than two hours
/// before `now_ms`.
pub proof fn law_listed_rows_are_recent(
    rows: Seq<TaskModel>,
    no_turn_waiting_at_ms: Option<u64>,
    now_ms: u64,
    listed: Seq<TaskModel>,
)
    requires
        is_project_list(fresh_rows(rows, no_turn_waiting_at_ms, now_ms), listed),
    ensures
        forall|i: int| 0 <= i < listed.len() ==> now_ms <= (#[trigger] listed[i]).observed_at_ms + 7_200_000,
{
    let f = fresh_rows(rows, no_turn_waiting_at_ms, now_ms);
    lemma_fresh_rows_are_recent(rows, no_turn_waiting_at_ms, now_ms);
    assert forall|i: int| 0 <= i < listed.len() implies now_ms <= (#[trigger] listed[i]).observed_at_ms + 7_200_000 by {
        assert(represents_project(f, listed[i]));
        let j = choose|j: int| is_winner(f, j) && listed[i] == #[trigger] f[j];
        assert(f[j].observed_at_ms + 7_200_000 >= now_ms);
    }
}

} // verus!
