use vstd::prelude::*;

use crate::order::{
    lemma_text_lt_asymmetric, lemma_text_lt_irreflexive, lemma_text_lt_total,
    lemma_text_lt_transitive, text_less, text_lt,
};
use crate::text::chars_of;

verus! {

/// What a task is doing.
#[derive(Debug, Clone, Copy, PartialEq, Eq, Structural)]
pub enum TaskStatus {
    Working,
    Completed,
    Waiting,
}

/// One task row: its turn, its project title, its status and when that
/// status was observed.
#[derive(Debug, Clone, PartialEq, Eq)]
pub struct TaskSnapshot {
    pub turn_id: String,
    pub title: String,
    pub status: TaskStatus,
    pub observed_at_ms: u64,
}

/// The mathematical value of a task row.
pub struct TaskModel {
    pub turn_id: Seq<char>,
    pub title: Seq<char>,
    pub status: TaskStatus,
    pub observed_at_ms: u64,
}

impl View for TaskSnapshot {
    type V = TaskModel;

    open spec fn view(&self) -> TaskModel {
        TaskModel {
            turn_id: self.turn_id@,
            title: self.title@,
            status: self.status,
            observed_at_ms: self.observed_at_ms,
        }
    }
}

/// A copy of a task row.
pub fn copy_task(t: &TaskSnapshot) -> (c: TaskSnapshot)
    ensures
        c@ == t@,
{
    TaskSnapshot {
        turn_id: t.turn_id.clone(),
        title: t.title.clone(),
        status: t.status,
        observed_at_ms: t.observed_at_ms,
    }
}

pub open spec fn rows_view(v: Seq<TaskSnapshot>) -> Seq<TaskModel> {
    v.map_values(|t: TaskSnapshot| t@)
}

/// Rows ordered strictly by turn id.
pub open spec fn rows_sorted(r: Seq<TaskModel>) -> bool {
    forall|i: int, j: int| 0 <= i < j < r.len() ==> text_lt(#[trigger] r[i].turn_id, #[trigger] r[j].turn_id)
}

pub open spec fn has_turn(r: Seq<TaskModel>, id: Seq<char>) -> bool {
    exists|i: int| 0 <= i < r.len() && #[trigger] r[i].turn_id == id
}

/// The rows of a table keyed by their turn ids.
pub open spec fn rows_map(r: Seq<TaskModel>) -> Map<Seq<char>, TaskModel> {
    Map::new(
        |k: Seq<char>| has_turn(r, k),
        |k: Seq<char>| r[choose|i: int| 0 <= i < r.len() && #[trigger] r[i].turn_id == k],
    )
}

proof fn lemma_sorted_distinct(r: Seq<TaskModel>, i: int, j: int)
    requires
        rows_sorted(r),
        0 <= i < r.len(),
        0 <= j < r.len(),
        r[i].turn_id == r[j].turn_id,
    ensures
        i == j,
{
    if i < j {
        assert(text_lt(r[i].turn_id, r[j].turn_id));
        lemma_text_lt_irreflexive(r[i].turn_id);
    } else if j < i {
        assert(text_lt(r[j].turn_id, r[i].turn_id));
        lemma_text_lt_irreflexive(r[i].turn_id);
    }
}

pub proof fn lemma_rows_map_at(r: Seq<TaskModel>, i: int)
    requires
        rows_sorted(r),
        0 <= i < r.len(),
    ensures
        rows_map(r).contains_key(r[i].turn_id),
        rows_map(r)[r[i].turn_id] == r[i],
{
    let k = r[i].turn_id;
    assert(has_turn(r, k));
    let j = choose|j: int| 0 <= j < r.len() && #[trigger] r[j].turn_id == k;
    lemma_sorted_distinct(r, i, j);
}

/// The tasks read so far, keyed by turn id and kept in turn-id order.
pub struct TaskTable {
    entries: Vec<TaskSnapshot>,
}

impl TaskTable {
    /// The rows in turn-id order.
    pub closed spec fn rows(&self) -> Seq<TaskModel> {
        rows_view(self.entries@)
    }

    /// The rows are kept in strict turn-id order, so each turn id has one.
    #[verifier::type_invariant]
    pub open spec fn wf(&self) -> bool {
        rows_sorted(self.rows())
    }

    /// The rows keyed by turn id.
    pub open spec fn view(&self) -> Map<Seq<char>, TaskModel> {
        rows_map(self.rows())
    }

    pub fn new() -> (t: TaskTable)
        ensures
            t.rows() == Seq::<TaskModel>::empty(),
            t.view() == Map::<Seq<char>, TaskModel>::empty(),
    {
        let t = TaskTable { entries: Vec::new() };
        proof {
            assert(t.rows() =~= Seq::<TaskModel>::empty());
            assert(t.view() =~= Map::<Seq<char>, TaskModel>::empty());
        }
        t
    }

    pub fn len(&self) -> (n: usize)
        ensures
            n == self.rows().len(),
    {
        self.entries.len()
    }

    pub fn is_empty(&self) -> (b: bool)
        ensures
            b == (self.rows().len() == 0),
    {
        self.entries.len() == 0
    }

    /// The row at index `i` in turn-id order.
    pub fn row(&self, i: usize) -> (t: &TaskSnapshot)
        requires
            i < self.rows().len(),
        ensures
            t@ == self.rows()[i as int],
    {
        &self.entries[i]
    }

    /// The first index whose turn id does not come before `id`.
    fn position(&self, id: &[char]) -> (i: usize)
        requires
            self.wf(),
        ensures
            i <= self.rows().len(),
            forall|j: int| 0 <= j < i ==> text_lt(#[trigger] self.rows()[j].turn_id, id@),
            i < self.rows().len() ==> !text_lt(self.rows()[i as int].turn_id, id@),
    {
        let mut i: usize = 0;
        while i < self.entries.len()
            invariant
                0 <= i <= self.rows().len(),
                self.rows().len() == self.entries@.len(),
                forall|j: int| 0 <= j < i ==> text_lt(#[trigger] self.rows()[j].turn_id, id@),
            decreases self.entries@.len() - i,
        {
            let key = chars_of(self.entries[i].turn_id.as_str());
            if !text_less(key.as_slice(), id) {
                return i;
            }
            i = i + 1;
        }
        i
    }

    /// The row for a turn id.
    pub fn get(&self, id: &[char]) -> (r: Option<&TaskSnapshot>)
        ensures
            match r {
                Some(t) => self.view().contains_key(id@) && t@ == self.view()[id@],
                None => !self.view().contains_key(id@),
            },
    {
        proof {
            use_type_invariant(self);
        }
        let i = self.position(id);
        if i < self.entries.len() {
            let key = chars_of(self.entries[i].turn_id.as_str());
            if crate::text::slices_equal(key.as_slice(), id) {
                proof {
                    lemma_rows_map_at(self.rows(), i as int);
                }
                return Some(&self.entries[i]);
            }
        }
        proof {
            if has_turn(self.rows(), id@) {
                let j = choose|j: int| 0 <= j < self.rows().len() && #[trigger] self.rows()[j].turn_id == id@;
                if j < i {
                    assert(text_lt(self.rows()[j].turn_id, id@));
                    lemma_text_lt_irreflexive(id@);
                } else if j > i {
                    assert(text_lt(self.rows()[i as int].turn_id, self.rows()[j].turn_id));
                }
            }
        }
        None
    }

    /// Sets the row for the turn id of `task`, replacing any earlier one.
    pub fn upsert(&mut self, task: TaskSnapshot)
        ensures
            final(self).view() == old(self).view().insert(task@.turn_id, task@),
    {
        proof {
            use_type_invariant(&*self);
        }
        let id = chars_of(task.turn_id.as_str());
        let i = self.position(id.as_slice());
        let ghost r0 = self.rows();
        let ghost tv = task@;
        let mut found = false;
        if i < self.entries.len() {
            let key = chars_of(self.entries[i].turn_id.as_str());
            found = crate::json::vec_eq(&key, &id);
        }
        let mut entries: Vec<TaskSnapshot> = Vec::new();
        std::mem::swap(&mut entries, &mut self.entries);
        if found {
            entries.set(i, task);
            proof {
                let r1 = rows_view(entries@);
                assert(r1 =~= r0.update(i as int, tv));
                assert forall|a: int, b: int| 0 <= a < b < r1.len() implies text_lt(#[trigger] r1[a].turn_id, #[trigger] r1[b].turn_id) by {
                    assert(r0[a].turn_id == r1[a].turn_id);
                    assert(r0[b].turn_id == r1[b].turn_id);
                }
                lemma_map_update(r0, i as int, tv);
            }
        } else {
            proof {
                assert(i < r0.len() ==> r0[i as int].turn_id != tv.turn_id);
                if has_turn(r0, tv.turn_id) {
                    let j = choose|j: int| 0 <= j < r0.len() && #[trigger] r0[j].turn_id == tv.turn_id;
                    if j < i {
                        assert(text_lt(r0[j].turn_id, id@));
                        lemma_text_lt_irreflexive(id@);
                    } else if j > i {
                        assert(text_lt(r0[i as int].turn_id, r0[j].turn_id));
                    }
                }
            }
            entries.insert(i, task);
            proof {
                let r1 = rows_view(entries@);
                assert(r1 =~= r0.insert(i as int, tv));
                if i < r0.len() {
                    lemma_text_lt_total(r0[i as int].turn_id, tv.turn_id);
                    assert(text_lt(tv.turn_id, r0[i as int].turn_id));
                }
                assert forall|a: int, b: int| 0 <= a < b < r1.len() implies text_lt(#[trigger] r1[a].turn_id, #[trigger] r1[b].turn_id) by {
                    if b < i {
                        assert(r1[a] == r0[a] && r1[b] == r0[b]);
                    } else if b == i {
                        assert(r1[a] == r0[a]);
                    } else if a == i {
                        assert(r1[b] == r0[b - 1]);
                        if b - 1 > i {
                            assert(text_lt(r0[i as int].turn_id, r0[b - 1].turn_id));
                            lemma_text_lt_transitive(tv.turn_id, r0[i as int].turn_id, r0[b - 1].turn_id);
                        }
                    } else if a < i {
                        assert(r1[a] == r0[a] && r1[b] == r0[b - 1]);
                        assert(text_lt(r0[a].turn_id, tv.turn_id));
                        if b - 1 >= i as int {
                            lemma_text_lt_transitive(r0[a].turn_id, tv.turn_id, r0[i as int].turn_id);
                            if b - 1 > i {
                                assert(text_lt(r0[i as int].turn_id, r0[b - 1].turn_id));
                                lemma_text_lt_transitive(r0[a].turn_id, r0[i as int].turn_id, r0[b - 1].turn_id);
                            }
                        }
                    } else {
                        assert(r1[a] == r0[a - 1] && r1[b] == r0[b - 1]);
                    }
                }
                lemma_map_insert(r0, i as int, tv);
            }
        }
        self.entries = entries;
    }
}

proof fn lemma_map_update(r0: Seq<TaskModel>, i: int, t: TaskModel)
    requires
        rows_sorted(r0),
        rows_sorted(r0.update(i, t)),
        0 <= i < r0.len(),
        r0[i].turn_id == t.turn_id,
    ensures
        rows_map(r0.update(i, t)) == rows_map(r0).insert(t.turn_id, t),
{
    let r1 = r0.update(i, t);
    assert forall|k: Seq<char>| #[trigger] rows_map(r1).contains_key(k) == rows_map(r0).insert(t.turn_id, t).contains_key(k) by {
        if has_turn(r1, k) {
            let j = choose|j: int| 0 <= j < r1.len() && #[trigger] r1[j].turn_id == k;
            if j != i {
                assert(r0[j].turn_id == k);
            }
        }
        if has_turn(r0, k) {
            let j = choose|j: int| 0 <= j < r0.len() && #[trigger] r0[j].turn_id == k;
            if j != i {
                assert(r1[j].turn_id == k);
            } else {
                assert(r1[i].turn_id == k);
            }
        }
        if k == t.turn_id {
            assert(r1[i].turn_id == k);
        }
    }
    assert forall|k: Seq<char>| #[trigger] rows_map(r1).contains_key(k) implies rows_map(r1)[k] == rows_map(r0).insert(t.turn_id, t)[k] by {
        let j = choose|j: int| 0 <= j < r1.len() && #[trigger] r1[j].turn_id == k;
        lemma_rows_map_at(r1, j);
        if j == i {
            assert(k == t.turn_id);
        } else {
            assert(r0[j] == r1[j]);
            lemma_rows_map_at(r0, j);
            if k == t.turn_id {
                lemma_sorted_distinct(r1, i, j);
            }
        }
    }
    assert(rows_map(r1) =~= rows_map(r0).insert(t.turn_id, t));
}

proof fn lemma_map_insert(r0: Seq<TaskModel>, i: int, t: TaskModel)
    requires
        rows_sorted(r0),
        rows_sorted(r0.insert(i, t)),
        0 <= i <= r0.len(),
        !has_turn(r0, t.turn_id),
    ensures
        rows_map(r0.insert(i, t)) == rows_map(r0).insert(t.turn_id, t),
{
    let r1 = r0.insert(i, t);
    assert forall|k: Seq<char>| #[trigger] rows_map(r1).contains_key(k) == rows_map(r0).insert(t.turn_id, t).contains_key(k) by {
        if has_turn(r1, k) {
            let j = choose|j: int| 0 <= j < r1.len() && #[trigger] r1[j].turn_id == k;
            if j < i {
                assert(r0[j].turn_id == k);
            } else if j > i {
                assert(r0[j - 1].turn_id == k);
            }
        }
        if has_turn(r0, k) {
            let j = choose|j: int| 0 <= j < r0.len() && #[trigger] r0[j].turn_id == k;
            if j < i {
                assert(r1[j].turn_id == k);
            } else {
                assert(r1[j + 1].turn_id == k);
            }
        }
        if k == t.turn_id {
            assert(r1[i].turn_id == k);
        }
    }
    assert forall|k: Seq<char>| #[trigger] rows_map(r1).contains_key(k) implies rows_map(r1)[k] == rows_map(r0).insert(t.turn_id, t)[k] by {
        let j = choose|j: int| 0 <= j < r1.len() && #[trigger] r1[j].turn_id == k;
        lemma_rows_map_at(r1, j);
        if j == i {
            assert(k == t.turn_id);
        } else if j < i {
            assert(r0[j] == r1[j]);
            lemma_rows_map_at(r0, j);
        } else {
            assert(r0[j - 1] == r1[j]);
            lemma_rows_map_at(r0, j - 1);
        }
    }
    assert(rows_map(r1) =~= rows_map(r0).insert(t.turn_id, t));
}

} // verus!
