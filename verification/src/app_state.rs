use vstd::prelude::*;

use crate::adapter::PetSnapshot;
use crate::model::{PetState, Status};
use crate::order::{lemma_text_lt_irreflexive, lemma_text_lt_total, lemma_text_lt_transitive, text_less, text_lt};
use crate::state_machine::{resting, resting_state};
use crate::tasks::{copy_task, rows_view, TaskModel, TaskSnapshot, TaskStatus};
use crate::text::{chars_of, slices_equal};

verus! {

/// The user's settings.
#[derive(Debug, Clone, Copy, PartialEq, Eq, Structural)]
pub struct Settings {
    pub motion_enabled: bool,
    pub autostart_enabled: bool,
}

impl Default for Settings {
    /// Motion effects and autostart start switched off.
    fn default() -> (s: Self)
        ensures
            s == (Settings { motion_enabled: false, autostart_enabled: false }),
    {
        Settings { motion_enabled: false, autostart_enabled: false }
    }
}

impl Settings {
    /// These settings with motion effects switched on or off.
    pub fn with_motion_enabled(self, enabled: bool) -> (s: Settings)
        ensures
            s == (Settings { motion_enabled: enabled, ..self }),
    {
        Settings { motion_enabled: enabled, autostart_enabled: self.autostart_enabled }
    }

    /// These settings with autostart switched on or off.
    pub fn with_autostart_enabled(self, enabled: bool) -> (s: Settings)
        ensures
            s == (Settings { autostart_enabled: enabled, ..self }),
    {
        Settings { motion_enabled: self.motion_enabled, autostart_enabled: enabled }
    }
}

/// The settings held after an attempt to save `next` in place of `current`:
/// a change is held only once it is saved.
pub open spec fn held_settings(current: Settings, next: Settings, saved: bool) -> Settings {
    if saved {
        next
    } else {
        current
    }
}

/// After the system's autostart was switched and the settings that record
/// it were saved or not: the value to switch the system's autostart back
/// to, where saving failed, or `None` where nothing is to be undone.
pub open spec fn autostart_undo(previous: bool, saved: bool) -> Option<bool> {
    if saved {
        None
    } else {
        Some(previous)
    }
}

/// The settings held after an attempt to save `next` in place of `current`.
pub fn settings_after_save(current: Settings, next: Settings, saved: bool) -> (held: Settings)
    ensures
        held == held_settings(current, next, saved),
{
    if saved {
        next
    } else {
        current
    }
}

/// The value to switch the system's autostart back to after the settings
/// were saved or not.
pub fn autostart_to_restore(previous: bool, saved: bool) -> (restore: Option<bool>)
    ensures
        restore == autostart_undo(previous, saved),
{
    if saved {
        None
    } else {
        Some(previous)
    }
}

/// Switching autostart keeps the settings and the system in step: after the
/// system is switched to `enabled` and the settings with that switch are
/// saved, or, where saving fails, the system is switched back, the autostart
/// that the held settings record is the system's.
pub proof fn law_autostart_setting_matches_the_system(current: Settings, enabled: bool, saved: bool)
    ensures
        ({
            let held = held_settings(current, Settings { autostart_enabled: enabled, ..current }, saved);
            let system = match autostart_undo(current.autostart_enabled, saved) {
                Some(back) => back,
                None => enabled,
            };
            held.autostart_enabled == system
        }),
{
}

/// The turn ids of completed tasks that the user removed from the list, in
/// order and each once.
pub struct DismissedTasks {
    ids: Vec<String>,
}

pub open spec fn strings_sorted(v: Seq<Seq<char>>) -> bool {
    forall|i: int, j: int| 0 <= i < j < v.len() ==> text_lt(#[trigger] v[i], #[trigger] v[j])
}

pub open spec fn string_views(v: Seq<String>) -> Seq<Seq<char>> {
    v.map_values(|s: String| s@)
}

impl DismissedTasks {
    /// The dismissed turn ids, in order.
    pub closed spec fn ids_view(&self) -> Seq<Seq<char>> {
        string_views(self.ids@)
    }

    /// The ids are kept in strict text order, so each occurs once.
    #[verifier::type_invariant]
    spec fn sorted(&self) -> bool {
        strings_sorted(string_views(self.ids@))
    }

    /// The set of dismissed turn ids.
    pub open spec fn view(&self) -> Set<Seq<char>> {
        self.ids_view().to_set()
    }

    pub fn new() -> (d: DismissedTasks)
        ensures
            d.view() == Set::<Seq<char>>::empty(),
    {
        let d = DismissedTasks { ids: Vec::new() };
        proof {
            assert(d.ids_view() =~= Seq::<Seq<char>>::empty());
            assert(d.view() =~= Set::<Seq<char>>::empty());
        }
        d
    }

    /// Whether a turn id was dismissed.
    pub fn contains(&self, id: &[char]) -> (b: bool)
        ensures
            b == self.view().contains(id@),
    {
        let ghost v = self.ids_view();
        let mut i: usize = 0;
        while i < self.ids.len()
            invariant
                0 <= i <= self.ids@.len(),
                v == self.ids_view(),
                forall|k: int| 0 <= k < i ==> v[k] != id@,
            decreases self.ids@.len() - i,
        {
            let key = chars_of(self.ids[i].as_str());
            if slices_equal(key.as_slice(), id) {
                proof {
                    assert(v[i as int] == id@);
                    assert(v.contains(id@));
                }
                return true;
            }
            i = i + 1;
        }
        proof {
            assert(!v.contains(id@));
        }
        false
    }

    /// The first index whose id does not come before `key`.
    fn position(&self, key: &[char]) -> (i: usize)
        ensures
            i <= self.ids_view().len(),
            forall|k: int| 0 <= k < i ==> text_lt(#[trigger] self.ids_view()[k], key@),
            i < self.ids_view().len() ==> !text_lt(self.ids_view()[i as int], key@),
    {
        let mut i: usize = 0;
        while i < self.ids.len()
            invariant
                0 <= i <= self.ids@.len(),
                self.ids_view().len() == self.ids@.len(),
                forall|k: int| 0 <= k < i ==> text_lt(#[trigger] self.ids_view()[k], key@),
            decreases self.ids@.len() - i,
        {
            let here = chars_of(self.ids[i].as_str());
            if !text_less(here.as_slice(), key) {
                return i;
            }
            i = i + 1;
        }
        i
    }

    /// Adds a turn id.
    pub fn insert(&mut self, id: &str)
        ensures
            final(self).view() == old(self).view().insert(id@),
    {
        proof {
            use_type_invariant(&*self);
        }
        let key = chars_of(id);
        let ghost v0 = self.ids_view();
        let i = self.position(key.as_slice());
        if i < self.ids.len() {
            let here = chars_of(self.ids[i].as_str());
            if slices_equal(here.as_slice(), key.as_slice()) {
                proof {
                    assert(v0[i as int] == id@);
                    assert(v0.to_set().insert(id@) =~= v0.to_set());
                }
                return;
            }
        }
        let s = crate::text::string_of(&key);
        let mut ids: Vec<String> = Vec::new();
        std::mem::swap(&mut ids, &mut self.ids);
        ids.insert(i, s);
        proof {
            let v1 = string_views(ids@);
            assert(v1 =~= v0.insert(i as int, id@));
            if i < v0.len() {
                lemma_text_lt_total(v0[i as int], id@);
                assert(text_lt(id@, v0[i as int]));
            }
            assert forall|a: int, b: int| 0 <= a < b < v1.len() implies text_lt(#[trigger] v1[a], #[trigger] v1[b]) by {
                if b < i {
                    assert(v1[a] == v0[a] && v1[b] == v0[b]);
                } else if b == i {
                    assert(v1[a] == v0[a]);
                } else if a == i {
                    assert(v1[b] == v0[b - 1]);
                    if b - 1 > i {
                        assert(text_lt(v0[i as int], v0[b - 1]));
                        lemma_text_lt_transitive(id@, v0[i as int], v0[b - 1]);
                    }
                } else if a < i {
                    assert(v1[a] == v0[a] && v1[b] == v0[b - 1]);
                    lemma_text_lt_transitive(v0[a], id@, v0[i as int]);
                    if b - 1 > i {
                        assert(text_lt(v0[i as int], v0[b - 1]));
                        lemma_text_lt_transitive(v0[a], v0[i as int], v0[b - 1]);
                    }
                } else {
                    assert(v1[a] == v0[a - 1] && v1[b] == v0[b - 1]);
                }
            }
            assert forall|x: Seq<char>| #[trigger] v1.to_set().contains(x) == v0.to_set().insert(id@).contains(x) by {
                if v1.contains(x) {
                    let k = choose|k: int| 0 <= k < v1.len() && v1[k] == x;
                    if k < i {
                        assert(v0[k] == x);
                    } else if k > i {
                        assert(v0[k - 1] == x);
                    }
                }
                if v0.contains(x) {
                    let k = choose|k: int| 0 <= k < v0.len() && v0[k] == x;
                    if k < i {
                        assert(v1[k] == x);
                    } else {
                        assert(v1[k + 1] == x);
                    }
                }
                if x == id@ {
                    assert(v1[i as int] == x);
                }
            }
            assert(v1.to_set() =~= v0.to_set().insert(id@));
        }
        self.ids = ids;
    }

    /// The dismissed turn ids, in order.
    pub fn to_list(&self) -> (v: Vec<String>)
        ensures
            string_views(v@) == self.ids_view(),
    {
        let mut out: Vec<String> = Vec::new();
        let mut i: usize = 0;
        while i < self.ids.len()
            invariant
                0 <= i <= self.ids@.len(),
                string_views(out@) == self.ids_view().subrange(0, i as int),
            decreases self.ids@.len() - i,
        {
            let c = self.ids[i].clone();
            let ghost before = out@;
            out.push(c);
            proof {
                assert(c@ == self.ids_view()[i as int]);
                assert(string_views(out@) =~= string_views(before).push(c@));
            }
            i = i + 1;
            proof {
                assert(string_views(out@) =~= self.ids_view().subrange(0, i as int));
            }
        }
        proof {
            assert(self.ids_view().subrange(0, self.ids@.len() as int) =~= self.ids_view());
        }
        out
    }

    /// The set that a persisted list of turn ids gives.
    pub fn from_list(ids: &Vec<String>) -> (d: DismissedTasks)
        ensures
            d.view() == string_views(ids@).to_set(),
    {
        let mut d = DismissedTasks::new();
        let ghost v = string_views(ids@);
        let mut i: usize = 0;
        while i < ids.len()
            invariant
                0 <= i <= ids@.len(),
                v == string_views(ids@),
                d.view() == v.subrange(0, i as int).to_set(),
            decreases ids@.len() - i,
        {
            d.insert(ids[i].as_str());
            proof {
                assert(v.subrange(0, i + 1) =~= v.subrange(0, i as int) + seq![v[i as int]]);
                Seq::lemma_to_set_insert_commutes(v.subrange(0, i as int), v[i as int]);
            }
            i = i + 1;
        }
        proof {
            assert(v.subrange(0, ids@.len() as int) =~= v);
        }
        d
    }
}

/// The pet's state after the user acknowledged a completion: resting.
pub fn acknowledge_completion(snapshot: &mut PetSnapshot) -> (acknowledged_until_ms: Option<u64>)
    ensures
        acknowledged_until_ms == old(snapshot).state.completed_until_ms,
        final(snapshot).state == resting_state(),
        final(snapshot).usage == old(snapshot).usage,
        final(snapshot).sync_state == old(snapshot).sync_state,
        final(snapshot).tasks == old(snapshot).tasks,
{
    let acknowledged = snapshot.state.completed_until_ms;
    snapshot.state = resting();
    acknowledged
}

/// The index of the first task row with the given turn id.
pub open spec fn first_with_turn(rows: Seq<TaskModel>, id: Seq<char>) -> Option<int> {
    if exists|i: int| 0 <= i < rows.len() && (#[trigger] rows[i]).turn_id == id {
        Some(choose|i: int| 0 <= i < rows.len() && (#[trigger] rows[i]).turn_id == id
            && forall|k: int| 0 <= k < i ==> (#[trigger] rows[k]).turn_id != id)
    } else {
        None
    }
}

/// The user may remove a task from the list when the first row with its
/// turn id is completed.
pub open spec fn spec_is_dismissible(rows: Seq<TaskModel>, id: Seq<char>) -> bool {
    match first_with_turn(rows, id) {
        Some(i) => rows[i].status == TaskStatus::Completed,
        None => false,
    }
}

/// Whether the user may remove the task with the given turn id.
pub fn is_dismissible(snapshot: &PetSnapshot, turn_id: &str) -> (b: bool)
    ensures
        b == spec_is_dismissible(rows_view(snapshot.tasks@), turn_id@),
{
    let ghost r = rows_view(snapshot.tasks@);
    let id = chars_of(turn_id);
    let mut i: usize = 0;
    while i < snapshot.tasks.len()
        invariant
            0 <= i <= snapshot.tasks@.len(),
            r == rows_view(snapshot.tasks@),
            id@ == turn_id@,
            forall|k: int| 0 <= k < i ==> (#[trigger] r[k]).turn_id != id@,
        decreases snapshot.tasks@.len() - i,
    {
        let key = chars_of(snapshot.tasks[i].turn_id.as_str());
        if slices_equal(key.as_slice(), id.as_slice()) {
            proof {
                assert(r[i as int].turn_id == id@);
                let j = choose|j: int| 0 <= j < r.len() && (#[trigger] r[j]).turn_id == id@
                    && forall|k: int| 0 <= k < j ==> (#[trigger] r[k]).turn_id != id@;
                if j < i {
                    assert(r[j].turn_id != id@);
                } else if j > i {
                    assert(r[i as int].turn_id != id@);
                }
            }
            return snapshot.tasks[i].status == TaskStatus::Completed;
        }
        i = i + 1;
    }
    false
}

/// The rows whose turn ids are not in `ids`.
pub open spec fn without_ids(rows: Seq<TaskModel>, ids: Set<Seq<char>>) -> Seq<TaskModel>
    decreases rows.len(),
{
    if rows.len() == 0 {
        Seq::empty()
    } else {
        let rest = without_ids(rows.subrange(0, rows.len() - 1), ids);
        let t = rows[rows.len() - 1];
        if ids.contains(t.turn_id) { rest } else { rest.push(t) }
    }
}

/// The rows without those whose turn ids were dismissed.
pub fn without_dismissed(tasks: &Vec<TaskSnapshot>, dismissed: &DismissedTasks) -> (out: Vec<TaskSnapshot>)
    ensures
        rows_view(out@) == without_ids(rows_view(tasks@), dismissed.view()),
{
    let ghost r = rows_view(tasks@);
    let mut out: Vec<TaskSnapshot> = Vec::new();
    let mut i: usize = 0;
    proof {
        assert(r.subrange(0, 0) =~= Seq::<TaskModel>::empty());
        assert(rows_view(out@) =~= Seq::<TaskModel>::empty());
    }
    while i < tasks.len()
        invariant
            0 <= i <= tasks@.len(),
            r == rows_view(tasks@),
            rows_view(out@) == without_ids(r.subrange(0, i as int), dismissed.view()),
        decreases tasks@.len() - i,
    {
        proof {
            assert(r.subrange(0, i + 1).subrange(0, i as int) =~= r.subrange(0, i as int));
            assert(r.subrange(0, i + 1)[i as int] == r[i as int]);
        }
        let key = chars_of(tasks[i].turn_id.as_str());
        if !dismissed.contains(key.as_slice()) {
            let ghost before = out@;
            out.push(copy_task(&tasks[i]));
            proof {
                assert(rows_view(out@) =~= rows_view(before).push(r[i as int]));
            }
        }
        i = i + 1;
    }
    proof {
        assert(r.subrange(0, r.len() as int) =~= r);
    }
    out
}

/// The state shown after a poll: a completion that the user already
/// acknowledged is not shown again.
pub open spec fn spec_presented_state(state: PetState, acknowledged_until_ms: Option<u64>) -> PetState {
    if state.status == Status::Completed && (state.completed_until_ms matches Some(until) && (acknowledged_until_ms matches Some(a) && until <= a)) {
        resting_state()
    } else {
        state
    }
}

/// What the pet shows after a poll: an acknowledged completion is replaced
/// by resting, and dismissed tasks are left out.
pub fn present_snapshot(snapshot: PetSnapshot, acknowledged_until_ms: Option<u64>, dismissed: &DismissedTasks) -> (out: PetSnapshot)
    ensures
        out.state == spec_presented_state(snapshot.state, acknowledged_until_ms),
        out.usage == snapshot.usage,
        out.sync_state == snapshot.sync_state,
        rows_view(out.tasks@) == without_ids(rows_view(snapshot.tasks@), dismissed.view()),
{
    let acknowledged = match snapshot.state.completed_until_ms {
        Some(until) => match acknowledged_until_ms {
            Some(a) => until <= a,
            None => false,
        },
        None => false,
    };
    let state = if snapshot.state.status == Status::Completed && acknowledged {
        resting()
    } else {
        snapshot.state
    };
    let tasks = without_dismissed(&snapshot.tasks, dismissed);
    PetSnapshot { state, usage: snapshot.usage, sync_state: snapshot.sync_state, tasks }
}

/// Removes every row with the given turn id.
pub fn remove_task(snapshot: &mut PetSnapshot, turn_id: &str)
    ensures
        rows_view(final(snapshot).tasks@) == without_ids(rows_view(old(snapshot).tasks@), set![turn_id@]),
        final(snapshot).state == old(snapshot).state,
        final(snapshot).usage == old(snapshot).usage,
        final(snapshot).sync_state == old(snapshot).sync_state,
{
    let mut one = DismissedTasks::new();
    one.insert(turn_id);
    proof {
        assert(one.view() =~= set![turn_id@]);
    }
    let tasks = without_dismissed(&snapshot.tasks, &one);
    snapshot.tasks = tasks;
}

proof fn lemma_without_ids_excludes(rows: Seq<TaskModel>, ids: Set<Seq<char>>)
    ensures
        forall|i: int| 0 <= i < without_ids(rows, ids).len() ==> !ids.contains(#[trigger] without_ids(rows, ids)[i].turn_id),
    decreases rows.len(),
{
    if rows.len() > 0 {
        lemma_without_ids_excludes(rows.subrange(0, rows.len() - 1), ids);
    }
}

/// A dismissed task never comes back: whatever a later poll finds, the rows
/// shown hold no dismissed turn id.
pub proof fn law_dismissed_tasks_stay_hidden(rows: Seq<TaskModel>, dismissed: Set<Seq<char>>, id: Seq<char>)
    requires
        dismissed.contains(id),
    ensures
        forall|i: int| 0 <= i < without_ids(rows, dismissed).len() ==> (#[trigger] without_ids(rows, dismissed)[i]).turn_id != id,
{
    lemma_without_ids_excludes(rows, dismissed);
}

/// An acknowledged completion stays acknowledged: a later poll that still
/// reports a completion with the same or an earlier deadline shows resting.
pub proof fn law_acknowledged_completion_stays_hidden(state: PetState, acknowledged_until_ms: u64)
    requires
        state.status == Status::Completed,
        state.completed_until_ms matches Some(until) && until <= acknowledged_until_ms,
    ensures
        spec_presented_state(state, Some(acknowledged_until_ms)) == resting_state(),
{
}

/// `rows[i]` is the first row with turn id `id`.
pub open spec fn first_row_of(rows: Seq<TaskModel>, id: Seq<char>, i: int) -> bool {
    &&& 0 <= i < rows.len()
    &&& rows[i].turn_id == id
    &&& forall|k: int| 0 <= k < i ==> (#[trigger] rows[k]).turn_id != id
}

/// Only a completed task can be removed from the list: a turn id is
/// dismissible exactly when its first row is completed, so a working or
/// waiting row never is, and neither is a turn id without a row.
pub proof fn law_only_completed_tasks_are_dismissible(rows: Seq<TaskModel>, id: Seq<char>)
    ensures
        spec_is_dismissible(rows, id) <==> exists|i: int|
            #[trigger] first_row_of(rows, id, i) && rows[i].status == TaskStatus::Completed,
{
    if exists|i: int| 0 <= i < rows.len() && (#[trigger] rows[i]).turn_id == id {
        lemma_first_turn_exists(rows, id);
        let c = choose|i: int| 0 <= i < rows.len() && (#[trigger] rows[i]).turn_id == id
            && forall|k: int| 0 <= k < i ==> (#[trigger] rows[k]).turn_id != id;
        assert(first_with_turn(rows, id) == Some(c));
        assert(first_row_of(rows, id, c));
        assert forall|i: int| #[trigger] first_row_of(rows, id, i) implies i == c by {
            if i < c {
                assert(rows[i].turn_id != id);
            } else if i > c {
                assert(rows[c].turn_id != id);
            }
        }
    } else {
        assert(first_with_turn(rows, id) is None);
        assert forall|i: int| !(#[trigger] first_row_of(rows, id, i)) by {
            if first_row_of(rows, id, i) {
                assert(rows[i].turn_id == id);
            }
        }
    }
}

proof fn lemma_first_turn_exists(rows: Seq<TaskModel>, id: Seq<char>)
    requires
        exists|i: int| 0 <= i < rows.len() && (#[trigger] rows[i]).turn_id == id,
    ensures
        exists|i: int| 0 <= i < rows.len() && (#[trigger] rows[i]).turn_id == id
            && forall|k: int| 0 <= k < i ==> (#[trigger] rows[k]).turn_id != id,
    decreases rows.len(),
{
    let front = rows.subrange(0, rows.len() - 1);
    if exists|i: int| 0 <= i < front.len() && (#[trigger] front[i]).turn_id == id {
        lemma_first_turn_exists(front, id);
        let i = choose|i: int| 0 <= i < front.len() && (#[trigger] front[i]).turn_id == id
            && forall|k: int| 0 <= k < i ==> (#[trigger] front[k]).turn_id != id;
        assert(rows[i] == front[i]);
        assert forall|k: int| 0 <= k < i implies (#[trigger] rows[k]).turn_id != id by {
            assert(rows[k] == front[k]);
        }
    } else {
        let j = rows.len() - 1;
        assert forall|k: int| 0 <= k < j implies (#[trigger] rows[k]).turn_id != id by {
            assert(rows[k] == front[k]);
            if rows[k].turn_id == id {
                assert(front[k].turn_id == id);
            }
        }
        let w = choose|i: int| 0 <= i < rows.len() && (#[trigger] rows[i]).turn_id == id;
        if w < j {
            assert(front[w] == rows[w]);
        }
        assert(rows[j].turn_id == id);
    }
}

} // verus!
