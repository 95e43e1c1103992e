use vstd::prelude::*;

use crate::json::{
    field, field_of, lemma_view_members_len, opt_view, spec_field, spec_field_of, spec_parse,
    spec_str, string, string_is, Json, JsonParser, JsonValue,
};
use crate::text::{
    chars_of, opt_chars, spec_lines, split_lines, texts_view, trim, trimmed,
};
use crate::json::vec_eq;

verus! {

/// A map from texts to texts where a later entry for a key replaces an
/// earlier one.
pub struct TextMap {
    entries: Vec<(Vec<char>, Vec<char>)>,
}

/// The map that a sequence of entries gives, later entries winning.
pub open spec fn map_of(s: Seq<(Vec<char>, Vec<char>)>) -> Map<Seq<char>, Seq<char>>
    decreases s.len(),
{
    if s.len() == 0 {
        Map::empty()
    } else {
        map_of(s.subrange(0, s.len() - 1)).insert(s[s.len() - 1].0@, s[s.len() - 1].1@)
    }
}

proof fn lemma_map_of_tail_free(s: Seq<(Vec<char>, Vec<char>)>, i: int, k: Seq<char>)
    requires
        0 <= i <= s.len(),
        forall|j: int| i <= j < s.len() ==> (#[trigger] s[j]).0@ != k,
    ensures
        map_of(s).contains_key(k) == map_of(s.subrange(0, i)).contains_key(k),
        map_of(s)[k] == map_of(s.subrange(0, i))[k],
    decreases s.len() - i,
{
    if i < s.len() {
        let e = s.subrange(0, s.len() - 1);
        assert(e.subrange(0, i) =~= s.subrange(0, i));
        lemma_map_of_tail_free(e, i, k);
    } else {
        assert(s.subrange(0, i) =~= s);
    }
}

impl View for TextMap {
    type V = Map<Seq<char>, Seq<char>>;

    closed spec fn view(&self) -> Map<Seq<char>, Seq<char>> {
        map_of(self.entries@)
    }
}

impl TextMap {
    pub fn new() -> (m: TextMap)
        ensures
            m@ == Map::<Seq<char>, Seq<char>>::empty(),
    {
        TextMap { entries: Vec::new() }
    }

    /// Sets the value for `key`, replacing any earlier one.
    pub fn insert(&mut self, key: Vec<char>, value: Vec<char>)
        ensures
            final(self)@ == old(self)@.insert(key@, value@),
    {
        let ghost before = self.entries@;
        self.entries.push((key, value));
        proof {
            assert(self.entries@.subrange(0, self.entries@.len() - 1) =~= before);
        }
    }

    /// The value for `key`.
    pub fn get(&self, key: &[char]) -> (r: Option<&Vec<char>>)
        ensures
            match r {
                Some(v) => self@.contains_key(key@) && v@ == self@[key@],
                None => !self@.contains_key(key@),
            },
    {
        let ghost s = self.entries@;
        let mut i = self.entries.len();
        while i > 0
            invariant
                0 <= i <= s.len(),
                s == self.entries@,
                forall|j: int| i <= j < s.len() ==> (#[trigger] s[j]).0@ != key@,
            decreases i,
        {
            let k = &self.entries[i - 1].0;
            if k.len() == key.len() && vec_slice_eq(k, key) {
                proof {
                    lemma_map_of_tail_free(s, i as int, key@);
                    assert(s.subrange(0, i as int).subrange(0, i - 1) =~= s.subrange(0, i - 1));
                }
                return Some(&self.entries[i - 1].1);
            }
            i = i - 1;
        }
        proof {
            lemma_map_of_tail_free(s, 0, key@);
        }
        None
    }
}

fn vec_slice_eq(a: &Vec<char>, b: &[char]) -> (r: bool)
    ensures
        r == (a@ == b@),
{
    if a.len() != b.len() {
        return false;
    }
    let mut i: usize = 0;
    while i < a.len()
        invariant
            a@.len() == b@.len(),
            0 <= i <= a@.len(),
            forall|j: int| 0 <= j < i ==> a@[j] == b@[j],
        decreases a@.len() - i,
    {
        if a[i] != b[i] {
            return false;
        }
        i = i + 1;
    }
    proof {
        assert(a@ =~= b@);
    }
    true
}

/// The owner of a session after following at most `steps` parent links; a
/// session that is its own parent owns itself.
pub open spec fn owner_after(parents: Map<Seq<char>, Seq<char>>, id: Seq<char>, steps: nat) -> Seq<char>
    decreases steps,
{
    if steps == 0 || !parents.contains_key(id) || parents[id] == id {
        id
    } else {
        owner_after(parents, parents[id], (steps - 1) as nat)
    }
}

/// The most parent links followed to find a session's owner.
pub const MAX_PARENT_STEPS: usize = 64;

/// Project titles by session and the parent of each nested session.
pub struct TitleCatalog {
    pub titles: TextMap,
    pub parents: TextMap,
}

/// The title of the project that owns a session: the title of its top-level
/// session, reached through parent links.
pub open spec fn spec_project_title(
    titles: Map<Seq<char>, Seq<char>>,
    parents: Map<Seq<char>, Seq<char>>,
    session_id: Seq<char>,
) -> Option<Seq<char>> {
    let owner = owner_after(parents, session_id, MAX_PARENT_STEPS as nat);
    if titles.contains_key(owner) {
        Some(titles[owner])
    } else {
        None
    }
}

// --- Loading the catalog --------------------------------------------------

/// One title entry of the persisted global state: kept where it is a
/// string that is not blank.
pub open spec fn global_entry_step(m: Map<Seq<char>, Seq<char>>, entry: (Seq<char>, Json)) -> Map<Seq<char>, Seq<char>> {
    match entry.1 {
        Json::Str(title) => if trim(title).len() > 0 {
            m.insert(entry.0, title)
        } else {
            m
        },
        _ => m,
    }
}

pub open spec fn global_entries_fold(m: Map<Seq<char>, Seq<char>>, es: Seq<(Seq<char>, Json)>) -> Map<Seq<char>, Seq<char>>
    decreases es.len(),
{
    if es.len() == 0 {
        m
    } else {
        global_entry_step(global_entries_fold(m, es.subrange(0, es.len() - 1)), es[es.len() - 1])
    }
}

/// The titles that `.codex-global-state.json` holds under
/// `electron-persisted-atom-state` / `thread-descriptions-v1`.
pub open spec fn global_titles(source: Option<Seq<char>>) -> Map<Seq<char>, Seq<char>> {
    match source {
        None => Map::empty(),
        Some(text) => match spec_parse(text) {
            None => Map::empty(),
            Some(v) => match spec_field_of(spec_field(v, "electron-persisted-atom-state"@), "thread-descriptions-v1"@) {
                Some(Json::Object(es)) => global_entries_fold(Map::empty(), es),
                _ => Map::empty(),
            },
        },
    }
}

/// One line of `session_index.jsonl`: its `thread_name` becomes the title of
/// its `id` where both are strings and the name is not blank.
pub open spec fn index_line_step(m: Map<Seq<char>, Seq<char>>, line: Seq<char>) -> Map<Seq<char>, Seq<char>> {
    if trim(line).len() == 0 {
        m
    } else {
        match spec_parse(line) {
            None => m,
            Some(record) => match (spec_str(spec_field(record, "id"@)), spec_str(spec_field(record, "thread_name"@))) {
                (Some(id), Some(title)) => if trim(title).len() > 0 {
                    m.insert(id, title)
                } else {
                    m
                },
                _ => m,
            },
        }
    }
}

pub open spec fn index_lines_fold(m: Map<Seq<char>, Seq<char>>, lines: Seq<Seq<char>>) -> Map<Seq<char>, Seq<char>>
    decreases lines.len(),
{
    if lines.len() == 0 {
        m
    } else {
        index_line_step(index_lines_fold(m, lines.subrange(0, lines.len() - 1)), lines[lines.len() - 1])
    }
}

/// The session id that session metadata names: `session_id`, or else `id`.
pub open spec fn meta_session_id(payload: Option<Json>) -> Option<Seq<char>> {
    match spec_str(spec_field_of(payload, "session_id"@)) {
        Some(id) => Some(id),
        None => spec_str(spec_field_of(payload, "id"@)),
    }
}

/// The first line of a session file: where it is session metadata naming a
/// parent thread that is not blank, the session's parent.
pub open spec fn parent_line_step(m: Map<Seq<char>, Seq<char>>, line: Seq<char>) -> Map<Seq<char>, Seq<char>> {
    match spec_parse(line) {
        None => m,
        Some(record) => if spec_str(spec_field(record, "type"@)) != Some("session_meta"@) {
            m
        } else {
            let payload = spec_field(record, "payload"@);
            match meta_session_id(payload) {
                None => m,
                Some(id) => match spec_str(spec_field_of(payload, "parent_thread_id"@)) {
                    Some(parent) => if trim(parent).len() > 0 {
                        m.insert(id, parent)
                    } else {
                        m
                    },
                    None => m,
                },
            }
        },
    }
}

pub open spec fn parent_lines_fold(m: Map<Seq<char>, Seq<char>>, lines: Seq<Seq<char>>) -> Map<Seq<char>, Seq<char>>
    decreases lines.len(),
{
    if lines.len() == 0 {
        m
    } else {
        parent_line_step(parent_lines_fold(m, lines.subrange(0, lines.len() - 1)), lines[lines.len() - 1])
    }
}

pub open spec fn strings_view(v: Seq<String>) -> Seq<Seq<char>> {
    v.map_values(|s: String| s@)
}

pub open spec fn opt_str_view(v: Option<&str>) -> Option<Seq<char>> {
    match v {
        Some(s) => Some(s@),
        None => None,
    }
}

impl TitleCatalog {
    pub fn new() -> (c: TitleCatalog)
        ensures
            c.titles@ == Map::<Seq<char>, Seq<char>>::empty(),
            c.parents@ == Map::<Seq<char>, Seq<char>>::empty(),
    {
        TitleCatalog { titles: TextMap::new(), parents: TextMap::new() }
    }

    /// The title of the project that owns a session.
    pub fn project_title(&self, session_id: &[char]) -> (r: Option<Vec<char>>)
        ensures
            opt_chars(r) == spec_project_title(self.titles@, self.parents@, session_id@),
    {
        let mut owner: Vec<char> = slice_to_owned(session_id);
        let mut step: usize = 0;
        let mut done = false;
        while step < MAX_PARENT_STEPS && !done
            invariant
                0 <= step <= MAX_PARENT_STEPS,
                owner_after(self.parents@, session_id@, MAX_PARENT_STEPS as nat)
                    == owner_after(self.parents@, owner@, (MAX_PARENT_STEPS - step) as nat),
                done ==> owner_after(self.parents@, owner@, (MAX_PARENT_STEPS - step) as nat) == owner@,
            decreases MAX_PARENT_STEPS - step + if done { 0int } else { 1int },
        {
            match self.parents.get(owner.as_slice()) {
                Some(parent) => {
                    if vec_eq(parent, &owner) {
                        done = true;
                    } else {
                        let next = parent.clone();
                        proof {
                            assert(next@ =~= parent@);
                        }
                        owner = next;
                        step = step + 1;
                    }
                },
                None => {
                    done = true;
                },
            }
        }
        match self.titles.get(owner.as_slice()) {
            Some(t) => {
                let c = t.clone();
                proof {
                    assert(c@ =~= t@);
                }
                Some(c)
            },
            None => None,
        }
    }

    /// The catalog that the persisted global state, the session index and
    /// the first line of each session file give.
    pub fn load(global_state: Option<&str>, session_index: Option<&str>, first_lines: &Vec<String>) -> (c: TitleCatalog)
        ensures
            c.titles@ == index_lines_fold(
                global_titles(opt_str_view(global_state)),
                match opt_str_view(session_index) {
                    Some(t) => spec_lines(t),
                    None => Seq::empty(),
                },
            ),
            c.parents@ == parent_lines_fold(Map::empty(), strings_view(first_lines@)),
    {
        let mut catalog = TitleCatalog::new();
        match global_state {
            Some(source) => catalog.add_global_titles(source),
            None => {},
        }
        let ghost after_global = catalog.titles@;
        assert(after_global == global_titles(opt_str_view(global_state)));
        match session_index {
            Some(source) => {
                let chars = chars_of(source);
                let lines = split_lines(chars.as_slice());
                let ghost ls = texts_view(lines@);
                let mut i: usize = 0;
                proof {
                    assert(ls.subrange(0, 0) =~= Seq::<Seq<char>>::empty());
                }
                while i < lines.len()
                    invariant
                        0 <= i <= lines@.len(),
                        ls == texts_view(lines@),
                        ls == spec_lines(source@),
                        catalog.titles@ == index_lines_fold(after_global, ls.subrange(0, i as int)),
                        catalog.parents@ == Map::<Seq<char>, Seq<char>>::empty(),
                    decreases lines@.len() - i,
                {
                    catalog.add_index_line(lines[i].as_slice());
                    proof {
                        assert(ls.subrange(0, i + 1).subrange(0, i as int) =~= ls.subrange(0, i as int));
                    }
                    i = i + 1;
                }
                proof {
                    assert(ls.subrange(0, ls.len() as int) =~= ls);
                }
            },
            None => {},
        }
        let ghost fl = strings_view(first_lines@);
        let mut j: usize = 0;
        proof {
            assert(fl.subrange(0, 0) =~= Seq::<Seq<char>>::empty());
        }
        while j < first_lines.len()
            invariant
                0 <= j <= first_lines@.len(),
                fl == strings_view(first_lines@),
                catalog.parents@ == parent_lines_fold(Map::empty(), fl.subrange(0, j as int)),
                catalog.titles@ == index_lines_fold(
                    global_titles(opt_str_view(global_state)),
                    match opt_str_view(session_index) {
                        Some(t) => spec_lines(t),
                        None => Seq::empty(),
                    },
                ),
            decreases first_lines@.len() - j,
        {
            let line = chars_of(first_lines[j].as_str());
            catalog.add_parent_line(line.as_slice());
            proof {
                assert(fl.subrange(0, j + 1).subrange(0, j as int) =~= fl.subrange(0, j as int));
            }
            j = j + 1;
        }
        proof {
            assert(fl.subrange(0, fl.len() as int) =~= fl);
        }
        catalog
    }

    fn add_global_titles(&mut self, source: &str)
        requires
            old(self).titles@ == Map::<Seq<char>, Seq<char>>::empty(),
        ensures
            final(self).titles@ == global_titles(Some(source@)),
            final(self).parents@ == old(self).parents@,
    {
        let value = match JsonParser::parse(source) {
            Ok(v) => v,
            Err(()) => return,
        };
        let entries = match field_of(field(&value, "electron-persisted-atom-state"), "thread-descriptions-v1") {
            Some(JsonValue::Object(entries)) => entries,
            _ => return,
        };
        let ghost es = JsonValue::view_members(entries@);
        proof {
            lemma_view_members_len(entries@);
            assert(es.subrange(0, 0) =~= Seq::<(Seq<char>, Json)>::empty());
        }
        let mut i: usize = 0;
        while i < entries.len()
            invariant
                0 <= i <= entries@.len(),
                es == JsonValue::view_members(entries@),
                es.len() == entries@.len(),
                forall|j: int| 0 <= j < entries@.len() ==> #[trigger] es[j] == (entries@[j].key@, entries@[j].value.view()),
                self.titles@ == global_entries_fold(Map::empty(), es.subrange(0, i as int)),
                self.parents@ == old(self).parents@,
                global_titles(Some(source@)) == global_entries_fold(Map::empty(), es),
            decreases entries@.len() - i,
        {
            proof {
                assert(es.subrange(0, i + 1).subrange(0, i as int) =~= es.subrange(0, i as int));
            }
            match &entries[i].value {
                JsonValue::String(title) => {
                    let t = trimmed(title.as_slice());
                    if t.len() > 0 {
                        self.titles.insert(entries[i].key.clone(), title.clone());
                    }
                },
                _ => {},
            }
            i = i + 1;
        }
        proof {
            assert(es.subrange(0, es.len() as int) =~= es);
        }
    }

    fn add_index_line(&mut self, line: &[char])
        ensures
            final(self).titles@ == index_line_step(old(self).titles@, line@),
            final(self).parents@ == old(self).parents@,
    {
        let t = trimmed(line);
        if t.len() == 0 {
            return;
        }
        let record = match JsonParser::parse_chars(line) {
            Ok(r) => r,
            Err(()) => return,
        };
        let id = match string(field(&record, "id")) {
            Some(id) => id,
            None => return,
        };
        let title = match string(field(&record, "thread_name")) {
            Some(t) => t,
            None => return,
        };
        let tt = trimmed(title.as_slice());
        if tt.len() > 0 {
            self.titles.insert(id.clone(), title.clone());
        }
    }

    fn add_parent_line(&mut self, line: &[char])
        ensures
            final(self).parents@ == parent_line_step(old(self).parents@, line@),
            final(self).titles@ == old(self).titles@,
    {
        let record = match JsonParser::parse_chars(line) {
            Ok(r) => r,
            Err(()) => return,
        };
        if !string_is(field(&record, "type"), "session_meta") {
            return;
        }
        let payload = field(&record, "payload");
        let id = match string(field_of(payload, "session_id")) {
            Some(id) => id,
            None => match string(field_of(payload, "id")) {
                Some(id) => id,
                None => return,
            },
        };
        match string(field_of(payload, "parent_thread_id")) {
            Some(parent) => {
                let t = trimmed(parent.as_slice());
                if t.len() > 0 {
                    self.parents.insert(id.clone(), parent.clone());
                }
            },
            None => {},
        }
    }

    /// Records the title of a session.
    pub fn insert_title(&mut self, session_id: &str, title: &str)
        ensures
            final(self).titles@ == old(self).titles@.insert(session_id@, title@),
            final(self).parents@ == old(self).parents@,
    {
        self.titles.insert(chars_of(session_id), chars_of(title));
    }

    /// Records the parent of a nested session.
    pub fn insert_parent(&mut self, session_id: &str, parent_id: &str)
        ensures
            final(self).parents@ == old(self).parents@.insert(session_id@, parent_id@),
            final(self).titles@ == old(self).titles@,
    {
        self.parents.insert(chars_of(session_id), chars_of(parent_id));
    }
}

fn slice_to_owned(s: &[char]) -> (v: Vec<char>)
    ensures
        v@ == s@,
{
    let n = s.len();
    crate::text::slice_to_vec(s, 0, n)
}

/// A nested session whose parent is a top-level session with a title shows
/// that title: subagent work counts for the project that started it.
pub proof fn law_nested_session_uses_parent_title(
    titles: Map<Seq<char>, Seq<char>>,
    parents: Map<Seq<char>, Seq<char>>,
    child: Seq<char>,
    parent: Seq<char>,
)
    requires
        child != parent,
        parents.contains_key(child),
        parents[child] == parent,
        !parents.contains_key(parent),
        titles.contains_key(parent),
    ensures
        spec_project_title(titles, parents, child) == Some(titles[parent]),
{
    reveal_with_fuel(owner_after, 3);
}

/// The session and title that one line of the session index names, where
/// the line names both and the title is not blank.
pub open spec fn index_entry(line: Seq<char>) -> Option<(Seq<char>, Seq<char>)> {
    if trim(line).len() == 0 {
        None
    } else {
        match spec_parse(line) {
            None => None,
            Some(record) => match (spec_str(spec_field(record, "id"@)), spec_str(spec_field(record, "thread_name"@))) {
                (Some(id), Some(title)) => if trim(title).len() > 0 {
                    Some((id, title))
                } else {
                    None
                },
                _ => None,
            },
        }
    }
}

/// Whether a line of the session index names the session `id`.
pub open spec fn names_session(line: Seq<char>, id: Seq<char>) -> bool {
    index_entry(line) matches Some(e) && e.0 == id
}

proof fn lemma_index_line_step(m: Map<Seq<char>, Seq<char>>, line: Seq<char>)
    ensures
        index_line_step(m, line) == match index_entry(line) {
            Some(e) => m.insert(e.0, e.1),
            None => m,
        },
{
}

/// The latest title that the session index gives a session is its title,
/// whatever the persisted state or earlier lines of the index held.
pub proof fn law_latest_index_title_wins(
    persisted: Map<Seq<char>, Seq<char>>,
    lines: Seq<Seq<char>>,
    k: int,
    id: Seq<char>,
    title: Seq<char>,
)
    requires
        0 <= k < lines.len(),
        index_entry(lines[k]) == Some((id, title)),
        forall|j: int| k < j < lines.len() ==> !names_session(#[trigger] lines[j], id),
    ensures
        index_lines_fold(persisted, lines).contains_key(id),
        index_lines_fold(persisted, lines)[id] == title,
    decreases lines.len(),
{
    let n = lines.len();
    let front = lines.subrange(0, n - 1);
    lemma_index_line_step(index_lines_fold(persisted, front), lines[n - 1]);
    if k < n - 1 {
        assert forall|j: int| k < j < front.len() implies !names_session(#[trigger] front[j], id) by {
            assert(front[j] == lines[j]);
        }
        assert(front[k] == lines[k]);
        law_latest_index_title_wins(persisted, front, k, id, title);
        assert(!names_session(lines[n - 1], id));
    }
}

/// A session that no line of the session index names keeps the title of
/// the persisted state, or stays without one.
pub proof fn law_unindexed_session_keeps_persisted_title(
    persisted: Map<Seq<char>, Seq<char>>,
    lines: Seq<Seq<char>>,
    id: Seq<char>,
)
    requires
        forall|j: int| 0 <= j < lines.len() ==> !names_session(#[trigger] lines[j], id),
    ensures
        index_lines_fold(persisted, lines).contains_key(id) == persisted.contains_key(id),
        persisted.contains_key(id) ==> index_lines_fold(persisted, lines)[id] == persisted[id],
    decreases lines.len(),
{
    if lines.len() > 0 {
        let n = lines.len();
        let front = lines.subrange(0, n - 1);
        assert forall|j: int| 0 <= j < front.len() implies !names_session(#[trigger] front[j], id) by {
            assert(front[j] == lines[j]);
        }
        law_unindexed_session_keeps_persisted_title(persisted, front, id);
        lemma_index_line_step(index_lines_fold(persisted, front), lines[n - 1]);
        assert(!names_session(lines[n - 1], id));
    }
}

} // verus!
