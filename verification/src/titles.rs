use vstd::prelude::*;

use crate::json::{
    field, opt_text, opt_view, spec_field, spec_str, string, string_is, Json, JsonValue,
    lemma_view_items_len,
};
use crate::text::{
    is_compact, is_unicode_ws, lemma_compact_fixed, lemma_compact_is_compact, chars_of, opt_chars, compact, compact_text, contains, contains_str, count_until, equals_str,
    slice_to_vec, spec_lines, split_lines, starts_with, starts_with_str, texts_view, trim,
    trimmed,
};

verus! {

/// The project name for any title about the Codex pet island.
pub open spec fn pet_project_name() -> Seq<char> {
    "Codex桌宠灵动岛"@
}

/// The project name for any title about translation.
pub open spec fn translation_project_name() -> Seq<char> {
    "翻译大师"@
}

/// The title shown where no project title is known.
pub open spec fn fallback_task_title() -> Seq<char> {
    "Codex 任务"@
}

/// The longest title shown in full, in characters.
pub const TITLE_MAX_CHARS: usize = 22;

pub open spec fn ascii_lower_char(c: char) -> char {
    if 'A' <= c && c <= 'Z' {
        ((c as int) + 32) as char
    } else {
        c
    }
}

/// `s` with ASCII capitals made small, as `str::to_ascii_lowercase` does.
pub open spec fn ascii_lower(s: Seq<char>) -> Seq<char> {
    Seq::new(s.len(), |i: int| ascii_lower_char(s[i]))
}

/// The index of the first `c` in `s`.
pub open spec fn first_index(s: Seq<char>, c: char) -> Option<int> {
    if count_until(s, 0, c) < s.len() {
        Some(count_until(s, 0, c) as int)
    } else {
        None
    }
}

/// The text between the first `“` and the first `”` after it.
pub open spec fn quoted_part(s: Seq<char>) -> Option<Seq<char>> {
    match first_index(s, '“') {
        None => None,
        Some(i) => {
            let rest = s.subrange(i + 1, s.len() as int);
            match first_index(rest, '”') {
                None => None,
                Some(j) => Some(rest.subrange(0, j)),
            }
        },
    }
}

/// The first 22 characters, with an ellipsis where characters were cut.
pub open spec fn truncated_title(s: Seq<char>) -> Seq<char> {
    if s.len() > TITLE_MAX_CHARS {
        s.subrange(0, TITLE_MAX_CHARS as int).push('…')
    } else {
        s
    }
}

/// The short, stable project name for a title: whitespace collapsed; any
/// title about the Codex pet or about translation becomes its fixed project
/// name; a project name in “quotes” is taken as it stands; anything else is
/// cut to 22 characters.
pub open spec fn spec_shorten_title(title: Seq<char>) -> Seq<char> {
    let c = compact(title);
    if contains(c, "Codex"@) && contains(c, "桌宠"@) {
        pet_project_name()
    } else if contains(ascii_lower(c), "translate"@) || contains(c, "翻译"@) {
        translation_project_name()
    } else {
        match quoted_part(c) {
            Some(p) if trim(p).len() > 0 => trim(p),
            _ => truncated_title(c),
        }
    }
}

proof fn lemma_count_until_bounds(s: Seq<char>, i: int, c: char)
    requires
        0 <= i <= s.len(),
    ensures
        i + count_until(s, i, c) <= s.len(),
        i + count_until(s, i, c) < s.len() ==> s[i + count_until(s, i, c)] == c,
        forall|k: int| i <= k < i + count_until(s, i, c) ==> s[k] != c,
    decreases s.len() - i,
{
    if i < s.len() && s[i] != c {
        lemma_count_until_bounds(s, i + 1, c);
    }
}

/// The index of the first `c` in `s`.
pub fn find_char(s: &[char], c: char) -> (r: Option<usize>)
    ensures
        match r {
            Some(i) => first_index(s@, c) == Some(i as int) && i < s@.len(),
            None => first_index(s@, c) is None,
        },
{
    proof {
        lemma_count_until_bounds(s@, 0, c);
    }
    let mut i: usize = 0;
    while i < s.len()
        invariant
            0 <= i <= s@.len(),
            s@.len() == s.len(),
            forall|k: int| 0 <= k < i ==> s@[k] != c,
            count_until(s@, 0, c) <= s@.len(),
            count_until(s@, 0, c) < s@.len() ==> s@[count_until(s@, 0, c) as int] == c,
            forall|k: int| 0 <= k < count_until(s@, 0, c) ==> s@[k] != c,
        decreases s@.len() - i,
    {
        if s[i] == c {
            return Some(i);
        }
        i = i + 1;
    }
    None
}

/// `s` with ASCII capitals made small.
pub fn ascii_lowercase(s: &[char]) -> (out: Vec<char>)
    ensures
        out@ == ascii_lower(s@),
{
    let mut out: Vec<char> = Vec::new();
    let mut i: usize = 0;
    while i < s.len()
        invariant
            0 <= i <= s@.len(),
            out@ == ascii_lower(s@).subrange(0, i as int),
        decreases s@.len() - i,
    {
        let c = s[i];
        let l = if 'A' <= c && c <= 'Z' {
            let b = (c as u8) + 32;
            b as char
        } else {
            c
        };
        proof {
            if 'A' <= c && c <= 'Z' {
                assert(l as int == c as int + 32);
            }
            assert(l == ascii_lower_char(c));
        }
        out.push(l);
        i = i + 1;
        proof {
            assert(out@ =~= ascii_lower(s@).subrange(0, i as int));
        }
    }
    proof {
        assert(out@ =~= ascii_lower(s@));
    }
    out
}

/// The short, stable project name for a title.
pub fn shorten_chars(title: &[char]) -> (out: Vec<char>)
    ensures
        out@ == spec_shorten_title(title@),
{
    let c = compact_text(title);
    if contains_str(c.as_slice(), "Codex") && contains_str(c.as_slice(), "桌宠") {
        return chars_of("Codex桌宠灵动岛");
    }
    let lower = ascii_lowercase(c.as_slice());
    if contains_str(lower.as_slice(), "translate") || contains_str(c.as_slice(), "翻译") {
        return chars_of("翻译大师");
    }
    match find_char(c.as_slice(), '“') {
        Some(i) => {
            let n = c.len();
            let rest = slice_to_vec(c.as_slice(), i + 1, n);
            match find_char(rest.as_slice(), '”') {
                Some(j) => {
                    let quoted = slice_to_vec(rest.as_slice(), 0, j);
                    let project = trimmed(quoted.as_slice());
                    if project.len() > 0 {
                        return project;
                    }
                },
                None => {},
            }
        },
        None => {},
    }
    if c.len() > TITLE_MAX_CHARS {
        let mut out = slice_to_vec(c.as_slice(), 0, TITLE_MAX_CHARS);
        out.push('…');
        out
    } else {
        c
    }
}

/// The short, stable project name for a title.
pub fn shorten_title(title: &str) -> (out: String)
    ensures
        out@ == spec_shorten_title(title@),
{
    let chars = chars_of(title);
    let short = shorten_chars(chars.as_slice());
    crate::text::string_of(&short)
}

/// The title shown for a task whose project is unknown. It never depends on
/// the task's identifier.
pub fn task_fallback_title(_turn_id: &str) -> (t: &'static str)
    ensures
        t@ == fallback_task_title(),
{
    "Codex 任务"
}

/// A line of a user message that reads as the user's own request, not as
/// injected setup text.
pub open spec fn spec_is_user_task_line(line: Seq<char>) -> bool {
    let t = trim(line);
    &&& t.len() > 0
    &&& !starts_with(t, "<"@)
    &&& !starts_with(t, "#"@)
    &&& !starts_with(t, "-"@)
    &&& !starts_with(t, "Here is a list of plugins"@)
    &&& t != "filesystem"@
    &&& t != "environment_context"@
    &&& t != "permissions instructions"@
}

/// Whether a line of a user message is the user's own request.
pub fn is_user_task_line(line: &[char]) -> (b: bool)
    ensures
        b == spec_is_user_task_line(line@),
{
    let t = trimmed(line);
    let s = t.as_slice();
    t.len() > 0 && !starts_with_str(s, "<") && !starts_with_str(s, "#") && !starts_with_str(s, "-")
        && !starts_with_str(s, "Here is a list of plugins") && !equals_str(s, "filesystem")
        && !equals_str(s, "environment_context") && !equals_str(s, "permissions instructions")
}

/// The first of `lines`, trimmed, that is a user request.
pub open spec fn first_task_line(lines: Seq<Seq<char>>) -> Option<Seq<char>>
    decreases lines.len(),
{
    if lines.len() == 0 {
        None
    } else if spec_is_user_task_line(trim(lines[0])) {
        Some(trim(lines[0]))
    } else {
        first_task_line(lines.subrange(1, lines.len() as int))
    }
}

/// The project title that one content item of a user message gives.
pub open spec fn item_title(item: Json) -> Option<Seq<char>> {
    match spec_str(spec_field(item, "text"@)) {
        None => None,
        Some(text) => match first_task_line(spec_lines(text)) {
            Some(line) => Some(spec_shorten_title(line)),
            None => None,
        },
    }
}

/// The title that the first content item with a user request gives.
pub open spec fn first_item_title(items: Seq<Json>) -> Option<Seq<char>>
    decreases items.len(),
{
    if items.len() == 0 {
        None
    } else {
        match item_title(items[0]) {
            Some(t) => Some(t),
            None => first_item_title(items.subrange(1, items.len() as int)),
        }
    }
}

/// The project title that a record gives when it is the user's message: the
/// first line of its content that is the user's own request, shortened.
pub open spec fn spec_user_task_title(record: Json) -> Option<Seq<char>> {
    if spec_str(spec_field(record, "type"@)) != Some("response_item"@) {
        None
    } else {
        match spec_field(record, "payload"@) {
            None => None,
            Some(payload) => if spec_str(spec_field(payload, "type"@)) != Some("message"@)
                || spec_str(spec_field(payload, "role"@)) != Some("user"@) {
                None
            } else {
                match spec_field(payload, "content"@) {
                    Some(Json::Array(items)) => first_item_title(items),
                    _ => None,
                }
            },
        }
    }
}

fn first_task_line_of(text: &Vec<char>) -> (r: Option<Vec<char>>)
    ensures
        opt_chars(r) == first_task_line(spec_lines(text@)),
{
    let lines = split_lines(text.as_slice());
    let ghost ls = texts_view(lines@);
    let mut i: usize = 0;
    proof {
        assert(ls.subrange(0, ls.len() as int) =~= ls);
    }
    while i < lines.len()
        invariant
            0 <= i <= lines@.len(),
            ls == texts_view(lines@),
            ls == spec_lines(text@),
            first_task_line(ls) == first_task_line(ls.subrange(i as int, ls.len() as int)),
        decreases lines@.len() - i,
    {
        let ghost rest = ls.subrange(i as int, ls.len() as int);
        proof {
            assert(rest[0] == lines@[i as int]@);
            assert(rest.subrange(1, rest.len() as int) =~= ls.subrange(i + 1, ls.len() as int));
        }
        let t = trimmed(lines[i].as_slice());
        if is_user_task_line(t.as_slice()) {
            return Some(t);
        }
        i = i + 1;
    }
    None
}

/// The project title that a content item of a user message gives.
fn content_item_title(item: &JsonValue) -> (r: Option<Vec<char>>)
    ensures
        opt_chars(r) == item_title(item.view()),
{
    let text = match string(field(item, "text")) {
        Some(t) => t,
        None => return None,
    };
    match first_task_line_of(text) {
        Some(line) => Some(shorten_chars(line.as_slice())),
        None => None,
    }
}

/// The project title that a record gives when it is the user's message.
pub fn user_task_title(record: &JsonValue) -> (r: Option<Vec<char>>)
    ensures
        opt_chars(r) == spec_user_task_title(record.view()),
{
    if !string_is(field(record, "type"), "response_item") {
        return None;
    }
    let payload = match field(record, "payload") {
        Some(p) => p,
        None => return None,
    };
    if !string_is(field(payload, "type"), "message") || !string_is(field(payload, "role"), "user") {
        return None;
    }
    let content = match field(payload, "content") {
        Some(JsonValue::Array(items)) => items,
        _ => return None,
    };
    let ghost items = JsonValue::view_items(content@);
    proof {
        lemma_view_items_len(content@);
        assert(items.subrange(0, items.len() as int) =~= items);
    }
    let mut i: usize = 0;
    while i < content.len()
        invariant
            0 <= i <= content@.len(),
            items == JsonValue::view_items(content@),
            items.len() == content@.len(),
            forall|j: int| 0 <= j < content@.len() ==> #[trigger] items[j] == content@[j].view(),
            spec_user_task_title(record.view()) == first_item_title(items),
            first_item_title(items) == first_item_title(items.subrange(i as int, items.len() as int)),
        decreases content@.len() - i,
    {
        let ghost rest = items.subrange(i as int, items.len() as int);
        proof {
            assert(rest[0] == items[i as int]);
            assert(rest.subrange(1, rest.len() as int) =~= items.subrange(i + 1, items.len() as int));
        }
        match content_item_title(&content[i]) {
            Some(t) => return Some(t),
            None => {},
        }
        i = i + 1;
    }
    None
}

/// A text without `ch` has no first `ch`.
proof fn lemma_no_first_index(s: Seq<char>, ch: char)
    requires
        !s.contains(ch),
    ensures
        first_index(s, ch) is None,
{
    lemma_count_until_bounds(s, 0, ch);
    if count_until(s, 0, ch) < s.len() {
        assert(s[count_until(s, 0, ch) as int] == ch);
    }
}

/// Cutting compact text and marking the cut keeps it compact.
proof fn lemma_truncated_compact(c: Seq<char>)
    requires
        is_compact(c),
    ensures
        is_compact(truncated_title(c)),
{
    if c.len() > TITLE_MAX_CHARS {
        let n = TITLE_MAX_CHARS as int;
        let t = truncated_title(c);
        assert forall|k: int| 0 <= k < t.len() && is_unicode_ws(#[trigger] t[k]) implies t[k] == ' ' && 0 < k
            < t.len() - 1 && !is_unicode_ws(t[k - 1]) && !is_unicode_ws(t[k + 1]) by {
            if k < n {
                assert(t[k] == c[k]);
                assert(is_unicode_ws(c[k]));
                assert(t[k - 1] == c[k - 1]);
                if k + 1 < n {
                    assert(t[k + 1] == c[k + 1]);
                }
            }
        }
    }
}

/// A pattern without `…` that occurs in the first `n` characters of a text
/// followed by `…` occurs in the text itself.
proof fn lemma_contains_in_cut(c: Seq<char>, n: int, pat: Seq<char>)
    requires
        0 <= n <= c.len(),
        pat.len() > 0,
        forall|k: int| 0 <= k < pat.len() ==> pat[k] != '…',
        contains(c.subrange(0, n).push('…'), pat),
    ensures
        contains(c, pat),
{
    let t = c.subrange(0, n).push('…');
    let i = choose|i: int| 0 <= i && i + pat.len() <= t.len() && #[trigger] t.subrange(i, i + pat.len()) == pat;
    if i + pat.len() == t.len() {
        assert(t.subrange(i, i + pat.len())[pat.len() - 1] == t[t.len() - 1]);
        assert(pat[pat.len() - 1] == '…');
    } else {
        assert forall|m: int| 0 <= m < pat.len() implies c.subrange(i, i + pat.len())[m] == pat[m] by {
            assert(t.subrange(i, i + pat.len())[m] == t[i + m]);
        }
        assert(c.subrange(i, i + pat.len()) =~= pat);
    }
}

/// A title that names no project in quotes and is neither about the pet nor
/// about translation is shortened by cutting its compacted text to 22
/// characters and marking the cut: the result has at most 23 characters and
/// is left as it is when shortened again.
pub proof fn law_cut_titles_are_stable(title: Seq<char>)
    requires
        !(contains(compact(title), "Codex"@) && contains(compact(title), "桌宠"@)),
        !contains(ascii_lower(compact(title)), "translate"@),
        !contains(compact(title), "翻译"@),
        !compact(title).contains('“'),
    ensures
        spec_shorten_title(title) == truncated_title(compact(title)),
        spec_shorten_title(title).len() <= TITLE_MAX_CHARS + 1,
        spec_shorten_title(spec_shorten_title(title)) == spec_shorten_title(title),
{
    let c = compact(title);
    lemma_no_first_index(c, '“');
    let t = truncated_title(c);
    lemma_compact_is_compact(title);
    lemma_truncated_compact(c);
    lemma_compact_fixed(t);
    reveal_strlit("Codex");
    reveal_strlit("桌宠");
    reveal_strlit("translate");
    reveal_strlit("翻译");
    if c.len() > TITLE_MAX_CHARS {
        let n = TITLE_MAX_CHARS as int;
        if contains(t, "Codex"@) {
            lemma_contains_in_cut(c, n, "Codex"@);
        }
        if contains(t, "桌宠"@) {
            lemma_contains_in_cut(c, n, "桌宠"@);
        }
        if contains(t, "翻译"@) {
            lemma_contains_in_cut(c, n, "翻译"@);
        }
        assert(ascii_lower(t) =~= ascii_lower(c).subrange(0, n).push('…'));
        if contains(ascii_lower(t), "translate"@) {
            lemma_contains_in_cut(ascii_lower(c), n, "translate"@);
        }
        if t.contains('“') {
            let k = choose|k: int| 0 <= k < t.len() && t[k] == '“';
            assert(c[k] == '“');
        }
        lemma_no_first_index(t, '“');
        assert(t.subrange(0, n).push('…') =~= t);
    }
}

/// Stable project names: a title about the Codex pet, one that names both
/// `Codex` and `桌宠`, is always `Codex桌宠灵动岛`; any other title about
/// translation, one that says `translate` in any case or `翻译`, is always
/// `翻译大师`, whatever else the title says.
pub proof fn law_stable_project_names(title: Seq<char>)
    ensures
        contains(compact(title), "Codex"@) && contains(compact(title), "桌宠"@) ==> spec_shorten_title(title)
            == "Codex桌宠灵动岛"@,
        !(contains(compact(title), "Codex"@) && contains(compact(title), "桌宠"@)) && (contains(
            ascii_lower(compact(title)),
            "translate"@,
        ) || contains(compact(title), "翻译"@)) ==> spec_shorten_title(title) == "翻译大师"@,
{
}

} // verus!
