use vstd::prelude::*;

use crate::catalog::TitleCatalog;
use crate::scan::{empty_scan, spec_scan_source, scan_jsonl_source, Scan, ScanModel};
use crate::text::{chars_of, contains, contains_str, count_until, string_of};
use crate::titles::first_index;

verus! {

/// The most session files read, newest first.
pub const MAX_SESSION_FILES: usize = 48;

/// The newest session files whose task events are recovered from the whole
/// file.
pub const RECENT_TASK_EVENT_SCAN_FILES: usize = 8;

/// The first bytes of a large session file that are read: the first
/// request of a session usually lies near its beginning.
pub const PREFIX_BYTES: u64 = 131_072;

/// The last bytes of a large session file that are read.
pub const TAIL_BYTES: u64 = 524_288;

/// Whether a session file of `length` bytes is read whole; a longer one is
/// read as the complete lines of its first `PREFIX_BYTES` and its last
/// `TAIL_BYTES`.
pub fn reads_whole_file(length: u64) -> (b: bool)
    ensures
        b == (length <= PREFIX_BYTES + TAIL_BYTES),
{
    length <= PREFIX_BYTES + TAIL_BYTES
}

/// File `a` counts as newer than file `b`: modified later, or modified at
/// the same time and found later.
pub open spec fn newer(keys: Seq<u128>, a: int, b: int) -> bool {
    keys[a] > keys[b] || (keys[a] == keys[b] && a > b)
}

/// `order` lists files newest first.
pub open spec fn newest_first(keys: Seq<u128>, order: Seq<usize>) -> bool {
    forall|i: int, j: int| 0 <= i < j < order.len() ==> newer(keys, #[trigger] order[i] as int, #[trigger] order[j] as int)
}

pub open spec fn listed(order: Seq<usize>, x: int) -> bool {
    exists|i: int| 0 <= i < order.len() && #[trigger] order[i] == x
}

/// The session files to read, given the modification time of each file
/// found: the newest 48 (all of them where there are fewer), newest first,
/// as a stable sort by time, reversed and cut, gives them.
pub open spec fn is_session_selection(keys: Seq<u128>, r: Seq<usize>) -> bool {
    &&& r.len() == if keys.len() < MAX_SESSION_FILES { keys.len() } else { MAX_SESSION_FILES as nat }
    &&& forall|i: int| 0 <= i < r.len() ==> #[trigger] r[i] < keys.len()
    &&& newest_first(keys, r)
    &&& forall|x: int| 0 <= x < keys.len() && !listed(r, x) ==> forall|i: int| 0 <= i < r.len() ==> newer(keys, #[trigger] r[i] as int, x)
}

/// Chooses the session files to read.
pub fn select_session_files(modified: &Vec<u128>) -> (r: Vec<usize>)
    ensures
        is_session_selection(modified@, r@),
{
    let ghost keys = modified@;
    let mut order: Vec<usize> = Vec::new();
    let mut n: usize = 0;
    while n < modified.len()
        invariant
            0 <= n <= keys.len(),
            keys == modified@,
            order@.len() == n,
            forall|i: int| 0 <= i < order@.len() ==> #[trigger] order@[i] < n,
            forall|x: int| 0 <= x < n ==> listed(order@, x),
            newest_first(keys, order@),
        decreases keys.len() - n,
    {
        let mut q: usize = 0;
        while q < order.len() && (modified[order[q]] > modified[n] || (modified[order[q]] == modified[n] && order[q] > n))
            invariant
                0 <= q <= order@.len(),
                n < keys.len(),
                keys == modified@,
                forall|i: int| 0 <= i < order@.len() ==> #[trigger] order@[i] < n,
                forall|i: int| 0 <= i < q ==> newer(keys, #[trigger] order@[i] as int, n as int),
            decreases order@.len() - q,
        {
            q = q + 1;
        }
        let ghost before = order@;
        order.insert(q, n);
        proof {
            let o = order@;
            assert(o =~= before.insert(q as int, n));
            if q < before.len() {
                assert(!newer(keys, before[q as int] as int, n as int));
                assert(newer(keys, n as int, before[q as int] as int));
            }
            assert forall|a: int, b: int| 0 <= a < b < o.len() implies newer(keys, #[trigger] o[a] as int, #[trigger] o[b] as int) by {
                if b < q {
                    assert(o[a] == before[a] && o[b] == before[b]);
                } else if b == q {
                    assert(o[a] == before[a]);
                } else if a == q {
                    assert(o[b] == before[b - 1]);
                    if b - 1 > q {
                        assert(newer(keys, before[q as int] as int, before[b - 1] as int));
                    }
                } else if a < q {
                    assert(o[a] == before[a] && o[b] == before[b - 1]);
                    if b - 1 > q {
                        assert(newer(keys, before[q as int] as int, before[b - 1] as int));
                    }
                } else {
                    assert(o[a] == before[a - 1] && o[b] == before[b - 1]);
                }
            }
            assert forall|i: int| 0 <= i < o.len() implies #[trigger] o[i] < n + 1 by {
                if i < q {
                    assert(o[i] == before[i]);
                } else if i > q {
                    assert(o[i] == before[i - 1]);
                }
            }
            assert forall|x: int| 0 <= x < n + 1 implies listed(o, x) by {
                if x == n {
                    assert(o[q as int] == n);
                } else {
                    assert(listed(before, x));
                    let i = choose|i: int| 0 <= i < before.len() && #[trigger] before[i] == x;
                    if i < q {
                        assert(o[i] == before[i]);
                    } else {
                        assert(o[i + 1] == before[i]);
                    }
                }
            }
        }
        n = n + 1;
    }
    let ghost full = order@;
    if order.len() > MAX_SESSION_FILES {
        order.truncate(MAX_SESSION_FILES);
    }
    proof {
        let r = order@;
        assert(r =~= full.subrange(0, r.len() as int));
        assert forall|x: int| 0 <= x < keys.len() && !listed(r, x) implies forall|i: int| 0 <= i < r.len() ==> newer(keys, #[trigger] r[i] as int, x) by {
            assert(listed(full, x));
            let k = choose|k: int| 0 <= k < full.len() && #[trigger] full[k] == x;
            if k < r.len() {
                assert(r[k] == x);
            }
            assert forall|i: int| 0 <= i < r.len() implies newer(keys, #[trigger] r[i] as int, x) by {
                assert(r[i] == full[i]);
                assert(i < k);
            }
        }
    }
    order
}

/// The newest session files among those selected, whose task events are
/// recovered from the whole file.
pub fn recent_session_files(selected: &Vec<usize>) -> (r: Vec<usize>)
    ensures
        r@ == selected@.subrange(0, if selected@.len() < RECENT_TASK_EVENT_SCAN_FILES { selected@.len() as int } else { RECENT_TASK_EVENT_SCAN_FILES as int }),
{
    let mut r: Vec<usize> = Vec::new();
    let mut i: usize = 0;
    while i < selected.len() && i < RECENT_TASK_EVENT_SCAN_FILES
        invariant
            0 <= i <= selected@.len(),
            i <= RECENT_TASK_EVENT_SCAN_FILES,
            r@ == selected@.subrange(0, i as int),
        decreases selected@.len() - i,
    {
        r.push(selected[i]);
        i = i + 1;
        proof {
            assert(r@ =~= selected@.subrange(0, i as int));
        }
    }
    r
}

// --- The text read from a large session file --------------------------------

/// The number of characters at the end of `s` that are not `c`.
pub open spec fn trailing_without(s: Seq<char>, c: char) -> nat
    decreases s.len(),
{
    if s.len() > 0 && s[s.len() - 1] != c {
        1 + trailing_without(s.subrange(0, s.len() - 1), c)
    } else {
        0
    }
}

/// The index of the last `c` in `s`.
pub open spec fn last_index(s: Seq<char>, c: char) -> Option<int> {
    if trailing_without(s, c) < s.len() {
        Some(s.len() - 1 - trailing_without(s, c))
    } else {
        None
    }
}

/// The complete lines at the start of a file's first bytes: everything up to
/// and including the last line feed.
pub open spec fn complete_prefix(prefix: Seq<char>) -> Seq<char> {
    match last_index(prefix, '\n') {
        Some(i) => prefix.subrange(0, i + 1),
        None => Seq::empty(),
    }
}

/// The complete lines at the end of a file's last bytes: everything after
/// the first line feed.
pub open spec fn complete_tail(tail: Seq<char>) -> Seq<char> {
    match first_index(tail, '\n') {
        Some(i) => tail.subrange(i + 1, tail.len() as int),
        None => Seq::empty(),
    }
}

proof fn lemma_trailing_bounds(s: Seq<char>, c: char)
    ensures
        trailing_without(s, c) <= s.len(),
        trailing_without(s, c) < s.len() ==> s[s.len() - 1 - trailing_without(s, c)] == c,
        forall|k: int| s.len() - trailing_without(s, c) <= k < s.len() ==> s[k] != c,
    decreases s.len(),
{
    if s.len() > 0 && s[s.len() - 1] != c {
        let e = s.subrange(0, s.len() - 1);
        lemma_trailing_bounds(e, c);
        assert forall|k: int| s.len() - trailing_without(s, c) <= k < s.len() implies s[k] != c by {
            if k < s.len() - 1 {
                assert(s[k] == e[k]);
            }
        }
        if trailing_without(s, c) < s.len() {
            assert(s[s.len() - 1 - trailing_without(s, c)] == e[e.len() - 1 - trailing_without(e, c)]);
        }
    }
}

/// The text read from the first and the last bytes of a large session file:
/// the complete lines of each, joined.
pub fn jsonl_window(prefix: &str, tail: &str) -> (out: String)
    ensures
        out@ == complete_prefix(prefix@) + complete_tail(tail@),
{
    let p = chars_of(prefix);
    let t = chars_of(tail);
    proof {
        lemma_trailing_bounds(p@, '\n');
    }
    let mut cut = p.len();
    while cut > 0 && p[cut - 1] != '\n'
        invariant
            0 <= cut <= p@.len(),
            p@.len() - trailing_without(p@, '\n') <= cut,
            trailing_without(p@, '\n') <= p@.len(),
            trailing_without(p@, '\n') < p@.len() ==> p@[p@.len() - 1 - trailing_without(p@, '\n')] == '\n',
            forall|k: int| cut <= k < p@.len() ==> p@[k] != '\n',
        decreases cut,
    {
        cut = cut - 1;
    }
    proof {
        if cut > 0 {
            assert(p@[cut - 1] == '\n');
            assert(cut == p@.len() - trailing_without(p@, '\n'));
        } else {
            if trailing_without(p@, '\n') < p@.len() {
                assert(p@[p@.len() - 1 - trailing_without(p@, '\n')] == '\n');
            }
        }
    }
    let mut out: Vec<char> = crate::text::slice_to_vec(p.as_slice(), 0, cut);
    proof {
        if cut == 0 {
            assert(complete_prefix(p@) =~= out@);
        }
    }
    match crate::titles::find_char(t.as_slice(), '\n') {
        Some(i) => {
            let n = t.len();
            let rest = crate::text::slice_to_vec(t.as_slice(), i + 1, n);
            let ghost before = out@;
            let mut k: usize = 0;
            while k < rest.len()
                invariant
                    0 <= k <= rest@.len(),
                    out@ == before + rest@.subrange(0, k as int),
                decreases rest@.len() - k,
            {
                out.push(rest[k]);
                k = k + 1;
                proof {
                    assert(out@ =~= before + rest@.subrange(0, k as int));
                }
            }
            proof {
                assert(rest@.subrange(0, rest@.len() as int) =~= rest@);
            }
        },
        None => {
            proof {
                assert(out@ + Seq::<char>::empty() =~= out@);
            }
        },
    }
    string_of(&out)
}

/// A line that carries a task event of the desktop log format.
pub open spec fn spec_is_task_event_line(line: Seq<char>) -> bool {
    contains(line, "\"type\":\"event_msg\""@) && (contains(line, "\"type\":\"task_started\""@)
        || contains(line, "\"type\":\"task_complete\""@) || contains(line, "\"type\":\"task_waiting\""@)
        || contains(line, "\"type\":\"task_waiting_for_input\""@) || contains(line, "\"type\":\"waiting_for_input\""@)
        || contains(line, "\"type\":\"sub_agent_activity\""@))
}

/// Whether a line carries a task event of the desktop log format.
pub fn is_task_event_line(line: &[char]) -> (b: bool)
    ensures
        b == spec_is_task_event_line(line@),
{
    contains_str(line, "\"type\":\"event_msg\"") && (contains_str(line, "\"type\":\"task_started\"")
        || contains_str(line, "\"type\":\"task_complete\"") || contains_str(line, "\"type\":\"task_waiting\"")
        || contains_str(line, "\"type\":\"task_waiting_for_input\"") || contains_str(line, "\"type\":\"waiting_for_input\"")
        || contains_str(line, "\"type\":\"sub_agent_activity\""))
}

/// The task-event lines among `lines`, each followed by a line feed.
pub open spec fn task_event_text(lines: Seq<Seq<char>>) -> Seq<char>
    decreases lines.len(),
{
    if lines.len() == 0 {
        Seq::empty()
    } else {
        let rest = task_event_text(lines.subrange(0, lines.len() - 1));
        let l = lines[lines.len() - 1];
        if spec_is_task_event_line(l) { rest + l + seq!['\n'] } else { rest }
    }
}

/// The text read from a large session file with the task events of its
/// middle recovered: the window, then every task-event line of the file.
pub fn with_recovered_task_events(window: &str, lines: &Vec<String>) -> (out: String)
    ensures
        out@ == window@ + task_event_text(crate::catalog::strings_view(lines@)),
{
    let ghost ls = crate::catalog::strings_view(lines@);
    let mut out: Vec<char> = chars_of(window);
    let mut i: usize = 0;
    proof {
        assert(ls.subrange(0, 0) =~= Seq::<Seq<char>>::empty());
        assert(out@ =~= window@ + task_event_text(ls.subrange(0, 0)));
    }
    while i < lines.len()
        invariant
            0 <= i <= lines@.len(),
            ls == crate::catalog::strings_view(lines@),
            out@ == window@ + task_event_text(ls.subrange(0, i as int)),
        decreases lines@.len() - i,
    {
        proof {
            assert(ls.subrange(0, i + 1).subrange(0, i as int) =~= ls.subrange(0, i as int));
            assert(ls.subrange(0, i + 1)[i as int] == ls[i as int]);
        }
        let line = chars_of(lines[i].as_str());
        if is_task_event_line(line.as_slice()) {
            let ghost before = out@;
            let mut k: usize = 0;
            while k < line.len()
                invariant
                    0 <= k <= line@.len(),
                    out@ == before + line@.subrange(0, k as int),
                decreases line@.len() - k,
            {
                out.push(line[k]);
                k = k + 1;
                proof {
                    assert(out@ =~= before + line@.subrange(0, k as int));
                }
            }
            out.push('\n');
            proof {
                assert(line@.subrange(0, line@.len() as int) =~= line@);
                assert(out@ =~= before + line@ + seq!['\n']);
            }
        }
        i = i + 1;
    }
    proof {
        assert(ls.subrange(0, ls.len() as int) =~= ls);
    }
    string_of(&out)
}

// --- Reading every source ------------------------------------------------------

pub open spec fn opt_string_view(v: Option<String>) -> Option<Seq<char>> {
    match v {
        Some(s) => Some(s@),
        None => None,
    }
}

pub open spec fn sources_view(v: Seq<Option<String>>) -> Seq<Option<Seq<char>>> {
    v.map_values(|s: Option<String>| opt_string_view(s))
}

/// The sources read one after another into a scan; a source that could not
/// be read (`None`) changes nothing. The result holds the scan and whether
/// any source was read to its end without a malformed line.
pub open spec fn spec_scan_all(
    sources: Seq<Option<Seq<char>>>,
    titles: Map<Seq<char>, Seq<char>>,
    parents: Map<Seq<char>, Seq<char>>,
) -> (ScanModel, bool)
    decreases sources.len(),
{
    if sources.len() == 0 {
        (empty_scan(), false)
    } else {
        let (s, any) = spec_scan_all(sources.subrange(0, sources.len() - 1), titles, parents);
        match sources[sources.len() - 1] {
            None => (s, any),
            Some(text) => {
                let (s2, ok) = spec_scan_source(s, text, titles, parents);
                (s2, any || ok)
            },
        }
    }
}

/// Reads every source, in order, into one scan; `Err` where no source was
/// read without a malformed line.
pub fn scan_all(sources: &Vec<Option<String>>, catalog: &TitleCatalog) -> (r: Result<Scan, ()>)
    ensures
        match r {
            Ok(s) => spec_scan_all(sources_view(sources@), catalog.titles@, catalog.parents@) == (s@, true),
            Err(_) => !spec_scan_all(sources_view(sources@), catalog.titles@, catalog.parents@).1,
        },
{
    let ghost sv = sources_view(sources@);
    let mut scan = Scan::new();
    let mut scanned_any = false;
    let mut i: usize = 0;
    proof {
        assert(sv.subrange(0, 0) =~= Seq::<Option<Seq<char>>>::empty());
    }
    while i < sources.len()
        invariant
            0 <= i <= sources@.len(),
            sv == sources_view(sources@),
            spec_scan_all(sv.subrange(0, i as int), catalog.titles@, catalog.parents@) == (scan@, scanned_any),
        decreases sources@.len() - i,
    {
        proof {
            assert(sv.subrange(0, i + 1).subrange(0, i as int) =~= sv.subrange(0, i as int));
            assert(sv.subrange(0, i + 1)[i as int] == sv[i as int]);
        }
        match &sources[i] {
            Some(text) => {
                if scan_jsonl_source(text.as_str(), &mut scan, catalog).is_ok() {
                    scanned_any = true;
                }
            },
            None => {},
        }
        i = i + 1;
    }
    proof {
        assert(sv.subrange(0, sv.len() as int) =~= sv);
    }
    if scanned_any {
        Ok(scan)
    } else {
        Err(())
    }
}

} // verus!
