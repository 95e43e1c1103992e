use vstd::prelude::*;

use crate::json::is_scalar_value;

verus! {

/// The characters of a string slice, in order.
pub fn chars_of(s: &str) -> (out: Vec<char>)
    ensures
        out@ == s@,
{
    let mut out: Vec<char> = Vec::new();
    for c in it: s.chars()
        invariant
            out@ == it.seq().take(it.index() as int),
    {
        out.push(c);
    }
    out
}

/// A copy of the characters of `s` from `from` up to `to`.
pub fn slice_to_vec(s: &[char], from: usize, to: usize) -> (out: Vec<char>)
    requires
        from <= to <= s@.len(),
    ensures
        out@ == s@.subrange(from as int, to as int),
{
    let mut out: Vec<char> = Vec::new();
    let mut i = from;
    while i < to
        invariant
            from <= i <= to,
            to <= s@.len(),
            out@ == s@.subrange(from as int, i as int),
        decreases to - i,
    {
        out.push(s[i]);
        i = i + 1;
        proof {
            assert(out@ =~= s@.subrange(from as int, i as int));
        }
    }
    out
}

/// `char::from_u32`: the character whose scalar value is `code`, or `None`
/// where `code` is a surrogate or above U+10FFFF, as std documents.
#[verifier::external_body]
pub(crate) fn char_from_code(code: u32) -> (c: Option<char>)
    ensures
        match c {
            Some(ch) => is_scalar_value(code as int) && ch as int == code as int,
            None => !is_scalar_value(code as int),
        },
{
    char::from_u32(code)
}

/// `String::push`: appends one character.
#[verifier::external_body]
fn push_char(s: &mut String, c: char)
    ensures
        final(s)@ == old(s)@.push(c),
{
    s.push(c)
}

/// A `String` holding the given characters.
pub fn string_of(chars: &Vec<char>) -> (s: String)
    ensures
        s@ == chars@,
{
    let mut s = String::new();
    let mut i: usize = 0;
    while i < chars.len()
        invariant
            0 <= i <= chars@.len(),
            s@ == chars@.take(i as int),
        decreases chars@.len() - i,
    {
        push_char(&mut s, chars[i]);
        i = i + 1;
        proof {
            assert(s@ =~= chars@.take(i as int));
        }
    }
    proof {
        assert(chars@.take(chars@.len() as int) =~= chars@);
    }
    s
}

} // verus!

verus! {

/// Unicode White_Space, which `char::is_whitespace` tests.
pub open spec fn is_unicode_ws(c: char) -> bool {
    ('\u{9}' <= c && c <= '\u{D}') || c == ' ' || c == '\u{85}' || c == '\u{A0}' || c == '\u{1680}'
        || ('\u{2000}' <= c && c <= '\u{200A}') || c == '\u{2028}' || c == '\u{2029}'
        || c == '\u{202F}' || c == '\u{205F}' || c == '\u{3000}'
}

pub fn is_whitespace_char(c: char) -> (b: bool)
    ensures
        b == is_unicode_ws(c),
{
    ('\u{9}' <= c && c <= '\u{D}') || c == ' ' || c == '\u{85}' || c == '\u{A0}' || c == '\u{1680}'
        || ('\u{2000}' <= c && c <= '\u{200A}') || c == '\u{2028}' || c == '\u{2029}'
        || c == '\u{202F}' || c == '\u{205F}' || c == '\u{3000}'
}

/// `s` without leading whitespace.
pub open spec fn trim_start(s: Seq<char>) -> Seq<char>
    decreases s.len(),
{
    if s.len() > 0 && is_unicode_ws(s[0]) {
        trim_start(s.subrange(1, s.len() as int))
    } else {
        s
    }
}

/// `s` without trailing whitespace.
pub open spec fn trim_end(s: Seq<char>) -> Seq<char>
    decreases s.len(),
{
    if s.len() > 0 && is_unicode_ws(s[s.len() - 1]) {
        trim_end(s.subrange(0, s.len() - 1))
    } else {
        s
    }
}

/// `s` without leading and trailing whitespace, as `str::trim` gives it.
pub open spec fn trim(s: Seq<char>) -> Seq<char> {
    trim_end(trim_start(s))
}

proof fn lemma_trim_start_from(s: Seq<char>, i: int)
    requires
        0 <= i <= s.len(),
        forall|j: int| 0 <= j < i ==> is_unicode_ws(#[trigger] s[j]),
    ensures
        trim_start(s) == trim_start(s.subrange(i, s.len() as int)),
    decreases i,
{
    if i == 0 {
        assert(s.subrange(0, s.len() as int) =~= s);
    } else {
        lemma_trim_start_from(s.subrange(1, s.len() as int), i - 1);
        assert(s.subrange(1, s.len() as int).subrange(i - 1, s.len() - 1) =~= s.subrange(i, s.len() as int));
    }
}

proof fn lemma_trim_end_to(s: Seq<char>, k: int)
    requires
        0 <= k <= s.len(),
        forall|j: int| k <= j < s.len() ==> is_unicode_ws(#[trigger] s[j]),
    ensures
        trim_end(s) == trim_end(s.subrange(0, k)),
    decreases s.len() - k,
{
    if k == s.len() {
        assert(s.subrange(0, k) =~= s);
    } else {
        lemma_trim_end_to(s.subrange(0, s.len() - 1), k);
        assert(s.subrange(0, s.len() - 1).subrange(0, k) =~= s.subrange(0, k));
    }
}

/// The bounds of `trim(s)` within `s`.
pub fn trim_bounds(s: &[char]) -> (r: (usize, usize))
    ensures
        r.0 <= r.1 <= s@.len(),
        trim(s@) == s@.subrange(r.0 as int, r.1 as int),
{
    let mut i: usize = 0;
    while i < s.len() && is_whitespace_char(s[i])
        invariant
            0 <= i <= s@.len(),
            forall|j: int| 0 <= j < i ==> is_unicode_ws(#[trigger] s@[j]),
        decreases s@.len() - i,
    {
        i = i + 1;
    }
    proof {
        lemma_trim_start_from(s@, i as int);
    }
    let ghost t = s@.subrange(i as int, s@.len() as int);
    let mut k: usize = s.len();
    while k > i && is_whitespace_char(s[k - 1])
        invariant
            i <= k <= s@.len(),
            t == s@.subrange(i as int, s@.len() as int),
            forall|j: int| k <= j < s@.len() ==> is_unicode_ws(#[trigger] s@[j]),
        decreases k,
    {
        k = k - 1;
    }
    proof {
        assert forall|j: int| k - i <= j < t.len() implies is_unicode_ws(#[trigger] t[j]) by {
            assert(t[j] == s@[i + j]);
        }
        lemma_trim_end_to(t, k - i);
        assert(t.subrange(0, k - i) =~= s@.subrange(i as int, k as int));
        if i == k {
            assert(s@.subrange(i as int, s@.len() as int).len() == 0 || !is_unicode_ws(s@[i as int]));
        }
    }
    (i, k)
}

/// A copy of `trim(s)`.
pub fn trimmed(s: &[char]) -> (out: Vec<char>)
    ensures
        out@ == trim(s@),
{
    let (a, b) = trim_bounds(s);
    slice_to_vec(s, a, b)
}

/// `pat` occurs in `s`.
pub open spec fn contains(s: Seq<char>, pat: Seq<char>) -> bool {
    exists|i: int| 0 <= i && i + pat.len() <= s.len() && #[trigger] s.subrange(i, i + pat.len()) == pat
}

/// `s` begins with `pat`.
pub open spec fn starts_with(s: Seq<char>, pat: Seq<char>) -> bool {
    pat.len() <= s.len() && s.subrange(0, pat.len() as int) == pat
}

/// `pat` occurs in `s` at `i`.
pub fn occurs_at(s: &[char], pat: &[char], i: usize) -> (b: bool)
    ensures
        b == (i + pat@.len() <= s@.len() && s@.subrange(i as int, i + pat@.len()) == pat@),
{
    if i > s.len() || pat.len() > s.len() - i {
        return false;
    }
    let mut j: usize = 0;
    while j < pat.len()
        invariant
            i + pat@.len() <= s@.len(),
            s@.len() == s.len(),
            0 <= j <= pat@.len(),
            forall|k: int| 0 <= k < j ==> s@[i + k] == pat@[k],
        decreases pat@.len() - j,
    {
        if s[i + j] != pat[j] {
            proof {
                assert(s@.subrange(i as int, i + pat@.len())[j as int] != pat@[j as int]);
            }
            return false;
        }
        j = j + 1;
    }
    proof {
        assert(s@.subrange(i as int, i + pat@.len()) =~= pat@);
    }
    true
}

/// Whether `pat` occurs in `s`.
pub fn contains_text(s: &[char], pat: &[char]) -> (b: bool)
    ensures
        b == contains(s@, pat@),
{
    if pat.len() > s.len() {
        return false;
    }
    let mut i: usize = 0;
    let last = s.len() - pat.len();
    while i <= last
        invariant
            pat@.len() <= s@.len(),
            last == s@.len() - pat@.len(),
            0 <= i <= last + 1,
            forall|k: int| 0 <= k < i ==> #[trigger] s@.subrange(k, k + pat@.len()) != pat@,
        decreases s@.len() - i,
    {
        if occurs_at(s, pat, i) {
            return true;
        }
        if i == last {
            return false;
        }
        i = i + 1;
    }
    false
}

/// Whether `s` begins with `pat`.
pub fn starts_with_text(s: &[char], pat: &[char]) -> (b: bool)
    ensures
        b == starts_with(s@, pat@),
{
    occurs_at(s, pat, 0)
}

/// Whether the text of a string slice occurs in `s`.
pub fn contains_str(s: &[char], pat: &str) -> (b: bool)
    ensures
        b == contains(s@, pat@),
{
    let p = chars_of(pat);
    contains_text(s, p.as_slice())
}

/// Whether `s` begins with the text of a string slice.
pub fn starts_with_str(s: &[char], pat: &str) -> (b: bool)
    ensures
        b == starts_with(s@, pat@),
{
    let p = chars_of(pat);
    starts_with_text(s, p.as_slice())
}

/// Whether `s` equals the text of a string slice.
pub fn equals_str(s: &[char], pat: &str) -> (b: bool)
    ensures
        b == (s@ == pat@),
{
    let p = chars_of(pat);
    if p.len() != s.len() {
        return false;
    }
    let r = occurs_at(s, p.as_slice(), 0);
    proof {
        assert(s@.subrange(0, s@.len() as int) =~= s@);
    }
    r
}

} // verus!

verus! {

/// The number of characters from `i` on before the first `c` (or the end).
pub open spec fn count_until(s: Seq<char>, i: int, c: char) -> nat
    decreases s.len() - i,
{
    if 0 <= i < s.len() && s[i] != c {
        1 + count_until(s, i + 1, c)
    } else {
        0
    }
}

/// A line without the carriage return that ends it before a line feed.
pub open spec fn strip_cr(line: Seq<char>) -> Seq<char> {
    if line.len() > 0 && line[line.len() - 1] == '\r' {
        line.subrange(0, line.len() - 1)
    } else {
        line
    }
}

/// The lines of `s` from `i` on, as `str::lines` yields them: split at each
/// line feed, a carriage return before it dropped, and no empty line after a
/// final line feed.
pub open spec fn lines_from(s: Seq<char>, i: int) -> Seq<Seq<char>>
    decreases s.len() - i,
{
    if !(0 <= i < s.len()) {
        Seq::empty()
    } else {
        let j = i + count_until(s, i, '\n');
        if j < s.len() {
            seq![strip_cr(s.subrange(i, j))] + lines_from(s, j + 1)
        } else {
            seq![s.subrange(i, s.len() as int)]
        }
    }
}

pub open spec fn spec_lines(s: Seq<char>) -> Seq<Seq<char>> {
    lines_from(s, 0)
}

/// The text of an optional character vector.
pub open spec fn opt_chars(v: Option<Vec<char>>) -> Option<Seq<char>> {
    match v {
        Some(t) => Some(t@),
        None => None,
    }
}

/// The views of a vector of character vectors.
pub open spec fn texts_view(v: Seq<Vec<char>>) -> Seq<Seq<char>> {
    v.map_values(|t: Vec<char>| t@)
}

proof fn lemma_count_until_end(s: Seq<char>, i: int, c: char)
    requires
        0 <= i <= s.len(),
    ensures
        i + count_until(s, i, c) <= s.len(),
        i + count_until(s, i, c) < s.len() ==> s[i + count_until(s, i, c)] == c,
        forall|k: int| i <= k < i + count_until(s, i, c) ==> s[k] != c,
    decreases s.len() - i,
{
    if i < s.len() && s[i] != c {
        lemma_count_until_end(s, i + 1, c);
    }
}

/// The lines of `s`, as `str::lines` yields them.
pub fn split_lines(s: &[char]) -> (out: Vec<Vec<char>>)
    ensures
        texts_view(out@) == spec_lines(s@),
{
    let mut out: Vec<Vec<char>> = Vec::new();
    let mut i: usize = 0;
    while i < s.len()
        invariant
            0 <= i <= s@.len(),
            s@.len() == s.len(),
            spec_lines(s@) == texts_view(out@) + lines_from(s@, i as int),
        decreases s@.len() - i,
    {
        let ghost gi = i as int;
        proof {
            lemma_count_until_end(s@, gi, '\n');
        }
        let mut j = i;
        while j < s.len() && s[j] != '\n'
            invariant
                gi <= j <= s@.len(),
                s@.len() == s.len(),
                gi + count_until(s@, gi, '\n') >= j,
                gi + count_until(s@, gi, '\n') <= s@.len(),
                forall|k: int| gi <= k < j ==> s@[k] != '\n',
                forall|k: int| gi <= k < gi + count_until(s@, gi, '\n') ==> s@[k] != '\n',
                gi + count_until(s@, gi, '\n') < s@.len() ==> s@[gi + count_until(s@, gi, '\n')] == '\n',
            decreases s@.len() - j,
        {
            j = j + 1;
        }
        proof {
            assert(j == gi + count_until(s@, gi, '\n')) by {
                if j < gi + count_until(s@, gi, '\n') {
                    assert(s@[j as int] != '\n');
                }
            }
        }
        let ghost old_out = out@;
        if j < s.len() {
            let mut end = j;
            if end > i && s[end - 1] == '\r' {
                end = end - 1;
            }
            let line = slice_to_vec(s, i, end);
            proof {
                assert(line@ == strip_cr(s@.subrange(gi, j as int)));
            }
            out.push(line);
            i = j + 1;
        } else {
            let line = slice_to_vec(s, i, s.len());
            out.push(line);
            i = s.len();
        }
        proof {
            assert(texts_view(out@) =~= texts_view(old_out).push(out@[out@.len() - 1]@));
            assert(lines_from(s@, i as int) == lines_from(s@, i as int));
        }
    }
    proof {
        assert(spec_lines(s@) =~= texts_view(out@));
    }
    out
}

/// The number of whitespace characters from `i` on.
pub open spec fn ws_run(s: Seq<char>, i: int) -> nat
    decreases s.len() - i,
{
    if 0 <= i < s.len() && is_unicode_ws(s[i]) {
        1 + ws_run(s, i + 1)
    } else {
        0
    }
}

/// The number of non-whitespace characters from `i` on.
pub open spec fn word_run(s: Seq<char>, i: int) -> nat
    decreases s.len() - i,
{
    if 0 <= i < s.len() && !is_unicode_ws(s[i]) {
        1 + word_run(s, i + 1)
    } else {
        0
    }
}

/// The whitespace-separated words of `s` from `i` on, as
/// `str::split_whitespace` yields them.
pub open spec fn words_from(s: Seq<char>, i: int) -> Seq<Seq<char>>
    decreases s.len() - i,
{
    let j = i + ws_run(s, i);
    if !(0 <= i && j < s.len()) {
        Seq::empty()
    } else {
        let k = j + word_run(s, j);
        if word_run(s, j) == 0 || k > s.len() {
            Seq::empty()
        } else {
            seq![s.subrange(j, k)] + words_from(s, k)
        }
    }
}

/// Words joined with single spaces.
pub open spec fn join_words(ws: Seq<Seq<char>>) -> Seq<char>
    decreases ws.len(),
{
    if ws.len() == 0 {
        Seq::empty()
    } else if ws.len() == 1 {
        ws[0]
    } else {
        join_words(ws.subrange(0, ws.len() - 1)) + seq![' '] + ws[ws.len() - 1]
    }
}

/// `s` with its whitespace runs collapsed to single spaces and its ends
/// trimmed: its words joined by spaces.
pub open spec fn compact(s: Seq<char>) -> Seq<char> {
    join_words(words_from(s, 0))
}

proof fn lemma_run_bounds(s: Seq<char>, i: int)
    requires
        0 <= i <= s.len(),
    ensures
        i + ws_run(s, i) <= s.len(),
        i + word_run(s, i) <= s.len(),
        forall|k: int| i <= k < i + ws_run(s, i) ==> is_unicode_ws(#[trigger] s[k]),
        forall|k: int| i <= k < i + word_run(s, i) ==> !is_unicode_ws(#[trigger] s[k]),
        i + ws_run(s, i) < s.len() ==> !is_unicode_ws(s[i + ws_run(s, i)]),
        i + word_run(s, i) < s.len() ==> is_unicode_ws(s[i + word_run(s, i)]),
    decreases s.len() - i,
{
    if i < s.len() {
        lemma_run_bounds(s, i + 1);
    }
}

/// `s` with its words joined by single spaces.
pub fn compact_text(s: &[char]) -> (out: Vec<char>)
    ensures
        out@ == compact(s@),
{
    let ghost w = words_from(s@, 0);
    let mut out: Vec<char> = Vec::new();
    let mut i: usize = 0;
    let ghost mut n: int = 0;
    proof {
        assert(w.subrange(0, 0) =~= Seq::<Seq<char>>::empty());
    }
    while i < s.len()
        invariant
            0 <= i <= s@.len(),
            s@.len() == s.len(),
            0 <= n <= w.len(),
            w == words_from(s@, 0),
            w == w.subrange(0, n) + words_from(s@, i as int),
            out@ == join_words(w.subrange(0, n)),
            (out@.len() == 0) <==> (n == 0),
        decreases s@.len() - i,
    {
        proof {
            lemma_run_bounds(s@, i as int);
        }
        let mut j = i;
        while j < s.len() && is_whitespace_char(s[j])
            invariant
                i <= j <= i + ws_run(s@, i as int),
                s@.len() == s.len(),
                i + ws_run(s@, i as int) <= s@.len(),
                forall|k: int| i <= k < i + ws_run(s@, i as int) ==> is_unicode_ws(#[trigger] s@[k]),
                i + ws_run(s@, i as int) < s@.len() ==> !is_unicode_ws(s@[i + ws_run(s@, i as int)]),
            decreases s@.len() - j,
        {
            j = j + 1;
        }
        assert(j == i + ws_run(s@, i as int));
        if j == s.len() {
            proof {
                assert(words_from(s@, i as int) =~= Seq::<Seq<char>>::empty());
                assert(w.subrange(0, n) + Seq::<Seq<char>>::empty() =~= w.subrange(0, n));
            }
            i = j;
        } else {
            proof {
                lemma_run_bounds(s@, j as int);
            }
            let mut k = j;
            while k < s.len() && !is_whitespace_char(s[k])
                invariant
                    j <= k <= j + word_run(s@, j as int),
                    s@.len() == s.len(),
                    j + word_run(s@, j as int) <= s@.len(),
                    forall|x: int| j <= x < j + word_run(s@, j as int) ==> !is_unicode_ws(#[trigger] s@[x]),
                    j + word_run(s@, j as int) < s@.len() ==> is_unicode_ws(s@[j + word_run(s@, j as int)]),
                decreases s@.len() - k,
            {
                k = k + 1;
            }
            assert(k == j + word_run(s@, j as int));
            let ghost word = s@.subrange(j as int, k as int);
            proof {
                assert(words_from(s@, i as int) == seq![word] + words_from(s@, k as int));
                assert(w[n] == word) by {
                    assert((w.subrange(0, n) + words_from(s@, i as int))[n] == word);
                }
                assert(w.subrange(0, n + 1) + words_from(s@, k as int) =~= w.subrange(0, n) + (seq![word] + words_from(s@, k as int)));
                assert(w.subrange(0, n + 1).subrange(0, n) =~= w.subrange(0, n));
            }
            if out.len() > 0 {
                out.push(' ');
            }
            let mut x = j;
            let ghost before = out@;
            while x < k
                invariant
                    j <= x <= k,
                    k <= s@.len(),
                    out@ == before + s@.subrange(j as int, x as int),
                decreases k - x,
            {
                out.push(s[x]);
                x = x + 1;
                proof {
                    assert(out@ =~= before + s@.subrange(j as int, x as int));
                }
            }
            proof {
                n = n + 1;
                assert(w.subrange(0, n)[n - 1] == word);
                if n == 1 {
                    assert(join_words(w.subrange(0, n)) == word);
                    assert(out@ =~= word);
                } else {
                    assert(out@ =~= join_words(w.subrange(0, n - 1)) + seq![' '] + word);
                }
            }
            i = k;
        }
    }
    proof {
        if i == s.len() {
            assert(words_from(s@, i as int) =~= Seq::<Seq<char>>::empty());
        }
        assert(w =~= w.subrange(0, n));
    }
    out
}

// --- Compact text -------------------------------------------------------------

/// `s` has no whitespace at its ends, and its only whitespace is single
/// spaces between other characters: the form that `compact` gives.
pub open spec fn is_compact(s: Seq<char>) -> bool {
    forall|k: int|
        0 <= k < s.len() && is_unicode_ws(#[trigger] s[k]) ==> s[k] == ' ' && 0 < k < s.len() - 1
            && !is_unicode_ws(s[k - 1]) && !is_unicode_ws(s[k + 1])
}

/// Words that are not empty and hold no whitespace.
pub open spec fn good_words(ws: Seq<Seq<char>>) -> bool {
    forall|a: int|
        0 <= a < ws.len() ==> (#[trigger] ws[a]).len() > 0 && forall|k: int|
            0 <= k < ws[a].len() ==> !is_unicode_ws(#[trigger] ws[a][k])
}

proof fn lemma_words_good(s: Seq<char>, i: int)
    requires
        0 <= i <= s.len(),
    ensures
        good_words(words_from(s, i)),
    decreases s.len() - i,
{
    lemma_run_bounds(s, i);
    let j = i + ws_run(s, i);
    if j < s.len() {
        lemma_run_bounds(s, j);
        let k = j + word_run(s, j);
        if word_run(s, j) > 0 {
            lemma_words_good(s, k);
            let w = s.subrange(j, k);
            let rest = words_from(s, k);
            let all = seq![w] + rest;
            assert(words_from(s, i) == all);
            assert forall|a: int| 0 <= a < all.len() implies (#[trigger] all[a]).len() > 0 && forall|m: int|
                0 <= m < all[a].len() ==> !is_unicode_ws(#[trigger] all[a][m]) by {
                if a > 0 {
                    assert(all[a] == rest[a - 1]);
                } else {
                    assert forall|m: int| 0 <= m < all[a].len() implies !is_unicode_ws(#[trigger] all[a][m]) by {
                        assert(all[a][m] == s[j + m]);
                    }
                }
            }
        }
    }
}

/// Joining good words with single spaces gives compact text whose ends are
/// not whitespace.
proof fn lemma_join_compact(ws: Seq<Seq<char>>)
    requires
        good_words(ws),
    ensures
        is_compact(join_words(ws)),
        ws.len() > 0 ==> join_words(ws).len() > 0 && !is_unicode_ws(join_words(ws)[0])
            && !is_unicode_ws(join_words(ws)[join_words(ws).len() - 1]),
    decreases ws.len(),
{
    if ws.len() == 1 {
        let w = ws[0];
        assert(w.len() > 0);
        assert forall|k: int| 0 <= k < w.len() implies !is_unicode_ws(#[trigger] w[k]) by {
            assert(w[k] == ws[0][k]);
        }
    } else if ws.len() > 1 {
        let front = ws.subrange(0, ws.len() - 1);
        assert(good_words(front)) by {
            assert forall|a: int| 0 <= a < front.len() implies (#[trigger] front[a]).len() > 0 && forall|m: int|
                0 <= m < front[a].len() ==> !is_unicode_ws(#[trigger] front[a][m]) by {
                assert(front[a] == ws[a]);
            }
        }
        lemma_join_compact(front);
        let x = join_words(front);
        let last = ws[ws.len() - 1];
        assert(last.len() > 0);
        let y = x + seq![' '] + last;
        assert(join_words(ws) == y);
        assert forall|k: int| 0 <= k < last.len() implies !is_unicode_ws(#[trigger] last[k]) by {
            assert(last[k] == ws[ws.len() - 1][k]);
        }
        assert forall|k: int| 0 <= k < y.len() && is_unicode_ws(#[trigger] y[k]) implies y[k] == ' ' && 0 < k
            < y.len() - 1 && !is_unicode_ws(y[k - 1]) && !is_unicode_ws(y[k + 1]) by {
            if k < x.len() {
                assert(y[k] == x[k]);
                assert(is_unicode_ws(x[k]));
                assert(y[k - 1] == x[k - 1]);
                assert(y[k + 1] == x[k + 1]);
            } else if k == x.len() {
                assert(y[k - 1] == x[x.len() - 1]);
                assert(y[k + 1] == last[0]);
            } else {
                assert(y[k] == last[k - x.len() - 1]);
            }
        }
        assert(y[0] == x[0]);
        assert(y[y.len() - 1] == last[last.len() - 1]);
    }
}

/// `compact` gives compact text.
pub proof fn lemma_compact_is_compact(s: Seq<char>)
    ensures
        is_compact(compact(s)),
{
    lemma_words_good(s, 0);
    lemma_join_compact(words_from(s, 0));
}

proof fn lemma_join_prepend(w: Seq<char>, ws: Seq<Seq<char>>)
    requires
        ws.len() >= 1,
    ensures
        join_words(seq![w] + ws) == w + seq![' '] + join_words(ws),
    decreases ws.len(),
{
    let u = seq![w] + ws;
    if ws.len() == 1 {
        assert(u.subrange(0, 1) =~= seq![w]);
        assert(join_words(seq![w]) == w);
        assert(u[1] == ws[0]);
        assert(join_words(ws) == ws[0]);
        assert(join_words(u) == join_words(u.subrange(0, 1)) + seq![' '] + u[1]);
    } else {
        let front = ws.subrange(0, ws.len() - 1);
        assert(u.subrange(0, u.len() - 1) =~= seq![w] + front);
        lemma_join_prepend(w, front);
        assert(u[u.len() - 1] == ws[ws.len() - 1]);
        assert(join_words(u) =~= w + seq![' '] + join_words(ws));
    }
}

proof fn lemma_words_of_compact(x: Seq<char>, i: int)
    requires
        is_compact(x),
        0 <= i < x.len(),
        !is_unicode_ws(x[i]),
    ensures
        words_from(x, i).len() >= 1,
        join_words(words_from(x, i)) == x.subrange(i, x.len() as int),
    decreases x.len() - i,
{
    lemma_run_bounds(x, i);
    assert(ws_run(x, i) == 0);
    let k = i + word_run(x, i);
    assert(word_run(x, i) >= 1);
    let w = x.subrange(i, k);
    assert(words_from(x, i) == seq![w] + words_from(x, k));
    if k == x.len() {
        assert(words_from(x, k) == Seq::<Seq<char>>::empty());
        assert(seq![w] + Seq::<Seq<char>>::empty() =~= seq![w]);
    } else {
        assert(is_unicode_ws(x[k]));
        assert(x[k] == ' ' && k < x.len() - 1 && !is_unicode_ws(x[k + 1]));
        lemma_run_bounds(x, k + 1);
        assert(ws_run(x, k + 1) == 0);
        assert(ws_run(x, k) == 1);
        assert(words_from(x, k) == words_from(x, k + 1));
        lemma_words_of_compact(x, k + 1);
        lemma_join_prepend(w, words_from(x, k + 1));
        assert(x.subrange(i, x.len() as int) =~= w + seq![' '] + x.subrange(k + 1, x.len() as int));
    }
}

/// Compact text stays as it is when compacted again.
pub proof fn lemma_compact_fixed(x: Seq<char>)
    requires
        is_compact(x),
    ensures
        compact(x) == x,
{
    if x.len() == 0 {
        assert(words_from(x, 0) == Seq::<Seq<char>>::empty());
    } else {
        if is_unicode_ws(x[0]) {
            assert(0 < 0);
        }
        lemma_words_of_compact(x, 0);
        assert(x.subrange(0, x.len() as int) =~= x);
    }
}

} // verus!

verus! {

/// Whether two character slices are equal.
pub fn slices_equal(a: &[char], b: &[char]) -> (r: bool)
    ensures
        r == (a@ == b@),
{
    if a.len() != b.len() {
        return false;
    }
    let mut i: usize = 0;
    while i < a.len()
        invariant
            a@.len() == b@.len(),
            0 <= i <= a@.len(),
            forall|j: int| 0 <= j < i ==> a@[j] == b@[j],
        decreases a@.len() - i,
    {
        if a[i] != b[i] {
            return false;
        }
        i = i + 1;
    }
    proof {
        assert(a@ =~= b@);
    }
    true
}

} // verus!
