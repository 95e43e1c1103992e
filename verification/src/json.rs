use vstd::prelude::*;

use crate::text::{chars_of, char_from_code, slice_to_vec};

verus! {

/// The mathematical value of a JSON document. Booleans carry no value: the
/// logic reads no boolean field. Numbers keep their literal text.
pub enum Json {
    Null,
    Bool,
    Number(Seq<char>),
    Str(Seq<char>),
    Array(Seq<Json>),
    Object(Seq<(Seq<char>, Json)>),
}

/// A parsed JSON value.
#[derive(Debug)]
pub enum JsonValue {
    Null,
    Bool,
    Number(Vec<char>),
    String(Vec<char>),
    Array(Vec<JsonValue>),
    Object(Vec<JsonMember>),
}

/// One member of a JSON object.
#[derive(Debug)]
pub struct JsonMember {
    pub key: Vec<char>,
    pub value: JsonValue,
}

impl JsonValue {
    pub open spec fn view(self) -> Json
        decreases self,
    {
        match self {
            JsonValue::Null => Json::Null,
            JsonValue::Bool => Json::Bool,
            JsonValue::Number(t) => Json::Number(t@),
            JsonValue::String(t) => Json::Str(t@),
            JsonValue::Array(items) => Json::Array(Self::view_items(items@)),
            JsonValue::Object(members) => Json::Object(Self::view_members(members@)),
        }
    }

    pub open spec fn view_items(items: Seq<JsonValue>) -> Seq<Json>
        decreases items,
    {
        if items.len() == 0 {
            Seq::empty()
        } else {
            Self::view_items(items.subrange(0, items.len() - 1)).push(items[items.len() - 1].view())
        }
    }

    pub open spec fn view_members(members: Seq<JsonMember>) -> Seq<(Seq<char>, Json)>
        decreases members,
    {
        if members.len() == 0 {
            Seq::empty()
        } else {
            Self::view_members(members.subrange(0, members.len() - 1)).push(
                (members[members.len() - 1].key@, members[members.len() - 1].value.view()),
            )
        }
    }
}

pub proof fn lemma_view_items_push(items: Seq<JsonValue>, x: JsonValue)
    ensures
        JsonValue::view_items(items.push(x)) == JsonValue::view_items(items).push(x.view()),
{
    assert(items.push(x).subrange(0, items.len() as int) == items);
}

pub proof fn lemma_view_members_push(members: Seq<JsonMember>, x: JsonMember)
    ensures
        JsonValue::view_members(members.push(x)) == JsonValue::view_members(members).push(
            (x.key@, x.value.view()),
        ),
{
    assert(members.push(x).subrange(0, members.len() as int) == members);
}

pub proof fn lemma_view_members_len(members: Seq<JsonMember>)
    ensures
        JsonValue::view_members(members).len() == members.len(),
        forall|i: int|
            0 <= i < members.len() ==> #[trigger] JsonValue::view_members(members)[i] == (
                members[i].key@,
                members[i].value.view(),
            ),
    decreases members.len(),
{
    if members.len() > 0 {
        lemma_view_members_len(members.subrange(0, members.len() - 1));
    }
}

pub proof fn lemma_view_items_len(items: Seq<JsonValue>)
    ensures
        JsonValue::view_items(items).len() == items.len(),
        forall|i: int| 0 <= i < items.len() ==> #[trigger] JsonValue::view_items(items)[i] == items[i].view(),
    decreases items.len(),
{
    if items.len() > 0 {
        lemma_view_items_len(items.subrange(0, items.len() - 1));
    }
}

// ---------------------------------------------------------------------------
// The grammar, as a recursive-descent specification over characters.
// Positions are indices into the input; a result holds the value and the
// position just after it.
// ---------------------------------------------------------------------------

pub open spec fn is_json_ws(c: char) -> bool {
    c == ' ' || c == '\n' || c == '\r' || c == '\t'
}

/// A control character, which a string literal may not hold unescaped.
pub open spec fn is_control(c: char) -> bool {
    c <= '\u{1F}'
}

pub open spec fn is_ascii_digit(c: char) -> bool {
    '0' <= c && c <= '9'
}

/// The number of whitespace characters starting at `p`.
pub open spec fn ws_count(s: Seq<char>, p: int) -> nat
    decreases s.len() - p,
{
    if 0 <= p < s.len() && is_json_ws(s[p]) {
        1 + ws_count(s, p + 1)
    } else {
        0
    }
}

pub open spec fn skip_ws(s: Seq<char>, p: int) -> int {
    p + ws_count(s, p)
}

/// The number of ASCII digits starting at `p`.
pub open spec fn digit_count(s: Seq<char>, p: int) -> nat
    decreases s.len() - p,
{
    if 0 <= p < s.len() && is_ascii_digit(s[p]) {
        1 + digit_count(s, p + 1)
    } else {
        0
    }
}

pub open spec fn at(s: Seq<char>, p: int, c: char) -> bool {
    0 <= p < s.len() && s[p] == c
}

/// A nonempty run of digits starting at `p`: its end.
pub open spec fn spec_digits(s: Seq<char>, p: int) -> Option<int> {
    if digit_count(s, p) > 0 {
        Some(p + digit_count(s, p))
    } else {
        None
    }
}

/// A JSON number starting at `p` (which holds `-` or a digit): its end.
pub open spec fn spec_number(s: Seq<char>, p: int) -> Option<int> {
    let p1 = if at(s, p, '-') { p + 1 } else { p };
    let int_end = if at(s, p1, '0') {
        if 0 <= p1 + 1 < s.len() && is_ascii_digit(s[p1 + 1]) { None } else { Some(p1 + 1) }
    } else {
        spec_digits(s, p1)
    };
    match int_end {
        None => None,
        Some(p2) => {
            let frac_end = if at(s, p2, '.') { spec_digits(s, p2 + 1) } else { Some(p2) };
            match frac_end {
                None => None,
                Some(p3) => if at(s, p3, 'e') || at(s, p3, 'E') {
                    let p4 = if at(s, p3 + 1, '+') || at(s, p3 + 1, '-') { p3 + 2 } else { p3 + 1 };
                    spec_digits(s, p4)
                } else {
                    Some(p3)
                },
            }
        },
    }
}

pub open spec fn hex_value(c: char) -> Option<int> {
    if '0' <= c && c <= '9' {
        Some(c as int - '0' as int)
    } else if 'a' <= c && c <= 'f' {
        Some(c as int - 'a' as int + 10)
    } else if 'A' <= c && c <= 'F' {
        Some(c as int - 'A' as int + 10)
    } else {
        None
    }
}

/// Four hexadecimal digits starting at `p`: the code they spell.
pub open spec fn spec_hex4(s: Seq<char>, p: int) -> Option<int> {
    if 0 <= p && p + 4 <= s.len() && hex_value(s[p]) is Some && hex_value(s[p + 1]) is Some
        && hex_value(s[p + 2]) is Some && hex_value(s[p + 3]) is Some {
        Some(
            ((hex_value(s[p])->0 * 16 + hex_value(s[p + 1])->0) * 16 + hex_value(s[p + 2])->0) * 16
                + hex_value(s[p + 3])->0,
        )
    } else {
        None
    }
}

/// A Unicode scalar value: not above U+10FFFF and not a surrogate.
pub open spec fn is_scalar_value(code: int) -> bool {
    (0 <= code < 0xD800) || (0xE000 <= code <= 0x10FFFF)
}

/// The character that a `\u` escape stands for; a surrogate becomes U+FFFD.
pub open spec fn escaped_code_char(code: int) -> char {
    if is_scalar_value(code) { code as char } else { '\u{FFFD}' }
}

/// The character that a one-letter escape stands for.
pub open spec fn simple_escape(e: char) -> Option<char> {
    if e == '"' {
        Some('"')
    } else if e == '\\' {
        Some('\\')
    } else if e == '/' {
        Some('/')
    } else if e == 'b' {
        Some('\u{0008}')
    } else if e == 'f' {
        Some('\u{000C}')
    } else if e == 'n' {
        Some('\n')
    } else if e == 'r' {
        Some('\r')
    } else if e == 't' {
        Some('\t')
    } else {
        None
    }
}

/// The rest of a string literal from `p` on, with `acc` decoded so far.
pub open spec fn spec_string_rest(s: Seq<char>, p: int, acc: Seq<char>) -> Option<(Seq<char>, int)>
    decreases s.len() - p,
{
    if !(0 <= p < s.len()) {
        None
    } else if s[p] == '"' {
        Some((acc, p + 1))
    } else if s[p] == '\\' {
        if p + 1 >= s.len() {
            None
        } else {
            match simple_escape(s[p + 1]) {
                Some(x) => spec_string_rest(s, p + 2, acc.push(x)),
                None => if s[p + 1] == 'u' {
                    match spec_hex4(s, p + 2) {
                        Some(code) => spec_string_rest(s, p + 6, acc.push(escaped_code_char(code))),
                        None => None,
                    }
                } else {
                    None
                },
            }
        }
    } else if is_control(s[p]) {
        None
    } else {
        spec_string_rest(s, p + 1, acc.push(s[p]))
    }
}

/// A string literal starting with its opening quote at `p`.
pub open spec fn spec_string(s: Seq<char>, p: int) -> Option<(Seq<char>, int)> {
    if at(s, p, '"') {
        spec_string_rest(s, p + 1, Seq::empty())
    } else {
        None
    }
}

pub open spec fn spec_literal(s: Seq<char>, p: int, lit: Seq<char>) -> Option<int> {
    if 0 <= p && p + lit.len() <= s.len() && s.subrange(p, p + lit.len()) == lit {
        Some(p + lit.len())
    } else {
        None
    }
}

pub open spec fn has_key(members: Seq<(Seq<char>, Json)>, key: Seq<char>) -> bool {
    exists|i: int| 0 <= i < members.len() && #[trigger] members[i].0 == key
}

/// A value starting at `p`, after optional whitespace.
pub open spec fn spec_value(s: Seq<char>, p: int) -> Option<(Json, int)>
    decreases s.len() - p, 0int,
{
    let q = skip_ws(s, p);
    if !(0 <= p && q < s.len()) {
        None
    } else {
        let c = s[q];
        if c == '{' {
            spec_object(s, q + 1)
        } else if c == '[' {
            spec_array(s, q + 1)
        } else if c == '"' {
            match spec_string(s, q) {
                Some((t, e)) => Some((Json::Str(t), e)),
                None => None,
            }
        } else if c == 't' {
            match spec_literal(s, q, seq!['t', 'r', 'u', 'e']) {
                Some(e) => Some((Json::Bool, e)),
                None => None,
            }
        } else if c == 'f' {
            match spec_literal(s, q, seq!['f', 'a', 'l', 's', 'e']) {
                Some(e) => Some((Json::Bool, e)),
                None => None,
            }
        } else if c == 'n' {
            match spec_literal(s, q, seq!['n', 'u', 'l', 'l']) {
                Some(e) => Some((Json::Null, e)),
                None => None,
            }
        } else if c == '-' || is_ascii_digit(c) {
            match spec_number(s, q) {
                Some(e) => Some((Json::Number(s.subrange(q, e)), e)),
                None => None,
            }
        } else {
            None
        }
    }
}

/// An object after its opening brace at `p - 1`.
pub open spec fn spec_object(s: Seq<char>, p: int) -> Option<(Json, int)>
    decreases s.len() - p, 1int,
{
    let q = skip_ws(s, p);
    if !(0 <= p <= s.len() && q <= s.len()) {
        None
    } else if at(s, q, '}') {
        Some((Json::Object(Seq::empty()), q + 1))
    } else {
        spec_members(s, q, Seq::empty())
    }
}

/// The members of an object from `p` on, with `acc` read so far.
pub open spec fn spec_members(s: Seq<char>, p: int, acc: Seq<(Seq<char>, Json)>) -> Option<(Json, int)>
    decreases s.len() - p, 0int,
{
    let q1 = skip_ws(s, p);
    if !(0 <= p <= s.len()) {
        None
    } else {
        match spec_string(s, q1) {
            None => None,
            Some((key, q2)) => if has_key(acc, key) || q2 <= p {
                None
            } else {
                let q3 = skip_ws(s, q2);
                if !at(s, q3, ':') {
                    None
                } else {
                    match spec_value(s, q3 + 1) {
                        None => None,
                        Some((v, q4)) => {
                            let acc2 = acc.push((key, v));
                            let q5 = skip_ws(s, q4);
                            if q4 <= p {
                                None
                            } else if at(s, q5, '}') {
                                Some((Json::Object(acc2), q5 + 1))
                            } else if at(s, q5, ',') {
                                spec_members(s, q5 + 1, acc2)
                            } else {
                                None
                            }
                        },
                    }
                }
            },
        }
    }
}

/// An array after its opening bracket at `p - 1`.
pub open spec fn spec_array(s: Seq<char>, p: int) -> Option<(Json, int)>
    decreases s.len() - p, 2int,
{
    let q = skip_ws(s, p);
    if !(0 <= p <= s.len() && q <= s.len()) {
        None
    } else if at(s, q, ']') {
        Some((Json::Array(Seq::empty()), q + 1))
    } else {
        spec_elements(s, q, Seq::empty())
    }
}

/// The elements of an array from `p` on, with `acc` read so far.
pub open spec fn spec_elements(s: Seq<char>, p: int, acc: Seq<Json>) -> Option<(Json, int)>
    decreases s.len() - p, 1int,
{
    if !(0 <= p <= s.len()) {
        None
    } else {
        match spec_value(s, p) {
            None => None,
            Some((v, q1)) => {
                let acc2 = acc.push(v);
                let q2 = skip_ws(s, q1);
                if q1 <= p {
                    None
                } else if at(s, q2, ']') {
                    Some((Json::Array(acc2), q2 + 1))
                } else if at(s, q2, ',') {
                    spec_elements(s, q2 + 1, acc2)
                } else {
                    None
                }
            },
        }
    }
}

/// A whole document: one value, optionally surrounded by whitespace, and
/// nothing else.
pub open spec fn spec_parse(s: Seq<char>) -> Option<Json> {
    match spec_value(s, 0) {
        Some((v, e)) => if skip_ws(s, e) == s.len() { Some(v) } else { None },
        None => None,
    }
}

// ---------------------------------------------------------------------------
// Reading objects and arrays with a stack.
// ---------------------------------------------------------------------------

/// An object or array whose reading is under way: what it holds so far, the
/// key of the member whose value comes next, and where the current element
/// or member began.
enum Frame {
    Items { items: Vec<JsonValue>, start: usize },
    Members { members: Vec<JsonMember>, key: Vec<char>, start: usize },
}

/// The mathematical value of a frame.
enum FrameModel {
    Items(Seq<Json>, int),
    Members(Seq<(Seq<char>, Json)>, Seq<char>, int),
}

impl Frame {
    spec fn view(&self) -> FrameModel {
        match self {
            Frame::Items { items, start } => FrameModel::Items(JsonValue::view_items(items@), *start as int),
            Frame::Members { members, key, start } => FrameModel::Members(
                JsonValue::view_members(members@),
                key@,
                *start as int,
            ),
        }
    }
}

spec fn frames_view(v: Seq<Frame>) -> Seq<FrameModel> {
    v.map_values(|f: Frame| f.view())
}

/// What follows the value that ends at `q`, an element of an array begun at
/// `start` that holds `acc` with it.
spec fn elements_after(s: Seq<char>, q: int, acc: Seq<Json>, start: int) -> Option<(Json, int)> {
    let q2 = skip_ws(s, q);
    if q <= start {
        None
    } else if at(s, q2, ']') {
        Some((Json::Array(acc), q2 + 1))
    } else if at(s, q2, ',') {
        spec_elements(s, q2 + 1, acc)
    } else {
        None
    }
}

/// What follows the value that ends at `q`, of a member of an object begun
/// at `start` that holds `acc` with it.
spec fn members_after(s: Seq<char>, q: int, acc: Seq<(Seq<char>, Json)>, start: int) -> Option<(Json, int)> {
    let q5 = skip_ws(s, q);
    if q <= start {
        None
    } else if at(s, q5, '}') {
        Some((Json::Object(acc), q5 + 1))
    } else if at(s, q5, ',') {
        spec_members(s, q5 + 1, acc)
    } else {
        None
    }
}

/// The members of an object from the member begun at `start` with key
/// `key`, whose value starts at `pv`.
spec fn members_then(s: Seq<char>, pv: int, acc: Seq<(Seq<char>, Json)>, key: Seq<char>, start: int) -> Option<(Json, int)> {
    match spec_value(s, pv) {
        None => None,
        Some((v, q4)) => members_after(s, q4, acc.push((key, v)), start),
    }
}

spec fn frame_after(s: Seq<char>, q: int, v: Json, f: FrameModel) -> Option<(Json, int)> {
    match f {
        FrameModel::Items(acc, start) => elements_after(s, q, acc.push(v), start),
        FrameModel::Members(acc, key, start) => members_after(s, q, acc.push((key, v)), start),
    }
}

/// The value read when `v` ends at `q` inside the containers `k`, the
/// innermost last: each container takes the value and is read to its end.
spec fn finish(s: Seq<char>, q: int, v: Json, k: Seq<FrameModel>) -> Option<(Json, int)>
    decreases k.len(),
{
    if k.len() == 0 {
        Some((v, q))
    } else {
        match frame_after(s, q, v, k[k.len() - 1]) {
            None => None,
            Some((v2, q2)) => finish(s, q2, v2, k.subrange(0, k.len() - 1)),
        }
    }
}

spec fn then_finish(s: Seq<char>, r: Option<(Json, int)>, k: Seq<FrameModel>) -> Option<(Json, int)> {
    match r {
        None => None,
        Some((v, q)) => finish(s, q, v, k),
    }
}

/// The value read when a value starts at `p` inside the containers `k`.
spec fn chain(s: Seq<char>, p: int, k: Seq<FrameModel>) -> Option<(Json, int)> {
    then_finish(s, spec_value(s, p), k)
}

proof fn lemma_value_start(s: Seq<char>, p: int)
    requires
        0 <= p,
    ensures
        skip_ws(s, p) >= s.len() ==> spec_value(s, p) is None,
        at(s, skip_ws(s, p), '{') ==> spec_value(s, p) == spec_object(s, skip_ws(s, p) + 1),
        at(s, skip_ws(s, p), '[') ==> spec_value(s, p) == spec_array(s, skip_ws(s, p) + 1),
        skip_ws(s, p) < s.len() ==> skip_ws(s, skip_ws(s, p)) == skip_ws(s, p),
        skip_ws(s, p) < s.len() ==> spec_value(s, p) == spec_value(s, skip_ws(s, p)),
{
    let q = skip_ws(s, p);
    if q < s.len() {
        assert(!is_json_ws(s[q])) by {
            lemma_ws_count_stops(s, p);
        }
        assert(ws_count(s, q) == 0);
    }
}

proof fn lemma_ws_count_stops(s: Seq<char>, p: int)
    requires
        0 <= p,
    ensures
        skip_ws(s, p) < s.len() ==> !is_json_ws(s[skip_ws(s, p)]),
        skip_ws(s, p) >= p,
    decreases s.len() - p,
{
    if 0 <= p < s.len() && is_json_ws(s[p]) {
        lemma_ws_count_stops(s, p + 1);
    }
}

proof fn lemma_finish_step(s: Seq<char>, q: int, v: Json, k: Seq<FrameModel>, f: FrameModel)
    ensures
        finish(s, q, v, k.push(f)) == then_finish(s, frame_after(s, q, v, f), k),
{
    assert(k.push(f).subrange(0, k.len() as int) =~= k);
    assert(k.push(f)[k.len() as int] == f);
}

proof fn lemma_chain_members(
    s: Seq<char>,
    start: int,
    acc: Seq<(Seq<char>, Json)>,
    key: Seq<char>,
    pv: int,
    k: Seq<FrameModel>,
)
    ensures
        then_finish(s, members_then(s, pv, acc, key, start), k)
            == chain(s, pv, k.push(FrameModel::Members(acc, key, start))),
{
    let f = FrameModel::Members(acc, key, start);
    match spec_value(s, pv) {
        Some((v, q4)) => {
            lemma_finish_step(s, q4, v, k, f);
        },
        None => {},
    }
}

proof fn lemma_chain_elements(s: Seq<char>, start: int, acc: Seq<Json>, k: Seq<FrameModel>)
    requires
        0 <= start <= s.len(),
    ensures
        then_finish(s, spec_elements(s, start, acc), k) == chain(s, start, k.push(FrameModel::Items(acc, start))),
{
    let f = FrameModel::Items(acc, start);
    match spec_value(s, start) {
        Some((v, q1)) => {
            lemma_finish_step(s, q1, v, k, f);
        },
        None => {},
    }
}

// ---------------------------------------------------------------------------
// The parser.
// ---------------------------------------------------------------------------

/// A recursive-descent JSON parser over the characters of its input.
pub struct JsonParser<'a> {
    input: &'a [char],
    offset: usize,
}

impl<'a> JsonParser<'a> {
    pub closed spec fn text(&self) -> Seq<char> {
        self.input@
    }

    pub closed spec fn pos(&self) -> int {
        self.offset as int
    }

    pub closed spec fn wf(&self) -> bool {
        &&& self.offset <= self.input@.len()
        &&& self.input@.len() <= usize::MAX
    }

    /// Parses one JSON document; duplicate keys in an object, control
    /// characters in a string and anything after the value are refused.
    pub fn parse(input: &str) -> (res: Result<JsonValue, ()>)
        ensures
            match res {
                Ok(v) => spec_parse(input@) == Some(v.view()),
                Err(_) => spec_parse(input@) is None,
            },
    {
        let chars = chars_of(input);
        Self::parse_chars(chars.as_slice())
    }

    /// Parses one JSON document given as characters.
    pub fn parse_chars(input: &[char]) -> (res: Result<JsonValue, ()>)
        ensures
            match res {
                Ok(v) => spec_parse(input@) == Some(v.view()),
                Err(_) => spec_parse(input@) is None,
            },
    {
        let mut parser = JsonParser { input, offset: 0 };
        assert(input@.len() == input.len());
        let value = match parser.value() {
            Ok(v) => v,
            Err(()) => return Err(()),
        };
        parser.whitespace();
        if parser.offset == parser.input.len() {
            Ok(value)
        } else {
            Err(())
        }
    }

    /// Reads one value. Objects and arrays are read with an explicit stack of
    /// the containers under way, so any depth of nesting is read without
    /// recursion.
    #[verifier::loop_isolation(false)]
    fn value(&mut self) -> (res: Result<JsonValue, ()>)
        requires
            old(self).wf(),
        ensures
            final(self).wf(),
            final(self).text() == old(self).text(),
            match res {
                Ok(v) => spec_value(old(self).text(), old(self).pos()) == Some((v.view(), final(self).pos())),
                Err(_) => spec_value(old(self).text(), old(self).pos()) is None,
            },
    {
        let ghost s = self.input@;
        let ghost target = spec_value(s, self.offset as int);
        let mut stack: Vec<Frame> = Vec::new();
        let mut pending: Option<JsonValue> = None;
        proof {
            assert(frames_view(stack@) =~= Seq::<FrameModel>::empty());
            match spec_value(s, self.offset as int) {
                Some((v, q)) => {
                    assert(finish(s, q, v, Seq::<FrameModel>::empty()) == Some((v, q)));
                },
                None => {},
            }
        }
        loop
            invariant
                self.wf(),
                self.input@ == s,
                pending matches Some(v) ==> target == finish(s, self.offset as int, v.view(), frames_view(stack@)),
                pending is None ==> target == chain(s, self.offset as int, frames_view(stack@)),
            decreases s.len() - self.offset,
        {
            match pending {
                None => {
                    match self.begin_value(&mut stack) {
                        Err(()) => return Err(()),
                        Ok(next) => {
                            pending = next;
                        },
                    }
                },
                Some(v) => {
                    let ghost k = frames_view(stack@);
                    match stack.pop() {
                        None => {
                            proof {
                                assert(k.len() == 0);
                            }
                            return Ok(v);
                        },
                        Some(frame) => {
                            proof {
                                assert(k =~= frames_view(stack@).push(frame.view()));
                            }
                            match self.after_value(frame, v, &mut stack) {
                                Err(()) => return Err(()),
                                Ok(next) => {
                                    pending = next;
                                },
                            }
                        },
                    }
                },
            }
        }
    }

    /// Reads the start of a value. A scalar, an empty object or an empty
    /// array is read whole; the start of a nonempty object or array is read
    /// up to its first value, and its frame is pushed.
    fn begin_value(&mut self, stack: &mut Vec<Frame>) -> (res: Result<Option<JsonValue>, ()>)
        requires
            old(self).wf(),
        ensures
            final(self).wf(),
            final(self).text() == old(self).text(),
            match res {
                Err(_) => chain(old(self).text(), old(self).pos(), frames_view(old(stack)@)) is None,
                Ok(Some(v)) => chain(old(self).text(), old(self).pos(), frames_view(old(stack)@))
                    == finish(old(self).text(), final(self).pos(), v.view(), frames_view(final(stack)@))
                    && old(self).pos() < final(self).pos(),
                Ok(None) => chain(old(self).text(), old(self).pos(), frames_view(old(stack)@))
                    == chain(old(self).text(), final(self).pos(), frames_view(final(stack)@))
                    && old(self).pos() < final(self).pos(),
            },
    {
        let ghost s = self.input@;
        let ghost p = self.offset as int;
        self.whitespace();
        let c = match self.byte() {
            Ok(c) => c,
            Err(()) => return Err(()),
        };
        proof {
            lemma_value_start(s, p);
        }
        if c == '{' {
            self.offset = self.offset + 1;
            return self.object(stack);
        }
        if c == '[' {
            self.offset = self.offset + 1;
            return self.array(stack);
        }
        match self.scalar() {
            Ok(v) => Ok(Some(v)),
            Err(()) => Err(()),
        }
    }

    /// Reads a value that is neither an object nor an array.
    fn scalar(&mut self) -> (res: Result<JsonValue, ()>)
        requires
            old(self).wf(),
            !at(old(self).text(), skip_ws(old(self).text(), old(self).pos()), '{'),
            !at(old(self).text(), skip_ws(old(self).text(), old(self).pos()), '['),
        ensures
            final(self).wf(),
            final(self).text() == old(self).text(),
            match res {
                Ok(v) => spec_value(old(self).text(), old(self).pos()) == Some((v.view(), final(self).pos()))
                    && old(self).pos() < final(self).pos(),
                Err(_) => spec_value(old(self).text(), old(self).pos()) is None,
            },
    {
        self.whitespace();
        let c = match self.byte() {
            Ok(c) => c,
            Err(()) => return Err(()),
        };
        if c == '"' {
            match self.string() {
                Ok(t) => Ok(JsonValue::String(t)),
                Err(()) => Err(()),
            }
        } else if c == 't' {
            self.literal(&['t', 'r', 'u', 'e'], JsonValue::Bool)
        } else if c == 'f' {
            self.literal(&['f', 'a', 'l', 's', 'e'], JsonValue::Bool)
        } else if c == 'n' {
            self.literal(&['n', 'u', 'l', 'l'], JsonValue::Null)
        } else if c == '-' || ('0' <= c && c <= '9') {
            match self.number() {
                Ok(t) => Ok(JsonValue::Number(t)),
                Err(()) => Err(()),
            }
        } else {
            Err(())
        }
    }

    /// Reads an object after its opening brace: whole where it is empty,
    /// else up to the value of its first member, whose frame is pushed.
    fn object(&mut self, stack: &mut Vec<Frame>) -> (res: Result<Option<JsonValue>, ()>)
        requires
            old(self).wf(),
        ensures
            final(self).wf(),
            final(self).text() == old(self).text(),
            match res {
                Err(_) => spec_object(old(self).text(), old(self).pos()) is None,
                Ok(Some(v)) => spec_object(old(self).text(), old(self).pos()) == Some((v.view(), final(self).pos()))
                    && final(stack)@ == old(stack)@ && old(self).pos() < final(self).pos(),
                Ok(None) => then_finish(old(self).text(), spec_object(old(self).text(), old(self).pos()), frames_view(old(stack)@))
                    == chain(old(self).text(), final(self).pos(), frames_view(final(stack)@))
                    && old(self).pos() < final(self).pos(),
            },
    {
        let ghost s = self.input@;
        self.whitespace();
        let members: Vec<JsonMember> = Vec::new();
        proof {
            assert(JsonValue::view_members(members@) =~= Seq::<(Seq<char>, Json)>::empty());
        }
        if self.try_consume('}') {
            return Ok(Some(JsonValue::Object(members)));
        }
        let start = self.offset;
        let key = match self.member_key(&members) {
            Ok(key) => key,
            Err(()) => return Err(()),
        };
        let ghost k = frames_view(stack@);
        let ghost f = FrameModel::Members(Seq::empty(), key@, start as int);
        stack.push(Frame::Members { members, key, start });
        proof {
            assert(frames_view(stack@) =~= k.push(f));
            lemma_chain_members(s, start as int, Seq::empty(), key@, self.offset as int, k);
        }
        Ok(None)
    }

    /// Reads an array after its opening bracket: whole where it is empty,
    /// else up to its first element, whose frame is pushed.
    fn array(&mut self, stack: &mut Vec<Frame>) -> (res: Result<Option<JsonValue>, ()>)
        requires
            old(self).wf(),
        ensures
            final(self).wf(),
            final(self).text() == old(self).text(),
            match res {
                Err(_) => spec_array(old(self).text(), old(self).pos()) is None,
                Ok(Some(v)) => spec_array(old(self).text(), old(self).pos()) == Some((v.view(), final(self).pos()))
                    && final(stack)@ == old(stack)@ && old(self).pos() < final(self).pos(),
                Ok(None) => then_finish(old(self).text(), spec_array(old(self).text(), old(self).pos()), frames_view(old(stack)@))
                    == chain(old(self).text(), final(self).pos(), frames_view(final(stack)@))
                    && old(self).pos() <= final(self).pos(),
            },
    {
        let ghost s = self.input@;
        self.whitespace();
        let items: Vec<JsonValue> = Vec::new();
        proof {
            assert(JsonValue::view_items(items@) =~= Seq::<Json>::empty());
        }
        if self.try_consume(']') {
            return Ok(Some(JsonValue::Array(items)));
        }
        let start = self.offset;
        let ghost k = frames_view(stack@);
        stack.push(Frame::Items { items, start });
        proof {
            assert(frames_view(stack@) =~= k.push(FrameModel::Items(Seq::empty(), start as int)));
            lemma_chain_elements(s, start as int, Seq::empty(), k);
        }
        Ok(None)
    }

    /// Reads the key of an object member and its colon; the member's value
    /// comes next. `members` are the members read before it.
    fn member_key(&mut self, members: &Vec<JsonMember>) -> (res: Result<Vec<char>, ()>)
        requires
            old(self).wf(),
        ensures
            final(self).wf(),
            final(self).text() == old(self).text(),
            match res {
                Err(_) => spec_members(old(self).text(), old(self).pos(), JsonValue::view_members(members@)) is None,
                Ok(key) => spec_members(old(self).text(), old(self).pos(), JsonValue::view_members(members@))
                    == members_then(old(self).text(), final(self).pos(), JsonValue::view_members(members@), key@, old(self).pos())
                    && old(self).pos() < final(self).pos(),
            },
    {
        let ghost s = self.input@;
        let ghost p = self.offset as int;
        let ghost acc = JsonValue::view_members(members@);
        self.whitespace();
        let key = match self.string() {
            Ok(k) => k,
            Err(()) => return Err(()),
        };
        let mut duplicate = false;
        let mut i: usize = 0;
        proof {
            lemma_view_members_len(members@);
        }
        while i < members.len()
            invariant
                0 <= i <= members.len(),
                acc == JsonValue::view_members(members@),
                acc.len() == members.len(),
                duplicate <==> exists|j: int| 0 <= j < i && #[trigger] acc[j].0 == key@,
                forall|j: int| 0 <= j < members.len() ==> #[trigger] acc[j] == (members@[j].key@, members@[j].value.view()),
            decreases members.len() - i,
        {
            let same = vec_eq(&members[i].key, &key);
            assert(acc[i as int].0 == members@[i as int].key@);
            if same {
                duplicate = true;
            }
            i = i + 1;
        }
        if duplicate {
            return Err(());
        }
        self.whitespace();
        if self.consume(':').is_err() {
            return Err(());
        }
        Ok(key)
    }

    /// Reads what follows a value inside the container of `frame`: the
    /// container's end, which completes it, or a comma and the start of the
    /// next element or member, whose frame is pushed.
    fn after_value(&mut self, frame: Frame, v: JsonValue, stack: &mut Vec<Frame>) -> (res: Result<Option<JsonValue>, ()>)
        requires
            old(self).wf(),
        ensures
            final(self).wf(),
            final(self).text() == old(self).text(),
            match res {
                Err(_) => finish(old(self).text(), old(self).pos(), v.view(), frames_view(old(stack)@).push(frame.view())) is None,
                Ok(Some(w)) => finish(old(self).text(), old(self).pos(), v.view(), frames_view(old(stack)@).push(frame.view()))
                    == finish(old(self).text(), final(self).pos(), w.view(), frames_view(final(stack)@))
                    && old(self).pos() < final(self).pos(),
                Ok(None) => finish(old(self).text(), old(self).pos(), v.view(), frames_view(old(stack)@).push(frame.view()))
                    == chain(old(self).text(), final(self).pos(), frames_view(final(stack)@))
                    && old(self).pos() < final(self).pos(),
            },
    {
        let ghost s = self.input@;
        let ghost q = self.offset as int;
        let ghost k = frames_view(stack@);
        let ghost fv = frame.view();
        let ghost vv = v.view();
        proof {
            lemma_finish_step(s, q, vv, k, fv);
        }
        match frame {
            Frame::Items { mut items, start } => {
                if self.offset <= start {
                    return Err(());
                }
                proof {
                    lemma_view_items_push(items@, v);
                }
                items.push(v);
                self.whitespace();
                if self.try_consume(']') {
                    return Ok(Some(JsonValue::Array(items)));
                }
                if !self.try_consume(',') {
                    return Err(());
                }
                let next = self.offset;
                let ghost acc = JsonValue::view_items(items@);
                stack.push(Frame::Items { items, start: next });
                proof {
                    assert(frames_view(stack@) =~= k.push(FrameModel::Items(acc, next as int)));
                    lemma_chain_elements(s, next as int, acc, k);
                }
                Ok(None)
            },
            Frame::Members { mut members, key, start } => {
                if self.offset <= start {
                    return Err(());
                }
                let member = JsonMember { key, value: v };
                proof {
                    lemma_view_members_push(members@, member);
                }
                members.push(member);
                self.whitespace();
                if self.try_consume('}') {
                    return Ok(Some(JsonValue::Object(members)));
                }
                if !self.try_consume(',') {
                    return Err(());
                }
                let next = self.offset;
                let ghost acc = JsonValue::view_members(members@);
                let key = match self.member_key(&members) {
                    Ok(key) => key,
                    Err(()) => return Err(()),
                };
                stack.push(Frame::Members { members, key, start: next });
                proof {
                    assert(frames_view(stack@) =~= k.push(FrameModel::Members(acc, key@, next as int)));
                    lemma_chain_members(s, next as int, acc, key@, self.offset as int, k);
                }
                Ok(None)
            },
        }
    }

    #[verifier::loop_isolation(false)]
    fn string(&mut self) -> (res: Result<Vec<char>, ()>)
        requires
            old(self).wf(),
        ensures
            final(self).wf(),
            final(self).text() == old(self).text(),
            match res {
                Ok(t) => spec_string(old(self).text(), old(self).pos()) == Some((t@, final(self).pos()))
                    && old(self).pos() < final(self).pos(),
                Err(_) => spec_string(old(self).text(), old(self).pos()) is None,
            },
    {
        let ghost s = self.input@;
        let ghost p0 = self.offset as int;
        if self.consume('"').is_err() {
            return Err(());
        }
        let mut value: Vec<char> = Vec::new();
        loop
            invariant
                self.wf(),
                self.input@ == s,
                p0 < self.offset,
                spec_string(s, p0) == spec_string_rest(s, self.offset as int, value@),
            decreases s.len() - self.offset,
        {
            let byte = match self.next() {
                Ok(b) => b,
                Err(()) => return Err(()),
            };
            if byte == '"' {
                return Ok(value);
            } else if byte == '\\' {
                let e = match self.next() {
                    Ok(e) => e,
                    Err(()) => return Err(()),
                };
                if e == '"' {
                    value.push('"');
                } else if e == '\\' {
                    value.push('\\');
                } else if e == '/' {
                    value.push('/');
                } else if e == 'b' {
                    value.push('\u{0008}');
                } else if e == 'f' {
                    value.push('\u{000C}');
                } else if e == 'n' {
                    value.push('\n');
                } else if e == 'r' {
                    value.push('\r');
                } else if e == 't' {
                    value.push('\t');
                } else if e == 'u' {
                    let ch = match self.unicode_escape() {
                        Ok(ch) => ch,
                        Err(()) => return Err(()),
                    };
                    value.push(ch);
                } else {
                    return Err(());
                }
            } else if byte <= '\u{1F}' {
                return Err(());
            } else {
                value.push(byte);
            }
        }
    }

    /// The four hexadecimal digits of a `\\u` escape, as a character.
    #[verifier::loop_isolation(false)]
    fn unicode_escape(&mut self) -> (res: Result<char, ()>)
        requires
            old(self).wf(),
        ensures
            final(self).wf(),
            final(self).text() == old(self).text(),
            match res {
                Ok(ch) => spec_hex4(old(self).text(), old(self).pos()) matches Some(code)
                    && ch == escaped_code_char(code) && final(self).pos() == old(self).pos() + 4,
                Err(_) => spec_hex4(old(self).text(), old(self).pos()) is None,
            },
    {
        let ghost s = self.input@;
        let ghost start = self.offset as int;
        let mut codepoint: u32 = 0;
        let mut k: usize = 0;
        while k < 4
            invariant
                self.wf(),
                self.input@ == s,
                0 <= k <= 4,
                self.offset as int == start + k,
                start + k <= s.len(),
                codepoint < pow16(k as nat),
                forall|j: int| 0 <= j < k ==> #[trigger] hex_value(s[start + j]) is Some,
                codepoint as int == hex_prefix(s, start, k as int),
            decreases 4 - k,
        {
            let h = match self.next() {
                Ok(h) => h,
                Err(()) => return Err(()),
            };
            let digit = match hex_digit(h) {
                Some(d) => d,
                None => return Err(()),
            };
            proof {
                lemma_pow16_step(k as nat);
            }
            codepoint = codepoint * 16 + digit;
            k = k + 1;
        }
        proof {
            reveal_with_fuel(hex_prefix, 5);
            assert(spec_hex4(s, start) == Some(codepoint as int));
        }
        let ch = match char_from_code(codepoint) {
            Some(ch) => ch,
            None => '\u{FFFD}',
        };
        proof {
            lemma_char_of_code(codepoint, ch);
        }
        Ok(ch)
    }

    fn number(&mut self) -> (res: Result<Vec<char>, ()>)
        requires
            old(self).wf(),
        ensures
            final(self).wf(),
            final(self).text() == old(self).text(),
            match res {
                Ok(t) => spec_number(old(self).text(), old(self).pos()) == Some(final(self).pos())
                    && t@ == old(self).text().subrange(old(self).pos(), final(self).pos())
                    && old(self).pos() < final(self).pos(),
                Err(_) => spec_number(old(self).text(), old(self).pos()) is None,
            },
    {
        let start = self.offset;
        self.try_consume('-');
        if self.try_consume('0') {
            match self.byte() {
                Ok(b) => if '0' <= b && b <= '9' {
                    return Err(());
                },
                Err(()) => {},
            }
        } else {
            if self.digits().is_err() {
                return Err(());
            }
        }
        if self.try_consume('.') {
            if self.digits().is_err() {
                return Err(());
            }
        }
        if self.try_consume('e') || self.try_consume('E') {
            let _ = self.try_consume('+') || self.try_consume('-');
            if self.digits().is_err() {
                return Err(());
            }
        }
        Ok(slice_to_vec(self.input, start, self.offset))
    }

    #[verifier::loop_isolation(false)]
    fn digits(&mut self) -> (res: Result<(), ()>)
        requires
            old(self).wf(),
        ensures
            final(self).wf(),
            final(self).text() == old(self).text(),
            final(self).pos() == old(self).pos() + digit_count(old(self).text(), old(self).pos()),
            res is Ok <==> digit_count(old(self).text(), old(self).pos()) > 0,
    {
        let ghost s = self.input@;
        let start = self.offset;
        loop
            invariant
                self.wf(),
                self.input@ == s,
                start <= self.offset,
                start + digit_count(s, start as int) == self.offset + digit_count(s, self.offset as int),
            decreases s.len() - self.offset,
        {
            match self.byte() {
                Ok(b) => if '0' <= b && b <= '9' {
                    self.offset = self.offset + 1;
                } else {
                    break;
                },
                Err(()) => break,
            }
        }
        if self.offset > start {
            Ok(())
        } else {
            Err(())
        }
    }

    #[verifier::loop_isolation(false)]
    fn literal(&mut self, literal: &[char], value: JsonValue) -> (res: Result<JsonValue, ()>)
        requires
            old(self).wf(),
            literal@.len() > 0,
        ensures
            final(self).wf(),
            final(self).text() == old(self).text(),
            match res {
                Ok(v) => spec_literal(old(self).text(), old(self).pos(), literal@) == Some(final(self).pos())
                    && v == value,
                Err(_) => spec_literal(old(self).text(), old(self).pos(), literal@) is None,
            },
    {
        let end = match self.offset.checked_add(literal.len()) {
            Some(e) => e,
            None => return Err(()),
        };
        if end > self.input.len() {
            return Err(());
        }
        let mut i: usize = 0;
        while i < literal.len()
            invariant
                self.wf(),
                end == self.offset + literal@.len(),
                end <= self.input@.len(),
                0 <= i <= literal@.len(),
                forall|j: int| 0 <= j < i ==> #[trigger] self.input@[self.offset + j] == literal@[j],
            decreases literal@.len() - i,
        {
            if self.input[self.offset + i] != literal[i] {
                proof {
                    assert(self.input@.subrange(self.offset as int, end as int)[i as int] != literal@[i as int]);
                }
                return Err(());
            }
            i = i + 1;
        }
        proof {
            assert forall|j: int| 0 <= j < literal@.len() implies
                #[trigger] self.input@.subrange(self.offset as int, end as int)[j] == literal@[j] by {
                assert(self.input@[self.offset + j] == literal@[j]);
            }
            assert(self.input@.subrange(self.offset as int, end as int) =~= literal@);
        }
        self.offset = end;
        Ok(value)
    }

    #[verifier::loop_isolation(false)]
    fn whitespace(&mut self)
        requires
            old(self).wf(),
        ensures
            final(self).wf(),
            final(self).text() == old(self).text(),
            final(self).pos() == skip_ws(old(self).text(), old(self).pos()),
    {
        let ghost s = self.input@;
        let ghost start = self.offset as int;
        loop
            invariant
                self.wf(),
                self.input@ == s,
                start <= self.offset,
                skip_ws(s, start) == skip_ws(s, self.offset as int),
            decreases s.len() - self.offset,
        {
            match self.byte() {
                Ok(b) => if b == ' ' || b == '\n' || b == '\r' || b == '\t' {
                    self.offset = self.offset + 1;
                } else {
                    break;
                },
                Err(()) => break,
            }
        }
    }

    fn consume(&mut self, expected: char) -> (res: Result<(), ()>)
        requires
            old(self).wf(),
        ensures
            final(self).wf(),
            final(self).text() == old(self).text(),
            res is Ok <==> at(old(self).text(), old(self).pos(), expected),
            res is Ok ==> final(self).pos() == old(self).pos() + 1,
    {
        let c = self.next()?;
        if c == expected {
            Ok(())
        } else {
            Err(())
        }
    }

    fn try_consume(&mut self, expected: char) -> (b: bool)
        requires
            old(self).wf(),
        ensures
            final(self).wf(),
            final(self).text() == old(self).text(),
            b <==> at(old(self).text(), old(self).pos(), expected),
            final(self).pos() == if b { old(self).pos() + 1 } else { old(self).pos() },
    {
        match self.byte() {
            Ok(c) => if c == expected {
                self.offset = self.offset + 1;
                true
            } else {
                false
            },
            Err(()) => false,
        }
    }

    fn byte(&self) -> (res: Result<char, ()>)
        ensures
            match res {
                Ok(c) => self.offset < self.input@.len() && c == self.input@[self.offset as int],
                Err(_) => self.offset >= self.input@.len(),
            },
    {
        if self.offset < self.input.len() {
            Ok(self.input[self.offset])
        } else {
            Err(())
        }
    }

    fn next(&mut self) -> (res: Result<char, ()>)
        requires
            old(self).wf(),
        ensures
            final(self).wf(),
            final(self).text() == old(self).text(),
            match res {
                Ok(c) => old(self).pos() < old(self).text().len() && c == old(self).text()[old(self).pos()]
                    && final(self).pos() == old(self).pos() + 1,
                Err(_) => old(self).pos() >= old(self).text().len(),
            },
    {
        let c = self.byte()?;
        self.offset = self.offset + 1;
        Ok(c)
    }
}

pub open spec fn pow16(k: nat) -> int
    decreases k,
{
    if k == 0 { 1 } else { 16 * pow16((k - 1) as nat) }
}

proof fn lemma_pow16_step(k: nat)
    requires
        k < 4,
    ensures
        pow16(k + 1) == 16 * pow16(k),
        pow16(k + 1) <= 65536,
{
    reveal_with_fuel(pow16, 5);
}

/// The code spelled by the first `k` hexadecimal digits from `start`.
pub open spec fn hex_prefix(s: Seq<char>, start: int, k: int) -> int
    decreases k,
{
    if k <= 0 {
        0
    } else {
        hex_prefix(s, start, k - 1) * 16 + hex_value(s[start + k - 1])->0
    }
}

/// The value of a hexadecimal digit.
fn hex_digit(c: char) -> (d: Option<u32>)
    ensures
        match d {
            Some(v) => hex_value(c) == Some(v as int) && v < 16,
            None => hex_value(c) is None,
        },
{
    if '0' <= c && c <= '9' {
        Some((c as u32) - ('0' as u32))
    } else if 'a' <= c && c <= 'f' {
        Some((c as u32) - ('a' as u32) + 10)
    } else if 'A' <= c && c <= 'F' {
        Some((c as u32) - ('A' as u32) + 10)
    } else {
        None
    }
}

proof fn lemma_char_of_code(code: u32, ch: char)
    requires
        is_scalar_value(code as int) ==> ch as int == code as int,
        !is_scalar_value(code as int) ==> ch == '\u{FFFD}',
    ensures
        ch == escaped_code_char(code as int),
{
}

/// Equality of two character vectors.
pub fn vec_eq(a: &Vec<char>, b: &Vec<char>) -> (r: bool)
    ensures
        r == (a@ == b@),
{
    if a.len() != b.len() {
        return false;
    }
    let mut i: usize = 0;
    while i < a.len()
        invariant
            a@.len() == b@.len(),
            0 <= i <= a@.len(),
            forall|j: int| 0 <= j < i ==> a@[j] == b@[j],
        decreases a@.len() - i,
    {
        if a[i] != b[i] {
            return false;
        }
        i = i + 1;
    }
    proof {
        assert(a@ =~= b@);
    }
    true
}

} // verus!

verus! {

// ---------------------------------------------------------------------------
// Reading parsed values.
// ---------------------------------------------------------------------------

/// The value of the first member named `name`.
pub open spec fn member_value(ms: Seq<(Seq<char>, Json)>, name: Seq<char>) -> Option<Json>
    decreases ms.len(),
{
    if ms.len() == 0 {
        None
    } else if ms[0].0 == name {
        Some(ms[0].1)
    } else {
        member_value(ms.subrange(1, ms.len() as int), name)
    }
}

/// The member named `name` of an object; nothing for any other value.
pub open spec fn spec_field(v: Json, name: Seq<char>) -> Option<Json> {
    match v {
        Json::Object(ms) => member_value(ms, name),
        _ => None,
    }
}

/// The member named `name` of an optional value.
pub open spec fn spec_field_of(v: Option<Json>, name: Seq<char>) -> Option<Json> {
    match v {
        Some(j) => spec_field(j, name),
        None => None,
    }
}

/// The text of a string value.
pub open spec fn spec_str(v: Option<Json>) -> Option<Seq<char>> {
    match v {
        Some(Json::Str(t)) => Some(t),
        _ => None,
    }
}

pub open spec fn opt_view(v: Option<&JsonValue>) -> Option<Json> {
    match v {
        Some(x) => Some(x.view()),
        None => None,
    }
}

pub open spec fn opt_text(v: Option<&Vec<char>>) -> Option<Seq<char>> {
    match v {
        Some(x) => Some(x@),
        None => None,
    }
}

/// The member named `name`, if `value` is an object that has one.
pub fn field<'b>(value: &'b JsonValue, name: &str) -> (r: Option<&'b JsonValue>)
    ensures
        opt_view(r) == spec_field(value.view(), name@),
{
    let members = match value {
        JsonValue::Object(members) => members,
        _ => return None,
    };
    let key = chars_of(name);
    let ghost ms = JsonValue::view_members(members@);
    proof {
        lemma_view_members_len(members@);
    }
    let mut i: usize = 0;
    proof {
        assert(ms.subrange(0, ms.len() as int) =~= ms);
    }
    while i < members.len()
        invariant
            0 <= i <= members@.len(),
            ms == JsonValue::view_members(members@),
            value.view() == Json::Object(ms),
            ms.len() == members@.len(),
            forall|j: int| 0 <= j < members@.len() ==> #[trigger] ms[j] == (members@[j].key@, members@[j].value.view()),
            member_value(ms, key@) == member_value(ms.subrange(i as int, ms.len() as int), key@),
            key@ == name@,
        decreases members@.len() - i,
    {
        let ghost rest = ms.subrange(i as int, ms.len() as int);
        proof {
            assert(rest[0] == ms[i as int]);
            assert(rest.subrange(1, rest.len() as int) =~= ms.subrange(i + 1, ms.len() as int));
        }
        if vec_eq(&members[i].key, &key) {
            proof {
                assert(member_value(rest, key@) == Some(rest[0].1));
            }
            return Some(&members[i].value);
        }
        i = i + 1;
    }
    None
}

/// `field` applied to an optional value.
pub fn field_of<'b>(value: Option<&'b JsonValue>, name: &str) -> (r: Option<&'b JsonValue>)
    ensures
        opt_view(r) == spec_field_of(opt_view(value), name@),
{
    match value {
        Some(v) => field(v, name),
        None => None,
    }
}

/// The text of a string value.
pub fn string<'b>(value: Option<&'b JsonValue>) -> (r: Option<&'b Vec<char>>)
    ensures
        opt_text(r) == spec_str(opt_view(value)),
{
    match value {
        Some(JsonValue::String(t)) => Some(t),
        _ => None,
    }
}

/// Whether an optional string value holds exactly the given text.
pub fn string_is(value: Option<&JsonValue>, text: &str) -> (b: bool)
    ensures
        b == (spec_str(opt_view(value)) == Some(text@)),
{
    match string(value) {
        Some(t) => crate::text::equals_str(t.as_slice(), text),
        None => false,
    }
}

// ---------------------------------------------------------------------------
// Unsigned integers, as `str::parse::<u64>` reads them.
// ---------------------------------------------------------------------------

pub open spec fn digit_value(c: char) -> int {
    c as int - '0' as int
}

pub open spec fn all_digits(d: Seq<char>) -> bool {
    forall|i: int| 0 <= i < d.len() ==> is_ascii_digit(#[trigger] d[i])
}

/// The number that a run of decimal digits spells.
pub open spec fn decimal_value(d: Seq<char>) -> int
    decreases d.len(),
{
    if d.len() == 0 {
        0
    } else {
        decimal_value(d.subrange(0, d.len() - 1)) * 10 + digit_value(d[d.len() - 1])
    }
}

/// The digits of an unsigned integer literal: an optional `+` removed.
pub open spec fn unsigned_digits(t: Seq<char>) -> Seq<char> {
    if t.len() > 0 && t[0] == '+' {
        t.subrange(1, t.len() as int)
    } else {
        t
    }
}

/// `str::parse::<u64>`: an optional `+`, then one or more decimal digits
/// whose value fits in 64 bits.
pub open spec fn spec_parse_u64(t: Seq<char>) -> Option<u64> {
    let d = unsigned_digits(t);
    if d.len() > 0 && all_digits(d) && decimal_value(d) <= u64::MAX {
        Some(decimal_value(d) as u64)
    } else {
        None
    }
}

/// The integer that a number value holds.
pub open spec fn spec_integer(v: Json) -> Option<u64> {
    match v {
        Json::Number(t) => spec_parse_u64(t),
        _ => None,
    }
}

proof fn lemma_decimal_nonneg(d: Seq<char>)
    requires
        all_digits(d),
    ensures
        decimal_value(d) >= 0,
    decreases d.len(),
{
    if d.len() > 0 {
        lemma_decimal_nonneg(d.subrange(0, d.len() - 1));
    }
}

proof fn lemma_decimal_prefix_grows(d: Seq<char>, k: int)
    requires
        all_digits(d),
        0 <= k <= d.len(),
    ensures
        decimal_value(d.subrange(0, k)) <= decimal_value(d),
    decreases d.len() - k,
{
    if k < d.len() {
        let e = d.subrange(0, d.len() - 1);
        assert(e.subrange(0, k) =~= d.subrange(0, k));
        lemma_decimal_prefix_grows(e, k);
        lemma_decimal_nonneg(e);
    } else {
        assert(d.subrange(0, k) =~= d);
    }
}

/// Whether the characters `t`, all of them, form one JSON number literal.
pub fn is_number_text(t: &[char]) -> (b: bool)
    ensures
        b == (spec_number(t@, 0) == Some(t@.len() as int)),
{
    let mut parser = JsonParser { input: t, offset: 0 };
    assert(t@.len() == t.len());
    match parser.number() {
        Ok(_) => parser.offset == t.len(),
        Err(_) => false,
    }
}

/// The number of ASCII digits in `t` from `p` on.
pub fn count_digits(t: &[char], p: usize) -> (n: usize)
    requires
        p <= t@.len(),
    ensures
        n == digit_count(t@, p as int),
        p + n <= t@.len(),
{
    let mut parser = JsonParser { input: t, offset: p };
    assert(t@.len() == t.len());
    let _ = parser.digits();
    parser.offset - p
}

/// `str::parse::<u64>` on the characters `t`.
pub fn parse_u64(t: &[char]) -> (r: Option<u64>)
    ensures
        r == spec_parse_u64(t@),
{
    let start: usize = if t.len() > 0 && t[0] == '+' { 1 } else { 0 };
    let ghost d = unsigned_digits(t@);
    proof {
        assert(d =~= t@.subrange(start as int, t@.len() as int));
    }
    if start >= t.len() {
        return None;
    }
    let mut value: u64 = 0;
    let mut i = start;
    while i < t.len()
        invariant
            start <= i <= t@.len(),
            t@.len() == t.len(),
            d == t@.subrange(start as int, t@.len() as int),
            d == unsigned_digits(t@),
            all_digits(d.subrange(0, i - start)),
            value as int == decimal_value(d.subrange(0, i - start)),
        decreases t@.len() - i,
    {
        let c = t[i];
        proof {
            assert(d.subrange(0, i - start + 1).subrange(0, i - start) =~= d.subrange(0, i - start));
            assert(d[i - start] == c);
        }
        if !('0' <= c && c <= '9') {
            proof {
                assert(!is_ascii_digit(d[i - start]));
                assert(!all_digits(d));
            }
            return None;
        }
        let digit = (c as u64) - ('0' as u64);
        let next = match value.checked_mul(10) {
            Some(v) => v.checked_add(digit),
            None => None,
        };
        match next {
            Some(v) => {
                value = v;
            },
            None => {
                proof {
                    let k = i - start + 1;
                    assert(d.subrange(0, k).subrange(0, k - 1) =~= d.subrange(0, k - 1));
                    assert(d.subrange(0, k)[k - 1] == c);
                    assert(decimal_value(d.subrange(0, k)) == value * 10 + digit_value(c));
                    assert(decimal_value(d.subrange(0, k)) > u64::MAX);
                    if all_digits(d) {
                        lemma_decimal_prefix_grows(d, k);
                    }
                }
                return None;
            },
        }
        i = i + 1;
    }
    proof {
        assert(d.subrange(0, d.len() as int) =~= d);
    }
    Some(value)
}

/// The integer that a number value holds, as `str::parse::<u64>` reads its
/// text; anything else is refused.
pub fn integer(value: &JsonValue) -> (r: Result<u64, ()>)
    ensures
        match r {
            Ok(n) => spec_integer(value.view()) == Some(n),
            Err(_) => spec_integer(value.view()) is None,
        },
{
    match value {
        JsonValue::Number(t) => match parse_u64(t.as_slice()) {
            Some(n) => Ok(n),
            None => Err(()),
        },
        _ => Err(()),
    }
}

} // verus!
