//! JSON values as the artifact logic reads and writes them, with the compact
//! text form (`serde_json::to_string`) and its key-sorted canonical variant.

use vstd::prelude::*;
use crate::order::{
    ins_sorted, lemma_ins_sorted_at, lemma_lex_irrefl, lemma_lex_total, lemma_lex_trans, lemma_stable_sort_elems,
    lemma_stable_sort_fixed, lemma_stable_sort_push, lemma_stable_sort_sorted, lex_lt, stable_sort, weak_order,
};
use crate::text::{from_chars, push_all, push_str, to_chars};

verus! {

/// A JSON value.
#[derive(Debug, PartialEq, Eq)]
pub enum JsonValue {
    Null,
    Bool(bool),
    /// A number, held by its JSON text (`12`, `-3.5`).
    Number(String),
    Str(String),
    Array(Vec<JsonValue>),
    /// Members in order; an object read from JSON text has each key once.
    Object(Vec<(String, JsonValue)>),
}

/// The mathematical model of a JSON value.
pub enum Json {
    Null,
    Bool(bool),
    Number(Seq<char>),
    Str(Seq<char>),
    Array(Seq<Json>),
    Object(Seq<(Seq<char>, Json)>),
}

/// The model of a value.
pub open spec fn json_view(v: JsonValue) -> Json
    decreases v,
{
    match v {
        JsonValue::Null => Json::Null,
        JsonValue::Bool(b) => Json::Bool(b),
        JsonValue::Number(t) => Json::Number(t@),
        JsonValue::Str(s) => Json::Str(s@),
        JsonValue::Array(a) => Json::Array(json_views(a@)),
        JsonValue::Object(m) => Json::Object(member_views(m@)),
    }
}

/// The models of a sequence of values.
pub open spec fn json_views(s: Seq<JsonValue>) -> Seq<Json>
    decreases s,
{
    if s.len() == 0 {
        Seq::empty()
    } else {
        json_views(s.drop_last()).push(json_view(s.last()))
    }
}

/// The models of a sequence of members.
pub open spec fn member_views(s: Seq<(String, JsonValue)>) -> Seq<(Seq<char>, Json)>
    decreases s,
{
    if s.len() == 0 {
        Seq::empty()
    } else {
        member_views(s.drop_last()).push((s.last().0@, json_view(s.last().1)))
    }
}

impl View for JsonValue {
    type V = Json;

    open spec fn view(&self) -> Json {
        json_view(*self)
    }
}

/// `json_views` keeps the length and maps each element.
pub proof fn lemma_json_views(s: Seq<JsonValue>)
    ensures
        json_views(s).len() == s.len(),
        forall|i: int| 0 <= i < s.len() ==> #[trigger] json_views(s)[i] == json_view(s[i]),
    decreases s.len(),
{
    if s.len() > 0 {
        lemma_json_views(s.drop_last());
    }
}

/// `member_views` keeps the length and maps each member.
pub proof fn lemma_member_views(s: Seq<(String, JsonValue)>)
    ensures
        member_views(s).len() == s.len(),
        forall|i: int| 0 <= i < s.len() ==> #[trigger] member_views(s)[i] == (s[i].0@, json_view(s[i].1)),
    decreases s.len(),
{
    if s.len() > 0 {
        lemma_member_views(s.drop_last());
    }
}

/// Members ordered by key.
pub open spec fn member_lt() -> spec_fn((Seq<char>, Json), (Seq<char>, Json)) -> bool {
    |x: (Seq<char>, Json), y: (Seq<char>, Json)| lex_lt(x.0, y.0)
}

/// The object of the given members, ordered by key as a sorted map holds them.
pub open spec fn obj(m: Seq<(Seq<char>, Json)>) -> Json {
    Json::Object(stable_sort(m, member_lt()))
}

/// The value of the first member with key `k`.
pub open spec fn lookup(m: Seq<(Seq<char>, Json)>, k: Seq<char>) -> Option<Json>
    decreases m.len(),
{
    if m.len() == 0 {
        None
    } else if m[0].0 == k {
        Some(m[0].1)
    } else {
        lookup(m.drop_first(), k)
    }
}

/// The member `k` of an object (`None` for other values).
pub open spec fn member(v: Json, k: Seq<char>) -> Option<Json> {
    match v {
        Json::Object(m) => lookup(m, k),
        _ => None,
    }
}

/// The member `k` when it is a string, else `default`.
pub open spec fn str_field(v: Json, k: Seq<char>, default: Seq<char>) -> Seq<char> {
    match member(v, k) {
        Some(Json::Str(s)) => s,
        _ => default,
    }
}

/// The elements of an array (none for other values).
pub open spec fn items(v: Json) -> Seq<Json> {
    match v {
        Json::Array(a) => a,
        _ => Seq::empty(),
    }
}

/// Object keys sorted at every depth.
pub open spec fn sorted_keys(v: Json) -> Json
    decreases v,
{
    match v {
        Json::Array(a) => Json::Array(sorted_keys_all(a)),
        Json::Object(m) => Json::Object(stable_sort(sorted_keys_members(m), member_lt())),
        _ => v,
    }
}

/// `sorted_keys` of each element.
pub open spec fn sorted_keys_all(s: Seq<Json>) -> Seq<Json>
    decreases s,
{
    if s.len() == 0 {
        Seq::empty()
    } else {
        sorted_keys_all(s.drop_last()).push(sorted_keys(s.last()))
    }
}

/// `sorted_keys` of each member's value.
pub open spec fn sorted_keys_members(s: Seq<(Seq<char>, Json)>) -> Seq<(Seq<char>, Json)>
    decreases s,
{
    if s.len() == 0 {
        Seq::empty()
    } else {
        sorted_keys_members(s.drop_last()).push((s.last().0, sorted_keys(s.last().1)))
    }
}

/// The lowercase hex digit of a control character's high four bits.
pub open spec fn high_hex(c: char) -> char {
    let n = c as u32;
    crate::digest::hex_digit((n / 16) as u8)
}

/// The lowercase hex digit of a control character's low four bits.
pub open spec fn low_hex(c: char) -> char {
    let n = c as u32;
    crate::digest::hex_digit((n % 16) as u8)
}

/// The JSON escape of one character as `serde_json` writes it: `"` and
/// `\` behind a backslash, the short escapes `\b \t \n \f \r`, other
/// control characters below U+0020 as `\u00` and two lowercase hex digits,
/// every other character as it is.
pub open spec fn json_escape_char(c: char) -> Seq<char> {
    if c == '\u{22}' {
        seq!['\u{5c}', '\u{22}']
    } else if c == '\u{5c}' {
        seq!['\u{5c}', '\u{5c}']
    } else if c == '\u{8}' {
        seq!['\u{5c}', 'b']
    } else if c == '\t' {
        seq!['\u{5c}', 't']
    } else if c == '\n' {
        seq!['\u{5c}', 'n']
    } else if c == '\u{c}' {
        seq!['\u{5c}', 'f']
    } else if c == '\r' {
        seq!['\u{5c}', 'r']
    } else if (c as u32) < 0x20 {
        seq!['\u{5c}', 'u', '0', '0'].push(high_hex(c)).push(low_hex(c))
    } else {
        seq![c]
    }
}

/// The escaped characters of a text.
pub open spec fn json_escaped(s: Seq<char>) -> Seq<char>
    decreases s.len(),
{
    if s.len() == 0 {
        Seq::empty()
    } else {
        json_escaped(s.drop_last()) + json_escape_char(s.last())
    }
}

/// JSON text of a string as `serde_json::to_string` writes it: the escaped
/// text between double quotes.
#[verifier::opaque]
pub open spec fn json_string_of(s: Seq<char>) -> Seq<char> {
    seq!['"'] + json_escaped(s) + seq!['"']
}

/// No control character, double quote or backslash: characters that JSON
/// keeps as they are.
pub open spec fn json_plain(s: Seq<char>) -> bool {
    forall|i: int| 0 <= i < s.len() ==> ' ' <= #[trigger] s[i] && s[i] != '"' && s[i] != '\\'
}

/// `serde_json::to_string` of a `str`. The contract states its result: the
/// text between double quotes with the crate's escape table applied
/// (`ser.rs`, `ESCAPE` and `write_char_escape`), and, as a consequence, a
/// text without control characters, double quotes or backslashes between
/// double quotes as it is. It also says that the call succeeds: the crate's
/// only failure on a `str` is an I/O error of its writer, here a `Vec<u8>`.
#[verifier::external_body]
pub(crate) fn json_string(s: &str) -> (r: String)
    ensures
        r@ == json_string_of(s@),
        json_plain(s@) ==> r@ == seq!['"'] + s@ + seq!['"'],
{
    serde_json::to_string(s).unwrap_or_default()
}

/// Compact JSON text (`serde_json::to_string` of the value, members in the
/// order held).
pub open spec fn compact(v: Json) -> Seq<char>
    decreases v,
{
    match v {
        Json::Null => "null"@,
        Json::Bool(b) => if b { "true"@ } else { "false"@ },
        Json::Number(t) => t,
        Json::Str(s) => json_string_of(s),
        Json::Array(a) => "["@ + compact_items(a) + "]"@,
        Json::Object(m) => "{"@ + compact_members(m) + "}"@,
    }
}

/// The compact texts of the elements, separated by commas.
pub open spec fn compact_items(s: Seq<Json>) -> Seq<char>
    decreases s,
{
    if s.len() == 0 {
        Seq::empty()
    } else if s.len() == 1 {
        compact(s.last())
    } else {
        compact_items(s.drop_last()) + ","@ + compact(s.last())
    }
}

/// The compact texts of the members (`"key":value`), separated by commas.
pub open spec fn compact_members(s: Seq<(Seq<char>, Json)>) -> Seq<char>
    decreases s,
{
    if s.len() == 0 {
        Seq::empty()
    } else if s.len() == 1 {
        json_string_of(s.last().0) + ":"@ + compact(s.last().1)
    } else {
        compact_members(s.drop_last()) + ","@ + json_string_of(s.last().0) + ":"@ + compact(s.last().1)
    }
}

/// Compact JSON text with object keys sorted at every depth.
pub open spec fn canonical(v: Json) -> Seq<char> {
    compact(sorted_keys(v))
}

/// Append the compact JSON text of `v` to `out`.
fn write_compact(v: &JsonValue, out: &mut Vec<char>)
    ensures
        final(out)@ == old(out)@ + compact(v@),
    decreases v,
{
    match v {
        JsonValue::Null => push_str(out, "null"),
        JsonValue::Bool(b) => {
            if *b {
                push_str(out, "true");
            } else {
                push_str(out, "false");
            }
        },
        JsonValue::Number(t) => push_str(out, t.as_str()),
        JsonValue::Str(s) => {
            let q = json_string(s.as_str());
            push_str(out, q.as_str());
        },
        JsonValue::Array(a) => {
            let ghost start = out@;
            proof {
                lemma_json_views(a@);
            }
            push_str(out, "[");
            let mut i: usize = 0;
            while i < a.len()
                invariant
                    i <= a.len(),
                    *v == JsonValue::Array(*a),
                    json_views(a@).len() == a@.len(),
                    forall|k: int| 0 <= k < a@.len() ==> #[trigger] json_views(a@)[k] == json_view(a@[k]),
                    out@ == start + "["@ + compact_items(json_views(a@).take(i as int)),
                decreases a.len() - i,
            {
                let ghost before = out@;
                if i > 0 {
                    push_str(out, ",");
                }
                proof {
                    assert(decreases_to!(*v => (*v)->Array_0));
                    assert(decreases_to!(*a => a@));
                    assert(decreases_to!(a@ => a@[i as int]));
                }
                write_compact(&a[i], out);
                proof {
                    let t = json_views(a@).take(i + 1);
                    assert(t.drop_last() =~= json_views(a@).take(i as int));
                    assert(t.last() == json_view(a@[i as int]));
                    if i == 0 {
                        assert(json_views(a@).take(0) =~= Seq::<Json>::empty());
                    }
                }
                i = i + 1;
            }
            push_str(out, "]");
            proof {
                assert(json_views(a@).take(a@.len() as int) =~= json_views(a@));
            }
        },
        JsonValue::Object(m) => {
            let ghost start = out@;
            proof {
                lemma_member_views(m@);
            }
            push_str(out, "{");
            let mut i: usize = 0;
            while i < m.len()
                invariant
                    i <= m.len(),
                    *v == JsonValue::Object(*m),
                    member_views(m@).len() == m@.len(),
                    forall|k: int| 0 <= k < m@.len() ==> #[trigger] member_views(m@)[k] == (m@[k].0@, json_view(m@[k].1)),
                    out@ == start + "{"@ + compact_members(member_views(m@).take(i as int)),
                decreases m.len() - i,
            {
                if i > 0 {
                    push_str(out, ",");
                }
                let q = json_string(m[i].0.as_str());
                push_str(out, q.as_str());
                push_str(out, ":");
                proof {
                    assert(decreases_to!(*v => (*v)->Object_0));
                    assert(decreases_to!(*m => m@));
                    assert(decreases_to!(m@ => m@[i as int]));
                    assert(decreases_to!(m@[i as int] => m@[i as int].1));
                }
                write_compact(&m[i].1, out);
                proof {
                    let t = member_views(m@).take(i + 1);
                    assert(t.drop_last() =~= member_views(m@).take(i as int));
                    assert(t.last() == (m@[i as int].0@, json_view(m@[i as int].1)));
                    if i == 0 {
                        assert(member_views(m@).take(0) =~= Seq::<(Seq<char>, Json)>::empty());
                    }
                }
                i = i + 1;
            }
            push_str(out, "}");
            proof {
                assert(member_views(m@).take(m@.len() as int) =~= member_views(m@));
            }
        },
    }
}

/// The compact JSON text of `v` (`serde_json::to_string`), members in the
/// order held.
pub fn to_json_text(v: &JsonValue) -> (r: String)
    ensures
        r@ == compact(v@),
{
    let mut out: Vec<char> = Vec::new();
    write_compact(v, &mut out);
    proof {
        assert(out@ =~= compact(v@));
    }
    from_chars(out.as_slice())
}

/// `sorted_keys_all` maps each element.
pub proof fn lemma_sorted_keys_all(s: Seq<Json>)
    ensures
        sorted_keys_all(s).len() == s.len(),
        forall|i: int| 0 <= i < s.len() ==> #[trigger] sorted_keys_all(s)[i] == sorted_keys(s[i]),
    decreases s.len(),
{
    if s.len() > 0 {
        lemma_sorted_keys_all(s.drop_last());
    }
}

/// `sorted_keys_members` maps each member's value.
pub proof fn lemma_sorted_keys_members(s: Seq<(Seq<char>, Json)>)
    ensures
        sorted_keys_members(s).len() == s.len(),
        forall|i: int| 0 <= i < s.len() ==> #[trigger] sorted_keys_members(s)[i] == (s[i].0, sorted_keys(s[i].1)),
    decreases s.len(),
{
    if s.len() > 0 {
        lemma_sorted_keys_members(s.drop_last());
    }
}

/// The members stably sorted by key.
fn sort_members(m: Vec<(String, JsonValue)>) -> (r: Vec<(String, JsonValue)>)
    ensures
        member_views(r@) == stable_sort(member_views(m@), member_lt()),
{
    let ghost v = member_views(m@);
    proof {
        lemma_member_views(m@);
    }
    let mut rest = m;
    let mut r: Vec<(String, JsonValue)> = Vec::new();
    let mut i: usize = 0;
    let n = rest.len();
    while rest.len() > 0
        invariant
            v == member_views(m@),
            v.len() == m@.len(),
            forall|k: int| 0 <= k < m@.len() ==> #[trigger] v[k] == (m@[k].0@, json_view(m@[k].1)),
            i + rest.len() == n,
            n == m@.len(),
            rest@ == m@.skip(i as int),
            member_views(r@) == stable_sort(v.take(i as int), member_lt()),
        decreases rest.len(),
    {
        let x = rest.remove(0);
        proof {
            assert(x == m@[i as int]);
            assert(v.take(i + 1) =~= v.take(i as int).push(v[i as int]));
            lemma_stable_sort_push(v.take(i as int), v[i as int], member_lt());
            assert(rest@ =~= m@.skip(i + 1));
        }
        insert_member(&mut r, x.0, x.1);
        i = i + 1;
    }
    proof {
        assert(v.take(n as int) =~= v);
    }
    r
}

/// An object of `entries`, ordered by key as a sorted map holds them.
pub fn json_obj(entries: Vec<(String, JsonValue)>) -> (r: JsonValue)
    ensures
        r@ == obj(member_views(entries@)),
{
    JsonValue::Object(sort_members(entries))
}

/// A copy of `v` with object keys sorted at every depth.
pub fn sort_keys(v: &JsonValue) -> (r: JsonValue)
    ensures
        r@ == sorted_keys(v@),
    decreases v,
{
    match v {
        JsonValue::Null => JsonValue::Null,
        JsonValue::Bool(b) => JsonValue::Bool(*b),
        JsonValue::Number(t) => JsonValue::Number(t.clone()),
        JsonValue::Str(s) => JsonValue::Str(s.clone()),
        JsonValue::Array(a) => {
            let mut out: Vec<JsonValue> = Vec::new();
            proof {
                lemma_json_views(a@);
                lemma_sorted_keys_all(json_views(a@));
            }
            let mut i: usize = 0;
            while i < a.len()
                invariant
                    i <= a.len(),
                    *v == JsonValue::Array(*a),
                    json_views(a@).len() == a@.len(),
                    forall|k: int| 0 <= k < a@.len() ==> #[trigger] json_views(a@)[k] == json_view(a@[k]),
                    sorted_keys_all(json_views(a@)).len() == a@.len(),
                    forall|k: int| 0 <= k < a@.len() ==> #[trigger] sorted_keys_all(json_views(a@))[k] == sorted_keys(json_views(a@)[k]),
                    out@.len() == i,
                    forall|k: int| 0 <= k < i ==> json_view(#[trigger] out@[k]) == sorted_keys(json_view(a@[k])),
                decreases a.len() - i,
            {
                proof {
                    assert(decreases_to!(*v => (*v)->Array_0));
                    assert(decreases_to!(*a => a@));
                    assert(decreases_to!(a@ => a@[i as int]));
                }
                let e = sort_keys(&a[i]);
                out.push(e);
                i = i + 1;
            }
            proof {
                lemma_json_views(out@);
                assert(json_views(out@) =~= sorted_keys_all(json_views(a@)));
            }
            JsonValue::Array(out)
        },
        JsonValue::Object(m) => {
            let mut out: Vec<(String, JsonValue)> = Vec::new();
            proof {
                lemma_member_views(m@);
                lemma_sorted_keys_members(member_views(m@));
            }
            let mut i: usize = 0;
            while i < m.len()
                invariant
                    i <= m.len(),
                    *v == JsonValue::Object(*m),
                    member_views(m@).len() == m@.len(),
                    forall|k: int| 0 <= k < m@.len() ==> #[trigger] member_views(m@)[k] == (m@[k].0@, json_view(m@[k].1)),
                    sorted_keys_members(member_views(m@)).len() == m@.len(),
                    forall|k: int| 0 <= k < m@.len() ==> #[trigger] sorted_keys_members(member_views(m@))[k] == (member_views(m@)[k].0, sorted_keys(member_views(m@)[k].1)),
                    out@.len() == i,
                    forall|k: int| 0 <= k < i ==> (#[trigger] out@[k]).0@ == m@[k].0@ && json_view(out@[k].1) == sorted_keys(json_view(m@[k].1)),
                decreases m.len() - i,
            {
                proof {
                    assert(decreases_to!(*v => (*v)->Object_0));
                    assert(decreases_to!(*m => m@));
                    assert(decreases_to!(m@ => m@[i as int]));
                    assert(decreases_to!(m@[i as int] => m@[i as int].1));
                }
                let e = sort_keys(&m[i].1);
                out.push((m[i].0.clone(), e));
                i = i + 1;
            }
            proof {
                lemma_member_views(out@);
                assert(member_views(out@) =~= sorted_keys_members(member_views(m@)));
            }
            JsonValue::Object(sort_members(out))
        },
    }
}

/// Compact JSON with object keys sorted at every depth.
pub fn canonical_json(v: &JsonValue) -> (r: String)
    ensures
        r@ == canonical(v@),
{
    let s = sort_keys(v);
    to_json_text(&s)
}

impl JsonValue {
    /// The member `key` of an object (`None` for other values and missing keys).
    pub fn get(&self, key: &str) -> (r: Option<&JsonValue>)
        ensures
            match r {
                Some(x) => member(self@, key@) == Some(x@),
                None => member(self@, key@) is None,
            },
    {
        match self {
            JsonValue::Object(m) => {
                let k = to_chars(key);
                let ghost mv = member_views(m@);
                proof {
                    lemma_member_views(m@);
                    assert(mv.skip(0) =~= mv);
                }
                let mut i: usize = 0;
                while i < m.len()
                    invariant
                        i <= m.len(),
                        *self == JsonValue::Object(*m),
                        k@ == key@,
                        mv == member_views(m@),
                        mv.len() == m@.len(),
                        forall|j: int| 0 <= j < m@.len() ==> #[trigger] mv[j] == (m@[j].0@, json_view(m@[j].1)),
                        lookup(mv, key@) == lookup(mv.skip(i as int), key@),
                    decreases m.len() - i,
                {
                    let c = to_chars(m[i].0.as_str());
                    if crate::text::chars_eq(c.as_slice(), k.as_slice()) {
                        proof {
                            assert(mv.skip(i as int)[0] == mv[i as int]);
                        }
                        return Some(&m[i].1);
                    }
                    proof {
                        assert(mv.skip(i as int)[0] == mv[i as int]);
                        assert(mv.skip(i as int).drop_first() =~= mv.skip(i + 1));
                    }
                    i = i + 1;
                }
                None
            },
            _ => None,
        }
    }

    /// The text of a string value.
    pub fn as_str(&self) -> (r: Option<&str>)
        ensures
            match r {
                Some(t) => self@ == Json::Str(t@),
                None => !(self@ is Str),
            },
    {
        match self {
            JsonValue::Str(s) => Some(s.as_str()),
            _ => None,
        }
    }

    /// The elements of an array value.
    pub fn as_array(&self) -> (r: Option<&Vec<JsonValue>>)
        ensures
            match r {
                Some(a) => self@ == Json::Array(json_views(a@)),
                None => !(self@ is Array),
            },
    {
        match self {
            JsonValue::Array(a) => Some(a),
            _ => None,
        }
    }
}

/// A copy of `v`.
pub fn json_copy(v: &JsonValue) -> (r: JsonValue)
    ensures
        r@ == v@,
    decreases v,
{
    match v {
        JsonValue::Null => JsonValue::Null,
        JsonValue::Bool(b) => JsonValue::Bool(*b),
        JsonValue::Number(t) => JsonValue::Number(t.clone()),
        JsonValue::Str(s) => JsonValue::Str(s.clone()),
        JsonValue::Array(a) => {
            let mut out: Vec<JsonValue> = Vec::new();
            proof {
                lemma_json_views(a@);
            }
            let mut i: usize = 0;
            while i < a.len()
                invariant
                    i <= a.len(),
                    *v == JsonValue::Array(*a),
                    json_views(a@).len() == a@.len(),
                    forall|k: int| 0 <= k < a@.len() ==> #[trigger] json_views(a@)[k] == json_view(a@[k]),
                    out@.len() == i,
                    forall|k: int| 0 <= k < i ==> json_view(#[trigger] out@[k]) == json_view(a@[k]),
                decreases a.len() - i,
            {
                proof {
                    assert(decreases_to!(*v => (*v)->Array_0));
                    assert(decreases_to!(*a => a@));
                    assert(decreases_to!(a@ => a@[i as int]));
                }
                let e = json_copy(&a[i]);
                out.push(e);
                i = i + 1;
            }
            proof {
                lemma_json_views(out@);
                assert(json_views(out@) =~= json_views(a@));
            }
            JsonValue::Array(out)
        },
        JsonValue::Object(m) => {
            let mut out: Vec<(String, JsonValue)> = Vec::new();
            proof {
                lemma_member_views(m@);
            }
            let mut i: usize = 0;
            while i < m.len()
                invariant
                    i <= m.len(),
                    *v == JsonValue::Object(*m),
                    member_views(m@).len() == m@.len(),
                    forall|k: int| 0 <= k < m@.len() ==> #[trigger] member_views(m@)[k] == (m@[k].0@, json_view(m@[k].1)),
                    out@.len() == i,
                    forall|k: int| 0 <= k < i ==> (#[trigger] out@[k]).0@ == m@[k].0@ && json_view(out@[k].1) == json_view(m@[k].1),
                decreases m.len() - i,
            {
                proof {
                    assert(decreases_to!(*v => (*v)->Object_0));
                    assert(decreases_to!(*m => m@));
                    assert(decreases_to!(m@ => m@[i as int]));
                    assert(decreases_to!(m@[i as int] => m@[i as int].1));
                }
                let e = json_copy(&m[i].1);
                out.push((m[i].0.clone(), e));
                i = i + 1;
            }
            proof {
                lemma_member_views(out@);
                assert(member_views(out@) =~= member_views(m@));
            }
            JsonValue::Object(out)
        },
    }
}

/// Insert a member at its place by key (after members with an equal key).
pub fn insert_member(m: &mut Vec<(String, JsonValue)>, k: String, v: JsonValue)
    ensures
        member_views(final(m)@) == ins_sorted(member_views(old(m)@), (k@, v@), member_lt()),
{
    proof {
        lemma_member_views(m@);
    }
    let ghost t = member_views(m@);
    let mut p: usize = 0;
    while p < m.len() && crate::order::text_order(&k, &m[p].0) >= 0
        invariant
            p <= m.len(),
            t == member_views(m@),
            t.len() == m@.len(),
            forall|j: int| 0 <= j < m@.len() ==> #[trigger] t[j] == (m@[j].0@, json_view(m@[j].1)),
            forall|j: int| 0 <= j < p ==> !(member_lt())((k@, json_view(v)), #[trigger] t[j]),
        decreases m.len() - p,
    {
        p = p + 1;
    }
    proof {
        lemma_ins_sorted_at(t, (k@, json_view(v)), member_lt(), p as int);
    }
    let ghost x = (k@, json_view(v));
    m.insert(p, (k, v));
    proof {
        lemma_member_views(m@);
        assert(member_views(m@) =~= t.take(p as int) + seq![x] + t.skip(p as int));
    }
}

/// `v` (an object) with member `(k, x)` inserted at its place by key.
pub fn with_member(v: JsonValue, k: String, x: JsonValue) -> (r: JsonValue)
    requires
        v@ is Object,
    ensures
        r@ == Json::Object(ins_sorted(v@->Object_0, (k@, x@), member_lt())),
{
    match v {
        JsonValue::Object(m) => {
            let mut m = m;
            insert_member(&mut m, k, x);
            JsonValue::Object(m)
        },
        other => other,
    }
}

/// Ordering members by key is a strict weak order.
pub proof fn lemma_member_lt_weak()
    ensures
        weak_order(member_lt()),
{
    let lt = member_lt();
    assert forall|x: (Seq<char>, Json)| !#[trigger] lt(x, x) by {
        lemma_lex_irrefl(x.0);
    }
    assert forall|x: (Seq<char>, Json), y: (Seq<char>, Json), z: (Seq<char>, Json)|
        #![trigger lt(x, y), lt(y, z)]
        lt(x, y) && lt(y, z) implies lt(x, z) by {
        lemma_lex_trans(x.0, y.0, z.0);
    }
    assert forall|x: (Seq<char>, Json), y: (Seq<char>, Json), z: (Seq<char>, Json)|
        #![trigger lt(x, y), lt(y, z), lt(x, z)]
        !lt(x, y) && !lt(y, z) implies !lt(x, z) by {
        lemma_lex_total(x.0, y.0);
        lemma_lex_total(y.0, z.0);
        if lex_lt(x.0, z.0) {
            if lex_lt(y.0, x.0) {
                lemma_lex_trans(y.0, x.0, z.0);
                if lex_lt(z.0, y.0) {
                    lemma_lex_trans(z.0, y.0, z.0);
                    lemma_lex_irrefl(z.0);
                }
            } else if lex_lt(z.0, y.0) {
                lemma_lex_trans(z.0, x.0, z.0);
                lemma_lex_irrefl(z.0);
            } else {
                lemma_lex_irrefl(z.0);
            }
        }
    }
}

/// Sorting keys twice is sorting them once.
pub proof fn lemma_sorted_keys_idempotent(v: Json)
    ensures
        sorted_keys(sorted_keys(v)) == sorted_keys(v),
    decreases v,
{
    match v {
        Json::Array(a) => {
            let b = sorted_keys_all(a);
            lemma_sorted_keys_all(a);
            lemma_sorted_keys_all(b);
            assert forall|i: int| 0 <= i < b.len() implies #[trigger] sorted_keys_all(b)[i] == b[i] by {
                assert(decreases_to!(v => a));
                assert(decreases_to!(a => a[i]));
                lemma_sorted_keys_idempotent(a[i]);
            }
            assert(sorted_keys_all(b) =~= b);
        },
        Json::Object(m) => {
            let mm = sorted_keys_members(m);
            lemma_sorted_keys_members(m);
            let inner = stable_sort(mm, member_lt());
            lemma_stable_sort_elems(mm, member_lt());
            lemma_sorted_keys_members(inner);
            assert forall|i: int| 0 <= i < inner.len() implies #[trigger] sorted_keys_members(inner)[i] == inner[i] by {
                assert(inner.contains(inner[i]));
                let k = choose|k: int| 0 <= k < mm.len() && mm[k] == inner[i];
                assert(decreases_to!(v => m));
                assert(decreases_to!(m => m[k]));
                assert(decreases_to!(m[k] => m[k].1));
                lemma_sorted_keys_idempotent(m[k].1);
            }
            assert(sorted_keys_members(inner) =~= inner);
            lemma_member_lt_weak();
            lemma_stable_sort_sorted(mm, member_lt());
            lemma_stable_sort_fixed(inner, member_lt());
        },
        _ => {},
    }
}

/// The JSON value a text parses to (`serde_json::from_str::<Value>`), or
/// `None` when it is no JSON text.
pub uninterp spec fn json_of_text(text: Seq<char>) -> Option<Json>;

#[verifier::external_type_specification]
#[verifier::external_body]
pub struct ExSerdeValue(serde_json::Value);

/// `serde_json::Value` held as a library value, variant for variant (a
/// number by its `to_string` text); nothing about it is claimed.
#[verifier::external_body]
fn from_serde_value(v: &serde_json::Value) -> JsonValue {
    match v {
        serde_json::Value::Null => JsonValue::Null,
        serde_json::Value::Bool(b) => JsonValue::Bool(*b),
        serde_json::Value::Number(n) => JsonValue::Number(n.to_string()),
        serde_json::Value::String(s) => JsonValue::Str(s.clone()),
        serde_json::Value::Array(a) => JsonValue::Array(a.iter().map(from_serde_value).collect()),
        serde_json::Value::Object(m) => JsonValue::Object(m.iter().map(|(k, x)| (k.clone(), from_serde_value(x))).collect()),
    }
}

/// The message of serde_json's error for a text that is no JSON.
pub uninterp spec fn json_error_of(text: Seq<char>) -> Seq<char>;

/// `serde_json::from_str::<Value>` of `text`, the value converted variant
/// for variant, or the error's message. The contract names the parsed value
/// `json_of_text(text)` and the message `json_error_of(text)` (the JSON
/// grammar, serde_json's number texts and its messages are not stated).
#[verifier::external_body]
pub(crate) fn parse_json_text(text: &str) -> (r: Result<JsonValue, String>)
    ensures
        match r {
            Ok(v) => json_of_text(text@) == Some(v@),
            Err(e) => json_of_text(text@) is None && e@ == json_error_of(text@),
        },
{
    match serde_json::from_str::<serde_json::Value>(text) {
        Ok(v) => Ok(from_serde_value(&v)),
        Err(e) => Err(e.to_string()),
    }
}

/// The value a JSON5 text parses to (`json5::from_str::<Value>`), or `None`
/// when it is no JSON5 text.
pub uninterp spec fn json5_of_text(text: Seq<char>) -> Option<Json>;

/// The message of json5's error for a text that is no JSON5.
pub uninterp spec fn json5_error_of(text: Seq<char>) -> Seq<char>;

/// `json5::from_str::<serde_json::Value>` of `text`, the value converted
/// variant for variant, or the error's message. The contract names the
/// parsed value `json5_of_text(text)` and the message
/// `json5_error_of(text)` (the JSON5 grammar and json5's messages are not
/// stated).
#[verifier::external_body]
pub(crate) fn parse_json5_text(text: &str) -> (r: Result<JsonValue, String>)
    ensures
        match r {
            Ok(v) => json5_of_text(text@) == Some(v@),
            Err(e) => json5_of_text(text@) is None && e@ == json5_error_of(text@),
        },
{
    match json5::from_str::<serde_json::Value>(text) {
        Ok(v) => Ok(from_serde_value(&v)),
        Err(e) => Err(e.to_string()),
    }
}

/// The value a text parses to, or `default`.
pub open spec fn text_doc(text: Seq<char>, default: Json) -> Json {
    match json_of_text(text) {
        Some(j) => j,
        None => default,
    }
}

} // verus!
