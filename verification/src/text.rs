//! Character-sequence helpers shared by every module.
//!
//! Text is modelled as `Seq<char>` (the view of `str` / `String`); the helpers
//! here move between `&str`, `Vec<char>` and `String` with exact contracts.

use vstd::prelude::*;

verus! {

/// Appends one character to a `String` (`String::push`).
#[verifier::external_body]
fn string_push(s: &mut String, c: char)
    ensures
        final(s)@ == old(s)@.push(c),
{
    s.push(c);
}

/// The characters of `s`, in order.
pub fn to_chars(s: &str) -> (out: Vec<char>)
    ensures
        out@ == s@,
{
    let mut out: Vec<char> = Vec::new();
    for c in it: s.chars()
        invariant
            out@ == it.seq().take(it.index() as int),
    {
        out.push(c);
    }
    out
}

/// A `String` holding exactly the characters of `v`.
pub fn from_chars(v: &[char]) -> (out: String)
    ensures
        out@ == v@,
{
    let mut out = String::new();
    let mut i: usize = 0;
    while i < v.len()
        invariant
            i <= v.len(),
            out@ == v@.take(i as int),
        decreases v.len() - i,
    {
        string_push(&mut out, v[i]);
        proof {
            assert(v@.take(i as int + 1) =~= v@.take(i as int).push(v@[i as int]));
        }
        i = i + 1;
    }
    proof {
        assert(v@.take(v@.len() as int) =~= v@);
    }
    out
}


/// `p` is a prefix of `s`.
pub open spec fn has_prefix(s: Seq<char>, p: Seq<char>) -> bool {
    p.len() <= s.len() && s.take(p.len() as int) == p
}

/// `p` is a suffix of `s`.
pub open spec fn has_suffix(s: Seq<char>, p: Seq<char>) -> bool {
    p.len() <= s.len() && s.skip(s.len() - p.len()) == p
}

/// `p` occurs in `s` starting at index `i`.
pub open spec fn occurs_at(s: Seq<char>, p: Seq<char>, i: int) -> bool {
    0 <= i && i + p.len() <= s.len() && s.subrange(i, i + p.len()) == p
}

/// `p` occurs somewhere in `s`.
pub open spec fn contains_seq(s: Seq<char>, p: Seq<char>) -> bool {
    exists|i: int| occurs_at(s, p, i)
}

/// Unicode `White_Space` (what `char::is_whitespace` tests).
pub open spec fn is_ws(c: char) -> bool {
    ||| '\u{9}' <= c <= '\u{d}'
    ||| c == ' '
    ||| c == '\u{85}'
    ||| c == '\u{a0}'
    ||| c == '\u{1680}'
    ||| '\u{2000}' <= c <= '\u{200a}'
    ||| c == '\u{2028}'
    ||| c == '\u{2029}'
    ||| c == '\u{202f}'
    ||| c == '\u{205f}'
    ||| c == '\u{3000}'
}

/// `s` without leading whitespace.
pub open spec fn trim_start(s: Seq<char>) -> Seq<char>
    decreases s.len(),
{
    if s.len() > 0 && is_ws(s[0]) {
        trim_start(s.drop_first())
    } else {
        s
    }
}

/// `s` without trailing whitespace.
pub open spec fn trim_end(s: Seq<char>) -> Seq<char>
    decreases s.len(),
{
    if s.len() > 0 && is_ws(s.last()) {
        trim_end(s.drop_last())
    } else {
        s
    }
}

/// `s` without leading and trailing whitespace (`str::trim`).
pub open spec fn trim(s: Seq<char>) -> Seq<char> {
    trim_end(trim_start(s))
}

/// Every `from` in `s` replaced by `to`.
pub open spec fn replace_char(s: Seq<char>, from: char, to: char) -> Seq<char> {
    s.map_values(|c: char| if c == from { to } else { c })
}

/// Paths with `\` separators rewritten to `/`.
pub open spec fn posix(s: Seq<char>) -> Seq<char> {
    replace_char(s, '\\', '/')
}

/// ASCII lowercase of one character (`char::to_ascii_lowercase`).
pub open spec fn lower_char(c: char) -> char {
    if 'A' <= c <= 'Z' {
        ((c as u32) + 32) as char
    } else {
        c
    }
}

/// ASCII lowercase of a sequence (`str::to_ascii_lowercase`).
pub open spec fn lower(s: Seq<char>) -> Seq<char> {
    s.map_values(|c: char| lower_char(c))
}

pub open spec fn is_ascii_digit(c: char) -> bool {
    '0' <= c <= '9'
}

pub open spec fn is_ascii_lower(c: char) -> bool {
    'a' <= c <= 'z'
}

pub open spec fn is_ascii_upper(c: char) -> bool {
    'A' <= c <= 'Z'
}

pub open spec fn is_ascii_alpha(c: char) -> bool {
    is_ascii_lower(c) || is_ascii_upper(c)
}

pub open spec fn is_ascii_alnum(c: char) -> bool {
    is_ascii_alpha(c) || is_ascii_digit(c)
}

/// Whether `p` is a prefix of `s`.
pub fn starts_with(s: &[char], p: &[char]) -> (r: bool)
    ensures
        r == has_prefix(s@, p@),
{
    if p.len() > s.len() {
        return false;
    }
    let mut i: usize = 0;
    while i < p.len()
        invariant
            p.len() <= s.len(),
            i <= p.len(),
            forall|j: int| 0 <= j < i ==> s@[j] == p@[j],
        decreases p.len() - i,
    {
        if s[i] != p[i] {
            proof {
                assert(s@.take(p.len() as int)[i as int] != p@[i as int]);
            }
            return false;
        }
        i = i + 1;
    }
    proof {
        assert(s@.take(p.len() as int) =~= p@);
    }
    true
}

/// Whether `p` occurs in `s` at index `i`.
pub fn occurs_at_exec(s: &[char], p: &[char], i: usize) -> (r: bool)
    ensures
        r == occurs_at(s@, p@, i as int),
{
    if i > s.len() || p.len() > s.len() - i {
        return false;
    }
    let mut k: usize = 0;
    while k < p.len()
        invariant
            i + p.len() <= s.len(),
            k <= p.len(),
            forall|j: int| 0 <= j < k ==> s@[i + j] == p@[j],
        decreases p.len() - k,
    {
        if s[i + k] != p[k] {
            proof {
                assert(s@.subrange(i as int, i + p.len())[k as int] != p@[k as int]);
            }
            return false;
        }
        k = k + 1;
    }
    proof {
        assert(s@.subrange(i as int, i + p.len()) =~= p@);
    }
    true
}

/// Whether `p` is a suffix of `s`.
pub fn ends_with(s: &[char], p: &[char]) -> (r: bool)
    ensures
        r == has_suffix(s@, p@),
{
    if p.len() > s.len() {
        return false;
    }
    let r = occurs_at_exec(s, p, s.len() - p.len());
    proof {
        assert(s@.skip(s@.len() - p@.len()) =~= s@.subrange(s@.len() - p@.len(), s@.len() as int));
    }
    r
}

/// First index `i >= from` at which `p` occurs in `s`.
pub fn find_from(s: &[char], p: &[char], from: usize) -> (r: Option<usize>)
    ensures
        match r {
            Some(i) => from <= i && occurs_at(s@, p@, i as int) && forall|j: int|
                from <= j < i ==> !occurs_at(s@, p@, j),
            None => forall|j: int| from <= j ==> !occurs_at(s@, p@, j),
        },
{
    if from > s.len() {
        return None;
    }
    let mut i = from;
    while i < s.len()
        invariant
            from <= i <= s.len(),
            forall|j: int| from <= j < i ==> !occurs_at(s@, p@, j),
        decreases s.len() - i,
    {
        if occurs_at_exec(s, p, i) {
            return Some(i);
        }
        i = i + 1;
    }
    if occurs_at_exec(s, p, i) {
        return Some(i);
    }
    None
}

/// Whether `p` occurs anywhere in `s`.
pub fn contains(s: &[char], p: &[char]) -> (r: bool)
    ensures
        r == contains_seq(s@, p@),
{
    match find_from(s, p, 0) {
        Some(_) => true,
        None => false,
    }
}

/// Whether `c` is whitespace (`char::is_whitespace`).
pub fn is_ws_exec(c: char) -> (r: bool)
    ensures
        r == is_ws(c),
{
    ('\u{9}' <= c && c <= '\u{d}') || c == ' ' || c == '\u{85}' || c == '\u{a0}' || c == '\u{1680}'
        || ('\u{2000}' <= c && c <= '\u{200a}') || c == '\u{2028}' || c == '\u{2029}'
        || c == '\u{202f}' || c == '\u{205f}' || c == '\u{3000}'
}

proof fn lemma_trim_start_skip(s: Seq<char>, i: int)
    requires
        0 <= i <= s.len(),
        forall|j: int| 0 <= j < i ==> is_ws(s[j]),
    ensures
        trim_start(s) == trim_start(s.skip(i)),
    decreases i,
{
    if i > 0 {
        assert(s.skip(1) =~= s.drop_first());
        lemma_trim_start_skip(s.drop_first(), i - 1);
        assert(s.drop_first().skip(i - 1) =~= s.skip(i));
    } else {
        assert(s.skip(0) =~= s);
    }
}

proof fn lemma_trim_end_take(s: Seq<char>, k: int)
    requires
        0 <= k <= s.len(),
        forall|j: int| k <= j < s.len() ==> is_ws(s[j]),
    ensures
        trim_end(s) == trim_end(s.take(k)),
    decreases s.len() - k,
{
    if k < s.len() {
        assert(s.take(s.len() - 1) =~= s.drop_last());
        lemma_trim_end_take(s.drop_last(), k);
        assert(s.drop_last().take(k) =~= s.take(k));
    } else {
        assert(s.take(k) =~= s);
    }
}

/// `s` without leading whitespace.
pub fn trim_start_chars(s: &[char]) -> (r: Vec<char>)
    ensures
        r@ == trim_start(s@),
{
    let mut a: usize = 0;
    while a < s.len() && is_ws_exec(s[a])
        invariant
            a <= s.len(),
            forall|j: int| 0 <= j < a ==> is_ws(s@[j]),
        decreases s.len() - a,
    {
        a = a + 1;
    }
    proof {
        lemma_trim_start_skip(s@, a as int);
    }
    let mut r: Vec<char> = Vec::new();
    let mut i = a;
    while i < s.len()
        invariant
            a <= i <= s.len(),
            r@ == s@.subrange(a as int, i as int),
        decreases s.len() - i,
    {
        r.push(s[i]);
        proof {
            assert(s@.subrange(a as int, i + 1) =~= s@.subrange(a as int, i as int).push(s@[i as int]));
        }
        i = i + 1;
    }
    proof {
        assert(s@.subrange(a as int, s@.len() as int) =~= s@.skip(a as int));
    }
    r
}

/// `s` without leading and trailing whitespace.
pub fn trim_chars(s: &[char]) -> (r: Vec<char>)
    ensures
        r@ == trim(s@),
{
    let mut a: usize = 0;
    while a < s.len() && is_ws_exec(s[a])
        invariant
            a <= s.len(),
            forall|j: int| 0 <= j < a ==> is_ws(s@[j]),
        decreases s.len() - a,
    {
        a = a + 1;
    }
    proof {
        lemma_trim_start_skip(s@, a as int);
        assert(trim_start(s@.skip(a as int)) == s@.skip(a as int));
    }
    let mut b: usize = s.len();
    while b > a && is_ws_exec(s[b - 1])
        invariant
            a <= b <= s.len(),
            forall|j: int| b <= j < s.len() ==> is_ws(s@[j]),
        decreases b,
    {
        b = b - 1;
    }
    let ghost t = s@.skip(a as int);
    proof {
        assert forall|j: int| (b - a) <= j < t.len() implies is_ws(t[j]) by {
            assert(t[j] == s@[a + j]);
        }
        lemma_trim_end_take(t, (b - a) as int);
        assert(t.take((b - a) as int) =~= s@.subrange(a as int, b as int));
        if b > a {
            assert(!is_ws(t.take((b - a) as int).last()));
        }
    }
    let mut r: Vec<char> = Vec::new();
    let mut i = a;
    while i < b
        invariant
            a <= i <= b <= s.len(),
            r@ == s@.subrange(a as int, i as int),
        decreases b - i,
    {
        r.push(s[i]);
        proof {
            assert(s@.subrange(a as int, i + 1) =~= s@.subrange(a as int, i as int).push(s@[i as int]));
        }
        i = i + 1;
    }
    r
}

/// `s` with every `from` replaced by `to`.
pub fn replace_char_exec(s: &[char], from: char, to: char) -> (r: Vec<char>)
    ensures
        r@ == replace_char(s@, from, to),
{
    let mut r: Vec<char> = Vec::new();
    let mut i: usize = 0;
    while i < s.len()
        invariant
            i <= s.len(),
            r@ == replace_char(s@.take(i as int), from, to),
        decreases s.len() - i,
    {
        let c = s[i];
        r.push(if c == from { to } else { c });
        proof {
            assert(replace_char(s@.take(i + 1), from, to) =~= replace_char(s@.take(i as int), from, to).push(
                if c == from { to } else { c },
            ));
        }
        i = i + 1;
    }
    proof {
        assert(s@.take(s@.len() as int) =~= s@);
    }
    r
}

/// ASCII lowercase of one character.
pub fn lower_char_exec(c: char) -> (r: char)
    ensures
        r == lower_char(c),
{
    if 'A' <= c && c <= 'Z' {
        ((c as u8) + 32) as char
    } else {
        c
    }
}

/// ASCII lowercase of a sequence.
pub fn lower_exec(s: &[char]) -> (r: Vec<char>)
    ensures
        r@ == lower(s@),
{
    let mut r: Vec<char> = Vec::new();
    let mut i: usize = 0;
    while i < s.len()
        invariant
            i <= s.len(),
            r@ == lower(s@.take(i as int)),
        decreases s.len() - i,
    {
        let c = lower_char_exec(s[i]);
        r.push(c);
        proof {
            assert(lower(s@.take(i + 1)) =~= lower(s@.take(i as int)).push(c));
        }
        i = i + 1;
    }
    proof {
        assert(s@.take(s@.len() as int) =~= s@);
    }
    r
}

/// Append all of `s` to `out`.
pub fn push_all(out: &mut Vec<char>, s: &[char])
    ensures
        final(out)@ == old(out)@ + s@,
{
    let mut i: usize = 0;
    while i < s.len()
        invariant
            i <= s.len(),
            out@ == old(out)@ + s@.take(i as int),
        decreases s.len() - i,
    {
        out.push(s[i]);
        proof {
            assert(s@.take(i + 1) =~= s@.take(i as int).push(s@[i as int]));
            assert(old(out)@ + s@.take(i + 1) =~= (old(out)@ + s@.take(i as int)).push(s@[i as int]));
        }
        i = i + 1;
    }
    proof {
        assert(s@.take(s@.len() as int) =~= s@);
    }
}

/// Append all characters of `s` to `out`.
pub fn push_str(out: &mut Vec<char>, s: &str)
    ensures
        final(out)@ == old(out)@ + s@,
{
    let v = to_chars(s);
    push_all(out, v.as_slice());
}

/// Whether two character sequences are equal.
pub fn chars_eq(a: &[char], b: &[char]) -> (r: bool)
    ensures
        r == (a@ == b@),
{
    if a.len() != b.len() {
        return false;
    }
    let r = starts_with(a, b);
    proof {
        assert(a@.take(b@.len() as int) =~= a@);
    }
    r
}


/// `parts` joined with `sep` between consecutive parts (`[String]::join`).
pub open spec fn join(parts: Seq<Seq<char>>, sep: Seq<char>) -> Seq<char>
    decreases parts.len(),
{
    if parts.len() == 0 {
        Seq::empty()
    } else if parts.len() == 1 {
        parts[0]
    } else {
        join(parts.drop_last(), sep) + sep + parts.last()
    }
}

/// Appends `parts` joined by `sep` to `out`.
pub fn push_join(out: &mut Vec<char>, parts: &[String], sep: &[char])
    ensures
        final(out)@ == old(out)@ + join(crate::order::texts(parts@), sep@),
{
    let ghost t = crate::order::texts(parts@);
    let mut i: usize = 0;
    while i < parts.len()
        invariant
            i <= parts.len(),
            t == crate::order::texts(parts@),
            out@ == old(out)@ + join(t.take(i as int), sep@),
        decreases parts.len() - i,
    {
        proof {
            assert(t.take(i + 1).drop_last() =~= t.take(i as int));
        }
        if i > 0 {
            push_all(out, sep);
        }
        let p = to_chars(parts[i].as_str());
        push_all(out, p.as_slice());
        proof {
            if i == 0 {
                assert(t.take(1).len() == 1);
                assert(join(t.take(1), sep@) == t.take(1)[0]);
                assert(out@ =~= old(out)@ + join(t.take(i + 1), sep@));
            } else {
                assert(out@ =~= old(out)@ + join(t.take(i + 1), sep@));
            }
        }
        i = i + 1;
    }
    proof {
        assert(t.take(parts@.len() as int) =~= t);
    }
}


/// Whether `c` occurs in `s`.
pub fn has_char(s: &[char], c: char) -> (r: bool)
    ensures
        r == s@.contains(c),
{
    let mut i: usize = 0;
    while i < s.len()
        invariant
            i <= s.len(),
            forall|j: int| 0 <= j < i ==> s@[j] != c,
        decreases s.len() - i,
    {
        if s[i] == c {
            return true;
        }
        i = i + 1;
    }
    false
}

/// `s` without trailing `c` characters (`str::trim_end_matches(c)`).
pub open spec fn trim_end_char(s: Seq<char>, c: char) -> Seq<char>
    decreases s.len(),
{
    if s.len() > 0 && s.last() == c {
        trim_end_char(s.drop_last(), c)
    } else {
        s
    }
}

/// `s` without trailing `c` characters.
pub fn trim_end_char_exec(s: &[char], c: char) -> (r: Vec<char>)
    ensures
        r@ == trim_end_char(s@, c),
{
    let mut n: usize = s.len();
    proof {
        assert(s@.take(n as int) =~= s@);
    }
    while n > 0 && s[n - 1] == c
        invariant
            n <= s.len(),
            trim_end_char(s@, c) == trim_end_char(s@.take(n as int), c),
        decreases n,
    {
        proof {
            assert(s@.take(n as int).drop_last() =~= s@.take(n - 1));
        }
        n = n - 1;
    }
    let mut r: Vec<char> = Vec::new();
    let mut i: usize = 0;
    while i < n
        invariant
            i <= n <= s.len(),
            r@ == s@.take(i as int),
        decreases n - i,
    {
        r.push(s[i]);
        proof {
            assert(s@.take(i + 1) =~= s@.take(i as int).push(s@[i as int]));
        }
        i = i + 1;
    }
    r
}

/// A `String` holding the characters of a literal.
pub fn lit(s: &str) -> (r: Vec<char>)
    ensures
        r@ == s@,
{
    to_chars(s)
}

/// Trimming keeps every character up to the last one that is not `c`.
pub proof fn lemma_trim_end_keeps(s: Seq<char>, c: char, k: int)
    requires
        0 <= k < s.len(),
        s[k] != c,
    ensures
        trim_end_char(s, c).len() > k,
        trim_end_char(s, c).len() <= s.len(),
        trim_end_char(s, c) == s.take(trim_end_char(s, c).len() as int),
        trim_end_char(s, c).last() != c,
    decreases s.len(),
{
    if s.last() == c {
        lemma_trim_end_keeps(s.drop_last(), c, k);
        let t = trim_end_char(s.drop_last(), c);
        assert(s.drop_last().take(t.len() as int) =~= s.take(t.len() as int));
    } else {
        assert(s.take(s.len() as int) =~= s);
    }
}

/// Trimming twice trims once.
pub proof fn lemma_trim_idempotent(s: Seq<char>)
    ensures
        trim(trim(s)) == trim(s),
{
    let t = trim(s);
    lemma_trim_start_stable(s);
    lemma_trim_end_stable(trim_start(s));
    lemma_trim_start_of_trim_end(trim_start(s));
}

proof fn lemma_trim_start_stable(s: Seq<char>)
    ensures
        trim_start(trim_start(s)) == trim_start(s),
        trim_start(s).len() == 0 || !is_ws(trim_start(s)[0]),
    decreases s.len(),
{
    if s.len() > 0 && is_ws(s[0]) {
        lemma_trim_start_stable(s.drop_first());
    }
}

proof fn lemma_trim_end_stable(s: Seq<char>)
    ensures
        trim_end(trim_end(s)) == trim_end(s),
        trim_end(s).len() == 0 || !is_ws(trim_end(s).last()),
        trim_end(s) == s.take(trim_end(s).len() as int),
        trim_end(s).len() <= s.len(),
    decreases s.len(),
{
    if s.len() > 0 && is_ws(s.last()) {
        lemma_trim_end_stable(s.drop_last());
        let t = trim_end(s.drop_last());
        assert(s.drop_last().take(t.len() as int) =~= s.take(t.len() as int));
    } else {
        assert(s.take(s.len() as int) =~= s);
    }
}

/// Trimming the end of a text that starts with a non-space keeps that start.
proof fn lemma_trim_start_of_trim_end(s: Seq<char>)
    requires
        s.len() == 0 || !is_ws(s[0]),
    ensures
        trim_start(trim_end(s)) == trim_end(s),
{
    lemma_trim_end_stable(s);
    let t = trim_end(s);
    if t.len() > 0 {
        assert(t[0] == s[0]);
    }
}
/// Every occurrence of `p` in `s` replaced by `r`, scanning left to right
/// without overlap (`str::replace` for a non-empty pattern).
pub open spec fn replace_all(s: Seq<char>, p: Seq<char>, r: Seq<char>) -> Seq<char>
    decreases s.len(),
{
    if s.len() == 0 || p.len() == 0 {
        s
    } else if occurs_at(s, p, 0) {
        r + replace_all(s.skip(p.len() as int), p, r)
    } else {
        seq![s[0]] + replace_all(s.drop_first(), p, r)
    }
}

/// `s` with every occurrence of `p` replaced by `r`.
pub fn replace_text(s: &[char], p: &[char], r: &[char]) -> (out: Vec<char>)
    requires
        p@.len() > 0,
    ensures
        out@ == replace_all(s@, p@, r@),
{
    let mut out: Vec<char> = Vec::new();
    let mut i: usize = 0;
    proof {
        assert(s@.skip(0) =~= s@);
    }
    while i < s.len()
        invariant
            i <= s.len(),
            p@.len() > 0,
            out@ + replace_all(s@.skip(i as int), p@, r@) == replace_all(s@, p@, r@),
        decreases s.len() - i,
    {
        let ghost rest = s@.skip(i as int);
        if occurs_at_exec(s, p, i) {
            proof {
                assert(rest.subrange(0, p@.len() as int) =~= s@.subrange(i as int, i + p@.len()));
                assert(occurs_at(rest, p@, 0));
                assert(rest.skip(p@.len() as int) =~= s@.skip(i + p@.len()));
                assert(out@ + r@ + replace_all(s@.skip(i + p@.len()), p@, r@) =~= out@ + replace_all(rest, p@, r@));
            }
            push_all(&mut out, r);
            i = i + p.len();
        } else {
            proof {
                if occurs_at(rest, p@, 0) {
                    assert(rest.subrange(0, p@.len() as int) =~= s@.subrange(i as int, i + p@.len()));
                }
                assert(rest.drop_first() =~= s@.skip(i + 1));
                assert(rest[0] == s@[i as int]);
                assert(out@.push(s@[i as int]) + replace_all(s@.skip(i + 1), p@, r@) =~= out@ + replace_all(rest, p@, r@));
            }
            out.push(s[i]);
            i = i + 1;
        }
    }
    proof {
        assert(s@.skip(i as int) =~= Seq::<char>::empty());
        assert(out@ + Seq::<char>::empty() =~= out@);
    }
    out
}

} // verus!
