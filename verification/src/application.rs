//! Application bases: route-base normalisation, mount collisions, and the
//! relocation of logical `/`-rooted paths under an ApplicationBase.

use vstd::prelude::*;
use crate::text::{
    chars_eq, contains, contains_seq, from_chars, has_char, has_prefix, occurs_at, push_all,
    starts_with, to_chars, trim_end_char, trim_end_char_exec,
};

verus! {

/// `Ok`/`Err` texts of a `Result<String, String>`.
pub open spec fn text_result(r: Result<String, String>) -> Result<Seq<char>, Seq<char>> {
    match r {
        Ok(s) => Ok(s@),
        Err(e) => Err(e@),
    }
}

/// `prefix`, the raw input, then a closing backquote.
pub open spec fn quoted(prefix: Seq<char>, raw: Seq<char>) -> Seq<char> {
    prefix + raw + "`"@
}

/// An absolute path with a trailing `/` (and more than `/`) loses its
/// trailing slashes.
pub open spec fn trim_trailing(raw: Seq<char>) -> Seq<char> {
    if raw.len() > 1 && raw.last() == '/' {
        trim_end_char(raw, '/')
    } else {
        raw
    }
}

/// The outcome of `normalize_route_base(raw)`.
pub open spec fn route_base_result(raw: Seq<char>) -> Result<Seq<char>, Seq<char>> {
    if raw.len() == 0 {
        Err("routeBase must not be empty"@)
    } else if raw[0] != '/' {
        Err(quoted("routeBase must start with `/`, got `"@, raw))
    } else if raw.contains('?') || raw.contains('#') {
        Err(quoted("routeBase must not contain query/hash, got `"@, raw))
    } else if contains_seq(raw, seq!['/', '/']) {
        Err(quoted("routeBase must not contain empty segments, got `"@, raw))
    } else if trim_trailing(raw) != seq!['/'] && trim_trailing(raw).last() == '/' {
        Err(quoted("routeBase normalize failed for `"@, raw))
    } else {
        Ok(trim_trailing(raw))
    }
}

/// The outcome of normalising a logical (`/`-rooted) path.
pub open spec fn logical_path_result(raw: Seq<char>) -> Result<Seq<char>, Seq<char>> {
    if raw.len() == 0 {
        Err("logical path must not be empty"@)
    } else if raw[0] != '/' {
        Err(quoted("logical path must be absolute (start with `/`), got `"@, raw))
    } else if raw.contains('?') || raw.contains('#') {
        Err(quoted("logical path must not contain query/hash, got `"@, raw))
    } else if contains_seq(raw, seq!['/', '/']) {
        Err(quoted("logical path must not contain empty segments, got `"@, raw))
    } else {
        Ok(trim_trailing(raw))
    }
}

fn quoted_exec(prefix: &str, raw: &[char]) -> (r: String)
    ensures
        r@ == quoted(prefix@, raw@),
{
    let mut v = to_chars(prefix);
    push_all(&mut v, raw);
    let tick = to_chars("`");
    push_all(&mut v, tick.as_slice());
    from_chars(v.as_slice())
}

fn trim_trailing_exec(raw: &[char]) -> (r: Vec<char>)
    ensures
        r@ == trim_trailing(raw@),
{
    if raw.len() > 1 && raw[raw.len() - 1] == '/' {
        trim_end_char_exec(raw, '/')
    } else {
        let mut r: Vec<char> = Vec::new();
        push_all(&mut r, raw);
        r
    }
}

/// A path that starts with `/` and has no empty segment keeps its first
/// character when trailing slashes are dropped, and then ends in `/` only if
/// it is `/`.
proof fn lemma_trim_trailing_clean(raw: Seq<char>)
    requires
        raw.len() > 0,
        raw[0] == '/',
        !contains_seq(raw, seq!['/', '/']),
    ensures
        trim_trailing(raw).len() > 0,
        trim_trailing(raw)[0] == '/',
        trim_trailing(raw).len() <= raw.len(),
        trim_trailing(raw) == raw.take(trim_trailing(raw).len() as int),
        trim_trailing(raw) == seq!['/'] || trim_trailing(raw).last() != '/',
{
    if raw.len() > 1 && raw.last() == '/' {
        if raw[1] == '/' {
            assert(raw.subrange(0, 2) =~= seq!['/', '/']);
            assert(occurs_at(raw, seq!['/', '/'], 0));
        }
        crate::text::lemma_trim_end_keeps(raw, '/', 1);
        let t = trim_trailing(raw);
        assert(t[0] == raw.take(t.len() as int)[0]);
    } else {
        assert(raw.take(raw.len() as int) =~= raw);
        if raw.len() > 1 {
            if raw.last() == '/' {
            }
        } else {
            assert(raw =~= seq!['/']);
        }
    }
}

fn double_slash() -> (r: Vec<char>)
    ensures
        r@ == seq!['/', '/'],
{
    let mut v: Vec<char> = Vec::new();
    v.push('/');
    v.push('/');
    v
}

/// Normalise a mount base: absolute, no query/hash, no empty segment, no
/// trailing slash (except `/`).
pub fn normalize_route_base(raw: &str) -> (r: Result<String, String>)
    ensures
        text_result(r) == route_base_result(raw@),
{
    let v = to_chars(raw);
    if v.len() == 0 {
        return Err(String::from_str("routeBase must not be empty"));
    }
    if v[0] != '/' {
        return Err(quoted_exec("routeBase must start with `/`, got `", v.as_slice()));
    }
    if has_char(v.as_slice(), '?') || has_char(v.as_slice(), '#') {
        return Err(quoted_exec("routeBase must not contain query/hash, got `", v.as_slice()));
    }
    let dd = double_slash();
    if contains(v.as_slice(), dd.as_slice()) {
        return Err(quoted_exec("routeBase must not contain empty segments, got `", v.as_slice()));
    }
    let t = trim_trailing_exec(v.as_slice());
    proof {
        lemma_trim_trailing_clean(raw@);
    }
    let is_root = t.len() == 1 && t[0] == '/';
    proof {
        if is_root {
            assert(t@ =~= seq!['/']);
        }
    }
    if !is_root && t[t.len() - 1] == '/' {
        return Err(quoted_exec("routeBase normalize failed for `", v.as_slice()));
    }
    Ok(from_chars(t.as_slice()))
}

/// Normalise a logical path: absolute, no query/hash, no empty segment, no
/// trailing slash (except `/`).
pub fn normalize_logical_path(raw: &str) -> (r: Result<String, String>)
    ensures
        text_result(r) == logical_path_result(raw@),
{
    let v = to_chars(raw);
    if v.len() == 0 {
        return Err(String::from_str("logical path must not be empty"));
    }
    if v[0] != '/' {
        return Err(quoted_exec("logical path must be absolute (start with `/`), got `", v.as_slice()));
    }
    if has_char(v.as_slice(), '?') || has_char(v.as_slice(), '#') {
        return Err(quoted_exec("logical path must not contain query/hash, got `", v.as_slice()));
    }
    let dd = double_slash();
    if contains(v.as_slice(), dd.as_slice()) {
        return Err(quoted_exec("logical path must not contain empty segments, got `", v.as_slice()));
    }
    let t = trim_trailing_exec(v.as_slice());
    Ok(from_chars(t.as_slice()))
}


/// A normalised absolute path: starts with `/`, no query/hash, no empty
/// segment, no trailing `/` unless it is `/`.
pub open spec fn clean_path(s: Seq<char>) -> bool {
    &&& s.len() > 0
    &&& s[0] == '/'
    &&& !s.contains('?')
    &&& !s.contains('#')
    &&& !contains_seq(s, seq!['/', '/'])
    &&& (s == seq!['/'] || s.last() != '/')
}

proof fn lemma_prefix_keeps_clean(raw: Seq<char>, t: Seq<char>)
    requires
        t.len() <= raw.len(),
        t == raw.take(t.len() as int),
        !raw.contains('?'),
        !raw.contains('#'),
        !contains_seq(raw, seq!['/', '/']),
    ensures
        !t.contains('?'),
        !t.contains('#'),
        !contains_seq(t, seq!['/', '/']),
{
    if t.contains('?') {
        let i = choose|i: int| 0 <= i < t.len() && t[i] == '?';
        assert(raw[i] == '?');
    }
    if t.contains('#') {
        let i = choose|i: int| 0 <= i < t.len() && t[i] == '#';
        assert(raw[i] == '#');
    }
    if contains_seq(t, seq!['/', '/']) {
        let i = choose|i: int| occurs_at(t, seq!['/', '/'], i);
        assert(raw.subrange(i, i + 2) =~= t.subrange(i, i + 2));
        assert(occurs_at(raw, seq!['/', '/'], i));
    }
}

/// What normalisation accepts, it returns clean.
pub proof fn lemma_normalized_clean(raw: Seq<char>)
    ensures
        route_base_result(raw) is Ok ==> clean_path(route_base_result(raw)->Ok_0),
        logical_path_result(raw) is Ok ==> clean_path(logical_path_result(raw)->Ok_0),
{
    if raw.len() > 0 && raw[0] == '/' && !raw.contains('?') && !raw.contains('#') && !contains_seq(
        raw,
        seq!['/', '/'],
    ) {
        lemma_trim_trailing_clean(raw);
        lemma_prefix_keeps_clean(raw, trim_trailing(raw));
    }
}

/// A clean path normalises to itself, as a route base and as a logical path.
pub proof fn lemma_clean_fixed(s: Seq<char>)
    requires
        clean_path(s),
    ensures
        route_base_result(s) == Ok::<Seq<char>, Seq<char>>(s),
        logical_path_result(s) == Ok::<Seq<char>, Seq<char>>(s),
{
    if s.len() > 1 && s.last() == '/' {
        assert(s =~= seq!['/']);
    }
}

proof fn lemma_concat_clean(b: Seq<char>, l: Seq<char>)
    requires
        clean_path(b),
        clean_path(l),
        b != seq!['/'],
        l != seq!['/'],
    ensures
        clean_path(b + l),
{
    let s = b + l;
    if s.contains('?') {
        let i = choose|i: int| 0 <= i < s.len() && s[i] == '?';
        if i < b.len() {
            assert(b[i] == '?');
        } else {
            assert(l[i - b.len()] == '?');
        }
    }
    if s.contains('#') {
        let i = choose|i: int| 0 <= i < s.len() && s[i] == '#';
        if i < b.len() {
            assert(b[i] == '#');
        } else {
            assert(l[i - b.len()] == '#');
        }
    }
    if contains_seq(s, seq!['/', '/']) {
        let i = choose|i: int| occurs_at(s, seq!['/', '/'], i);
        assert(s.subrange(i, i + 2)[0] == '/' && s.subrange(i, i + 2)[1] == '/');
        assert(s[i] == '/' && s[i + 1] == '/');
        if i + 1 < b.len() {
            assert(b.subrange(i, i + 2) =~= seq!['/', '/']);
            assert(occurs_at(b, seq!['/', '/'], i));
        } else if i >= b.len() {
            assert(l.subrange(i - b.len(), i - b.len() + 2) =~= seq!['/', '/']);
            assert(occurs_at(l, seq!['/', '/'], i - b.len()));
        } else {
            assert(s[i] == b.last());
        }
    }
    assert(s.last() == l.last());
    assert(s[0] == b[0]);
    if s == seq!['/'] {
        assert(s.len() == 1);
    }
}

/// The outcome of `join_application_base(base, logical)`.
pub open spec fn join_result(base: Seq<char>, logical: Seq<char>) -> Result<Seq<char>, Seq<char>> {
    match route_base_result(base) {
        Err(e) => Err(e),
        Ok(b) => match logical_path_result(logical) {
            Err(e) => Err(e),
            Ok(l) => Ok(
                if b == seq!['/'] {
                    l
                } else if l == seq!['/'] {
                    b
                } else {
                    b + l
                },
            ),
        },
    }
}

/// The outcome of `strip_application_base(base, request)`.
pub open spec fn strip_result(base: Seq<char>, request: Seq<char>) -> Result<Option<Seq<char>>, Seq<char>> {
    match route_base_result(base) {
        Err(e) => Err(e),
        Ok(b) => match logical_path_result(request) {
            Err(e) => Err(e),
            Ok(r) => Ok(
                if b == seq!['/'] {
                    Some(r)
                } else if r == b {
                    Some(seq!['/'])
                } else if has_prefix(r, b.push('/')) {
                    Some(seq!['/'] + r.skip(b.len() as int + 1))
                } else {
                    None
                },
            ),
        },
    }
}

fn is_root_path(v: &[char]) -> (r: bool)
    ensures
        r == (v@ == seq!['/']),
{
    let r = v.len() == 1 && v[0] == '/';
    proof {
        if r {
            assert(v@ =~= seq!['/']);
        }
    }
    r
}

/// Join an ApplicationBase with a logical `/`-rooted path.
pub fn join_application_base(base: &str, logical_path: &str) -> (r: Result<String, String>)
    ensures
        text_result(r) == join_result(base@, logical_path@),
{
    let b = match normalize_route_base(base) {
        Ok(b) => b,
        Err(e) => return Err(e),
    };
    let l = match normalize_logical_path(logical_path) {
        Ok(l) => l,
        Err(e) => return Err(e),
    };
    let bv = to_chars(b.as_str());
    let lv = to_chars(l.as_str());
    if is_root_path(bv.as_slice()) {
        return Ok(l);
    }
    if is_root_path(lv.as_slice()) {
        return Ok(b);
    }
    let mut out = bv;
    push_all(&mut out, lv.as_slice());
    Ok(from_chars(out.as_slice()))
}

/// Strip an ApplicationBase from a request path, giving the logical path, or
/// `None` when the request lies outside the base.
pub fn strip_application_base(base: &str, request_path: &str) -> (r: Result<Option<String>, String>)
    ensures
        match r {
            Ok(Some(s)) => strip_result(base@, request_path@) == Ok::<Option<Seq<char>>, Seq<char>>(Some(s@)),
            Ok(None) => strip_result(base@, request_path@) == Ok::<Option<Seq<char>>, Seq<char>>(None),
            Err(e) => strip_result(base@, request_path@) == Err::<Option<Seq<char>>, Seq<char>>(e@),
        },
{
    let b = match normalize_route_base(base) {
        Ok(b) => b,
        Err(e) => return Err(e),
    };
    let q = match normalize_logical_path(request_path) {
        Ok(q) => q,
        Err(e) => return Err(e),
    };
    let bv = to_chars(b.as_str());
    let qv = to_chars(q.as_str());
    if is_root_path(bv.as_slice()) {
        return Ok(Some(q));
    }
    if chars_eq(qv.as_slice(), bv.as_slice()) {
        let mut root: Vec<char> = Vec::new();
        root.push('/');
        proof {
            assert(root@ =~= seq!['/']);
        }
        return Ok(Some(from_chars(root.as_slice())));
    }
    let mut prefix = to_chars(b.as_str());
    prefix.push('/');
    if starts_with(qv.as_slice(), prefix.as_slice()) {
        let mut out: Vec<char> = Vec::new();
        out.push('/');
        let mut i = prefix.len();
        while i < qv.len()
            invariant
                prefix.len() <= i <= qv.len(),
                out@ == seq!['/'] + qv@.subrange(prefix.len() as int, i as int),
            decreases qv.len() - i,
        {
            out.push(qv[i]);
            proof {
                assert(qv@.subrange(prefix.len() as int, i + 1) =~= qv@.subrange(prefix.len() as int, i as int).push(qv@[i as int]));
            }
            i = i + 1;
        }
        proof {
            assert(qv@.subrange(prefix.len() as int, qv.len() as int) =~= qv@.skip(bv.len() as int + 1));
        }
        return Ok(Some(from_chars(out.as_slice())));
    }
    Ok(None)
}

/// Relocation round trip: stripping the base from a joined path gives back
/// the normalised logical path.
pub proof fn lemma_strip_join_roundtrip(base: Seq<char>, logical: Seq<char>)
    requires
        join_result(base, logical) is Ok,
    ensures
        strip_result(base, join_result(base, logical)->Ok_0) == Ok::<Option<Seq<char>>, Seq<char>>(
            Some(logical_path_result(logical)->Ok_0),
        ),
{
    lemma_normalized_clean(base);
    lemma_normalized_clean(logical);
    let b = route_base_result(base)->Ok_0;
    let l = logical_path_result(logical)->Ok_0;
    let j = join_result(base, logical)->Ok_0;
    if b == seq!['/'] {
        lemma_clean_fixed(l);
    } else if l == seq!['/'] {
        lemma_clean_fixed(b);
    } else {
        lemma_concat_clean(b, l);
        lemma_clean_fixed(j);
        assert(j == b + l);
        assert(j != b);
        assert(j.take(b.len() as int + 1) =~= b.push('/'));
        assert(seq!['/'] + j.skip(b.len() as int + 1) =~= l);
    }
}

/// Two mount bases overlap: equal, one of them `/`, or one is a whole-segment
/// prefix of the other.
pub open spec fn bases_collide(a: Seq<char>, b: Seq<char>) -> bool {
    ||| a == b
    ||| a == seq!['/']
    ||| b == seq!['/']
    ||| (has_prefix(a, b) && a.len() > b.len() && a[b.len() as int] == '/')
    ||| (has_prefix(b, a) && b.len() > a.len() && b[a.len() as int] == '/')
}

/// Whether two normalised mount bases overlap.
pub fn route_bases_collide(a: &str, b: &str) -> (r: bool)
    ensures
        r == bases_collide(a@, b@),
{
    let av = to_chars(a);
    let bv = to_chars(b);
    if chars_eq(av.as_slice(), bv.as_slice()) {
        return true;
    }
    if is_root_path(av.as_slice()) || is_root_path(bv.as_slice()) {
        return true;
    }
    let (longer, shorter) = if av.len() >= bv.len() {
        (av, bv)
    } else {
        (bv, av)
    };
    starts_with(longer.as_slice(), shorter.as_slice()) && longer.len() > shorter.len()
        && longer[shorter.len()] == '/'
}

/// Overlap of mount bases does not depend on the order of the two.
pub proof fn lemma_collide_symmetric(a: Seq<char>, b: Seq<char>)
    ensures
        bases_collide(a, b) == bases_collide(b, a),
{
}

/// An application id: non-empty, ASCII letters, digits, `-`, `_` and `.` only.
pub open spec fn valid_application_id(id: Seq<char>) -> bool {
    id.len() > 0 && forall|i: int|
        0 <= i < id.len() ==> crate::text::is_ascii_alnum(#[trigger] id[i]) || id[i] == '-' || id[i]
            == '_' || id[i] == '.'
}

/// Whether `id` is a valid application id.
pub fn is_valid_application_id(id: &str) -> (r: bool)
    ensures
        r == valid_application_id(id@),
{
    let v = to_chars(id);
    if v.len() == 0 {
        return false;
    }
    let mut i: usize = 0;
    while i < v.len()
        invariant
            i <= v.len(),
            v@ == id@,
            forall|j: int|
                0 <= j < i ==> crate::text::is_ascii_alnum(#[trigger] v@[j]) || v@[j] == '-' || v@[j] == '_'
                    || v@[j] == '.',
        decreases v.len() - i,
    {
        let c = v[i];
        let ok = ('a' <= c && c <= 'z') || ('A' <= c && c <= 'Z') || ('0' <= c && c <= '9') || c == '-'
            || c == '_' || c == '.';
        if !ok {
            return false;
        }
        i = i + 1;
    }
    true
}

/// `n` occurs in `s` at byte `a` and at no byte before it.
pub open spec fn first_at(s: Seq<u8>, n: Seq<u8>, a: int) -> bool {
    crate::bytes::bytes_at(s, n, a) && forall|j: int| 0 <= j < a ==> !crate::bytes::bytes_at(s, n, j)
}

/// The byte span of the first occurrence of `needle` in the UTF-8 bytes of
/// `source`; `None` for an empty needle or no occurrence.
pub open spec fn first_span(source: Seq<char>, needle: Seq<char>) -> Option<(int, int)> {
    let s = vstd::utf8::encode_utf8(source);
    let n = vstd::utf8::encode_utf8(needle);
    if n.len() > 0 && crate::bytes::bytes_contain(s, n) {
        let a = choose|a: int| first_at(s, n, a);
        Some((a, a + n.len()))
    } else {
        None
    }
}

/// A span as plain integers.
pub open spec fn span_ints(r: Option<(u32, u32)>) -> Option<(int, int)> {
    match r {
        Some((a, b)) => Some((a as int, b as int)),
        None => None,
    }
}

/// The first byte span of `needle` in `source`: `(start, start + len)`, or
/// `None` for an empty needle or no occurrence.
pub fn find_span(source: &str, needle: &str) -> (r: Option<(u32, u32)>)
    requires
        vstd::utf8::encode_utf8(source@).len() <= u32::MAX,
    ensures
        span_ints(r) == first_span(source@, needle@),
        ({
            let s = vstd::utf8::encode_utf8(source@);
            let n = vstd::utf8::encode_utf8(needle@);
            match r {
                Some((a, b)) => n.len() > 0 && crate::bytes::bytes_at(s, n, a as int) && b == a + n.len()
                    && forall|j: int| 0 <= j < a ==> !crate::bytes::bytes_at(s, n, j),
                None => n.len() == 0 || !crate::bytes::bytes_contain(s, n),
            }
        }),
{
    let bytes = source.as_bytes();
    let n = needle.as_bytes();
    if n.len() == 0 {
        return None;
    }
    match crate::bytes::find_bytes_from(bytes, n, 0) {
        Some(start) => {
            proof {
                let sv = vstd::utf8::encode_utf8(source@);
                let nv = vstd::utf8::encode_utf8(needle@);
                assert(first_at(sv, nv, start as int));
                let c = choose|a: int| first_at(sv, nv, a);
                if c < start {
                    assert(!crate::bytes::bytes_at(sv, nv, c));
                } else if c > start {
                    assert(!crate::bytes::bytes_at(sv, nv, start as int));
                }
            }
            let a = start as u32;
            let b = (start + n.len()) as u32;
            Some((a, b))
        },
        None => None,
    }
}

/// Backslashes turned into `/`, trailing slashes dropped.
pub open spec fn normalized_dir(s: Seq<char>) -> Seq<char> {
    trim_end_char(crate::text::posix(s), '/')
}

/// A directory path with `/` separators and no trailing slash.
pub fn normalize_path(s: &str) -> (r: String)
    ensures
        r@ == normalized_dir(s@),
{
    let v = to_chars(s);
    let p = crate::text::replace_char_exec(v.as_slice(), '\\', '/');
    let t = trim_end_char_exec(p.as_slice(), '/');
    from_chars(t.as_slice())
}

/// A base path: `/` separators, a leading `/`, and no trailing slash unless it is `/`.
pub open spec fn normalized_mount_base(s: Seq<char>) -> Seq<char> {
    let b = crate::text::posix(s);
    if b.len() == 0 {
        seq!['/']
    } else {
        let c = if b[0] != '/' {
            seq!['/'] + b
        } else {
            b
        };
        if c.len() > 1 {
            trim_end_char(c, '/')
        } else {
            c
        }
    }
}

/// Normalise a base path for a dev server.
pub fn normalize_base(s: &str) -> (r: String)
    ensures
        r@ == normalized_mount_base(s@),
{
    let v = to_chars(s);
    let b = crate::text::replace_char_exec(v.as_slice(), '\\', '/');
    if b.len() == 0 {
        let mut root: Vec<char> = Vec::new();
        root.push('/');
        proof {
            assert(root@ =~= seq!['/']);
        }
        return from_chars(root.as_slice());
    }
    let mut c: Vec<char> = Vec::new();
    if b[0] != '/' {
        c.push('/');
    }
    push_all(&mut c, b.as_slice());
    proof {
        if b@[0] != '/' {
            assert(c@ =~= seq!['/'] + b@);
        } else {
            assert(c@ =~= b@);
        }
    }
    if c.len() > 1 {
        let t = trim_end_char_exec(c.as_slice(), '/');
        return from_chars(t.as_slice());
    }
    from_chars(c.as_slice())
}

/// The logical path of a public route of an application: `/` for a `.home`
/// route, `/<rest>` for `<app>.<rest>`, `/` for another public route, and
/// `None` for a route that is not public or is `<app>.` itself.
pub open spec fn route_logical_path(app: Seq<char>, route: Seq<char>, public: Seq<Seq<char>>) -> Option<Seq<char>> {
    let prefix = app.push('.');
    if !public.contains(route) {
        None
    } else if crate::text::has_suffix(route, ".home"@) {
        Some(seq!['/'])
    } else if has_prefix(route, prefix) {
        if route.len() == prefix.len() {
            None
        } else {
            Some(seq!['/'] + route.skip(prefix.len() as int))
        }
    } else {
        Some(seq!['/'])
    }
}

/// The logical path a cross-application link to `route_id` resolves to.
pub fn logical_path_for_route(application_id: &str, route_id: &str, public_contracts: &[String]) -> (r: Option<String>)
    ensures
        match r {
            Some(p) => route_logical_path(application_id@, route_id@, crate::order::texts(public_contracts@)) == Some(p@),
            None => route_logical_path(application_id@, route_id@, crate::order::texts(public_contracts@)) is None,
        },
{
    let route = to_chars(route_id);
    let ghost pubs = crate::order::texts(public_contracts@);
    let mut found = false;
    let mut i: usize = 0;
    while i < public_contracts.len()
        invariant
            i <= public_contracts.len(),
            route@ == route_id@,
            pubs == crate::order::texts(public_contracts@),
            found == exists|j: int| 0 <= j < i && pubs[j] == route_id@,
        decreases public_contracts.len() - i,
    {
        let c = to_chars(public_contracts[i].as_str());
        if chars_eq(c.as_slice(), route.as_slice()) {
            found = true;
        }
        proof {
            assert(pubs[i as int] == c@);
            if found {
                if pubs[i as int] != route_id@ {
                    let j = choose|j: int| 0 <= j < i && pubs[j] == route_id@;
                    assert(0 <= j < i + 1 && pubs[j] == route_id@);
                }
            } else {
                assert forall|j: int| 0 <= j < i + 1 implies pubs[j] != route_id@ by {
                    if j < i {
                    }
                }
            }
        }
        i = i + 1;
    }
    let mut root: Vec<char> = Vec::new();
    root.push('/');
    proof {
        assert(root@ =~= seq!['/']);
    }
    if !found {
        return None;
    }
    let home = to_chars(".home");
    if crate::text::ends_with(route.as_slice(), home.as_slice()) {
        return Some(from_chars(root.as_slice()));
    }
    let mut prefix = to_chars(application_id);
    prefix.push('.');
    if starts_with(route.as_slice(), prefix.as_slice()) {
        if route.len() == prefix.len() {
            return None;
        }
        let mut out = root;
        let mut k = prefix.len();
        while k < route.len()
            invariant
                prefix.len() <= k <= route.len(),
                out@ == seq!['/'] + route@.subrange(prefix.len() as int, k as int),
            decreases route.len() - k,
        {
            out.push(route[k]);
            proof {
                assert(route@.subrange(prefix.len() as int, k + 1) =~= route@.subrange(prefix.len() as int, k as int).push(route@[k as int]));
            }
            k = k + 1;
        }
        proof {
            assert(route@.subrange(prefix.len() as int, route.len() as int) =~= route@.skip(prefix.len() as int));
        }
        return Some(from_chars(out.as_slice()));
    }
    Some(from_chars(root.as_slice()))
}
} // verus!
