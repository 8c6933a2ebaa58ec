//! Import rewriting of emitted modules: a virtual specifier (`vmz:runtime`)
//! becomes the relative path from the emitting file to its target.

use vstd::prelude::*;
use crate::order::texts;
use crate::text::{chars_eq, from_chars, has_prefix, join, push_all, push_str, replace_all, replace_char, replace_char_exec, replace_text, starts_with, to_chars};

verus! {

/// The components of a path as `Path::components` yields them: whether each
/// is the current directory `.`, and its text.
pub uninterp spec fn path_components(p: Seq<char>) -> Seq<(bool, Seq<char>)>;

/// The parent of a path (`Path::parent`) as text, when it has one.
pub uninterp spec fn path_parent(p: Seq<char>) -> Option<Seq<char>>;

/// Components as plain values.
pub open spec fn comps_view(v: Seq<(bool, String)>) -> Seq<(bool, Seq<char>)> {
    v.map_values(|c: (bool, String)| (c.0, c.1@))
}

/// `Path::components` of `p`, each component as (is `.`, text). The
/// contract names the result; how the standard library splits and
/// normalizes a path is not stated.
#[verifier::external_body]
fn components(p: &str) -> (r: Vec<(bool, String)>)
    ensures
        comps_view(r@) == path_components(p@),
{
    std::path::Path::new(p).components().map(
        |c| (c == std::path::Component::CurDir, c.as_os_str().to_string_lossy().into_owned()),
    ).collect()
}

/// `Path::parent` of `p`, as text. The contract names the result; which
/// paths have a parent, and what it is, is not stated.
#[verifier::external_body]
fn parent_of(p: &str) -> (r: Option<String>)
    ensures
        match r {
            Some(q) => path_parent(p@) == Some(q@),
            None => path_parent(p@) is None,
        },
{
    std::path::Path::new(p).parent().map(|q| q.to_string_lossy().into_owned())
}

/// The directory parts of the importing side: components other than `.`,
/// with `\` as `/`, empty ones left out.
pub open spec fn dir_parts(cs: Seq<(bool, Seq<char>)>) -> Seq<Seq<char>>
    decreases cs.len(),
{
    if cs.len() == 0 {
        Seq::empty()
    } else {
        let rest = dir_parts(cs.drop_last());
        let t = replace_char(cs.last().1, '\\', '/');
        if cs.last().0 || t.len() == 0 {
            rest
        } else {
            rest.push(t)
        }
    }
}

/// The parts of the target: every component, with `\` as `/`.
pub open spec fn target_parts(cs: Seq<(bool, Seq<char>)>) -> Seq<Seq<char>> {
    cs.map_values(|c: (bool, Seq<char>)| replace_char(c.1, '\\', '/'))
}

/// The length of the common prefix of two part lists.
pub open spec fn common_len(a: Seq<Seq<char>>, b: Seq<Seq<char>>) -> nat
    decreases a.len(),
{
    if a.len() == 0 || b.len() == 0 || a[0] != b[0] {
        0
    } else {
        1 + common_len(a.drop_first(), b.drop_first())
    }
}

/// The relative path from directory parts `from` to target parts `to`: one
/// `..` per part of `from` past the common prefix, then the rest of `to`,
/// joined by `/` (`.` when nothing remains).
pub open spec fn rel_path(from: Seq<Seq<char>>, to: Seq<Seq<char>>) -> Seq<char> {
    let i = common_len(from, to) as int;
    let out = Seq::new((from.len() - i) as nat, |k: int| ".."@) + to.skip(i);
    if out.len() == 0 {
        "."@
    } else {
        join(out, "/"@)
    }
}

/// The importing file's directory parts (`.` for a file without a parent).
pub open spec fn from_dir_parts(from_file: Seq<char>) -> Seq<Seq<char>> {
    match path_parent(from_file) {
        Some(q) => dir_parts(path_components(q)),
        None => dir_parts(path_components("."@)),
    }
}

/// A relative ES module specifier: `.`, or one starting with `./` or `../`.
pub open spec fn relative_specifier(rel: Seq<char>) -> bool {
    rel == "."@ || has_prefix(rel, "./"@) || has_prefix(rel, "../"@)
}

/// The specifier that replaces a virtual one: the relative path, with `./`
/// in front unless it already is a relative specifier (so a target under a
/// dot directory such as `.vmz/` still gives `./.vmz/...`).
pub open spec fn import_spec(from_file: Seq<char>, target: Seq<char>) -> Seq<char> {
    let rel = rel_path(from_dir_parts(from_file), target_parts(path_components(target)));
    if relative_specifier(rel) {
        rel
    } else {
        "./"@ + rel
    }
}

/// `js` with the double- and then single-quoted virtual specifier replaced
/// by the relative import specifier.
pub open spec fn rewritten(js: Seq<char>, from_file: Seq<char>, virtual_spec: Seq<char>, target: Seq<char>) -> Seq<char> {
    let spec = import_spec(from_file, target);
    let dq = seq!['"'];
    let sq = seq!['\''];
    replace_all(replace_all(js, dq + virtual_spec + dq, dq + spec + dq), sq + virtual_spec + sq, sq + spec + sq)
}

fn dir_parts_exec(cs: &Vec<(bool, String)>) -> (r: Vec<String>)
    ensures
        texts(r@) == dir_parts(comps_view(cs@)),
{
    let ghost cv = comps_view(cs@);
    let mut r: Vec<String> = Vec::new();
    let mut i: usize = 0;
    while i < cs.len()
        invariant
            i <= cs.len(),
            cv == comps_view(cs@),
            texts(r@) == dir_parts(cv.take(i as int)),
        decreases cs.len() - i,
    {
        let c = to_chars(cs[i].1.as_str());
        let t = replace_char_exec(c.as_slice(), '\\', '/');
        proof {
            assert(cv.take(i + 1).drop_last() =~= cv.take(i as int));
            assert(cv.take(i + 1).last() == (cs@[i as int].0, cs@[i as int].1@));
        }
        if !cs[i].0 && t.len() > 0 {
            let ghost before = texts(r@);
            r.push(from_chars(t.as_slice()));
            proof {
                assert(texts(r@) =~= before.push(t@));
            }
        }
        i = i + 1;
    }
    proof {
        assert(cv.take(cs@.len() as int) =~= cv);
    }
    r
}

fn target_parts_exec(cs: &Vec<(bool, String)>) -> (r: Vec<String>)
    ensures
        texts(r@) == target_parts(comps_view(cs@)),
{
    let mut r: Vec<String> = Vec::new();
    let mut i: usize = 0;
    while i < cs.len()
        invariant
            i <= cs.len(),
            r@.len() == i,
            forall|k: int| 0 <= k < i ==> (#[trigger] r@[k])@ == replace_char(cs@[k].1@, '\\', '/'),
        decreases cs.len() - i,
    {
        let c = to_chars(cs[i].1.as_str());
        let t = replace_char_exec(c.as_slice(), '\\', '/');
        r.push(from_chars(t.as_slice()));
        i = i + 1;
    }
    proof {
        assert(texts(r@) =~= target_parts(comps_view(cs@)));
    }
    r
}

proof fn lemma_common_len(a: Seq<Seq<char>>, b: Seq<Seq<char>>, i: int)
    requires
        0 <= i <= a.len(),
        i <= b.len(),
        forall|k: int| 0 <= k < i ==> a[k] == b[k],
        i == a.len() || i == b.len() || a[i] != b[i],
    ensures
        common_len(a, b) == i,
    decreases i,
{
    if i > 0 {
        lemma_common_len(a.drop_first(), b.drop_first(), i - 1);
    }
}

fn rel_path_exec(from: &Vec<String>, to: &Vec<String>) -> (r: Vec<char>)
    ensures
        r@ == rel_path(texts(from@), texts(to@)),
{
    let ghost a = texts(from@);
    let ghost b = texts(to@);
    let mut i: usize = 0;
    while i < from.len() && i < to.len() && crate::order::text_order(&from[i], &to[i]) == 0
        invariant
            i <= from.len(),
            i <= to.len(),
            a == texts(from@),
            b == texts(to@),
            forall|k: int| 0 <= k < i ==> a[k] == b[k],
        decreases from.len() - i,
    {
        i = i + 1;
    }
    proof {
        lemma_common_len(a, b, i as int);
    }
    let mut out: Vec<String> = Vec::new();
    let mut k: usize = i;
    while k < from.len()
        invariant
            i <= k <= from.len(),
            texts(out@) == Seq::new((k - i) as nat, |q: int| ".."@),
        decreases from.len() - k,
    {
        let ghost before = texts(out@);
        out.push(String::from_str(".."));
        proof {
            assert(texts(out@) =~= before.push(".."@));
            assert(Seq::new((k + 1 - i) as nat, |q: int| ".."@) =~= Seq::new((k - i) as nat, |q: int| ".."@).push(".."@));
        }
        k = k + 1;
    }
    let ghost dots = Seq::new((from.len() - i) as nat, |q: int| ".."@);
    let mut m: usize = i;
    proof {
        assert(b.subrange(i as int, i as int) =~= Seq::<Seq<char>>::empty());
        assert(texts(out@) =~= dots + b.subrange(i as int, i as int));
    }
    while m < to.len()
        invariant
            i <= m <= to.len(),
            b == texts(to@),
            texts(out@) == dots + b.subrange(i as int, m as int),
        decreases to.len() - m,
    {
        let ghost before = texts(out@);
        out.push(to[m].clone());
        proof {
            assert(texts(out@) =~= before.push(to@[m as int]@));
            assert(b.subrange(i as int, m + 1) =~= b.subrange(i as int, m as int).push(b[m as int]));
        }
        m = m + 1;
    }
    let ghost want = Seq::new((a.len() - i) as nat, |q: int| ".."@) + b.skip(i as int);
    proof {
        assert(b.subrange(i as int, to@.len() as int) =~= b.skip(i as int));
        assert(texts(out@) =~= want);
    }
    let mut r: Vec<char> = Vec::new();
    if out.len() == 0 {
        push_str(&mut r, ".");
    } else {
        let sep = to_chars("/");
        crate::text::push_join(&mut r, out.as_slice(), sep.as_slice());
    }
    r
}

/// Rewrite the double- and single-quoted `virtual_spec` imports of `js`
/// to the relative path from `from_file`'s directory to `target`, as a
/// relative specifier (`./` in front unless it starts with `./` or `../`).
pub fn rewrite_virtual_import(js: &str, from_file: &str, virtual_spec: &str, target: &str) -> (r: String)
    ensures
        r@ == rewritten(js@, from_file@, virtual_spec@, target@),
{
    let from_cs = match parent_of(from_file) {
        Some(q) => components(q.as_str()),
        None => components("."),
    };
    let from_parts = dir_parts_exec(&from_cs);
    let target_cs = components(target);
    let to_parts = target_parts_exec(&target_cs);
    let rel = rel_path_exec(&from_parts, &to_parts);
    let dot = to_chars(".");
    let dot_slash = to_chars("./");
    let dot_dot_slash = to_chars("../");
    let is_rel = chars_eq(rel.as_slice(), dot.as_slice()) || starts_with(rel.as_slice(), dot_slash.as_slice())
        || starts_with(rel.as_slice(), dot_dot_slash.as_slice());
    let spec = if is_rel {
        rel
    } else {
        let mut v = to_chars("./");
        push_all(&mut v, rel.as_slice());
        v
    };
    let js_chars = to_chars(js);
    let mut dq: Vec<char> = vec!['"'];
    push_str(&mut dq, virtual_spec);
    dq.push('"');
    let mut dq_to: Vec<char> = vec!['"'];
    push_all(&mut dq_to, spec.as_slice());
    dq_to.push('"');
    let mut sq: Vec<char> = vec!['\''];
    push_str(&mut sq, virtual_spec);
    sq.push('\'');
    let mut sq_to: Vec<char> = vec!['\''];
    push_all(&mut sq_to, spec.as_slice());
    sq_to.push('\'');
    proof {
        assert(dq@ =~= seq!['"'] + virtual_spec@ + seq!['"']);
        assert(dq_to@ =~= seq!['"'] + spec@ + seq!['"']);
        assert(sq@ =~= seq!['\''] + virtual_spec@ + seq!['\'']);
        assert(sq_to@ =~= seq!['\''] + spec@ + seq!['\'']);
    }
    let once = replace_text(js_chars.as_slice(), dq.as_slice(), dq_to.as_slice());
    let twice = replace_text(once.as_slice(), sq.as_slice(), sq_to.as_slice());
    from_chars(twice.as_slice())
}

/// Rewrite the `vmz:runtime` imports of `js` to `runtime_file`.
pub fn rewrite_runtime_import(js: &str, from_file: &str, runtime_file: &str) -> (r: String)
    ensures
        r@ == rewritten(js@, from_file@, "vmz:runtime"@, runtime_file@),
{
    rewrite_virtual_import(js, from_file, "vmz:runtime", runtime_file)
}


/// The `/`-separated segments of a text (`a/b` gives `a`, `b`; `` gives one
/// empty segment).
pub open spec fn slash_segments(s: Seq<char>) -> Seq<Seq<char>>
    decreases s.len(),
{
    if s.len() == 0 {
        seq![Seq::empty()]
    } else {
        let p = slash_segments(s.drop_last());
        if s.last() == '/' {
            p.push(Seq::empty())
        } else {
            p.update(p.len() - 1, p.last().push(s.last()))
        }
    }
}

/// Follow relative segments from directory `dir`: `..` goes up one
/// directory, `.` stays, any other segment goes down into it.
pub open spec fn follow(dir: Seq<Seq<char>>, segs: Seq<Seq<char>>) -> Seq<Seq<char>>
    decreases segs.len(),
{
    if segs.len() == 0 {
        dir
    } else {
        let s0 = segs[0];
        let next = if s0 == ".."@ {
            if dir.len() > 0 {
                dir.drop_last()
            } else {
                dir
            }
        } else if s0 == "."@ {
            dir
        } else {
            dir.push(s0)
        };
        follow(next, segs.drop_first())
    }
}

proof fn lemma_slash_segments_len(s: Seq<char>)
    ensures
        slash_segments(s).len() > 0,
    decreases s.len(),
{
    if s.len() > 0 {
        lemma_slash_segments_len(s.drop_last());
    }
}

proof fn lemma_slash_segments_append(a: Seq<char>, b: Seq<char>)
    requires
        !b.contains('/'),
    ensures
        slash_segments(a + b) == slash_segments(a).update(
            slash_segments(a).len() - 1,
            slash_segments(a).last() + b,
        ),
    decreases b.len(),
{
    lemma_slash_segments_len(a);
    if b.len() == 0 {
        assert(a + b =~= a);
        assert(slash_segments(a).last() + b =~= slash_segments(a).last());
        assert(slash_segments(a).update(slash_segments(a).len() - 1, slash_segments(a).last()) =~= slash_segments(a));
    } else {
        let b0 = b.drop_last();
        assert(!b0.contains('/')) by {
            if b0.contains('/') {
                let k = choose|k: int| 0 <= k < b0.len() && b0[k] == '/';
                assert(b[k] == '/');
            }
        }
        assert(b.last() != '/') by {
            assert(b[b.len() - 1] == b.last());
        }
        lemma_slash_segments_append(a, b0);
        assert((a + b).drop_last() =~= a + b0);
        assert((a + b).last() == b.last());
        let p = slash_segments(a + b0);
        assert(p.last() =~= slash_segments(a).last() + b0);
        assert(p.last().push(b.last()) =~= slash_segments(a).last() + b);
        assert(slash_segments(a + b) =~= slash_segments(a).update(slash_segments(a).len() - 1, slash_segments(a).last() + b));
    }
}

/// Splitting parts joined by `/` at `/` gives the parts back.
proof fn lemma_split_join(parts: Seq<Seq<char>>)
    requires
        parts.len() > 0,
        forall|k: int| 0 <= k < parts.len() ==> !(#[trigger] parts[k]).contains('/'),
    ensures
        slash_segments(join(parts, "/"@)) == parts,
    decreases parts.len(),
{
    reveal_strlit("/");
    if parts.len() == 1 {
        lemma_slash_segments_append(Seq::empty(), parts[0]);
        assert(Seq::<char>::empty() + parts[0] =~= parts[0]);
        assert(slash_segments(Seq::<char>::empty()) =~= seq![Seq::<char>::empty()]);
        assert(Seq::<char>::empty() + parts[0] =~= parts[0]);
        assert(slash_segments(parts[0]) =~= parts);
    } else {
        let init = parts.drop_last();
        assert forall|k: int| 0 <= k < init.len() implies !(#[trigger] init[k]).contains('/') by {
            assert(init[k] == parts[k]);
        }
        lemma_split_join(init);
        let j = join(init, "/"@);
        assert(join(parts, "/"@) == j + "/"@ + parts.last());
        assert("/"@ =~= seq!['/']);
        let js = j + seq!['/'];
        assert(js.drop_last() =~= j);
        assert(slash_segments(js) == init.push(Seq::empty()));
        assert(!parts.last().contains('/')) by {
            assert(parts[parts.len() - 1] == parts.last());
        }
        lemma_slash_segments_append(js, parts.last());
        assert(Seq::<char>::empty() + parts.last() =~= parts.last());
        assert(init.push(Seq::empty()).update(init.len() as int, Seq::<char>::empty() + parts.last()) =~= parts);
    }
}

proof fn lemma_common_prefix(a: Seq<Seq<char>>, b: Seq<Seq<char>>)
    ensures
        common_len(a, b) <= a.len(),
        common_len(a, b) <= b.len(),
        a.take(common_len(a, b) as int) == b.take(common_len(a, b) as int),
    decreases a.len(),
{
    if a.len() == 0 || b.len() == 0 || a[0] != b[0] {
        assert(a.take(0) =~= b.take(0));
    } else {
        lemma_common_prefix(a.drop_first(), b.drop_first());
        let i = common_len(a, b) as int;
        assert forall|k: int| 0 <= k < i implies a.take(i)[k] == b.take(i)[k] by {
            if k > 0 {
                assert(a.drop_first().take(i - 1)[k - 1] == b.drop_first().take(i - 1)[k - 1]);
            }
        }
        assert(a.take(i) =~= b.take(i));
    }
}

proof fn lemma_follow_up(dir: Seq<Seq<char>>, n: nat, rest: Seq<Seq<char>>)
    requires
        n <= dir.len(),
    ensures
        follow(dir, Seq::new(n, |k: int| ".."@) + rest) == follow(dir.take(dir.len() - n), rest),
    decreases n,
{
    let ups = Seq::new(n, |k: int| ".."@);
    if n == 0 {
        assert(ups + rest =~= rest);
        assert(dir.take(dir.len() as int) =~= dir);
    } else {
        let segs = ups + rest;
        assert(segs[0] == ".."@);
        assert(segs.drop_first() =~= Seq::new((n - 1) as nat, |k: int| ".."@) + rest);
        lemma_follow_up(dir.drop_last(), (n - 1) as nat, rest);
        assert(dir.drop_last().take(dir.drop_last().len() - (n - 1)) =~= dir.take(dir.len() - n));
    }
}

proof fn lemma_follow_down(dir: Seq<Seq<char>>, rest: Seq<Seq<char>>)
    requires
        forall|k: int| 0 <= k < rest.len() ==> #[trigger] rest[k] != ".."@ && rest[k] != "."@,
    ensures
        follow(dir, rest) == dir + rest,
    decreases rest.len(),
{
    if rest.len() == 0 {
        assert(dir + rest =~= dir);
    } else {
        assert(rest[0] != ".."@ && rest[0] != "."@);
        let r1 = rest.drop_first();
        assert forall|k: int| 0 <= k < r1.len() implies #[trigger] r1[k] != ".."@ && r1[k] != "."@ by {
            assert(r1[k] == rest[k + 1]);
        }
        lemma_follow_down(dir.push(rest[0]), r1);
        assert(dir.push(rest[0]) + r1 =~= dir + rest);
    }
}

/// Relative path law: following the relative path from directory parts
/// `from` to target parts `to` (split at `/`; `..` up, `.` stay) from
/// `from` arrives at `to`, for targets whose parts are plain names (no `/`,
/// no `.` or `..` part).
pub proof fn lemma_rel_path_reaches_target(from: Seq<Seq<char>>, to: Seq<Seq<char>>)
    requires
        forall|k: int| 0 <= k < to.len() ==> !(#[trigger] to[k]).contains('/') && to[k] != ".."@ && to[k] != "."@,
    ensures
        follow(from, slash_segments(rel_path(from, to))) == to,
{
    lemma_common_prefix(from, to);
    let i = common_len(from, to) as int;
    let n = (from.len() - i) as nat;
    let ups = Seq::new(n, |k: int| ".."@);
    let rest = to.skip(i);
    let out = ups + rest;
    assert forall|k: int| 0 <= k < rest.len() implies #[trigger] rest[k] != ".."@ && rest[k] != "."@ by {
        assert(rest[k] == to[k + i]);
    }
    reveal_strlit("..");
    reveal_strlit(".");
    if out.len() == 0 {
        assert(slash_segments("."@) =~= seq!["."@]) by {
            assert("."@ =~= seq!['.']);
            assert(seq!['.'].drop_last() =~= Seq::<char>::empty());
            assert(slash_segments(Seq::<char>::empty()) =~= seq![Seq::<char>::empty()]);
        }
        assert(follow(from, seq!["."@]) == follow(from, seq!["."@].drop_first()));
        assert(seq!["."@].drop_first() =~= Seq::<Seq<char>>::empty());
        assert(from =~= from.take(i));
        assert(to =~= to.take(i));
    } else {
        assert forall|k: int| 0 <= k < out.len() implies !(#[trigger] out[k]).contains('/') by {
            if k < n {
                assert(out[k] == ".."@);
                assert(".."@ =~= seq!['.', '.']);
                if out[k].contains('/') {
                    let q = choose|q: int| 0 <= q < out[k].len() && out[k][q] == '/';
                }
            } else {
                assert(out[k] == to[k - n + i]);
            }
        }
        lemma_split_join(out);
        lemma_follow_up(from, n, rest);
        assert(from.take(from.len() - n) =~= from.take(i));
        lemma_follow_down(from.take(i), rest);
        assert(to.take(i) + to.skip(i) =~= to);
    }
}

} // verus!
