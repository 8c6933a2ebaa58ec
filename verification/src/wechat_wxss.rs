//! Per-page WXSS from SFC style slices.
//!
//! The browser style bundle holds every SFC `<style>` plus the shared design
//! layers. A WeChat page must not replay the whole bundle, so the bundle is
//! split on the `/* <source path> */` comments that precede each SFC's rules;
//! slices under `/designs/` are shared and go to `app.wxss`.

use vstd::prelude::*;
use crate::text::{
    chars_eq, contains, contains_seq, ends_with, from_chars, has_prefix, has_suffix, lower,
    lower_exec, posix, push_all, replace_char_exec, starts_with, to_chars, trim, trim_chars,
};

verus! {

/// CSS inputs for one WeChat pack.
#[derive(Debug, Clone)]
pub struct PackStyle {
    /// Shared layers (utility classes, design tokens, `/designs` styles) for `app.wxss`.
    pub shared: String,
    /// (source path, CSS) for each SFC slice of the style layer.
    pub file_slices: Vec<(String, String)>,
    /// The whole style layer when it has no per-file comments.
    pub undivided: String,
}

/// `s` without one trailing carriage return.
pub open spec fn strip_cr(s: Seq<char>) -> Seq<char> {
    if s.len() > 0 && s.last() == '\r' {
        s.drop_last()
    } else {
        s
    }
}

/// Finished lines and the line in progress after reading `s`.
pub open spec fn lines_state(s: Seq<char>) -> (Seq<Seq<char>>, Seq<char>)
    decreases s.len(),
{
    if s.len() == 0 {
        (Seq::empty(), Seq::empty())
    } else {
        let (ls, cur) = lines_state(s.drop_last());
        if s.last() == '\n' {
            (ls.push(strip_cr(cur)), Seq::empty())
        } else {
            (ls, cur.push(s.last()))
        }
    }
}

/// The lines of `s` (`str::lines`): split after each `\n`, the `\n` and a
/// `\r` before it dropped; a last line without `\n` is kept as it is.
pub open spec fn lines(s: Seq<char>) -> Seq<Seq<char>> {
    let (ls, cur) = lines_state(s);
    if cur.len() > 0 {
        ls.push(cur)
    } else {
        ls
    }
}

/// The lines of `s`.
pub fn split_lines(s: &[char]) -> (r: Vec<Vec<char>>)
    ensures
        r@.map_values(|v: Vec<char>| v@) == lines(s@),
{
    let mut out: Vec<Vec<char>> = Vec::new();
    let mut cur: Vec<char> = Vec::new();
    let mut i: usize = 0;
    proof {
        assert(s@.take(0) =~= Seq::<char>::empty());
        assert(out@.map_values(|v: Vec<char>| v@) =~= Seq::<Seq<char>>::empty());
    }
    while i < s.len()
        invariant
            i <= s.len(),
            (out@.map_values(|v: Vec<char>| v@), cur@) == lines_state(s@.take(i as int)),
        decreases s.len() - i,
    {
        proof {
            assert(s@.take(i + 1).drop_last() =~= s@.take(i as int));
        }
        let c = s[i];
        if c == '\n' {
            let ghost before = out@.map_values(|v: Vec<char>| v@);
            let ghost cv = cur@;
            let mut line = Vec::new();
            std::mem::swap(&mut line, &mut cur);
            if line.len() > 0 && line[line.len() - 1] == '\r' {
                line.pop();
            }
            out.push(line);
            proof {
                assert(out@.map_values(|v: Vec<char>| v@) =~= before.push(strip_cr(cv)));
                assert(cur@ =~= Seq::<char>::empty());
            }
        } else {
            cur.push(c);
        }
        i = i + 1;
    }
    proof {
        assert(s@.take(s.len() as int) =~= s@);
    }
    if cur.len() > 0 {
        let ghost before = out@.map_values(|v: Vec<char>| v@);
        out.push(cur);
        proof {
            assert(out@.map_values(|v: Vec<char>| v@) =~= before.push(lines_state(s@).1));
        }
    }
    out
}

/// A style-layer banner: `/* vmz style layer..`.
pub open spec fn layer_comment(line: Seq<char>) -> bool {
    has_prefix(trim(line), "/* vmz style layer"@)
}

/// Whether a line is a style-layer banner.
pub fn is_layer_comment(line: &[char]) -> (r: bool)
    ensures
        r == layer_comment(line@),
{
    let t = trim_chars(line);
    let p = to_chars("/* vmz style layer");
    starts_with(t.as_slice(), p.as_slice())
}

/// The source path named by a `/* path */` comment line: the trimmed inside
/// of the comment, with `/` separators, when it looks like a path.
pub open spec fn comment_path(line: Seq<char>) -> Option<Seq<char>> {
    let t = trim(line);
    if layer_comment(line) || !has_prefix(t, "/*"@) || !has_suffix(t, "*/"@) {
        None
    } else {
        let inner = trim(t.subrange(2, t.len() - 2));
        if inner.len() == 0 {
            None
        } else if contains_seq(inner, ".vmz"@) || contains_seq(inner, ".scss"@) || contains_seq(inner, ".css"@)
            || inner.contains('/') || inner.contains('\\') {
            Some(posix(inner))
        } else {
            None
        }
    }
}

/// A line whose comment delimiters overlap (`/*/`): reading its inside fails.
pub open spec fn overlapping_comment(line: Seq<char>) -> bool {
    trim(line) == "/*/"@
}

/// The source path of a `/* path */` comment line, if it is one.
pub fn file_comment(line: &[char]) -> (r: Option<Vec<char>>)
    requires
        !overlapping_comment(line@),
    ensures
        match r {
            Some(p) => comment_path(line@) == Some(p@),
            None => comment_path(line@) is None,
        },
{
    let t = trim_chars(line);
    if is_layer_comment(line) {
        return None;
    }
    let open = to_chars("/*");
    let close = to_chars("*/");
    if !starts_with(t.as_slice(), open.as_slice()) || !ends_with(t.as_slice(), close.as_slice()) {
        return None;
    }
    proof {
        reveal_strlit("/*");
        reveal_strlit("*/");
        reveal_strlit("/*/");
        assert(open@ =~= seq!['/', '*']);
        assert(close@ =~= seq!['*', '/']);
        assert(t@.take(2)[0] == t@[0] && t@.take(2)[1] == t@[1]);
        let n = t@.len();
        assert(t@.skip(n - 2)[0] == t@[n - 2] && t@.skip(n - 2)[1] == t@[n - 1]);
        if t.len() == 3 {
            assert(t@ =~= seq!['/', '*', '/']);
            assert("/*/"@ =~= seq!['/', '*', '/']);
        }
    }
    let mut mid: Vec<char> = Vec::new();
    let mut i: usize = 2;
    while i < t.len() - 2
        invariant
            4 <= t.len(),
            2 <= i <= t.len() - 2,
            mid@ == t@.subrange(2, i as int),
        decreases t.len() - 2 - i,
    {
        mid.push(t[i]);
        proof {
            assert(t@.subrange(2, i + 1) =~= t@.subrange(2, i as int).push(t@[i as int]));
        }
        i = i + 1;
    }
    let inner = trim_chars(mid.as_slice());
    if inner.len() == 0 {
        return None;
    }
    let vmz = to_chars(".vmz");
    let scss = to_chars(".scss");
    let css = to_chars(".css");
    if contains(inner.as_slice(), vmz.as_slice()) || contains(inner.as_slice(), scss.as_slice())
        || contains(inner.as_slice(), css.as_slice()) || crate::text::has_char(inner.as_slice(), '/')
        || crate::text::has_char(inner.as_slice(), '\\') {
        Some(replace_char_exec(inner.as_slice(), '\\', '/'))
    } else {
        None
    }
}


/// Close the current slice: keep it (trimmed) when it has a path and text.
pub open spec fn flushed(st: (Option<Seq<char>>, Seq<char>, Seq<(Seq<char>, Seq<char>)>)) -> Seq<(Seq<char>, Seq<char>)> {
    match st.0 {
        Some(p) => if trim(st.1).len() > 0 {
            st.2.push((p, trim(st.1)))
        } else {
            st.2
        },
        None => st.2,
    }
}

/// Read one line: a path comment starts a new slice; other lines go to the
/// current slice, if any.
pub open spec fn slice_step(
    st: (Option<Seq<char>>, Seq<char>, Seq<(Seq<char>, Seq<char>)>),
    line: Seq<char>,
) -> (Option<Seq<char>>, Seq<char>, Seq<(Seq<char>, Seq<char>)>) {
    match comment_path(line) {
        Some(p) => (Some(p), Seq::empty(), flushed(st)),
        None => if st.0 is Some {
            (st.0, st.1 + line + seq!['\n'], st.2)
        } else {
            st
        },
    }
}

/// Slicing state after reading `ls`.
pub open spec fn slices_state(ls: Seq<Seq<char>>) -> (Option<Seq<char>>, Seq<char>, Seq<(Seq<char>, Seq<char>)>)
    decreases ls.len(),
{
    if ls.len() == 0 {
        (None, Seq::empty(), Seq::empty())
    } else {
        slice_step(slices_state(ls.drop_last()), ls.last())
    }
}

/// The (source path, CSS) slices of a style layer.
pub open spec fn file_slices_of(text: Seq<char>) -> Seq<(Seq<char>, Seq<char>)> {
    flushed(slices_state(lines(text)))
}

/// Slices as plain values.
pub open spec fn slice_views(v: Seq<(String, String)>) -> Seq<(Seq<char>, Seq<char>)> {
    v.map_values(|p: (String, String)| (p.0@, p.1@))
}

/// Close the current slice into `out` (kept when it has a path and text).
pub fn flush_slice(current_path: &mut Option<Vec<char>>, buf: &mut Vec<char>, out: &mut Vec<(String, String)>)
    ensures
        *final(current_path) is None,
        final(buf)@.len() == 0,
        slice_views(final(out)@) == flushed(
            (
                match *old(current_path) {
                    Some(p) => Some(p@),
                    None => None,
                },
                old(buf)@,
                slice_views(old(out)@),
            ),
        ),
{
    let mut taken: Option<Vec<char>> = None;
    std::mem::swap(&mut taken, current_path);
    match taken {
        Some(p) => {
            let body = trim_chars(buf.as_slice());
            if body.len() > 0 {
                let ghost before = slice_views(out@);
                out.push((from_chars(p.as_slice()), from_chars(body.as_slice())));
                proof {
                    assert(slice_views(out@) =~= before.push((p@, body@)));
                }
            }
        },
        None => {},
    }
    buf.clear();
}

/// Split a style layer into per-source slices.
pub fn split_file_slices(text: &str) -> (r: Vec<(String, String)>)
    requires
        forall|i: int| 0 <= i < lines(text@).len() ==> !overlapping_comment(#[trigger] lines(text@)[i]),
    ensures
        slice_views(r@) == file_slices_of(text@),
{
    let chars = to_chars(text);
    let ls = split_lines(chars.as_slice());
    let ghost lv = ls@.map_values(|v: Vec<char>| v@);
    let mut out: Vec<(String, String)> = Vec::new();
    let mut current: Option<Vec<char>> = None;
    let mut buf: Vec<char> = Vec::new();
    let mut i: usize = 0;
    proof {
        assert(lv.take(0) =~= Seq::<Seq<char>>::empty());
        assert(slice_views(out@) =~= Seq::<(Seq<char>, Seq<char>)>::empty());
    }
    while i < ls.len()
        invariant
            i <= ls.len(),
            lv == ls@.map_values(|v: Vec<char>| v@),
            lv == lines(text@),
            forall|k: int| 0 <= k < lv.len() ==> !overlapping_comment(#[trigger] lv[k]),
            ((match current {
                Some(p) => Some(p@),
                None => None,
            }), buf@, slice_views(out@)) == slices_state(lv.take(i as int)),
        decreases ls.len() - i,
    {
        proof {
            assert(lv.take(i + 1).drop_last() =~= lv.take(i as int));
            assert(lv.take(i + 1).last() == lv[i as int]);
            assert(!overlapping_comment(lv[i as int]));
        }
        let line = &ls[i];
        match file_comment(line.as_slice()) {
            Some(path) => {
                flush_slice(&mut current, &mut buf, &mut out);
                current = Some(path);
                proof {
                    assert(buf@ =~= Seq::<char>::empty());
                }
            },
            None => {
                if current.is_some() {
                    push_all(&mut buf, line.as_slice());
                    buf.push('\n');
                }
            },
        }
        i = i + 1;
    }
    proof {
        assert(lv.take(ls.len() as int) =~= lv);
    }
    flush_slice(&mut current, &mut buf, &mut out);
    out
}

/// A slice under `/designs/` (case-insensitive) is shared by every page.
pub open spec fn shared_style_path(path: Seq<char>) -> bool {
    contains_seq(lower(posix(path)), "/designs/"@)
}

/// Whether a slice path is a shared design layer.
pub fn is_shared_style_path(path: &str) -> (r: bool)
    ensures
        r == shared_style_path(path@),
{
    let v = to_chars(path);
    let p = replace_char_exec(v.as_slice(), '\\', '/');
    let l = lower_exec(p.as_slice());
    let d = to_chars("/designs/");
    contains(l.as_slice(), d.as_slice())
}

/// A page source and a slice path name the same file: equal, or one a
/// suffix of the other, ignoring ASCII case and separator style.
pub open spec fn same_source(a: Seq<char>, b: Seq<char>) -> bool {
    let la = lower(posix(a));
    let lb = lower(posix(b));
    la == lb || has_suffix(la, lb) || has_suffix(lb, la)
}

/// Whether a page source and a slice path name the same file.
pub fn paths_match(source: &str, comment_path: &str) -> (r: bool)
    ensures
        r == same_source(source@, comment_path@),
{
    let a = to_chars(source);
    let b = to_chars(comment_path);
    let pa = replace_char_exec(a.as_slice(), '\\', '/');
    let pb = replace_char_exec(b.as_slice(), '\\', '/');
    let la = lower_exec(pa.as_slice());
    let lb = lower_exec(pb.as_slice());
    chars_eq(la.as_slice(), lb.as_slice()) || ends_with(la.as_slice(), lb.as_slice()) || ends_with(
        lb.as_slice(),
        la.as_slice(),
    )
}

/// The CSS of one page: the whole layer when it was not sliced, else the
/// first non-shared slice whose path matches the page source, else nothing.
pub open spec fn page_css_of(style: PackStyle, source: Seq<char>) -> Seq<char> {
    let sl = slice_views(style.file_slices@);
    if sl.len() == 0 {
        style.undivided@
    } else if exists|i: int| 0 <= i < sl.len() && !shared_style_path(sl[i].0) && same_source(posix(source), sl[i].0) {
        let i = choose|i: int|
            0 <= i < sl.len() && !shared_style_path(sl[i].0) && same_source(posix(source), sl[i].0) && forall|k: int|
                0 <= k < i ==> !(!shared_style_path(#[trigger] sl[k].0) && same_source(posix(source), sl[k].0));
        sl[i].1
    } else {
        Seq::empty()
    }
}

/// CSS for one page SFC.
pub fn page_css(style: &PackStyle, source: &str) -> (r: String)
    ensures
        r@ == page_css_of(*style, source@),
{
    if style.file_slices.len() == 0 {
        return style.undivided.clone();
    }
    let ghost sl = slice_views(style.file_slices@);
    let sv = to_chars(source);
    let src_v = replace_char_exec(sv.as_slice(), '\\', '/');
    let src = from_chars(src_v.as_slice());
    let mut i: usize = 0;
    while i < style.file_slices.len()
        invariant
            i <= style.file_slices.len(),
            sl == slice_views(style.file_slices@),
            src@ == posix(source@),
            forall|k: int| 0 <= k < i ==> !(!shared_style_path(#[trigger] sl[k].0) && same_source(posix(source@), sl[k].0)),
        decreases style.file_slices.len() - i,
    {
        let (path, css) = (&style.file_slices[i].0, &style.file_slices[i].1);
        if !is_shared_style_path(path.as_str()) && paths_match(src.as_str(), path.as_str()) {
            proof {
                let j = i as int;
                assert(sl[j].0 == path@);
                assert(0 <= j < sl.len() && !shared_style_path(sl[j].0) && same_source(posix(source@), sl[j].0) && forall|k: int|
                    0 <= k < j ==> !(!shared_style_path(#[trigger] sl[k].0) && same_source(posix(source@), sl[k].0)));
                let c = choose|c: int|
                    0 <= c < sl.len() && !shared_style_path(sl[c].0) && same_source(posix(source@), sl[c].0) && forall|k: int|
                        0 <= k < c ==> !(!shared_style_path(#[trigger] sl[k].0) && same_source(posix(source@), sl[k].0));
                if c < j {
                    assert(!(!shared_style_path(sl[c].0) && same_source(posix(source@), sl[c].0)));
                } else if c > j {
                    assert(!(!shared_style_path(sl[j].0) && same_source(posix(source@), sl[j].0)));
                }
            }
            return css.clone();
        }
        proof {
            assert(sl[i as int].0 == path@);
        }
        i = i + 1;
    }
    String::new()
}

/// The style layer to slice: the SFC style bundle when it has text, else
/// the project stylesheet when it has text and no `@import`, else nothing.
pub open spec fn style_layer_of(style: Option<Seq<char>>, entry: Option<Seq<char>>) -> Seq<char> {
    if style is Some && trim(style->0).len() > 0 {
        style->0
    } else if entry is Some && trim(entry->0).len() > 0 && !contains_seq(entry->0, "@import"@) {
        entry->0
    } else {
        Seq::empty()
    }
}

/// Choose the style layer from the texts of `vmz-style.css` and `vmz.css`
/// (`None` where a file could not be read).
pub fn choose_style_layer(style: Option<String>, entry: Option<String>) -> (r: String)
    ensures
        r@ == style_layer_of(opt_text(style), opt_text(entry)),
{
    match style {
        Some(s) => {
            let v = to_chars(s.as_str());
            if trim_chars(v.as_slice()).len() > 0 {
                return s;
            }
        },
        None => {},
    }
    match entry {
        Some(e) => {
            let v = to_chars(e.as_str());
            let imp = to_chars("@import");
            if trim_chars(v.as_slice()).len() > 0 && !contains(v.as_slice(), imp.as_slice()) {
                return e;
            }
        },
        None => {},
    }
    String::new()
}

/// The text of an optional string.
pub open spec fn opt_text(o: Option<String>) -> Option<Seq<char>> {
    match o {
        Some(s) => Some(s@),
        None => None,
    }
}

/// Texts that have something besides whitespace, in order.
pub open spec fn non_blank(parts: Seq<Option<Seq<char>>>) -> Seq<Seq<char>>
    decreases parts.len(),
{
    if parts.len() == 0 {
        Seq::empty()
    } else {
        let rest = non_blank(parts.drop_last());
        match parts.last() {
            Some(t) => if trim(t).len() > 0 {
                rest.push(t)
            } else {
                rest
            },
            None => rest,
        }
    }
}

/// CSS of the shared slices, in order.
pub open spec fn shared_slices(sl: Seq<(Seq<char>, Seq<char>)>) -> Seq<Seq<char>>
    decreases sl.len(),
{
    if sl.len() == 0 {
        Seq::empty()
    } else {
        let rest = shared_slices(sl.drop_last());
        if shared_style_path(sl.last().0) {
            rest.push(sl.last().1)
        } else {
            rest
        }
    }
}

/// The pack style from the texts of the utility layer, the design-token
/// layer and the style layer: shared layers first (non-blank), then the
/// shared slices, joined by newlines; the slices, or the undivided layer
/// when it has none.
pub fn pack_style(tw: Option<String>, designs: Option<String>, style_text: String) -> (r: PackStyle)
    requires
        forall|i: int| 0 <= i < lines(style_text@).len() ==> !overlapping_comment(#[trigger] lines(style_text@)[i]),
    ensures
        slice_views(r.file_slices@) == file_slices_of(style_text@),
        r.undivided@ == if file_slices_of(style_text@).len() == 0 {
            style_text@
        } else {
            Seq::<char>::empty()
        },
        r.shared@ == crate::text::join(
            non_blank(seq![opt_text(tw), opt_text(designs)]) + if file_slices_of(style_text@).len() == 0 {
                Seq::<Seq<char>>::empty()
            } else {
                shared_slices(file_slices_of(style_text@))
            },
            seq!['\n'],
        ),
{
    let ghost tw_v = opt_text(tw);
    let ghost designs_v = opt_text(designs);
    let mut parts: Vec<String> = Vec::new();
    proof {
        assert(seq![tw_v].drop_last() =~= Seq::<Option<Seq<char>>>::empty());
        assert(seq![tw_v].last() == tw_v);
        assert(seq![tw_v, designs_v].drop_last() =~= seq![tw_v]);
        assert(seq![tw_v, designs_v].last() == designs_v);
        assert(non_blank(Seq::<Option<Seq<char>>>::empty()) =~= Seq::<Seq<char>>::empty());
        assert(crate::order::texts(parts@) =~= Seq::<Seq<char>>::empty());
    }
    match tw {
        Some(t) => {
            let v = to_chars(t.as_str());
            if trim_chars(v.as_slice()).len() > 0 {
                parts.push(t);
                proof {
                    assert(crate::order::texts(parts@) =~= seq![tw_v->0]);
                }
            }
        },
        None => {},
    }
    proof {
        assert(crate::order::texts(parts@) =~= non_blank(seq![tw_v]));
    }
    let ghost mid = crate::order::texts(parts@);
    match designs {
        Some(t) => {
            let v = to_chars(t.as_str());
            if trim_chars(v.as_slice()).len() > 0 {
                parts.push(t);
                proof {
                    assert(crate::order::texts(parts@) =~= mid.push(designs_v->0));
                }
            }
        },
        None => {},
    }
    proof {
        assert(crate::order::texts(parts@) =~= non_blank(seq![tw_v, designs_v]));
    }
    let slices = split_file_slices(style_text.as_str());
    let undivided;
    if slices.len() == 0 {
        undivided = style_text;
    } else {
        undivided = String::new();
        let ghost sl = slice_views(slices@);
        let ghost base = crate::order::texts(parts@);
        let mut i: usize = 0;
        proof {
            assert(sl.take(0) =~= Seq::<(Seq<char>, Seq<char>)>::empty());
            assert(crate::order::texts(parts@) =~= base + shared_slices(sl.take(0)));
        }
        while i < slices.len()
            invariant
                i <= slices.len(),
                sl == slice_views(slices@),
                crate::order::texts(parts@) == base + shared_slices(sl.take(i as int)),
            decreases slices.len() - i,
        {
            proof {
                assert(sl.take(i + 1).drop_last() =~= sl.take(i as int));
                assert(sl.take(i + 1).last() == sl[i as int]);
            }
            if is_shared_style_path(slices[i].0.as_str()) {
                let ghost before = crate::order::texts(parts@);
                parts.push(slices[i].1.clone());
                proof {
                    assert(crate::order::texts(parts@) =~= before.push(sl[i as int].1));
                }
            }
            i = i + 1;
        }
        proof {
            assert(sl.take(slices.len() as int) =~= sl);
        }
    }
    let mut sep: Vec<char> = Vec::new();
    sep.push('\n');
    let mut shared: Vec<char> = Vec::new();
    crate::text::push_join(&mut shared, parts.as_slice(), sep.as_slice());
    proof {
        assert(sep@ =~= seq!['\n']);
        assert(shared@ =~= crate::text::join(crate::order::texts(parts@), seq!['\n']));
        if slices.len() == 0 {
            assert(crate::order::texts(parts@) =~= non_blank(seq![tw_v, designs_v]) + Seq::<Seq<char>>::empty());
        }
    }
    PackStyle { shared: from_chars(shared.as_slice()), file_slices: slices, undivided }
}
} // verus!
