//! CSS custom properties for a whole Style Theme.
//!
//! Order: `:root` with the default table, then one
//! `@media (prefers-color-scheme: ..)` block per preference, then one
//! `[activationAttr="id"]` block per theme id, so an explicit attribute wins
//! over the OS preference.

use vstd::prelude::*;
use crate::designs::{
    css_var, first_table, leaf_views, path_of, resolved, theme_id_list, StyleTheme, StyleTokenLeaf,
    DesignsBundle,
};
use crate::order::texts;
use crate::text::{from_chars, push_all, push_str, to_chars};

verus! {

/// `  --vmz-..: value;\n` for each leaf.
pub open spec fn decl_lines(s: Seq<(Seq<Seq<char>>, Seq<char>)>) -> Seq<char>
    decreases s.len(),
{
    if s.len() == 0 {
        Seq::empty()
    } else {
        decl_lines(s.drop_last()) + seq![' ', ' '] + css_var(s.last().0) + seq![':', ' '] + s.last().1
            + seq![';', '\n']
    }
}

/// `selector {\n<declarations>}\n`, or nothing for no leaves.
pub open spec fn css_block(sel: Seq<char>, s: Seq<(Seq<Seq<char>>, Seq<char>)>) -> Seq<char> {
    if s.len() == 0 {
        Seq::empty()
    } else {
        sel + seq![' ', '{', '\n'] + decl_lines(s) + seq!['}', '\n']
    }
}

/// A blank line before a block unless it is the first output.
pub open spec fn gap(out: Seq<char>) -> Seq<char> {
    if out.len() == 0 {
        Seq::empty()
    } else {
        seq!['\n']
    }
}

/// `@media (prefers-color-scheme: `
pub open spec fn media_open() -> Seq<char> {
    seq!['@', 'm', 'e', 'd', 'i', 'a', ' ', '(', 'p', 'r', 'e', 'f', 'e', 'r', 's', '-', 'c', 'o', 'l', 'o', 'r', '-', 's', 'c', 'h', 'e', 'm', 'e', ':', ' ']
}

/// The `:root` block of the default table.
pub open spec fn root_css(theme: StyleTheme) -> Seq<char> {
    match first_table(theme.tables@, theme.default_id@) {
        Some(t) => css_block(seq![':', 'r', 'o', 'o', 't'], leaf_views(t.entries@)),
        None => Seq::empty(),
    }
}

/// `out` followed by one media block per preference pair whose theme resolves to leaves.
pub open spec fn media_css(theme: StyleTheme, out: Seq<char>, pairs: Seq<(Seq<char>, Seq<char>)>) -> Seq<char>
    decreases pairs.len(),
{
    if pairs.len() == 0 {
        out
    } else {
        let acc = media_css(theme, out, pairs.drop_last());
        let res = resolved(theme, pairs.last().1);
        if res.len() == 0 {
            acc
        } else {
            acc + gap(acc) + media_open() + pairs.last().0 + seq![')', ' ', '{', '\n'] + css_block(
                seq![' ', ' ', ':', 'r', 'o', 'o', 't'],
                res,
            ) + seq!['}', '\n']
        }
    }
}

/// `[attr="id"]`
pub open spec fn attr_selector(attr: Seq<char>, id: Seq<char>) -> Seq<char> {
    seq!['['] + attr + seq!['=', '"'] + id + seq!['"', ']']
}

/// `out` followed by one attribute block per id whose theme resolves to leaves.
pub open spec fn attr_css(theme: StyleTheme, out: Seq<char>, ids: Seq<Seq<char>>) -> Seq<char>
    decreases ids.len(),
{
    if ids.len() == 0 {
        out
    } else {
        let acc = attr_css(theme, out, ids.drop_last());
        let res = resolved(theme, ids.last());
        if res.len() == 0 {
            acc
        } else {
            acc + gap(acc) + css_block(attr_selector(theme.activation_attr@, ids.last()), res)
        }
    }
}

/// The whole theme stylesheet; empty when no table has a leaf.
pub open spec fn theme_css(theme: StyleTheme) -> Seq<char> {
    if forall|i: int| 0 <= i < theme.tables.len() ==> #[trigger] theme.tables@[i].entries.len() == 0 {
        Seq::empty()
    } else {
        attr_css(
            theme,
            media_css(theme, root_css(theme), theme.prefers_color_scheme.pairs()),
            theme_id_list(theme),
        )
    }
}

fn push_block(out: &mut Vec<char>, sel: &[char], leaves: &[StyleTokenLeaf])
    ensures
        final(out)@ == old(out)@ + css_block(sel@, leaf_views(leaves@)),
{
    if leaves.len() == 0 {
        proof {
            assert(old(out)@ + css_block(sel@, leaf_views(leaves@)) =~= old(out)@);
        }
        return;
    }
    let ghost v = leaf_views(leaves@);
    push_all(out, sel);
    out.push(' ');
    out.push('{');
    out.push('\n');
    let ghost pre = out@;
    let mut i: usize = 0;
    while i < leaves.len()
        invariant
            i <= leaves.len(),
            v == leaf_views(leaves@),
            out@ == pre + decl_lines(v.take(i as int)),
        decreases leaves.len() - i,
    {
        out.push(' ');
        out.push(' ');
        let name = css_var_vec(leaves[i].path.as_slice());
        push_all(out, name.as_slice());
        out.push(':');
        out.push(' ');
        push_str(out, leaves[i].value.as_str());
        out.push(';');
        out.push('\n');
        proof {
            assert(v.take(i + 1).drop_last() =~= v.take(i as int));
            assert(out@ =~= pre + decl_lines(v.take(i + 1)));
        }
        i = i + 1;
    }
    out.push('}');
    out.push('\n');
    proof {
        assert(v.take(leaves.len() as int) =~= v);
        assert(out@ =~= old(out)@ + css_block(sel@, v));
    }
}

fn css_var_vec(path: &[String]) -> (r: Vec<char>)
    ensures
        r@ == css_var(texts(path@)),
{
    let s = crate::designs::css_var_name(path);
    to_chars(s.as_str())
}

fn push_gap(out: &mut Vec<char>)
    ensures
        final(out)@ == old(out)@ + gap(old(out)@),
{
    if out.len() > 0 {
        out.push('\n');
    } else {
        proof {
            assert(old(out)@ + gap(old(out)@) =~= old(out)@);
        }
    }
}

/// CSS custom properties for the whole theme.
pub fn emit_style_theme_css(theme: &StyleTheme) -> (r: String)
    ensures
        r@ == theme_css(*theme),
{
    if theme.is_empty() {
        return String::new();
    }
    let mut out: Vec<char> = Vec::new();
    let mut root: Vec<char> = Vec::new();
    root.push(':');
    root.push('r');
    root.push('o');
    root.push('o');
    root.push('t');
    match theme.table(theme.default_id.as_str()) {
        Some(base) => push_block(&mut out, root.as_slice(), base.entries.as_slice()),
        None => {},
    }
    proof {
        assert(root@ =~= seq![':', 'r', 'o', 'o', 't']);
        assert(out@ =~= root_css(*theme));
    }
    let ghost pairs = theme.prefers_color_scheme.pairs();
    let mut inner: Vec<char> = Vec::new();
    inner.push(' ');
    inner.push(' ');
    push_all(&mut inner, root.as_slice());
    let mut media: Vec<char> = Vec::new();
    push_str(&mut media, "@media (prefers-color-scheme: ");
    proof {
        reveal_strlit("@media (prefers-color-scheme: ");
        assert(media@ =~= media_open());
        assert(inner@ =~= seq![' ', ' ', ':', 'r', 'o', 'o', 't']);
        assert(pairs.take(0) =~= Seq::<(Seq<char>, Seq<char>)>::empty());
    }
    let n = theme.prefers_color_scheme.len();
    let mut i: usize = 0;
    while i < n
        invariant
            i <= n,
            n == pairs.len(),
            pairs == theme.prefers_color_scheme.pairs(),
            media@ == media_open(),
            inner@ == seq![' ', ' ', ':', 'r', 'o', 'o', 't'],
            out@ == media_css(*theme, root_css(*theme), pairs.take(i as int)),
        decreases n - i,
    {
        let (scheme, id) = theme.prefers_color_scheme.pair_at(i);
        let res = theme.resolve(id.as_str());
        proof {
            assert(pairs.take(i + 1).drop_last() =~= pairs.take(i as int));
        }
        if res.len() > 0 {
            push_gap(&mut out);
            push_all(&mut out, media.as_slice());
            push_str(&mut out, scheme.as_str());
            out.push(')');
            out.push(' ');
            out.push('{');
            out.push('\n');
            push_block(&mut out, inner.as_slice(), res.as_slice());
            out.push('}');
            out.push('\n');
        }
        proof {
            assert(out@ =~= media_css(*theme, root_css(*theme), pairs.take(i + 1)));
        }
        i = i + 1;
    }
    proof {
        assert(pairs.take(n as int) =~= pairs);
    }
    let ghost mid = out@;
    let ids = theme.theme_ids();
    let ghost idl = texts(ids@);
    let mut k: usize = 0;
    proof {
        assert(idl.take(0) =~= Seq::<Seq<char>>::empty());
    }
    while k < ids.len()
        invariant
            k <= ids.len(),
            idl == texts(ids@),
            out@ == attr_css(*theme, mid, idl.take(k as int)),
        decreases ids.len() - k,
    {
        let res = theme.resolve(ids[k].as_str());
        proof {
            assert(idl.take(k + 1).drop_last() =~= idl.take(k as int));
        }
        if res.len() > 0 {
            push_gap(&mut out);
            let mut sel: Vec<char> = Vec::new();
            sel.push('[');
            push_str(&mut sel, theme.activation_attr.as_str());
            sel.push('=');
            sel.push('"');
            push_str(&mut sel, ids[k].as_str());
            sel.push('"');
            sel.push(']');
            proof {
                assert(sel@ =~= attr_selector(theme.activation_attr@, idl[k as int]));
            }
            push_block(&mut out, sel.as_slice(), res.as_slice());
        }
        proof {
            assert(out@ =~= attr_css(*theme, mid, idl.take(k + 1)));
        }
        k = k + 1;
    }
    proof {
        assert(idl.take(ids.len() as int) =~= idl);
    }
    from_chars(out.as_slice())
}

/// The theme stylesheet of a designs inventory.
pub fn emit_designs_css(bundle: &DesignsBundle) -> (r: String)
    ensures
        r@ == theme_css(bundle.theme),
{
    emit_style_theme_css(&bundle.theme)
}


/// No character of `s` is `c`.
pub open spec fn lacks(s: Seq<char>, c: char) -> bool {
    forall|k: int| 0 <= k < s.len() ==> s[k] != c
}

/// No path segment or value of the leaves holds `c`.
pub open spec fn leaves_lack(ls: Seq<(Seq<Seq<char>>, Seq<char>)>, c: char) -> bool {
    forall|k: int|
        0 <= k < ls.len() ==> lacks((#[trigger] ls[k]).1, c) && forall|q: int|
            0 <= q < ls[k].0.len() ==> lacks(#[trigger] ls[k].0[q], c)
}

proof fn lemma_lacks_add(a: Seq<char>, b: Seq<char>, c: char)
    requires
        lacks(a, c),
        lacks(b, c),
    ensures
        lacks(a + b, c),
{
    assert forall|k: int| 0 <= k < (a + b).len() implies (a + b)[k] != c by {
        if k < a.len() {
            assert((a + b)[k] == a[k]);
        } else {
            assert((a + b)[k] == b[k - a.len()]);
        }
    }
}

proof fn lemma_css_var_lacks(path: Seq<Seq<char>>, c: char)
    requires
        c != '-' && c != 'v' && c != 'm' && c != 'z',
        forall|q: int| 0 <= q < path.len() ==> lacks(#[trigger] path[q], c),
    ensures
        lacks(css_var(path), c),
    decreases path.len(),
{
    if path.len() > 0 {
        let init = path.drop_last();
        assert forall|q: int| 0 <= q < init.len() implies lacks(#[trigger] init[q], c) by {
            assert(init[q] == path[q]);
        }
        lemma_css_var_lacks(init, c);
        let last = path.last();
        assert(lacks(last, c)) by {
            assert(path[path.len() - 1] == last);
        }
        let r = crate::text::replace_char(last, '_', '-');
        assert(lacks(r, c)) by {
            assert forall|k: int| 0 <= k < r.len() implies r[k] != c by {
                assert(last[k] != c);
            }
        }
        lemma_lacks_add(seq!['-'], r, c);
        lemma_lacks_add(css_var(init), crate::designs::css_seg(last), c);
    }
}

proof fn lemma_decl_lines_lacks(ls: Seq<(Seq<Seq<char>>, Seq<char>)>, c: char)
    requires
        c != '-' && c != 'v' && c != 'm' && c != 'z' && c != ' ' && c != ':' && c != ';' && c != '\n',
        leaves_lack(ls, c),
    ensures
        lacks(decl_lines(ls), c),
    decreases ls.len(),
{
    if ls.len() > 0 {
        let init = ls.drop_last();
        assert forall|k: int| 0 <= k < init.len() implies lacks((#[trigger] init[k]).1, c) && forall|q: int|
            0 <= q < init[k].0.len() ==> lacks(#[trigger] init[k].0[q], c) by {
            assert(init[k] == ls[k]);
        }
        lemma_decl_lines_lacks(init, c);
        let l = ls.last();
        assert(ls[ls.len() - 1] == l);
        assert(lacks(l.1, c));
        assert forall|q: int| 0 <= q < l.0.len() implies lacks(#[trigger] l.0[q], c) by {
            assert(ls[ls.len() - 1].0[q] == l.0[q]);
        }
        lemma_css_var_lacks(l.0, c);
        let d = decl_lines(init);
        lemma_lacks_add(d, seq![' ', ' '], c);
        lemma_lacks_add(d + seq![' ', ' '], css_var(l.0), c);
        lemma_lacks_add(d + seq![' ', ' '] + css_var(l.0), seq![':', ' '], c);
        lemma_lacks_add(d + seq![' ', ' '] + css_var(l.0) + seq![':', ' '], l.1, c);
        lemma_lacks_add(d + seq![' ', ' '] + css_var(l.0) + seq![':', ' '] + l.1, seq![';', '\n'], c);
    }
}

proof fn lemma_block_lacks(sel: Seq<char>, ls: Seq<(Seq<Seq<char>>, Seq<char>)>, c: char)
    requires
        c != '-' && c != 'v' && c != 'm' && c != 'z' && c != ' ' && c != ':' && c != ';' && c != '\n' && c != '{' && c != '}',
        leaves_lack(ls, c),
        lacks(sel, c),
    ensures
        lacks(css_block(sel, ls), c),
{
    if ls.len() > 0 {
        lemma_decl_lines_lacks(ls, c);
        lemma_lacks_add(sel, seq![' ', '{', '\n'], c);
        lemma_lacks_add(sel + seq![' ', '{', '\n'], decl_lines(ls), c);
        lemma_lacks_add(sel + seq![' ', '{', '\n'] + decl_lines(ls), seq!['}', '\n'], c);
    }
}

proof fn lemma_first_table_in(tables: Seq<crate::designs::StyleThemeTable>, id: Seq<char>)
    ensures
        match first_table(tables, id) {
            Some(t) => exists|k: int| 0 <= k < tables.len() && tables[k] == t,
            None => true,
        },
    decreases tables.len(),
{
    if tables.len() > 0 && tables[0].id@ != id {
        lemma_first_table_in(tables.drop_first(), id);
        match first_table(tables, id) {
            Some(t) => {
                let k = choose|k: int| 0 <= k < tables.drop_first().len() && tables.drop_first()[k] == t;
                assert(tables[k + 1] == t);
            },
            None => {},
        }
    } else if tables.len() > 0 {
        assert(tables[0] == tables[0]);
    }
}

proof fn lemma_media_tail(theme: StyleTheme, out: Seq<char>, pairs: Seq<(Seq<char>, Seq<char>)>)
    requires
        forall|k: int| 0 <= k < pairs.len() ==> lacks((#[trigger] pairs[k]).0, '['),
        forall|x: Seq<char>| leaves_lack(#[trigger] resolved(theme, x), '['),
    ensures
        media_css(theme, out, pairs).len() >= out.len(),
        media_css(theme, out, pairs).take(out.len() as int) == out,
        forall|k: int| out.len() <= k < media_css(theme, out, pairs).len() ==> media_css(theme, out, pairs)[k] != '[',
    decreases pairs.len(),
{
    if pairs.len() > 0 {
        let init = pairs.drop_last();
        assert forall|k: int| 0 <= k < init.len() implies lacks((#[trigger] init[k]).0, '[') by {
            assert(init[k] == pairs[k]);
        }
        lemma_media_tail(theme, out, init);
        let acc = media_css(theme, out, init);
        let res = resolved(theme, pairs.last().1);
        if res.len() > 0 {
            assert(leaves_lack(res, '['));
            assert(lacks(pairs.last().0, '[')) by {
                assert(pairs[pairs.len() - 1] == pairs.last());
            }
            let rs = seq![' ', ' ', ':', 'r', 'o', 'o', 't'];
            lemma_block_lacks(rs, res, '[');
            let mo = media_open();
            let chunk = gap(acc) + mo + pairs.last().0 + seq![')', ' ', '{', '\n'] + css_block(rs, res) + seq!['}', '\n'];
            lemma_lacks_add(gap(acc), mo, '[');
            lemma_lacks_add(gap(acc) + mo, pairs.last().0, '[');
            lemma_lacks_add(gap(acc) + mo + pairs.last().0, seq![')', ' ', '{', '\n'], '[');
            lemma_lacks_add(gap(acc) + mo + pairs.last().0 + seq![')', ' ', '{', '\n'], css_block(rs, res), '[');
            lemma_lacks_add(gap(acc) + mo + pairs.last().0 + seq![')', ' ', '{', '\n'] + css_block(rs, res), seq!['}', '\n'], '[');
            let m = media_css(theme, out, pairs);
            assert(m == acc + chunk);
            assert forall|k: int| out.len() <= k < m.len() implies m[k] != '[' by {
                if k < acc.len() {
                    assert(m[k] == acc[k]);
                } else {
                    assert(m[k] == chunk[k - acc.len()]);
                }
            }
            assert(m.take(out.len() as int) =~= acc.take(out.len() as int));
        }
    }
}

proof fn lemma_attr_tail(theme: StyleTheme, out: Seq<char>, ids: Seq<Seq<char>>)
    requires
        lacks(theme.activation_attr@, '@'),
        forall|k: int| 0 <= k < ids.len() ==> lacks(#[trigger] ids[k], '@'),
        forall|x: Seq<char>| leaves_lack(#[trigger] resolved(theme, x), '@'),
    ensures
        attr_css(theme, out, ids).len() >= out.len(),
        attr_css(theme, out, ids).take(out.len() as int) == out,
        forall|k: int| out.len() <= k < attr_css(theme, out, ids).len() ==> attr_css(theme, out, ids)[k] != '@',
    decreases ids.len(),
{
    if ids.len() > 0 {
        let init = ids.drop_last();
        assert forall|k: int| 0 <= k < init.len() implies lacks(#[trigger] init[k], '@') by {
            assert(init[k] == ids[k]);
        }
        lemma_attr_tail(theme, out, init);
        let acc = attr_css(theme, out, init);
        let res = resolved(theme, ids.last());
        if res.len() > 0 {
            assert(leaves_lack(res, '@'));
            assert(lacks(ids.last(), '@')) by {
                assert(ids[ids.len() - 1] == ids.last());
            }
            let a = theme.activation_attr@;
            lemma_lacks_add(seq!['['], a, '@');
            lemma_lacks_add(seq!['['] + a, seq!['=', '"'], '@');
            lemma_lacks_add(seq!['['] + a + seq!['=', '"'], ids.last(), '@');
            lemma_lacks_add(seq!['['] + a + seq!['=', '"'] + ids.last(), seq!['"', ']'], '@');
            let sel = attr_selector(a, ids.last());
            lemma_block_lacks(sel, res, '@');
            let chunk = gap(acc) + css_block(sel, res);
            lemma_lacks_add(gap(acc), css_block(sel, res), '@');
            let m = attr_css(theme, out, ids);
            assert(m == acc + chunk);
            assert forall|k: int| out.len() <= k < m.len() implies m[k] != '@' by {
                if k < acc.len() {
                    assert(m[k] == acc[k]);
                } else {
                    assert(m[k] == chunk[k - acc.len()]);
                }
            }
            assert(m.take(out.len() as int) =~= acc.take(out.len() as int));
        }
    }
}

/// Stylesheet order law: in the theme stylesheet every attribute block
/// (`[activationAttr="id"]`, which holds the only `[`) comes after every
/// `@media (prefers-color-scheme: ..)` block (which holds the only `@`),
/// so an explicit attribute wins over the OS preference. Stated for themes
/// whose names, ids, scheme names, token paths and values hold neither `@`
/// nor `[`.
pub proof fn lemma_attribute_blocks_last(theme: StyleTheme)
    requires
        lacks(theme.activation_attr@, '@'),
        forall|k: int| 0 <= k < theme_id_list(theme).len() ==> lacks(#[trigger] theme_id_list(theme)[k], '@'),
        forall|k: int|
            0 <= k < theme.prefers_color_scheme.pairs().len() ==> lacks((#[trigger] theme.prefers_color_scheme.pairs()[k]).0, '['),
        forall|k: int| 0 <= k < theme.tables@.len() ==> leaves_lack(leaf_views((#[trigger] theme.tables@[k]).entries@), '['),
        forall|x: Seq<char>| leaves_lack(#[trigger] resolved(theme, x), '@') && leaves_lack(resolved(theme, x), '['),
    ensures
        forall|i: int, j: int|
            0 <= i < j < theme_css(theme).len() && #[trigger] theme_css(theme)[i] == '[' ==> #[trigger] theme_css(theme)[j] != '@',
{
    let css = theme_css(theme);
    if !(forall|i: int| 0 <= i < theme.tables.len() ==> #[trigger] theme.tables@[i].entries.len() == 0) {
        let root = root_css(theme);
        assert(lacks(root, '[')) by {
            lemma_first_table_in(theme.tables@, theme.default_id@);
            match first_table(theme.tables@, theme.default_id@) {
                Some(t) => {
                    let k = choose|k: int| 0 <= k < theme.tables@.len() && theme.tables@[k] == t;
                    assert(leaves_lack(leaf_views(theme.tables@[k].entries@), '['));
                    lemma_block_lacks(seq![':', 'r', 'o', 'o', 't'], leaf_views(t.entries@), '[');
                },
                None => {},
            }
        }
        assert forall|x: Seq<char>| leaves_lack(#[trigger] resolved(theme, x), '[') by {
            assert(leaves_lack(resolved(theme, x), '@') && leaves_lack(resolved(theme, x), '['));
        }
        assert forall|x: Seq<char>| leaves_lack(#[trigger] resolved(theme, x), '@') by {
            assert(leaves_lack(resolved(theme, x), '@') && leaves_lack(resolved(theme, x), '['));
        }
        let pairs = theme.prefers_color_scheme.pairs();
        lemma_media_tail(theme, root, pairs);
        let m = media_css(theme, root, pairs);
        assert(lacks(m, '[')) by {
            assert forall|k: int| 0 <= k < m.len() implies m[k] != '[' by {
                if k < root.len() {
                    assert(m.take(root.len() as int)[k] == root[k]);
                }
            }
        }
        lemma_attr_tail(theme, m, theme_id_list(theme));
        assert(css == attr_css(theme, m, theme_id_list(theme)));
        assert forall|i: int, j: int|
            0 <= i < j < css.len() && #[trigger] css[i] == '[' implies #[trigger] css[j] != '@' by {
            if i < m.len() {
                assert(css.take(m.len() as int)[i] == m[i]);
            }
        }
    }
}

} // verus!
