//! Style Theme: one default token table plus named overlay tables, with the
//! projections the compiler derives from it (CSS custom properties, engine
//! `var(..)` references, key inventories and a stable content hash).

use vstd::prelude::*;
use crate::diagnostic::ReportedDiagnostic;
use crate::order::{
    ins_sorted, insert_sorted_unique, lemma_ins_sorted_at, lemma_lex_irrefl, lemma_lex_total, lemma_lex_trans, lemma_sorted_same_elems,
    lemma_stable_sort_elems, lemma_stable_sort_multiset, lemma_stable_sort_sorted, lex_lt, stable_sort, strictly_sorted, texts, weak_order,
};
use crate::text::{
    chars_eq, from_chars, join, push_all, push_join, push_str, replace_char, replace_char_exec,
    to_chars, trim, trim_chars,
};

verus! {

/// Theme id used when `theme.json` names none.
pub const DEFAULT_THEME_ID: &'static str = "default";

/// Attribute that selects a theme on the document or host element.
pub const DEFAULT_ACTIVATION_ATTR: &'static str = "data-theme";

/// One leaf of the theme key space: `["colors", "action"]` -> a CSS value.
#[derive(Debug, Clone)]
pub struct StyleTokenLeaf {
    pub path: Vec<String>,
    pub value: String,
}

/// One named table (the default table or an overlay).
#[derive(Debug, Clone)]
pub struct StyleThemeTable {
    pub id: String,
    pub entries: Vec<StyleTokenLeaf>,
}

/// Colour-scheme preference -> theme id, kept sorted by scheme name with
/// each scheme present once.
#[derive(Debug, Clone)]
pub struct SchemeMap {
    entries: Vec<(String, String)>,
}

/// The unified Style Theme.
#[derive(Debug, Clone)]
pub struct StyleTheme {
    pub default_id: String,
    /// Document/host activation attribute.
    pub activation_attr: String,
    /// OS preference -> theme id (e.g. `dark` -> `dark`).
    pub prefers_color_scheme: SchemeMap,
    /// The default table when tokens exist, then the overlays.
    pub tables: Vec<StyleThemeTable>,
}

/// The `/designs` inventory: the Style Theme and the styles entry contract.
#[derive(Debug, Clone)]
pub struct DesignsBundle {
    pub root: String,
    pub missing: bool,
    pub theme: StyleTheme,
    pub style_entry: Option<String>,
    pub style_files: Vec<String>,
    pub diagnostics: Vec<ReportedDiagnostic>,
}

/// The token path of a leaf, as texts.
pub open spec fn path_of(l: StyleTokenLeaf) -> Seq<Seq<char>> {
    texts(l.path@)
}

/// A leaf as plain values: (path, value).
pub open spec fn leaf_view(l: StyleTokenLeaf) -> (Seq<Seq<char>>, Seq<char>) {
    (texts(l.path@), l.value@)
}

/// Leaves as plain values.
pub open spec fn leaf_views(s: Seq<StyleTokenLeaf>) -> Seq<(Seq<Seq<char>>, Seq<char>)> {
    s.map_values(|l: StyleTokenLeaf| leaf_view(l))
}

/// Keys of a pair sequence are strictly increasing.
pub open spec fn pair_keys_sorted(s: Seq<(Seq<char>, Seq<char>)>) -> bool {
    forall|i: int, j: int| 0 <= i < j < s.len() ==> lex_lt(s[i].0, s[j].0)
}

/// The map a key-sorted pair sequence stands for.
pub open spec fn pairs_map(s: Seq<(Seq<char>, Seq<char>)>) -> Map<Seq<char>, Seq<char>> {
    Map::new(
        |k: Seq<char>| exists|i: int| 0 <= i < s.len() && s[i].0 == k,
        |k: Seq<char>| s[choose|i: int| 0 <= i < s.len() && s[i].0 == k].1,
    )
}

proof fn lemma_pairs_map_at(s: Seq<(Seq<char>, Seq<char>)>, i: int)
    requires
        pair_keys_sorted(s),
        0 <= i < s.len(),
    ensures
        pairs_map(s).dom().contains(s[i].0),
        pairs_map(s)[s[i].0] == s[i].1,
{
    let k = s[i].0;
    assert(exists|j: int| 0 <= j < s.len() && s[j].0 == k);
    let c = choose|j: int| 0 <= j < s.len() && s[j].0 == k;
    crate::order::lemma_lex_irrefl(k);
    if c < i {
        assert(lex_lt(s[c].0, s[i].0));
    } else if c > i {
        assert(lex_lt(s[i].0, s[c].0));
    }
}

impl SchemeMap {
    /// The (scheme, theme id) pairs in key order.
    pub closed spec fn pairs(&self) -> Seq<(Seq<char>, Seq<char>)> {
        self.entries@.map_values(|p: (String, String)| (p.0@, p.1@))
    }

    /// Well-formed: scheme names strictly increasing, so each scheme is held
    /// once. `new`, `from_pairs` and `insert` give well-formed maps, and
    /// `duplicate` keeps it.
    pub open spec fn wf(&self) -> bool {
        pair_keys_sorted(self.pairs())
    }

    /// An empty map.
    pub fn new() -> (m: SchemeMap)
        ensures
            m.wf(),
            m.pairs() == Seq::<(Seq<char>, Seq<char>)>::empty(),
    {
        let m = SchemeMap { entries: Vec::new() };
        assert(m.pairs() =~= Seq::<(Seq<char>, Seq<char>)>::empty());
        m
    }

    /// Number of schemes.
    pub fn len(&self) -> (n: usize)
        ensures
            n == self.pairs().len(),
    {
        self.entries.len()
    }

    /// The `i`-th (scheme, theme id) pair in key order.
    pub fn pair_at(&self, i: usize) -> (r: (String, String))
        requires
            i < self.pairs().len(),
        ensures
            (r.0@, r.1@) == self.pairs()[i as int],
    {
        (self.entries[i].0.clone(), self.entries[i].1.clone())
    }

    /// Sets the theme for `scheme`, replacing an earlier one.
    pub fn insert(&mut self, scheme: String, theme_id: String)
        requires
            old(self).wf(),
        ensures
            final(self).wf(),
            pair_keys_sorted(final(self).pairs()),
            pairs_map(final(self).pairs()) == pairs_map(old(self).pairs()).insert(scheme@, theme_id@),
    {
        let ghost old_p = self.pairs();
        let key = to_chars(scheme.as_str());
        let mut i: usize = 0;
        while i < self.entries.len()
            invariant
                self.pairs() == old_p,
                pair_keys_sorted(old_p),
                key@ == scheme@,
                i <= old_p.len(),
                forall|j: int| 0 <= j < i ==> lex_lt(#[trigger] old_p[j].0, scheme@),
            ensures
                i <= old_p.len(),
                forall|j: int| 0 <= j < i ==> lex_lt(#[trigger] old_p[j].0, scheme@),
                i < old_p.len() ==> !lex_lt(old_p[i as int].0, scheme@),
            decreases old_p.len() - i,
        {
            let k = to_chars(self.entries[i].0.as_str());
            let c = crate::order::lex_order(k.as_slice(), key.as_slice());
            if c >= 0 {
                break;
            }
            i = i + 1;
        }
        let ghost v = theme_id@;
        let ghost s = scheme@;
        let same = if i < self.entries.len() {
            let k = to_chars(self.entries[i].0.as_str());
            chars_eq(k.as_slice(), key.as_slice())
        } else {
            false
        };
        let mut entries: Vec<(String, String)> = Vec::new();
        std::mem::swap(&mut entries, &mut self.entries);
        if same {
            entries.set(i, (scheme, theme_id));
        } else {
            entries.insert(i, (scheme, theme_id));
        }
        let ghost np = entries@.map_values(|p: (String, String)| (p.0@, p.1@));
        proof {
            if same {
                assert(np =~= old_p.update(i as int, (s, v)));
            } else {
                assert(np =~= old_p.insert(i as int, (s, v)));
            }
            assert forall|a: int, b: int| 0 <= a < b < np.len() implies lex_lt(np[a].0, np[b].0) by {
                if same {
                    if a == i {
                        crate::order::lemma_lex_total(old_p[i as int].0, s);
                    } else if b == i {
                    }
                } else {
                    if i < old_p.len() {
                        crate::order::lemma_lex_total(old_p[i as int].0, s);
                    }
                    if a < i && b > i {
                        if b - 1 > i {
                            crate::order::lemma_lex_trans(s, old_p[i as int].0, old_p[b - 1].0);
                        }
                        crate::order::lemma_lex_trans(old_p[a].0, s, old_p[b - 1].0);
                    } else if a == i && b - 1 > i {
                        crate::order::lemma_lex_trans(s, old_p[i as int].0, old_p[b - 1].0);
                    }
                }
            }
            let m_old = pairs_map(old_p);
            let m_new = pairs_map(np);
            assert forall|k: Seq<char>| #[trigger] m_new.dom().contains(k) <==> m_old.insert(s, v).dom().contains(k) by {
                if m_new.dom().contains(k) {
                    let c = choose|j: int| 0 <= j < np.len() && np[j].0 == k;
                    if k != s {
                        if same {
                            assert(old_p[c].0 == k);
                        } else if c < i {
                            assert(old_p[c].0 == k);
                        } else {
                            assert(old_p[c - 1].0 == k);
                        }
                    }
                }
                if k == s {
                    assert(np[i as int].0 == k);
                } else if m_old.dom().contains(k) {
                    let c = choose|j: int| 0 <= j < old_p.len() && old_p[j].0 == k;
                    if same || c < i {
                        assert(np[c].0 == k);
                    } else {
                        assert(np[c + 1].0 == k);
                    }
                }
            }
            assert forall|k: Seq<char>| #[trigger] m_new.dom().contains(k) implies m_new[k] == m_old.insert(s, v)[k] by {
                let c = choose|j: int| 0 <= j < np.len() && np[j].0 == k;
                lemma_pairs_map_at(np, c);
                if k == s {
                    lemma_pairs_map_at(np, i as int);
                } else if same || c < i {
                    lemma_pairs_map_at(old_p, c);
                } else {
                    lemma_pairs_map_at(old_p, c - 1);
                }
            }
            assert(m_new =~= m_old.insert(s, v));
        }
        self.entries = entries;
    }

    /// Builds a map from pairs, later pairs replacing earlier ones.
    pub fn from_pairs(pairs: Vec<(String, String)>) -> (m: SchemeMap)
        ensures
            m.wf(),
            pair_keys_sorted(m.pairs()),
            pairs_map(m.pairs()) == pairs_fold(
                pairs@.map_values(|p: (String, String)| (p.0@, p.1@)),
            ),
    {
        let ghost src = pairs@.map_values(|p: (String, String)| (p.0@, p.1@));
        let mut m = SchemeMap::new();
        proof {
            assert(src.take(0) =~= Seq::<(Seq<char>, Seq<char>)>::empty());
            assert(pairs_map(m.pairs()) =~= Map::<Seq<char>, Seq<char>>::empty());
        }
        let mut i: usize = 0;
        while i < pairs.len()
            invariant
                i <= pairs.len(),
                src == pairs@.map_values(|p: (String, String)| (p.0@, p.1@)),
                m.wf(),
                pair_keys_sorted(m.pairs()),
                pairs_map(m.pairs()) == pairs_fold(src.take(i as int)),
            decreases pairs.len() - i,
        {
            proof {
                assert(src.take(i + 1).drop_last() =~= src.take(i as int));
            }
            m.insert(pairs[i].0.clone(), pairs[i].1.clone());
            i = i + 1;
        }
        proof {
            assert(src.take(pairs.len() as int) =~= src);
        }
        m
    }
}

/// Inserting pairs one after the other into an empty map.
pub open spec fn pairs_fold(s: Seq<(Seq<char>, Seq<char>)>) -> Map<Seq<char>, Seq<char>>
    decreases s.len(),
{
    if s.len() == 0 {
        Map::empty()
    } else {
        pairs_fold(s.drop_last()).insert(s.last().0, s.last().1)
    }
}


/// One path segment of a custom-property name: `-` and the segment with `_`
/// turned into `-`.
pub open spec fn css_seg(p: Seq<char>) -> Seq<char> {
    seq!['-'] + replace_char(p, '_', '-')
}

/// `--vmz-<seg>-<seg>...` for a token path.
pub open spec fn css_var(path: Seq<Seq<char>>) -> Seq<char>
    decreases path.len(),
{
    if path.len() == 0 {
        seq!['-', '-', 'v', 'm', 'z']
    } else {
        css_var(path.drop_last()) + css_seg(path.last())
    }
}

/// The CSS custom-property name of a token path (`--vmz-colors-action`).
pub fn css_var_name(path: &[String]) -> (r: String)
    ensures
        r@ == css_var(texts(path@)),
{
    let r = css_var_chars(path);
    from_chars(r.as_slice())
}

fn css_var_chars(path: &[String]) -> (r: Vec<char>)
    ensures
        r@ == css_var(texts(path@)),
{
    let ghost t = texts(path@);
    let mut out: Vec<char> = Vec::new();
    out.push('-');
    out.push('-');
    out.push('v');
    out.push('m');
    out.push('z');
    proof {
        assert(out@ =~= css_var(t.take(0)));
    }
    let mut i: usize = 0;
    while i < path.len()
        invariant
            i <= path.len(),
            t == texts(path@),
            out@ == css_var(t.take(i as int)),
        decreases path.len() - i,
    {
        out.push('-');
        let seg = to_chars(path[i].as_str());
        let rep = replace_char_exec(seg.as_slice(), '_', '-');
        push_all(&mut out, rep.as_slice());
        proof {
            assert(t.take(i + 1).drop_last() =~= t.take(i as int));
            assert(out@ =~= css_var(t.take(i + 1)));
        }
        i = i + 1;
    }
    proof {
        assert(t.take(path.len() as int) =~= t);
    }
    out
}

/// The first table named `id`.
pub open spec fn first_table(tables: Seq<StyleThemeTable>, id: Seq<char>) -> Option<StyleThemeTable>
    decreases tables.len(),
{
    if tables.len() == 0 {
        None
    } else if tables[0].id@ == id {
        Some(tables[0])
    } else {
        first_table(tables.drop_first(), id)
    }
}

/// The leaves of the first table named `id` (none when there is no such table).
pub open spec fn table_leaves(tables: Seq<StyleThemeTable>, id: Seq<char>) -> Seq<StyleTokenLeaf> {
    match first_table(tables, id) {
        Some(t) => t.entries@,
        None => Seq::empty(),
    }
}

/// Index of the first table named `id`.
fn find_table_index(tables: &Vec<StyleThemeTable>, id: &[char]) -> (r: Option<usize>)
    ensures
        match r {
            Some(i) => i < tables.len() && first_table(tables@, id@) == Some(tables@[i as int])
                && tables@[i as int].id@ == id@ && forall|j: int| 0 <= j < i ==> (#[trigger] tables@[j]).id@ != id@,
            None => first_table(tables@, id@) == None::<StyleThemeTable>
                && forall|j: int| 0 <= j < tables.len() ==> (#[trigger] tables@[j]).id@ != id@,
        },
{
    let mut i: usize = 0;
    proof {
        assert(tables@.skip(0) =~= tables@);
    }
    while i < tables.len()
        invariant
            i <= tables.len(),
            forall|j: int| 0 <= j < i ==> (#[trigger] tables@[j]).id@ != id@,
            first_table(tables@, id@) == first_table(tables@.skip(i as int), id@),
        decreases tables.len() - i,
    {
        let t = to_chars(tables[i].id.as_str());
        if chars_eq(t.as_slice(), id) {
            return Some(i);
        }
        proof {
            assert(tables@.skip(i as int).drop_first() =~= tables@.skip(i + 1));
        }
        i = i + 1;
    }
    None
}

/// Key of a leaf inside its namespace: the path after the first segment,
/// joined with `-`.
pub open spec fn ns_key(path: Seq<Seq<char>>) -> Seq<char> {
    join(path.skip(1), seq!['-'])
}

/// Some leaf of some table satisfies `f`.
pub open spec fn any_leaf(tables: Seq<StyleThemeTable>, f: spec_fn(StyleTokenLeaf) -> bool) -> bool {
    exists|i: int, j: int|
        0 <= i < tables.len() && 0 <= j < tables[i].entries.len() && #[trigger] f(
            tables[i].entries@[j],
        )
}

/// The theme's table ids.
pub open spec fn table_ids(tables: Seq<StyleThemeTable>) -> Seq<Seq<char>> {
    tables.map_values(|t: StyleThemeTable| t.id@)
}

/// Custom-property names of every leaf of every table.
pub open spec fn css_var_set(tables: Seq<StyleThemeTable>) -> Set<Seq<char>> {
    Set::new(|v: Seq<char>| any_leaf(tables, |l: StyleTokenLeaf| css_var(path_of(l)) == v))
}

/// Namespace keys of every leaf under namespace `ns` with at least two segments.
pub open spec fn ns_key_set(tables: Seq<StyleThemeTable>, ns: Seq<char>) -> Set<Seq<char>> {
    Set::new(
        |k: Seq<char>|
            any_leaf(
                tables,
                |l: StyleTokenLeaf| path_of(l).len() >= 2 && path_of(l)[0] == ns && ns_key(path_of(l)) == k,
            ),
    )
}

/// The ids `theme_ids` lists: the table ids sorted and each once, or the
/// default id alone when there is no table.
pub open spec fn theme_id_list(theme: StyleTheme) -> Seq<Seq<char>> {
    if theme.tables.len() == 0 {
        seq![theme.default_id@]
    } else {
        choose|c: Seq<Seq<char>>| strictly_sorted(c) && c.to_set() == table_ids(theme.tables@).to_set()
    }
}

impl StyleTheme {
    /// No table has any leaf.
    pub fn is_empty(&self) -> (r: bool)
        ensures
            r == forall|i: int| 0 <= i < self.tables.len() ==> #[trigger] self.tables@[i].entries.len() == 0,
    {
        let mut i: usize = 0;
        while i < self.tables.len()
            invariant
                i <= self.tables.len(),
                forall|j: int| 0 <= j < i ==> #[trigger] self.tables@[j].entries.len() == 0,
            decreases self.tables.len() - i,
        {
            if self.tables[i].entries.len() != 0 {
                return false;
            }
            i = i + 1;
        }
        true
    }

    /// Table ids, sorted and each once; the default id alone when there is no table.
    pub fn theme_ids(&self) -> (r: Vec<String>)
        ensures
            strictly_sorted(texts(r@)),
            self.tables.len() == 0 ==> texts(r@) == seq![self.default_id@],
            self.tables.len() > 0 ==> texts(r@).to_set() == table_ids(self.tables@).to_set(),
            texts(r@) == theme_id_list(*self),
    {
        let ghost ids = table_ids(self.tables@);
        let mut r: Vec<String> = Vec::new();
        let mut i: usize = 0;
        proof {
            assert(texts(r@).to_set() =~= ids.take(0).to_set());
        }
        while i < self.tables.len()
            invariant
                i <= self.tables.len(),
                ids == table_ids(self.tables@),
                strictly_sorted(texts(r@)),
                texts(r@).to_set() == ids.take(i as int).to_set(),
            decreases self.tables.len() - i,
        {
            insert_sorted_unique(&mut r, self.tables[i].id.clone());
            proof {
                assert(ids.take(i + 1) =~= ids.take(i as int) + seq![ids[i as int]]);
                Seq::lemma_to_set_insert_commutes(ids.take(i as int), ids[i as int]);
            }
            i = i + 1;
        }
        proof {
            assert(ids.take(self.tables.len() as int) =~= ids);
            if self.tables.len() > 0 {
                assert(ids.to_set().contains(ids[0]));
                if r.len() == 0 {
                    assert(texts(r@).to_set() =~= Set::<Seq<char>>::empty());
                }
            } else {
                assert(ids.to_set() =~= Set::<Seq<char>>::empty());
                if r.len() > 0 {
                    assert(texts(r@).to_set().contains(texts(r@)[0]));
                }
            }
        }
        if r.len() == 0 {
            r.push(self.default_id.clone());
            proof {
                assert(texts(r@) =~= seq![self.default_id@]);
            }
        } else {
            proof {
                let c = choose|c: Seq<Seq<char>>| strictly_sorted(c) && c.to_set() == table_ids(self.tables@).to_set();
                crate::order::lemma_sorted_set_unique(c, texts(r@));
            }
        }
        r
    }

    /// The first table named `id`.
    pub fn table(&self, id: &str) -> (r: Option<&StyleThemeTable>)
        ensures
            match r {
                Some(t) => first_table(self.tables@, id@) == Some(*t),
                None => first_table(self.tables@, id@) is None,
            },
    {
        let key = to_chars(id);
        match find_table_index(&self.tables, key.as_slice()) {
            Some(i) => Some(&self.tables[i]),
            None => None,
        }
    }

    /// Whether some leaf's custom-property name equals `name` without its
    /// surrounding whitespace.
    pub fn has_css_var(&self, name: &str) -> (r: bool)
        ensures
            r == any_leaf(self.tables@, |l: StyleTokenLeaf| css_var(path_of(l)) == trim(name@)),
    {
        let raw = to_chars(name);
        let key = trim_chars(raw.as_slice());
        let mut i: usize = 0;
        while i < self.tables.len()
            invariant
                i <= self.tables.len(),
                key@ == trim(name@),
                raw@ == name@,
                forall|a: int, b: int|
                    0 <= a < i && 0 <= b < self.tables@[a].entries.len() ==> css_var(path_of(#[trigger] self.tables@[a].entries@[b])) != trim(name@),
            decreases self.tables.len() - i,
        {
            let entries = &self.tables[i].entries;
            let mut j: usize = 0;
            while j < entries.len()
                invariant
                    i < self.tables.len(),
                    entries == self.tables@[i as int].entries,
                    j <= entries.len(),
                    key@ == trim(name@),
                raw@ == name@,
                    forall|a: int, b: int|
                        0 <= a < i && 0 <= b < self.tables@[a].entries.len() ==> css_var(path_of(#[trigger] self.tables@[a].entries@[b])) != trim(name@),
                    forall|b: int| 0 <= b < j ==> css_var(path_of(#[trigger] entries@[b])) != trim(name@),
                decreases entries.len() - j,
            {
                let v = css_var_chars(entries[j].path.as_slice());
                assert(v@ == css_var(path_of(entries@[j as int])));
                if chars_eq(v.as_slice(), key.as_slice()) {
                    proof {
                        let f = |l: StyleTokenLeaf| css_var(path_of(l)) == trim(name@);
                        assert(f(self.tables@[i as int].entries@[j as int]));
                    }
                    return true;
                }
                j = j + 1;
            }
            i = i + 1;
        }
        proof {
            let f = |l: StyleTokenLeaf| css_var(path_of(l)) == trim(name@);
            assert forall|a: int, b: int|
                0 <= a < self.tables.len() && 0 <= b < self.tables@[a].entries.len() implies !f(
                #[trigger] self.tables@[a].entries@[b],
            ) by {
                assert(css_var(path_of(self.tables@[a].entries@[b])) != trim(name@));
            }
        }
        false
    }

    /// Every custom-property name owned by the theme, sorted and each once.
    pub fn known_css_vars(&self) -> (r: Vec<String>)
        ensures
            strictly_sorted(texts(r@)),
            texts(r@).to_set() == css_var_set(self.tables@),
    {
        let ghost tables = self.tables@;
        let mut r: Vec<String> = Vec::new();
        let mut i: usize = 0;
        while i < self.tables.len()
            invariant
                i <= self.tables.len(),
                tables == self.tables@,
                strictly_sorted(texts(r@)),
                forall|v: Seq<char>| texts(r@).to_set().contains(v) <==> exists|a: int, b: int|
                    0 <= a < i && 0 <= b < tables[a].entries.len() && css_var(
                        path_of(#[trigger] tables[a].entries@[b]),
                    ) == v,
            decreases self.tables.len() - i,
        {
            let entries = &self.tables[i].entries;
            let mut j: usize = 0;
            while j < entries.len()
                invariant
                    i < self.tables.len(),
                    tables == self.tables@,
                    entries == tables[i as int].entries,
                    j <= entries.len(),
                    strictly_sorted(texts(r@)),
                    forall|v: Seq<char>| texts(r@).to_set().contains(v) <==> (exists|a: int, b: int|
                        0 <= a < i && 0 <= b < tables[a].entries.len() && css_var(
                            path_of(#[trigger] tables[a].entries@[b]),
                        ) == v) || (exists|b: int|
                        0 <= b < j && css_var(path_of(#[trigger] entries@[b])) == v),
                decreases entries.len() - j,
            {
                let name = css_var_name(entries[j].path.as_slice());
                let ghost nv = name@;
                insert_sorted_unique(&mut r, name);
                proof {
                    assert forall|v: Seq<char>| texts(r@).to_set().contains(v) <==> (exists|a: int, b: int|
                        0 <= a < i && 0 <= b < tables[a].entries.len() && css_var(
                            path_of(#[trigger] tables[a].entries@[b]),
                        ) == v) || (exists|b: int|
                        0 <= b < j + 1 && css_var(path_of(#[trigger] entries@[b])) == v) by {
                        if v == nv {
                            assert(css_var(path_of(entries@[j as int])) == v);
                        }
                    }
                }
                j = j + 1;
            }
            proof {
                assert forall|v: Seq<char>| texts(r@).to_set().contains(v) <==> exists|a: int, b: int|
                    0 <= a < i + 1 && 0 <= b < tables[a].entries.len() && css_var(
                        path_of(#[trigger] tables[a].entries@[b]),
                    ) == v by {
                    if exists|b: int| 0 <= b < entries.len() && css_var(path_of(#[trigger] entries@[b])) == v {
                        let b = choose|b: int| 0 <= b < entries.len() && css_var(path_of(#[trigger] entries@[b])) == v;
                        assert(tables[i as int].entries@[b] == entries@[b]);
                    }
                    if exists|a: int, b: int|
                        0 <= a < i + 1 && 0 <= b < tables[a].entries.len() && css_var(
                            path_of(#[trigger] tables[a].entries@[b]),
                        ) == v {
                        let (a, b) = choose|a: int, b: int|
                            0 <= a < i + 1 && 0 <= b < tables[a].entries.len() && css_var(
                                path_of(#[trigger] tables[a].entries@[b]),
                            ) == v;
                        if a == i {
                            assert(css_var(path_of(entries@[b])) == v);
                        }
                    }
                }
            }
            i = i + 1;
        }
        proof {
            assert forall|v: Seq<char>| texts(r@).to_set().contains(v) <==> css_var_set(tables).contains(v) by {
                if texts(r@).to_set().contains(v) {
                    let (a, b) = choose|a: int, b: int|
                        0 <= a < tables.len() && 0 <= b < tables[a].entries.len() && css_var(
                            path_of(#[trigger] tables[a].entries@[b]),
                        ) == v;
                    let f = |l: StyleTokenLeaf| css_var(path_of(l)) == v;
                    assert(f(tables[a].entries@[b]));
                }
                if css_var_set(tables).contains(v) {
                    let f = |l: StyleTokenLeaf| css_var(path_of(l)) == v;
                    let (a, b) = choose|a: int, b: int|
                        0 <= a < tables.len() && 0 <= b < tables[a].entries.len() && #[trigger] f(
                            tables[a].entries@[b],
                        );
                    assert(css_var(path_of(tables[a].entries@[b])) == v);
                }
            }
            assert(texts(r@).to_set() =~= css_var_set(tables));
        }
        r
    }
}

/// A copy of `v` with the same texts.
pub fn clone_strings(v: &[String]) -> (r: Vec<String>)
    ensures
        r@ == v@,
{
    let mut r: Vec<String> = Vec::new();
    let mut i: usize = 0;
    while i < v.len()
        invariant
            i <= v.len(),
            r@ == v@.take(i as int),
        decreases v.len() - i,
    {
        r.push(v[i].clone());
        proof {
            assert(v@.take(i + 1) =~= v@.take(i as int).push(v@[i as int]));
        }
        i = i + 1;
    }
    proof {
        assert(v@.take(v.len() as int) =~= v@);
    }
    r
}

impl StyleTokenLeaf {
    /// A copy with the same path and value.
    pub fn duplicate(&self) -> (r: StyleTokenLeaf)
        ensures
            leaf_view(r) == leaf_view(*self),
    {
        StyleTokenLeaf { path: clone_strings(self.path.as_slice()), value: self.value.clone() }
    }
}

/// Appends copies of `src` to `out`.
fn extend_leaves(out: &mut Vec<StyleTokenLeaf>, src: &[StyleTokenLeaf])
    ensures
        leaf_views(final(out)@) == leaf_views(old(out)@) + leaf_views(src@),
{
    let mut i: usize = 0;
    while i < src.len()
        invariant
            i <= src.len(),
            leaf_views(out@) == leaf_views(old(out)@) + leaf_views(src@.take(i as int)),
        decreases src.len() - i,
    {
        let ghost before = out@;
        out.push(src[i].duplicate());
        proof {
            assert(src@.take(i + 1) =~= src@.take(i as int).push(src@[i as int]));
            assert(leaf_views(src@.take(i + 1)) =~= leaf_views(src@.take(i as int)).push(leaf_view(src@[i as int])));
            assert(leaf_views(out@) =~= leaf_views(before).push(leaf_view(src@[i as int])));
            assert(leaf_views(out@) =~= leaf_views(old(out)@) + leaf_views(src@.take(i + 1)));
        }
        i = i + 1;
    }
    proof {
        assert(src@.take(src.len() as int) =~= src@);
    }
}

/// A token path as one lookup key: its segments joined with NUL.
pub open spec fn nul_key(path: Seq<Seq<char>>) -> Seq<char> {
    join(path, seq!['\0'])
}

fn nul_key_exec(path: &[String]) -> (k: Vec<char>)
    ensures
        k@ == nul_key(texts(path@)),
{
    let mut sep: Vec<char> = Vec::new();
    sep.push('\0');
    let mut k: Vec<char> = Vec::new();
    push_join(&mut k, path, sep.as_slice());
    proof {
        assert(sep@ =~= seq!['\0']);
        assert(k@ =~= nul_key(texts(path@)));
    }
    k
}

/// No later leaf of `input[..m]` has the key of `input[j]`.
pub open spec fn last_within(input: Seq<(Seq<Seq<char>>, Seq<char>)>, m: int, j: int) -> bool {
    forall|k: int| j < k < m ==> nul_key(#[trigger] input[k].0) != nul_key(input[j].0)
}

/// `r[a]` is the last leaf of `input` with its key.
pub open spec fn from_last(
    input: Seq<(Seq<Seq<char>>, Seq<char>)>,
    r: Seq<(Seq<Seq<char>>, Seq<char>)>,
    a: int,
) -> bool {
    exists|j: int| 0 <= j < input.len() && r[a] == #[trigger] input[j] && last_within(input, input.len() as int, j)
}

/// Some leaf of `r` has the key of `l`.
pub open spec fn key_kept(r: Seq<(Seq<Seq<char>>, Seq<char>)>, l: (Seq<Seq<char>>, Seq<char>)) -> bool {
    exists|a: int| 0 <= a < r.len() && nul_key(#[trigger] r[a].0) == nul_key(l.0)
}

/// `r` merges `input` by key: one leaf per key, in increasing key order, and
/// each the last leaf of `input` with that key.
pub open spec fn is_merge(
    input: Seq<(Seq<Seq<char>>, Seq<char>)>,
    r: Seq<(Seq<Seq<char>>, Seq<char>)>,
) -> bool {
    &&& forall|a: int, b: int| 0 <= a < b < r.len() ==> lex_lt(nul_key(r[a].0), nul_key(r[b].0))
    &&& forall|a: int| 0 <= a < r.len() ==> #[trigger] from_last(input, r, a)
    &&& forall|j: int| 0 <= j < input.len() ==> #[trigger] key_kept(r, input[j])
}

/// Some leaf of `acc` has the key of `l`.
spec fn covered(acc: Seq<StyleTokenLeaf>, l: (Seq<Seq<char>>, Seq<char>)) -> bool {
    exists|a: int| 0 <= a < acc.len() && nul_key(path_of(#[trigger] acc[a])) == nul_key(l.0)
}

/// Merge `input` by key (later leaves win), sorted by key.
fn merge_leaves(input: &Vec<StyleTokenLeaf>) -> (r: Vec<StyleTokenLeaf>)
    ensures
        is_merge(leaf_views(input@), leaf_views(r@)),
{
    let ghost inp = leaf_views(input@);
    let mut acc: Vec<StyleTokenLeaf> = Vec::new();
    let mut keys: Vec<Vec<char>> = Vec::new();
    let ghost mut srcs: Seq<int> = Seq::empty();
    let mut n: usize = 0;
    while n < input.len()
        invariant
            n <= input.len(),
            inp == leaf_views(input@),
            acc.len() == keys.len(),
            srcs.len() == acc.len(),
            forall|a: int| 0 <= a < acc.len() ==> (#[trigger] keys@[a])@ == nul_key(path_of(acc@[a])),
            forall|a: int, b: int|
                0 <= a < b < acc.len() ==> lex_lt(nul_key(path_of(#[trigger] acc@[a])), nul_key(path_of(#[trigger] acc@[b]))),
            forall|a: int|
                0 <= a < acc.len() ==> 0 <= #[trigger] srcs[a] < n && leaf_view(acc@[a]) == inp[srcs[a]]
                    && last_within(inp, n as int, srcs[a]),
            forall|j: int| 0 <= j < n ==> #[trigger] covered(acc@, inp[j]),
        decreases input.len() - n,
    {
        let e = input[n].duplicate();
        let key = nul_key_exec(e.path.as_slice());
        let ghost ek = key@;
        let mut i: usize = 0;
        while i < keys.len() && crate::order::lex_order(keys[i].as_slice(), key.as_slice()) < 0
            invariant
                i <= keys.len(),
                key@ == ek,
                forall|a: int| 0 <= a < i ==> lex_lt((#[trigger] keys@[a])@, ek),
            decreases keys.len() - i,
        {
            i = i + 1;
        }
        let same = i < keys.len() && chars_eq(keys[i].as_slice(), key.as_slice());
        let ghost old_acc = acc@;
        let ghost old_keys = keys@;
        let ghost old_srcs = srcs;
        if same {
            acc.set(i, e);
            keys.set(i, key);
            proof {
                srcs = srcs.update(i as int, n as int);
            }
        } else {
            acc.insert(i, e);
            keys.insert(i, key);
            proof {
                srcs = srcs.insert(i as int, n as int);
            }
        }
        proof {
            let na = acc@;
            if i < old_keys.len() && !same {
                crate::order::lemma_lex_total(old_keys[i as int]@, ek);
            }
            assert forall|a: int| 0 <= a < na.len() implies (#[trigger] keys@[a])@ == nul_key(path_of(na[a])) by {
                if same || a < i {
                } else if a > i {
                    assert(keys@[a] == old_keys[a - 1]);
                }
            }
            assert forall|a: int, b: int|
                0 <= a < b < na.len() implies lex_lt(nul_key(path_of(#[trigger] na[a])), nul_key(path_of(#[trigger] na[b]))) by {
                let ka = nul_key(path_of(na[a]));
                let kb = nul_key(path_of(na[b]));
                if same {
                    if a == i {
                        assert(lex_lt(nul_key(path_of(old_acc[a])), nul_key(path_of(old_acc[b]))));
                    } else if b == i {
                        assert(lex_lt(nul_key(path_of(old_acc[a])), nul_key(path_of(old_acc[b]))));
                    }
                } else {
                    if a < i && b == i {
                        assert(lex_lt(old_keys[a]@, ek));
                    } else if a < i && b > i {
                        assert(lex_lt(old_keys[a]@, ek));
                        if b - 1 > i {
                            assert(lex_lt(nul_key(path_of(old_acc[i as int])), nul_key(path_of(old_acc[b - 1]))));
                            crate::order::lemma_lex_trans(ek, old_keys[i as int]@, old_keys[b - 1]@);
                        }
                        crate::order::lemma_lex_trans(old_keys[a]@, ek, kb);
                    } else if a == i {
                        if b - 1 > i {
                            assert(lex_lt(nul_key(path_of(old_acc[i as int])), nul_key(path_of(old_acc[b - 1]))));
                            crate::order::lemma_lex_trans(ek, old_keys[i as int]@, old_keys[b - 1]@);
                        }
                    } else if a > i {
                        assert(lex_lt(nul_key(path_of(old_acc[a - 1])), nul_key(path_of(old_acc[b - 1]))));
                    }
                }
            }
            // the new leaf's key differs from every other kept key
            assert forall|a: int| 0 <= a < na.len() && a != i implies nul_key(path_of(#[trigger] na[a])) != ek by {
                if a < i {
                    crate::order::lemma_lex_irrefl(ek);
                    assert(lex_lt(nul_key(path_of(na[a])), nul_key(path_of(na[i as int]))));
                } else {
                    crate::order::lemma_lex_irrefl(ek);
                    assert(lex_lt(nul_key(path_of(na[i as int])), nul_key(path_of(na[a]))));
                }
            }
            assert forall|a: int|
                0 <= a < na.len() implies 0 <= #[trigger] srcs[a] < n + 1 && leaf_view(na[a]) == inp[srcs[a]]
                    && last_within(inp, n + 1, srcs[a]) by {
                if a != i {
                    let oa = if same || a < i { a } else { a - 1 };
                    assert(srcs[a] == old_srcs[oa]);
                    assert(na[a] == old_acc[oa]);
                    assert(last_within(inp, n as int, old_srcs[oa]));
                    assert(nul_key(inp[n as int].0) == ek);
                    assert forall|k: int| srcs[a] < k < n + 1 implies nul_key(#[trigger] inp[k].0) != nul_key(inp[srcs[a]].0) by {
                        if k == n {
                            assert(nul_key(path_of(na[a])) != ek);
                        }
                    }
                }
            }
            assert forall|j: int| 0 <= j < n + 1 implies #[trigger] covered(acc@, inp[j]) by {
                if j == n {
                    assert(nul_key(path_of(acc@[i as int])) == nul_key(inp[j].0));
                } else {
                    assert(covered(old_acc, inp[j]));
                    let a = choose|a: int|
                        0 <= a < old_acc.len() && nul_key(path_of(#[trigger] old_acc[a])) == nul_key(inp[j].0);
                    if same {
                        if a == i {
                            assert(nul_key(path_of(acc@[i as int])) == nul_key(inp[j].0));
                        } else {
                            assert(nul_key(path_of(acc@[a])) == nul_key(inp[j].0));
                        }
                    } else if a < i {
                        assert(nul_key(path_of(acc@[a])) == nul_key(inp[j].0));
                    } else {
                        assert(nul_key(path_of(acc@[a + 1])) == nul_key(inp[j].0));
                    }
                }
            }
        }
        n = n + 1;
    }
    proof {
        let rv = leaf_views(acc@);
        assert forall|a: int| 0 <= a < rv.len() implies #[trigger] from_last(inp, rv, a) by {
            assert(inp[srcs[a]] == rv[a]);
        }
        assert forall|j: int| 0 <= j < inp.len() implies #[trigger] key_kept(rv, inp[j]) by {
            assert(covered(acc@, inp[j]));
            let a = choose|a: int| 0 <= a < acc.len() && nul_key(path_of(#[trigger] acc@[a])) == nul_key(inp[j].0);
            assert(rv[a].0 == path_of(acc@[a]));
        }
        assert forall|a: int, b: int| 0 <= a < b < rv.len() implies lex_lt(nul_key(rv[a].0), nul_key(rv[b].0)) by {
            assert(rv[a].0 == path_of(acc@[a]));
            assert(rv[b].0 == path_of(acc@[b]));
        }
    }
    acc
}

/// What `resolve(id)` merges: the default table's leaves, then (for another
/// id) the leaves of the overlay named `id`.
pub open spec fn resolve_input(theme: StyleTheme, id: Seq<char>) -> Seq<(Seq<Seq<char>>, Seq<char>)> {
    leaf_views(table_leaves(theme.tables@, theme.default_id@)) + if id != theme.default_id@ {
        leaf_views(table_leaves(theme.tables@, id))
    } else {
        Seq::empty()
    }
}

/// `var(<custom property of path>)`.
pub open spec fn var_ref(path: Seq<Seq<char>>) -> Seq<char> {
    seq!['v', 'a', 'r', '('] + css_var(path) + seq![')']
}

/// Leaves with their values replaced by `var(..)` references.
pub open spec fn var_refs(s: Seq<(Seq<Seq<char>>, Seq<char>)>) -> Seq<(Seq<Seq<char>>, Seq<char>)> {
    s.map_values(|v: (Seq<Seq<char>>, Seq<char>)| (v.0, var_ref(v.0)))
}

impl StyleTheme {
    /// The default table merged with overlay `id` (the overlay wins on the
    /// same key path), one leaf per key in key order.
    pub fn resolve(&self, id: &str) -> (r: Vec<StyleTokenLeaf>)
        ensures
            is_merge(resolve_input(*self, id@), leaf_views(r@)),
            leaf_views(r@) == resolved(*self, id@),
    {
        let mut input: Vec<StyleTokenLeaf> = Vec::new();
        let d = to_chars(self.default_id.as_str());
        match find_table_index(&self.tables, d.as_slice()) {
            Some(i) => extend_leaves(&mut input, self.tables[i].entries.as_slice()),
            None => {},
        }
        proof {
            assert(leaf_views(input@) =~= leaf_views(table_leaves(self.tables@, self.default_id@)));
        }
        let k = to_chars(id);
        if !chars_eq(k.as_slice(), d.as_slice()) {
            match find_table_index(&self.tables, k.as_slice()) {
                Some(i) => extend_leaves(&mut input, self.tables[i].entries.as_slice()),
                None => {},
            }
        }
        proof {
            assert(leaf_views(input@) =~= resolve_input(*self, id@));
        }
        let r = merge_leaves(&input);
        proof {
            lemma_resolved(*self, id@, leaf_views(r@));
        }
        r
    }

    /// The resolved leaves of `id` with each value rewritten to
    /// `var(--vmz-..)`, so runtime theme activation reaches every engine.
    pub fn project_var_refs(&self, id: &str) -> (r: Vec<StyleTokenLeaf>)
        ensures
            leaf_views(r@) == var_refs(resolved(*self, id@)),
    {
        let res = self.resolve(id);
        let mut r: Vec<StyleTokenLeaf> = Vec::new();
        let mut i: usize = 0;
        while i < res.len()
            invariant
                i <= res.len(),
                leaf_views(r@) == var_refs(leaf_views(res@).take(i as int)),
            decreases res.len() - i,
        {
            let name = css_var_chars(res[i].path.as_slice());
            let mut v: Vec<char> = Vec::new();
            v.push('v');
            v.push('a');
            v.push('r');
            v.push('(');
            push_all(&mut v, name.as_slice());
            v.push(')');
            let ghost before = r@;
            r.push(StyleTokenLeaf { path: clone_strings(res[i].path.as_slice()), value: from_chars(v.as_slice()) });
            proof {
                assert(v@ =~= var_ref(path_of(res@[i as int])));
                assert(leaf_views(res@).take(i + 1) =~= leaf_views(res@).take(i as int).push(leaf_view(res@[i as int])));
                assert(leaf_views(r@) =~= leaf_views(before).push(leaf_view(r@[i as int])));
                assert(leaf_views(r@) =~= var_refs(leaf_views(res@).take(i + 1)));
            }
            i = i + 1;
        }
        proof {
            assert(leaf_views(res@).take(res.len() as int) =~= leaf_views(res@));
        }
        r
    }

    /// Leaf keys under namespace `ns` (`colors` -> `action`, `action-hover`),
    /// sorted and each once.
    pub fn known_ns_keys(&self, ns: &str) -> (r: Vec<String>)
        ensures
            strictly_sorted(texts(r@)),
            texts(r@).to_set() == ns_key_set(self.tables@, ns@),
    {
        let nsv = to_chars(ns);
        let ghost tables = self.tables@;
        let ghost want = |l: StyleTokenLeaf, k: Seq<char>| path_of(l).len() >= 2 && path_of(l)[0] == ns@ && ns_key(path_of(l)) == k;
        let mut sep: Vec<char> = Vec::new();
        sep.push('-');
        let mut r: Vec<String> = Vec::new();
        let mut i: usize = 0;
        while i < self.tables.len()
            invariant
                i <= self.tables.len(),
                tables == self.tables@,
                nsv@ == ns@,
                sep@ == seq!['-'],
                strictly_sorted(texts(r@)),
                forall|k: Seq<char>| texts(r@).to_set().contains(k) <==> exists|a: int, b: int|
                    0 <= a < i && 0 <= b < tables[a].entries.len() && ns_pick(
                        #[trigger] tables[a].entries@[b], ns@, k),
            decreases self.tables.len() - i,
        {
            let entries = &self.tables[i].entries;
            let mut j: usize = 0;
            while j < entries.len()
                invariant
                    i < self.tables.len(),
                    tables == self.tables@,
                    entries == tables[i as int].entries,
                    j <= entries.len(),
                    nsv@ == ns@,
                    sep@ == seq!['-'],
                    strictly_sorted(texts(r@)),
                    forall|k: Seq<char>| texts(r@).to_set().contains(k) <==> (exists|a: int, b: int|
                        0 <= a < i && 0 <= b < tables[a].entries.len() && ns_pick(
                            #[trigger] tables[a].entries@[b], ns@, k)) || (exists|b: int|
                        0 <= b < j && ns_pick(#[trigger] entries@[b], ns@, k)),
                decreases entries.len() - j,
            {
                let path = entries[j].path.as_slice();
                let take = if path.len() >= 2 {
                    let first = to_chars(path[0].as_str());
                    chars_eq(first.as_slice(), nsv.as_slice())
                } else {
                    false
                };
                if take {
                    let mut key: Vec<char> = Vec::new();
                    push_join(&mut key, &path[1..path.len()], sep.as_slice());
                    let ghost kv = key@;
                    proof {
                        assert(path@.subrange(1, path@.len() as int) =~= path@.skip(1));
                        assert(texts(path@.skip(1)) =~= path_of(entries@[j as int]).skip(1));
                        assert(ns_pick(entries@[j as int], ns@, kv));
                    }
                    insert_sorted_unique(&mut r, from_chars(key.as_slice()));
                    proof {
                        assert forall|k: Seq<char>| texts(r@).to_set().contains(k) <==> (exists|a: int, b: int|
                            0 <= a < i && 0 <= b < tables[a].entries.len() && ns_pick(
                                #[trigger] tables[a].entries@[b], ns@, k)) || (exists|b: int|
                            0 <= b < j + 1 && ns_pick(#[trigger] entries@[b], ns@, k)) by {
                            if exists|b: int| 0 <= b < j + 1 && ns_pick(#[trigger] entries@[b], ns@, k) {
                                let b = choose|b: int| 0 <= b < j + 1 && ns_pick(#[trigger] entries@[b], ns@, k);
                                if b == j {
                                    assert(k == kv);
                                }
                            }
                        }
                    }
                } else {
                    proof {
                        assert forall|k: Seq<char>| !ns_pick(entries@[j as int], ns@, k) by {
                            if path@.len() >= 2 {
                                assert(path_of(entries@[j as int])[0] == path@[0]@);
                            }
                        }
                        assert forall|k: Seq<char>| texts(r@).to_set().contains(k) <==> (exists|a: int, b: int|
                            0 <= a < i && 0 <= b < tables[a].entries.len() && ns_pick(
                                #[trigger] tables[a].entries@[b], ns@, k)) || (exists|b: int|
                            0 <= b < j + 1 && ns_pick(#[trigger] entries@[b], ns@, k)) by {
                            if exists|b: int| 0 <= b < j + 1 && ns_pick(#[trigger] entries@[b], ns@, k) {
                                let b = choose|b: int| 0 <= b < j + 1 && ns_pick(#[trigger] entries@[b], ns@, k);
                                assert(b != j);
                            }
                        }
                    }
                }
                j = j + 1;
            }
            proof {
                assert forall|k: Seq<char>| texts(r@).to_set().contains(k) <==> exists|a: int, b: int|
                    0 <= a < i + 1 && 0 <= b < tables[a].entries.len() && ns_pick(
                        #[trigger] tables[a].entries@[b], ns@, k) by {
                    if exists|b: int| 0 <= b < entries.len() && ns_pick(#[trigger] entries@[b], ns@, k) {
                        let b = choose|b: int| 0 <= b < entries.len() && ns_pick(#[trigger] entries@[b], ns@, k);
                        assert(ns_pick(tables[i as int].entries@[b], ns@, k));
                    }
                    if exists|a: int, b: int|
                        0 <= a < i + 1 && 0 <= b < tables[a].entries.len() && ns_pick(
                            #[trigger] tables[a].entries@[b], ns@, k) {
                        let (a, b) = choose|a: int, b: int|
                            0 <= a < i + 1 && 0 <= b < tables[a].entries.len() && ns_pick(
                                #[trigger] tables[a].entries@[b], ns@, k);
                        if a == i {
                            assert(ns_pick(entries@[b], ns@, k));
                        }
                    }
                }
            }
            i = i + 1;
        }
        proof {
            assert forall|k: Seq<char>| texts(r@).to_set().contains(k) <==> ns_key_set(tables, ns@).contains(k) by {
                let f = |l: StyleTokenLeaf| path_of(l).len() >= 2 && path_of(l)[0] == ns@ && ns_key(path_of(l)) == k;
                if texts(r@).to_set().contains(k) {
                    let (a, b) = choose|a: int, b: int|
                        0 <= a < tables.len() && 0 <= b < tables[a].entries.len() && ns_pick(
                            #[trigger] tables[a].entries@[b], ns@, k);
                    assert(f(tables[a].entries@[b]));
                }
                if ns_key_set(tables, ns@).contains(k) {
                    let (a, b) = choose|a: int, b: int|
                        0 <= a < tables.len() && 0 <= b < tables[a].entries.len() && #[trigger] f(
                            tables[a].entries@[b],
                        );
                    assert(ns_pick(tables[a].entries@[b], ns@, k));
                }
            }
            assert(texts(r@).to_set() =~= ns_key_set(tables, ns@));
        }
        r
    }

    /// Whether `key` is a leaf key under namespace `ns`.
    pub fn has_ns_key(&self, ns: &str, key: &str) -> (r: bool)
        ensures
            r == ns_key_set(self.tables@, ns@).contains(key@),
    {
        let keys = self.known_ns_keys(ns);
        let want = to_chars(key);
        let mut i: usize = 0;
        while i < keys.len()
            invariant
                i <= keys.len(),
                want@ == key@,
                texts(keys@).to_set() == ns_key_set(self.tables@, ns@),
                forall|j: int| 0 <= j < i ==> (#[trigger] keys@[j])@ != key@,
            decreases keys.len() - i,
        {
            let k = to_chars(keys[i].as_str());
            if chars_eq(k.as_slice(), want.as_slice()) {
                proof {
                    assert(texts(keys@)[i as int] == key@);
                    assert(texts(keys@).contains(key@));
                    assert(texts(keys@).to_set().contains(key@));
                    assert(ns_key_set(self.tables@, ns@).contains(key@));
                }
                return true;
            }
            i = i + 1;
        }
        proof {
            if texts(keys@).to_set().contains(key@) {
                let j = choose|j: int| 0 <= j < texts(keys@).len() && texts(keys@)[j] == key@;
                assert(keys@[j]@ == key@);
            }
        }
        false
    }
}

/// `l` lies under namespace `ns` with at least two segments and has key `k` there.
pub open spec fn ns_pick(l: StyleTokenLeaf, ns: Seq<char>, k: Seq<char>) -> bool {
    path_of(l).len() >= 2 && path_of(l)[0] == ns && ns_key(path_of(l)) == k
}

impl DesignsBundle {
    /// Leaves of the default table (none when it is missing).
    pub fn tokens(&self) -> (r: &[StyleTokenLeaf])
        ensures
            r@ == table_leaves(self.theme.tables@, self.theme.default_id@),
    {
        match self.theme.table(self.theme.default_id.as_str()) {
            Some(t) => t.entries.as_slice(),
            None => &[],
        }
    }
}

proof fn lemma_sorted_same_keys(
    r1: Seq<(Seq<Seq<char>>, Seq<char>)>,
    r2: Seq<(Seq<Seq<char>>, Seq<char>)>,
)
    requires
        forall|a: int, b: int| 0 <= a < b < r1.len() ==> lex_lt(nul_key(r1[a].0), nul_key(r1[b].0)),
        forall|a: int, b: int| 0 <= a < b < r2.len() ==> lex_lt(nul_key(r2[a].0), nul_key(r2[b].0)),
        forall|a: int| 0 <= a < r1.len() ==> #[trigger] key_kept(r2, r1[a]),
        forall|a: int| 0 <= a < r2.len() ==> #[trigger] key_kept(r1, r2[a]),
    ensures
        r1.len() == r2.len(),
        forall|a: int| 0 <= a < r1.len() ==> nul_key(#[trigger] r1[a].0) == nul_key(r2[a].0),
    decreases r1.len(),
{
    if r1.len() == 0 {
        if r2.len() > 0 {
            assert(key_kept(r1, r2[0]));
        }
    } else if r2.len() == 0 {
        assert(key_kept(r2, r1[0]));
    } else {
        let k1 = nul_key(r1[0].0);
        let k2 = nul_key(r2[0].0);
        assert(key_kept(r2, r1[0]));
        let b = choose|b: int| 0 <= b < r2.len() && nul_key(#[trigger] r2[b].0) == k1;
        assert(key_kept(r1, r2[0]));
        let a = choose|a: int| 0 <= a < r1.len() && nul_key(#[trigger] r1[a].0) == k2;
        if b > 0 {
            assert(lex_lt(k2, k1));
            if a > 0 {
                assert(lex_lt(k1, k2));
                crate::order::lemma_lex_asym(k1, k2);
            }
            crate::order::lemma_lex_irrefl(k1);
        }
        assert(k1 == k2);
        let t1 = r1.drop_first();
        let t2 = r2.drop_first();
        assert forall|x: int| 0 <= x < t1.len() implies #[trigger] key_kept(t2, t1[x]) by {
            assert(key_kept(r2, r1[x + 1]));
            let y = choose|y: int| 0 <= y < r2.len() && nul_key(#[trigger] r2[y].0) == nul_key(r1[x + 1].0);
            assert(lex_lt(k1, nul_key(r1[x + 1].0)));
            if y == 0 {
                crate::order::lemma_lex_irrefl(k1);
            }
            assert(nul_key(t2[y - 1].0) == nul_key(t1[x].0));
        }
        assert forall|x: int| 0 <= x < t2.len() implies #[trigger] key_kept(t1, t2[x]) by {
            assert(key_kept(r1, r2[x + 1]));
            let y = choose|y: int| 0 <= y < r1.len() && nul_key(#[trigger] r1[y].0) == nul_key(r2[x + 1].0);
            assert(lex_lt(k2, nul_key(r2[x + 1].0)));
            if y == 0 {
                crate::order::lemma_lex_irrefl(k2);
            }
            assert(nul_key(t1[y - 1].0) == nul_key(t2[x].0));
        }
        lemma_sorted_same_keys(t1, t2);
        assert forall|a: int| 0 <= a < r1.len() implies nul_key(#[trigger] r1[a].0) == nul_key(r2[a].0) by {
            if a > 0 {
                assert(nul_key(t1[a - 1].0) == nul_key(t2[a - 1].0));
            }
        }
    }
}

/// A merge of `input` is unique.
pub proof fn lemma_merge_unique(
    input: Seq<(Seq<Seq<char>>, Seq<char>)>,
    r1: Seq<(Seq<Seq<char>>, Seq<char>)>,
    r2: Seq<(Seq<Seq<char>>, Seq<char>)>,
)
    requires
        is_merge(input, r1),
        is_merge(input, r2),
    ensures
        r1 == r2,
{
    assert forall|a: int| 0 <= a < r1.len() implies #[trigger] key_kept(r2, r1[a]) by {
        assert(from_last(input, r1, a));
        let j = choose|j: int| 0 <= j < input.len() && r1[a] == #[trigger] input[j] && last_within(input, input.len() as int, j);
        assert(key_kept(r2, input[j]));
    }
    assert forall|a: int| 0 <= a < r2.len() implies #[trigger] key_kept(r1, r2[a]) by {
        assert(from_last(input, r2, a));
        let j = choose|j: int| 0 <= j < input.len() && r2[a] == #[trigger] input[j] && last_within(input, input.len() as int, j);
        assert(key_kept(r1, input[j]));
    }
    lemma_sorted_same_keys(r1, r2);
    assert forall|a: int| 0 <= a < r1.len() implies r1[a] == r2[a] by {
        assert(from_last(input, r1, a));
        assert(from_last(input, r2, a));
        let j1 = choose|j: int| 0 <= j < input.len() && r1[a] == #[trigger] input[j] && last_within(input, input.len() as int, j);
        let j2 = choose|j: int| 0 <= j < input.len() && r2[a] == #[trigger] input[j] && last_within(input, input.len() as int, j);
        assert(nul_key(r1[a].0) == nul_key(r2[a].0));
        if j1 < j2 {
            assert(nul_key(input[j2].0) != nul_key(input[j1].0));
        } else if j2 < j1 {
            assert(nul_key(input[j1].0) != nul_key(input[j2].0));
        }
    }
    assert(r1 =~= r2);
}

/// The leaves `resolve(id)` returns, as plain values.
pub open spec fn resolved(theme: StyleTheme, id: Seq<char>) -> Seq<(Seq<Seq<char>>, Seq<char>)> {
    choose|m: Seq<(Seq<Seq<char>>, Seq<char>)>| is_merge(resolve_input(theme, id), m)
}

/// Any merge of a theme's input is what `resolved` names.
pub proof fn lemma_resolved(theme: StyleTheme, id: Seq<char>, m: Seq<(Seq<Seq<char>>, Seq<char>)>)
    requires
        is_merge(resolve_input(theme, id), m),
    ensures
        resolved(theme, id) == m,
{
    lemma_merge_unique(resolve_input(theme, id), resolved(theme, id), m);
}

/// Lexicographic order of token paths (segment by segment).
pub open spec fn path_lt(a: Seq<Seq<char>>, b: Seq<Seq<char>>) -> bool
    decreases a.len(),
{
    if a.len() == 0 {
        b.len() > 0
    } else if b.len() == 0 {
        false
    } else if a[0] != b[0] {
        lex_lt(a[0], b[0])
    } else {
        path_lt(a.drop_first(), b.drop_first())
    }
}

/// Whether path `a` sorts before path `b`.
fn path_lt_exec(a: &[String], b: &[String]) -> (r: bool)
    ensures
        r == path_lt(texts(a@), texts(b@)),
{
    let ghost ta = texts(a@);
    let ghost tb = texts(b@);
    let mut i: usize = 0;
    proof {
        assert(ta.skip(0) =~= ta);
        assert(tb.skip(0) =~= tb);
    }
    while i < a.len() && i < b.len()
        invariant
            i <= a.len(),
            i <= b.len(),
            ta == texts(a@),
            tb == texts(b@),
            path_lt(ta, tb) == path_lt(ta.skip(i as int), tb.skip(i as int)),
        decreases a.len() - i,
    {
        let x = to_chars(a[i].as_str());
        let y = to_chars(b[i].as_str());
        let c = crate::order::lex_order(x.as_slice(), y.as_slice());
        if c != 0 {
            proof {
                assert(ta.skip(i as int)[0] == ta[i as int]);
                assert(tb.skip(i as int)[0] == tb[i as int]);
            }
            return c < 0;
        }
        proof {
            assert(ta.skip(i as int).drop_first() =~= ta.skip(i + 1));
            assert(tb.skip(i as int).drop_first() =~= tb.skip(i + 1));
        }
        i = i + 1;
    }
    i < b.len()
}

/// Order of leaves by path.
pub open spec fn entry_lt() -> spec_fn((Seq<Seq<char>>, Seq<char>), (Seq<Seq<char>>, Seq<char>)) -> bool {
    |x: (Seq<Seq<char>>, Seq<char>), y: (Seq<Seq<char>>, Seq<char>)| path_lt(x.0, y.0)
}

/// A table as plain values: (id, leaves).
pub open spec fn table_view(t: StyleThemeTable) -> (Seq<char>, Seq<(Seq<Seq<char>>, Seq<char>)>) {
    (t.id@, leaf_views(t.entries@))
}

/// Order of tables by id.
pub open spec fn table_lt() -> spec_fn(
    (Seq<char>, Seq<(Seq<Seq<char>>, Seq<char>)>),
    (Seq<char>, Seq<(Seq<Seq<char>>, Seq<char>)>),
) -> bool {
    |x: (Seq<char>, Seq<(Seq<Seq<char>>, Seq<char>)>), y: (Seq<char>, Seq<(Seq<Seq<char>>, Seq<char>)>)|
        lex_lt(x.0, y.0)
}

/// Copies of `src` stably sorted by path.
fn sort_leaves(src: &[StyleTokenLeaf]) -> (r: Vec<StyleTokenLeaf>)
    ensures
        leaf_views(r@) == stable_sort(leaf_views(src@), entry_lt()),
{
    let ghost v = leaf_views(src@);
    let mut r: Vec<StyleTokenLeaf> = Vec::new();
    let mut i: usize = 0;
    while i < src.len()
        invariant
            i <= src.len(),
            v == leaf_views(src@),
            leaf_views(r@) == stable_sort(v.take(i as int), entry_lt()),
        decreases src.len() - i,
    {
        let x = src[i].duplicate();
        let mut p: usize = 0;
        while p < r.len() && !path_lt_exec(x.path.as_slice(), r[p].path.as_slice())
            invariant
                p <= r.len(),
                forall|k: int| 0 <= k < p ==> !path_lt(path_of(x), path_of(#[trigger] r@[k])),
            decreases r.len() - p,
        {
            p = p + 1;
        }
        let ghost t = leaf_views(r@);
        proof {
            assert forall|k: int| 0 <= k < p implies !(entry_lt())(leaf_view(x), #[trigger] t[k]) by {
                assert(!path_lt(path_of(x), path_of(r@[k])));
            }
            lemma_ins_sorted_at(t, leaf_view(x), entry_lt(), p as int);
            assert(v.take(i + 1).drop_last() =~= v.take(i as int));
            assert(v.take(i + 1).last() == leaf_view(x));
        }
        r.insert(p, x);
        proof {
            assert(leaf_views(r@) =~= t.take(p as int) + seq![leaf_view(src@[i as int])] + t.skip(p as int));
        }
        i = i + 1;
    }
    proof {
        assert(v.take(src.len() as int) =~= v);
    }
    r
}

/// Whether `x` sorts before the id of `tables[k]`.
fn id_lt_at(tables: &Vec<StyleThemeTable>, x: &[char], k: usize) -> (r: bool)
    requires
        k < tables.len(),
    ensures
        r == lex_lt(x@, tables@[k as int].id@),
{
    let y = to_chars(tables[k].id.as_str());
    crate::order::lex_order(x, y.as_slice()) < 0
}

/// Indices of `tables` in the order of a stable sort by id.
fn sorted_table_order(tables: &Vec<StyleThemeTable>) -> (r: Vec<usize>)
    ensures
        forall|k: int| 0 <= k < r.len() ==> #[trigger] r@[k] < tables.len(),
        r@.map_values(|k: usize| table_view(tables@[k as int])) == stable_sort(
            tables@.map_values(|t: StyleThemeTable| table_view(t)),
            table_lt(),
        ),
{
    let ghost v = tables@.map_values(|t: StyleThemeTable| table_view(t));
    let mut r: Vec<usize> = Vec::new();
    let mut i: usize = 0;
    while i < tables.len()
        invariant
            i <= tables.len(),
            v == tables@.map_values(|t: StyleThemeTable| table_view(t)),
            forall|k: int| 0 <= k < r.len() ==> #[trigger] r@[k] < i,
            r@.map_values(|k: usize| table_view(tables@[k as int])) == stable_sort(v.take(i as int), table_lt()),
        decreases tables.len() - i,
    {
        let x = to_chars(tables[i].id.as_str());
        let mut p: usize = 0;
        while p < r.len() && !id_lt_at(tables, x.as_slice(), r[p])
            invariant
                p <= r.len(),
                forall|k: int| 0 <= k < r.len() ==> #[trigger] r@[k] < i,
                i < tables.len(),
                x@ == tables@[i as int].id@,
                forall|k: int| 0 <= k < p ==> !lex_lt(x@, tables@[#[trigger] r@[k] as int].id@),
            decreases r.len() - p,
        {
            p = p + 1;
        }
        let ghost t = r@.map_values(|k: usize| table_view(tables@[k as int]));
        proof {
            assert forall|k: int| 0 <= k < p implies !(table_lt())(v[i as int], #[trigger] t[k]) by {
                assert(!lex_lt(x@, tables@[r@[k] as int].id@));
            }
            lemma_ins_sorted_at(t, v[i as int], table_lt(), p as int);
            assert(v.take(i + 1).drop_last() =~= v.take(i as int));
        }
        r.insert(p, i);
        proof {
            assert(r@.map_values(|k: usize| table_view(tables@[k as int])) =~= t.take(p as int) + seq![v[i as int]] + t.skip(p as int));
        }
        i = i + 1;
    }
    proof {
        assert(v.take(tables.len() as int) =~= v);
    }
    r
}

/// `scheme=theme\n` for each pair, in order.
pub open spec fn scheme_lines(p: Seq<(Seq<char>, Seq<char>)>) -> Seq<char>
    decreases p.len(),
{
    if p.len() == 0 {
        Seq::empty()
    } else {
        scheme_lines(p.drop_last()) + p.last().0 + seq!['='] + p.last().1 + seq!['\n']
    }
}

/// `a.b.c=value\n` for each leaf, in order.
pub open spec fn entry_lines(s: Seq<(Seq<Seq<char>>, Seq<char>)>) -> Seq<char>
    decreases s.len(),
{
    if s.len() == 0 {
        Seq::empty()
    } else {
        entry_lines(s.drop_last()) + join(s.last().0, seq!['.']) + seq!['='] + s.last().1 + seq!['\n']
    }
}

/// For each table: its id, a newline, then its leaves sorted by path.
pub open spec fn table_blocks(s: Seq<(Seq<char>, Seq<(Seq<Seq<char>>, Seq<char>)>)>) -> Seq<char>
    decreases s.len(),
{
    if s.len() == 0 {
        Seq::empty()
    } else {
        table_blocks(s.drop_last()) + s.last().0 + seq!['\n'] + entry_lines(stable_sort(s.last().1, entry_lt()))
    }
}

/// The text the content hash digests: default id, activation attribute,
/// the scheme preferences, then every table sorted by id.
pub open spec fn hash_text(theme: StyleTheme) -> Seq<char> {
    theme.default_id@ + seq!['\n'] + theme.activation_attr@ + seq!['\n'] + scheme_lines(
        theme.prefers_color_scheme.pairs(),
    ) + table_blocks(stable_sort(theme.tables@.map_values(|t: StyleThemeTable| table_view(t)), table_lt()))
}

fn push_entry_lines(out: &mut Vec<char>, leaves: &[StyleTokenLeaf])
    ensures
        final(out)@ == old(out)@ + entry_lines(leaf_views(leaves@)),
{
    let ghost v = leaf_views(leaves@);
    let mut dot: Vec<char> = Vec::new();
    dot.push('.');
    let mut i: usize = 0;
    while i < leaves.len()
        invariant
            i <= leaves.len(),
            v == leaf_views(leaves@),
            dot@ == seq!['.'],
            out@ == old(out)@ + entry_lines(v.take(i as int)),
        decreases leaves.len() - i,
    {
        push_join(out, leaves[i].path.as_slice(), dot.as_slice());
        out.push('=');
        push_str(out, leaves[i].value.as_str());
        out.push('\n');
        proof {
            assert(v.take(i + 1).drop_last() =~= v.take(i as int));
            assert(out@ =~= old(out)@ + entry_lines(v.take(i + 1)));
        }
        i = i + 1;
    }
    proof {
        assert(v.take(leaves.len() as int) =~= v);
    }
}

impl SchemeMap {
    fn push_lines(&self, out: &mut Vec<char>)
        ensures
            final(out)@ == old(out)@ + scheme_lines(self.pairs()),
    {
        let ghost p = self.pairs();
        let mut i: usize = 0;
        while i < self.entries.len()
            invariant
                i <= self.entries.len(),
                p == self.pairs(),
                out@ == old(out)@ + scheme_lines(p.take(i as int)),
            decreases self.entries.len() - i,
        {
            push_str(out, self.entries[i].0.as_str());
            out.push('=');
            push_str(out, self.entries[i].1.as_str());
            out.push('\n');
            proof {
                assert(p.take(i + 1).drop_last() =~= p.take(i as int));
                assert(out@ =~= old(out)@ + scheme_lines(p.take(i + 1)));
            }
            i = i + 1;
        }
        proof {
            assert(p.take(self.entries.len() as int) =~= p);
        }
    }
}

/// Summary of a theme for deployment and reports (no leaf values).
#[derive(Debug, Clone)]
pub struct StyleThemeSummary {
    pub default_theme_id: String,
    pub theme_ids: Vec<String>,
    pub activation_attr: String,
    pub prefers_color_scheme: SchemeMap,
    pub content_hash: String,
}

impl SchemeMap {
    /// A copy with the same pairs.
    pub fn duplicate(&self) -> (r: SchemeMap)
        ensures
            r.pairs() == self.pairs(),
            r.wf() == self.wf(),
    {
        let mut entries: Vec<(String, String)> = Vec::new();
        let mut i: usize = 0;
        while i < self.entries.len()
            invariant
                i <= self.entries.len(),
                entries@.map_values(|p: (String, String)| (p.0@, p.1@)) == self.pairs().take(i as int),
            decreases self.entries.len() - i,
        {
            let a = self.entries[i].0.clone();
            let b = self.entries[i].1.clone();
            let ghost before = entries@;
            entries.push((a, b));
            proof {
                assert(self.pairs()[i as int] == (a@, b@));
                assert(entries@.map_values(|p: (String, String)| (p.0@, p.1@)) =~= before.map_values(|p: (String, String)| (p.0@, p.1@)).push((a@, b@)));
                assert(entries@.map_values(|p: (String, String)| (p.0@, p.1@)) =~= self.pairs().take(i + 1));
            }
            i = i + 1;
        }
        proof {
            assert(self.pairs().take(self.entries.len() as int) =~= self.pairs());
        }
        SchemeMap { entries }
    }
}

impl StyleTheme {
    /// Stable hash over the default id, the activation attribute, the scheme
    /// preferences and every table's leaves.
    pub fn content_hash(&self) -> (r: String)
        ensures
            r@ == crate::digest::hex(crate::digest::sha256_of_text(hash_text(*self))),
    {
        let mut buf: Vec<char> = Vec::new();
        push_str(&mut buf, self.default_id.as_str());
        buf.push('\n');
        push_str(&mut buf, self.activation_attr.as_str());
        buf.push('\n');
        self.prefers_color_scheme.push_lines(&mut buf);
        let order = sorted_table_order(&self.tables);
        let ghost sv = order@.map_values(|k: usize| table_view(self.tables@[k as int]));
        let ghost pre = buf@;
        let mut i: usize = 0;
        while i < order.len()
            invariant
                i <= order.len(),
                forall|k: int| 0 <= k < order.len() ==> #[trigger] order@[k] < self.tables.len(),
                sv == order@.map_values(|k: usize| table_view(self.tables@[k as int])),
                buf@ == pre + table_blocks(sv.take(i as int)),
            decreases order.len() - i,
        {
            let t = &self.tables[order[i]];
            push_str(&mut buf, t.id.as_str());
            buf.push('\n');
            let sorted = sort_leaves(t.entries.as_slice());
            push_entry_lines(&mut buf, sorted.as_slice());
            proof {
                assert(sv.take(i + 1).drop_last() =~= sv.take(i as int));
                assert(sv.take(i + 1).last() == table_view(*t));
                assert(buf@ =~= pre + table_blocks(sv.take(i + 1)));
            }
            i = i + 1;
        }
        proof {
            assert(sv.take(order.len() as int) =~= sv);
            assert(buf@ =~= hash_text(*self));
        }
        let text = from_chars(buf.as_slice());
        crate::digest::sha256_hex(text.as_str())
    }

    /// The theme's summary: ids, activation attribute, preferences and hash.
    pub fn summary(&self) -> (r: StyleThemeSummary)
        ensures
            r.default_theme_id@ == self.default_id@,
            strictly_sorted(texts(r.theme_ids@)),
            self.tables.len() == 0 ==> texts(r.theme_ids@) == seq![self.default_id@],
            self.tables.len() > 0 ==> texts(r.theme_ids@).to_set() == table_ids(self.tables@).to_set(),
            r.activation_attr@ == self.activation_attr@,
            r.prefers_color_scheme.pairs() == self.prefers_color_scheme.pairs(),
            r.content_hash@ == crate::digest::hex(crate::digest::sha256_of_text(hash_text(*self))),
    {
        StyleThemeSummary {
            default_theme_id: self.default_id.clone(),
            theme_ids: self.theme_ids(),
            activation_attr: self.activation_attr.clone(),
            prefers_color_scheme: self.prefers_color_scheme.duplicate(),
            content_hash: self.content_hash(),
        }
    }
}

/// Tables as plain values.
pub open spec fn table_views(ts: Seq<StyleThemeTable>) -> Seq<(Seq<char>, Seq<(Seq<Seq<char>>, Seq<char>)>)> {
    ts.map_values(|t: StyleThemeTable| table_view(t))
}

/// Adds overlay `o` to `ts`: its leaves extend the first table with its id,
/// or it becomes a new last table.
pub open spec fn add_overlay(
    ts: Seq<(Seq<char>, Seq<(Seq<Seq<char>>, Seq<char>)>)>,
    o: (Seq<char>, Seq<(Seq<Seq<char>>, Seq<char>)>),
) -> Seq<(Seq<char>, Seq<(Seq<Seq<char>>, Seq<char>)>)>
    decreases ts.len(),
{
    if ts.len() == 0 {
        seq![o]
    } else if ts[0].0 == o.0 {
        seq![(ts[0].0, ts[0].1 + o.1)] + ts.drop_first()
    } else {
        seq![ts[0]] + add_overlay(ts.drop_first(), o)
    }
}

/// Adds the overlays one after the other.
pub open spec fn add_overlays(
    ts: Seq<(Seq<char>, Seq<(Seq<Seq<char>>, Seq<char>)>)>,
    os: Seq<(Seq<char>, Seq<(Seq<Seq<char>>, Seq<char>)>)>,
) -> Seq<(Seq<char>, Seq<(Seq<Seq<char>>, Seq<char>)>)>
    decreases os.len(),
{
    if os.len() == 0 {
        ts
    } else {
        add_overlay(add_overlays(ts, os.drop_last()), os.last())
    }
}

proof fn lemma_add_overlay_at(
    ts: Seq<(Seq<char>, Seq<(Seq<Seq<char>>, Seq<char>)>)>,
    o: (Seq<char>, Seq<(Seq<Seq<char>>, Seq<char>)>),
    i: int,
)
    requires
        0 <= i <= ts.len(),
        forall|j: int| 0 <= j < i ==> (#[trigger] ts[j]).0 != o.0,
        i < ts.len() ==> ts[i].0 == o.0,
    ensures
        add_overlay(ts, o) == if i < ts.len() {
            ts.update(i, (ts[i].0, ts[i].1 + o.1))
        } else {
            ts.push(o)
        },
    decreases i,
{
    if i > 0 {
        let u = ts.drop_first();
        assert forall|j: int| 0 <= j < i - 1 implies (#[trigger] u[j]).0 != o.0 by {
            assert(u[j] == ts[j + 1]);
        }
        lemma_add_overlay_at(u, o, i - 1);
        if i < ts.len() {
            assert(seq![ts[0]] + u.update(i - 1, (u[i - 1].0, u[i - 1].1 + o.1)) =~= ts.update(i, (ts[i].0, ts[i].1 + o.1)));
        } else {
            assert(seq![ts[0]] + u.push(o) =~= ts.push(o));
        }
    } else if ts.len() > 0 {
        assert(seq![(ts[0].0, ts[0].1 + o.1)] + ts.drop_first() =~= ts.update(0, (ts[0].0, ts[0].1 + o.1)));
    } else {
        assert(seq![o] =~= ts.push(o));
    }
}

/// The theme tables from the loaded token files: the default table holds
/// `default_entries`; each overlay `(id, leaves)`, in order, extends the
/// first table with its id or becomes a new table.
pub fn assemble_tables(
    default_id: String,
    default_entries: Vec<StyleTokenLeaf>,
    overlays: Vec<(String, Vec<StyleTokenLeaf>)>,
) -> (r: Vec<StyleThemeTable>)
    ensures
        table_views(r@) == add_overlays(
            seq![(default_id@, leaf_views(default_entries@))],
            overlays@.map_values(|o: (String, Vec<StyleTokenLeaf>)| (o.0@, leaf_views(o.1@))),
        ),
{
    let ghost os = overlays@.map_values(|o: (String, Vec<StyleTokenLeaf>)| (o.0@, leaf_views(o.1@)));
    let ghost base = seq![(default_id@, leaf_views(default_entries@))];
    let mut tables: Vec<StyleThemeTable> = Vec::new();
    tables.push(StyleThemeTable { id: default_id, entries: default_entries });
    proof {
        assert(table_views(tables@) =~= base);
        assert(os.take(0) =~= Seq::<(Seq<char>, Seq<(Seq<Seq<char>>, Seq<char>)>)>::empty());
    }
    let mut i: usize = 0;
    while i < overlays.len()
        invariant
            i <= overlays.len(),
            os == overlays@.map_values(|o: (String, Vec<StyleTokenLeaf>)| (o.0@, leaf_views(o.1@))),
            table_views(tables@) == add_overlays(base, os.take(i as int)),
        decreases overlays.len() - i,
    {
        let ghost tv = table_views(tables@);
        let id = to_chars(overlays[i].0.as_str());
        proof {
            assert(os.take(i + 1).drop_last() =~= os.take(i as int));
            assert(os.take(i + 1).last() == os[i as int]);
        }
        match find_table_index(&tables, id.as_slice()) {
            Some(k) => {
                proof {
                    assert forall|j: int| 0 <= j < k implies (#[trigger] tv[j]).0 != os[i as int].0 by {
                        assert(tv[j].0 == tables@[j].id@);
                    }
                    lemma_add_overlay_at(tv, os[i as int], k as int);
                }
                let mut entries: Vec<StyleTokenLeaf> = Vec::new();
                extend_leaves(&mut entries, tables[k].entries.as_slice());
                extend_leaves(&mut entries, overlays[i].1.as_slice());
                let t = StyleThemeTable { id: tables[k].id.clone(), entries };
                tables.set(k, t);
                proof {
                    assert(table_views(tables@) =~= tv.update(k as int, (tv[k as int].0, tv[k as int].1 + os[i as int].1)));
                }
            },
            None => {
                proof {
                    assert forall|j: int| 0 <= j < tv.len() implies (#[trigger] tv[j]).0 != os[i as int].0 by {
                        assert(tv[j].0 == tables@[j].id@);
                    }
                    lemma_add_overlay_at(tv, os[i as int], tv.len() as int);
                }
                let mut entries: Vec<StyleTokenLeaf> = Vec::new();
                extend_leaves(&mut entries, overlays[i].1.as_slice());
                tables.push(StyleThemeTable { id: overlays[i].0.clone(), entries });
                proof {
                    assert(table_views(tables@) =~= tv.push(os[i as int]));
                }
            },
        }
        i = i + 1;
    }
    proof {
        assert(os.take(overlays.len() as int) =~= os);
    }
    tables
}

/// `has_css_var(name)` holds exactly when `known_css_vars` lists the trimmed name.
pub proof fn lemma_has_css_var_is_known(theme: StyleTheme, name: Seq<char>)
    ensures
        any_leaf(theme.tables@, |l: StyleTokenLeaf| css_var(path_of(l)) == trim(name))
            <==> css_var_set(theme.tables@).contains(trim(name)),
{
    let f = |l: StyleTokenLeaf| css_var(path_of(l)) == trim(name);
    let g = |l: StyleTokenLeaf| css_var(path_of(l)) == trim(name);
    assert(f == g);
}
/// Ordering tables by id is a strict weak order.
pub proof fn lemma_table_lt_weak()
    ensures
        weak_order(table_lt()),
{
    let lt = table_lt();
    assert forall|x: (Seq<char>, Seq<(Seq<Seq<char>>, Seq<char>)>)| !#[trigger] lt(x, x) by {
        lemma_lex_irrefl(x.0);
    }
    assert forall|x: (Seq<char>, Seq<(Seq<Seq<char>>, Seq<char>)>), y: (Seq<char>, Seq<(Seq<Seq<char>>, Seq<char>)>), z: (Seq<char>, Seq<(Seq<Seq<char>>, Seq<char>)>)|
        #![trigger lt(x, y), lt(y, z)]
        lt(x, y) && lt(y, z) implies lt(x, z) by {
        lemma_lex_trans(x.0, y.0, z.0);
    }
    assert forall|x: (Seq<char>, Seq<(Seq<Seq<char>>, Seq<char>)>), y: (Seq<char>, Seq<(Seq<Seq<char>>, Seq<char>)>), z: (Seq<char>, Seq<(Seq<Seq<char>>, Seq<char>)>)|
        #![trigger lt(x, y), lt(y, z), lt(x, z)]
        !lt(x, y) && !lt(y, z) implies !lt(x, z) by {
        lemma_lex_total(x.0, y.0);
        lemma_lex_total(y.0, z.0);
        if lex_lt(x.0, z.0) {
            if lex_lt(y.0, x.0) {
                lemma_lex_trans(y.0, x.0, z.0);
                if lex_lt(z.0, y.0) {
                    lemma_lex_trans(z.0, y.0, z.0);
                    lemma_lex_irrefl(z.0);
                }
            } else if lex_lt(z.0, y.0) {
                lemma_lex_trans(z.0, x.0, z.0);
                lemma_lex_irrefl(z.0);
            } else {
                lemma_lex_irrefl(z.0);
            }
        }
    }
}

/// The content hash does not depend on the order of the tables: two themes
/// alike but for the order of their tables (whose ids are distinct) hash
/// the same text.
pub proof fn lemma_content_hash_table_order(t1: StyleTheme, t2: StyleTheme)
    requires
        t1.default_id@ == t2.default_id@,
        t1.activation_attr@ == t2.activation_attr@,
        t1.prefers_color_scheme.pairs() == t2.prefers_color_scheme.pairs(),
        table_views(t1.tables@).to_multiset() == table_views(t2.tables@).to_multiset(),
        forall|i: int, j: int| 0 <= i < j < t1.tables@.len() ==> #[trigger] t1.tables@[i].id@ != #[trigger] t1.tables@[j].id@,
    ensures
        hash_text(t1) == hash_text(t2),
{
    let s1 = t1.tables@.map_values(|t: StyleThemeTable| table_view(t));
    let s2 = t2.tables@.map_values(|t: StyleThemeTable| table_view(t));
    assert(s1 =~= table_views(t1.tables@));
    assert(s2 =~= table_views(t2.tables@));
    let a = stable_sort(s1, table_lt());
    let b = stable_sort(s2, table_lt());
    lemma_table_lt_weak();
    lemma_stable_sort_sorted(s1, table_lt());
    lemma_stable_sort_sorted(s2, table_lt());
    lemma_stable_sort_multiset(s1, table_lt());
    lemma_stable_sort_multiset(s2, table_lt());
    lemma_stable_sort_elems(s1, table_lt());
    assert forall|x: (Seq<char>, Seq<(Seq<Seq<char>>, Seq<char>)>), y: (Seq<char>, Seq<(Seq<Seq<char>>, Seq<char>)>)|
        #![trigger a.contains(x), a.contains(y)]
        a.contains(x) && a.contains(y) && x != y implies (table_lt())(x, y) || (table_lt())(y, x) by {
        assert(s1.contains(x) && s1.contains(y));
        let p = choose|p: int| 0 <= p < s1.len() && s1[p] == x;
        let q = choose|q: int| 0 <= q < s1.len() && s1[q] == y;
        if p < q {
            assert(t1.tables@[p].id@ != t1.tables@[q].id@);
        } else if q < p {
            assert(t1.tables@[q].id@ != t1.tables@[p].id@);
        }
        lemma_lex_total(x.0, y.0);
    }
    lemma_sorted_same_elems(a, b, table_lt());
}

proof fn lemma_path_irrefl(a: Seq<Seq<char>>)
    ensures
        !path_lt(a, a),
    decreases a.len(),
{
    if a.len() > 0 {
        lemma_path_irrefl(a.drop_first());
    }
}

proof fn lemma_path_trans(a: Seq<Seq<char>>, b: Seq<Seq<char>>, c: Seq<Seq<char>>)
    requires
        path_lt(a, b),
        path_lt(b, c),
    ensures
        path_lt(a, c),
    decreases a.len(),
{
    if a.len() > 0 {
        if a[0] != b[0] {
            if b[0] != c[0] {
                lemma_lex_trans(a[0], b[0], c[0]);
            }
            if a[0] == c[0] {
                lemma_lex_trans(a[0], b[0], a[0]);
                lemma_lex_irrefl(a[0]);
            }
        } else if b[0] != c[0] {
        } else {
            lemma_path_trans(a.drop_first(), b.drop_first(), c.drop_first());
        }
    }
}

proof fn lemma_path_total(a: Seq<Seq<char>>, b: Seq<Seq<char>>)
    ensures
        a == b || path_lt(a, b) || path_lt(b, a),
    decreases a.len(),
{
    if a.len() == 0 && b.len() == 0 {
        assert(a =~= b);
    } else if a.len() > 0 && b.len() > 0 {
        if a[0] != b[0] {
            lemma_lex_total(a[0], b[0]);
        } else {
            lemma_path_total(a.drop_first(), b.drop_first());
            if a.drop_first() == b.drop_first() {
                assert(a =~= seq![a[0]] + a.drop_first());
                assert(b =~= seq![b[0]] + b.drop_first());
            }
        }
    }
}

/// Ordering leaves by path is a strict weak order.
pub proof fn lemma_entry_lt_weak()
    ensures
        weak_order(entry_lt()),
{
    let lt = entry_lt();
    assert forall|x: (Seq<Seq<char>>, Seq<char>)| !#[trigger] lt(x, x) by {
        lemma_path_irrefl(x.0);
    }
    assert forall|x: (Seq<Seq<char>>, Seq<char>), y: (Seq<Seq<char>>, Seq<char>), z: (Seq<Seq<char>>, Seq<char>)|
        #![trigger lt(x, y), lt(y, z)]
        lt(x, y) && lt(y, z) implies lt(x, z) by {
        lemma_path_trans(x.0, y.0, z.0);
    }
    assert forall|x: (Seq<Seq<char>>, Seq<char>), y: (Seq<Seq<char>>, Seq<char>), z: (Seq<Seq<char>>, Seq<char>)|
        #![trigger lt(x, y), lt(y, z), lt(x, z)]
        !lt(x, y) && !lt(y, z) implies !lt(x, z) by {
        if lt(x, z) {
            lemma_path_total(x.0, y.0);
            if x.0 == y.0 {
            } else {
                lemma_path_trans(y.0, x.0, z.0);
            }
        }
    }
}

/// A table's leaves in the order the hash reads them.
pub open spec fn hashed_entries(es: Seq<(Seq<Seq<char>>, Seq<char>)>) -> Seq<(Seq<Seq<char>>, Seq<char>)> {
    stable_sort(es, entry_lt())
}

/// Two tables the hash reads alike: the same id and the same sorted leaves.
pub open spec fn same_hashed_table() -> spec_fn(
    (Seq<char>, Seq<(Seq<Seq<char>>, Seq<char>)>),
    (Seq<char>, Seq<(Seq<Seq<char>>, Seq<char>)>),
) -> bool {
    |x: (Seq<char>, Seq<(Seq<Seq<char>>, Seq<char>)>), y: (Seq<char>, Seq<(Seq<Seq<char>>, Seq<char>)>)|
        x.0 == y.0 && hashed_entries(x.1) == hashed_entries(y.1)
}

proof fn lemma_table_blocks_alike(
    a: Seq<(Seq<char>, Seq<(Seq<Seq<char>>, Seq<char>)>)>,
    b: Seq<(Seq<char>, Seq<(Seq<Seq<char>>, Seq<char>)>)>,
)
    requires
        crate::order::pointwise(a, b, same_hashed_table()),
    ensures
        table_blocks(a) == table_blocks(b),
    decreases a.len(),
{
    if a.len() > 0 {
        let pa = a.drop_last();
        let pb = b.drop_last();
        assert forall|i: int| 0 <= i < pa.len() implies #[trigger] (same_hashed_table())(pa[i], pb[i]) by {
            assert((same_hashed_table())(a[i], b[i]));
        }
        lemma_table_blocks_alike(pa, pb);
        assert((same_hashed_table())(a[a.len() - 1], b[b.len() - 1]));
    }
}

/// The content hash does not depend on the order of each table's leaves:
/// two themes alike but for the order of the leaves inside each table
/// (whose paths are distinct) hash the same text.
pub proof fn lemma_content_hash_entry_order(t1: StyleTheme, t2: StyleTheme)
    requires
        t1.default_id@ == t2.default_id@,
        t1.activation_attr@ == t2.activation_attr@,
        t1.prefers_color_scheme.pairs() == t2.prefers_color_scheme.pairs(),
        t1.tables@.len() == t2.tables@.len(),
        forall|i: int| 0 <= i < t1.tables@.len() ==> (#[trigger] t1.tables@[i]).id@ == t2.tables@[i].id@,
        forall|i: int| 0 <= i < t1.tables@.len() ==> leaf_views((#[trigger] t1.tables@[i]).entries@).to_multiset()
            == leaf_views(t2.tables@[i].entries@).to_multiset(),
        forall|i: int, p: int, q: int|
            0 <= i < t1.tables@.len() && 0 <= p < q < t1.tables@[i].entries@.len() ==> texts(
                (#[trigger] t1.tables@[i].entries@[p]).path@,
            ) != texts((#[trigger] t1.tables@[i].entries@[q]).path@),
    ensures
        hash_text(t1) == hash_text(t2),
{
    let s1 = t1.tables@.map_values(|t: StyleThemeTable| table_view(t));
    let s2 = t2.tables@.map_values(|t: StyleThemeTable| table_view(t));
    let r = same_hashed_table();
    lemma_entry_lt_weak();
    assert forall|i: int| 0 <= i < s1.len() implies #[trigger] r(s1[i], s2[i]) by {
        let e1 = s1[i].1;
        let e2 = s2[i].1;
        assert(e1 == leaf_views(t1.tables@[i].entries@));
        assert(e2 == leaf_views(t2.tables@[i].entries@));
        lemma_stable_sort_sorted(e1, entry_lt());
        lemma_stable_sort_sorted(e2, entry_lt());
        lemma_stable_sort_multiset(e1, entry_lt());
        lemma_stable_sort_multiset(e2, entry_lt());
        lemma_stable_sort_elems(e1, entry_lt());
        let a = stable_sort(e1, entry_lt());
        assert forall|x: (Seq<Seq<char>>, Seq<char>), y: (Seq<Seq<char>>, Seq<char>)|
            #![trigger a.contains(x), a.contains(y)]
            a.contains(x) && a.contains(y) && x != y implies (entry_lt())(x, y) || (entry_lt())(y, x) by {
            assert(e1.contains(x) && e1.contains(y));
            let p = choose|p: int| 0 <= p < e1.len() && e1[p] == x;
            let q = choose|q: int| 0 <= q < e1.len() && e1[q] == y;
            if p < q {
                assert(texts(t1.tables@[i].entries@[p].path@) != texts(t1.tables@[i].entries@[q].path@));
            } else if q < p {
                assert(texts(t1.tables@[i].entries@[q].path@) != texts(t1.tables@[i].entries@[p].path@));
            }
            lemma_path_total(x.0, y.0);
        }
        lemma_sorted_same_elems(a, stable_sort(e2, entry_lt()), entry_lt());
    }
    assert(crate::order::respects(table_lt(), r));
    crate::order::lemma_stable_sort_pointwise(s1, s2, table_lt(), r);
    lemma_table_blocks_alike(stable_sort(s1, table_lt()), stable_sort(s2, table_lt()));
}

/// A table as the hash reads it: its id and its leaves sorted by path.
pub open spec fn hashed_table(x: (Seq<char>, Seq<(Seq<Seq<char>>, Seq<char>)>)) -> (Seq<char>, Seq<(Seq<Seq<char>>, Seq<char>)>) {
    (x.0, hashed_entries(x.1))
}

/// A theme's tables as the hash reads them, in their order.
pub open spec fn hashed_tables(t: StyleTheme) -> Seq<(Seq<char>, Seq<(Seq<Seq<char>>, Seq<char>)>)> {
    table_views(t.tables@).map_values(|x: (Seq<char>, Seq<(Seq<Seq<char>>, Seq<char>)>)| hashed_table(x))
}

proof fn lemma_hash_reads_hashed_tables(t: StyleTheme)
    ensures
        table_blocks(stable_sort(t.tables@.map_values(|x: StyleThemeTable| table_view(x)), table_lt())) == table_blocks(
            stable_sort(hashed_tables(t), table_lt()),
        ),
{
    let s = t.tables@.map_values(|x: StyleThemeTable| table_view(x));
    let n = hashed_tables(t);
    let r = same_hashed_table();
    lemma_entry_lt_weak();
    assert forall|i: int| 0 <= i < s.len() implies #[trigger] r(s[i], n[i]) by {
        assert(n[i] == hashed_table(s[i]));
        lemma_stable_sort_sorted(s[i].1, entry_lt());
        crate::order::lemma_stable_sort_fixed(hashed_entries(s[i].1), entry_lt());
    }
    assert(crate::order::respects(table_lt(), r));
    crate::order::lemma_stable_sort_pointwise(s, n, table_lt(), r);
    lemma_table_blocks_alike(stable_sort(s, table_lt()), stable_sort(n, table_lt()));
}

/// The content hash depends only on the default id, the activation
/// attribute, the scheme preferences and the tables with their leaves, not
/// on the order of the tables nor of the leaves in a table: two themes
/// whose tables (ids distinct), each with its leaves sorted by path, are the
/// same up to order hash the same text. (Leaves with distinct paths that
/// are the same up to order sort alike, see
/// `lemma_content_hash_entry_order`.)
pub proof fn lemma_content_hash_order(t1: StyleTheme, t2: StyleTheme)
    requires
        t1.default_id@ == t2.default_id@,
        t1.activation_attr@ == t2.activation_attr@,
        t1.prefers_color_scheme.pairs() == t2.prefers_color_scheme.pairs(),
        hashed_tables(t1).to_multiset() == hashed_tables(t2).to_multiset(),
        forall|i: int, j: int| 0 <= i < j < t1.tables@.len() ==> #[trigger] t1.tables@[i].id@ != #[trigger] t1.tables@[j].id@,
    ensures
        hash_text(t1) == hash_text(t2),
{
    lemma_hash_reads_hashed_tables(t1);
    lemma_hash_reads_hashed_tables(t2);
    let n1 = hashed_tables(t1);
    let n2 = hashed_tables(t2);
    let a = stable_sort(n1, table_lt());
    lemma_table_lt_weak();
    lemma_stable_sort_sorted(n1, table_lt());
    lemma_stable_sort_sorted(n2, table_lt());
    lemma_stable_sort_multiset(n1, table_lt());
    lemma_stable_sort_multiset(n2, table_lt());
    lemma_stable_sort_elems(n1, table_lt());
    assert forall|x: (Seq<char>, Seq<(Seq<Seq<char>>, Seq<char>)>), y: (Seq<char>, Seq<(Seq<Seq<char>>, Seq<char>)>)|
        #![trigger a.contains(x), a.contains(y)]
        a.contains(x) && a.contains(y) && x != y implies (table_lt())(x, y) || (table_lt())(y, x) by {
        assert(n1.contains(x) && n1.contains(y));
        let p = choose|p: int| 0 <= p < n1.len() && n1[p] == x;
        let q = choose|q: int| 0 <= q < n1.len() && n1[q] == y;
        assert(n1[p].0 == t1.tables@[p].id@);
        assert(n1[q].0 == t1.tables@[q].id@);
        if p < q {
            assert(t1.tables@[p].id@ != t1.tables@[q].id@);
        } else if q < p {
            assert(t1.tables@[q].id@ != t1.tables@[p].id@);
        }
        lemma_lex_total(x.0, y.0);
    }
    lemma_sorted_same_elems(a, stable_sort(n2, table_lt()), table_lt());
}


proof fn lemma_same_hashed_entries(e1: Seq<(Seq<Seq<char>>, Seq<char>)>, e2: Seq<(Seq<Seq<char>>, Seq<char>)>)
    requires
        e1.to_multiset() == e2.to_multiset(),
        forall|p: int, q: int| 0 <= p < q < e1.len() ==> (#[trigger] e1[p]).0 != (#[trigger] e1[q]).0,
    ensures
        hashed_entries(e1) == hashed_entries(e2),
{
    lemma_entry_lt_weak();
    lemma_stable_sort_sorted(e1, entry_lt());
    lemma_stable_sort_sorted(e2, entry_lt());
    lemma_stable_sort_multiset(e1, entry_lt());
    lemma_stable_sort_multiset(e2, entry_lt());
    lemma_stable_sort_elems(e1, entry_lt());
    let a = stable_sort(e1, entry_lt());
    assert forall|x: (Seq<Seq<char>>, Seq<char>), y: (Seq<Seq<char>>, Seq<char>)|
        #![trigger a.contains(x), a.contains(y)]
        a.contains(x) && a.contains(y) && x != y implies (entry_lt())(x, y) || (entry_lt())(y, x) by {
        assert(e1.contains(x) && e1.contains(y));
        let p = choose|p: int| 0 <= p < e1.len() && e1[p] == x;
        let q = choose|q: int| 0 <= q < e1.len() && e1[q] == y;
        if p < q {
            assert(e1[p].0 != e1[q].0);
        } else if q < p {
            assert(e1[q].0 != e1[p].0);
        }
        lemma_path_total(x.0, y.0);
    }
    lemma_sorted_same_elems(a, stable_sort(e2, entry_lt()), entry_lt());
}

/// Two themes' tables match: the same id and the same leaves up to order.
pub open spec fn tables_match(a: StyleThemeTable, b: StyleThemeTable) -> bool {
    a.id@ == b.id@ && leaf_views(a.entries@).to_multiset() == leaf_views(b.entries@).to_multiset()
}

/// Some table of `t` matches `x`.
pub open spec fn has_matching_table(t: StyleTheme, x: StyleThemeTable) -> bool {
    exists|j: int| 0 <= j < t.tables@.len() && tables_match(x, #[trigger] t.tables@[j])
}

/// Content hash law: the hash depends only on the default id, the
/// activation attribute, the scheme preferences and the tables with their
/// leaves, not on the order of the tables nor of the leaves in a table. Two
/// themes alike in the first three whose tables (ids distinct in each
/// theme, leaf paths distinct in each table) match one to one up to the
/// order of tables and of leaves hash the same text.
pub proof fn lemma_content_hash_reorder(t1: StyleTheme, t2: StyleTheme)
    requires
        t1.default_id@ == t2.default_id@,
        t1.activation_attr@ == t2.activation_attr@,
        t1.prefers_color_scheme.pairs() == t2.prefers_color_scheme.pairs(),
        forall|i: int| 0 <= i < t1.tables@.len() ==> has_matching_table(t2, #[trigger] t1.tables@[i]),
        forall|i: int| 0 <= i < t2.tables@.len() ==> has_matching_table(t1, #[trigger] t2.tables@[i]),
        forall|i: int, j: int| 0 <= i < j < t1.tables@.len() ==> #[trigger] t1.tables@[i].id@ != #[trigger] t1.tables@[j].id@,
        forall|i: int, j: int| 0 <= i < j < t2.tables@.len() ==> #[trigger] t2.tables@[i].id@ != #[trigger] t2.tables@[j].id@,
        forall|i: int, p: int, q: int|
            0 <= i < t1.tables@.len() && 0 <= p < q < t1.tables@[i].entries@.len() ==> texts(
                (#[trigger] t1.tables@[i].entries@[p]).path@,
            ) != texts((#[trigger] t1.tables@[i].entries@[q]).path@),
        forall|i: int, p: int, q: int|
            0 <= i < t2.tables@.len() && 0 <= p < q < t2.tables@[i].entries@.len() ==> texts(
                (#[trigger] t2.tables@[i].entries@[p]).path@,
            ) != texts((#[trigger] t2.tables@[i].entries@[q]).path@),
    ensures
        hash_text(t1) == hash_text(t2),
{
    broadcast use vstd::seq_lib::group_to_multiset_ensures;
    let n1 = hashed_tables(t1);
    let n2 = hashed_tables(t2);
    // A table's hashed form is fixed by its id and leaf multiset.
    assert forall|i: int, j: int|
        0 <= i < t1.tables@.len() && 0 <= j < t2.tables@.len() && tables_match(t1.tables@[i], t2.tables@[j]) implies #[trigger] n1[i]
        == #[trigger] n2[j] by {
        let e1 = leaf_views(t1.tables@[i].entries@);
        let e2 = leaf_views(t2.tables@[j].entries@);
        assert forall|p: int, q: int| 0 <= p < q < e1.len() implies (#[trigger] e1[p]).0 != (#[trigger] e1[q]).0 by {
            assert(e1[p].0 == texts(t1.tables@[i].entries@[p].path@));
            assert(e1[q].0 == texts(t1.tables@[i].entries@[q].path@));
        }
        lemma_same_hashed_entries(e1, e2);
        assert(n1[i] == hashed_table(table_view(t1.tables@[i])));
        assert(n2[j] == hashed_table(table_view(t2.tables@[j])));
    }
    assert forall|i: int, j: int| 0 <= i < n1.len() && 0 <= j < n1.len() && i != j implies n1[i] != n1[j] by {
        assert(n1[i].0 == t1.tables@[i].id@);
        assert(n1[j].0 == t1.tables@[j].id@);
        if i < j {
            assert(t1.tables@[i].id@ != t1.tables@[j].id@);
        } else {
            assert(t1.tables@[j].id@ != t1.tables@[i].id@);
        }
    }
    assert forall|i: int, j: int| 0 <= i < n2.len() && 0 <= j < n2.len() && i != j implies n2[i] != n2[j] by {
        assert(n2[i].0 == t2.tables@[i].id@);
        assert(n2[j].0 == t2.tables@[j].id@);
        if i < j {
            assert(t2.tables@[i].id@ != t2.tables@[j].id@);
        } else {
            assert(t2.tables@[j].id@ != t2.tables@[i].id@);
        }
    }
    assert(n1.no_duplicates());
    assert(n2.no_duplicates());
    n1.lemma_multiset_has_no_duplicates();
    n2.lemma_multiset_has_no_duplicates();
    assert forall|x| #[trigger] n1.to_multiset().count(x) == n2.to_multiset().count(x) by {
        if n1.contains(x) {
            let i = choose|i: int| 0 <= i < n1.len() && n1[i] == x;
            assert(has_matching_table(t2, t1.tables@[i]));
            let j = choose|j: int| 0 <= j < t2.tables@.len() && tables_match(t1.tables@[i], #[trigger] t2.tables@[j]);
            assert(n2[j] == x);
            assert(n2.contains(x));
        } else if n2.contains(x) {
            let j = choose|j: int| 0 <= j < n2.len() && n2[j] == x;
            assert(has_matching_table(t1, t2.tables@[j]));
            let i = choose|i: int| 0 <= i < t1.tables@.len() && tables_match(t2.tables@[j], #[trigger] t1.tables@[i]);
            assert(tables_match(t1.tables@[i], t2.tables@[j]));
            assert(n1[i] == x);
            assert(n1.contains(x));
        }
    }
    assert(n1.to_multiset() =~= n2.to_multiset());
    lemma_content_hash_order(t1, t2);
}

} // verus!
