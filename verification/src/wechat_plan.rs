//! WeChat packaging plan: the order of `app.json` pages, the custom tab bar
//! (2 to 5 `<router>.tab` pages with distinct orders), each tab page's
//! selected-tab index, the `app.json` document and the pack status. The
//! packer performs the reads, icon renders and writes around these steps.

use vstd::prelude::*;
use crate::diagnostic::Severity;
use crate::json::{json_obj, lemma_json_views, lemma_member_views, json_views, member_views, obj, Json, JsonValue};
use crate::order::{ins_sorted, lemma_ins_sorted_at, lemma_stable_sort_push, lex_lt, stable_sort, text_order, texts};
use crate::server_artifact::opt_view;
use crate::text::{chars_eq, from_chars, push_all, push_str, to_chars};
use crate::wechat_pack::{decimal, decimal_exec};

verus! {

/// Colour of an unselected tab.
pub const TAB_COLOR: &'static str = "#8A8A8A";

/// Colour of the selected tab.
pub const TAB_SELECTED_COLOR: &'static str = "#3D6B2F";

/// Background of the tab bar.
pub const TAB_BG: &'static str = "#ffffff";

/// Navigation bar background of the pack.
pub const WINDOW_NAV_BG: &'static str = "#3D6B2F";

/// Navigation bar text style of the pack.
pub const WINDOW_NAV_TEXT: &'static str = "white";

/// Page background of the pack.
pub const WINDOW_BG: &'static str = "#F6F3EC";

/// What a packaging diagnostic is about.
#[derive(Debug, Clone, Copy, PartialEq, Eq, Structural)]
pub enum PackCode {
    /// The pack or one of its inputs is invalid.
    ArtifactInvalid,
    /// Nothing to pack yet: no program documents (code
    /// `CATALOG_ONLY_CODE`).
    CatalogOnly,
}

/// One packaging diagnostic.
#[derive(Debug, Clone)]
pub struct PackDiagnostic {
    pub path: String,
    pub severity: Severity,
    pub message: String,
    pub code: PackCode,
}

/// A diagnostic as plain values.
pub open spec fn pack_diag_view(d: PackDiagnostic) -> (Seq<char>, Severity, Seq<char>, PackCode) {
    (d.path@, d.severity, d.message@, d.code)
}

/// Diagnostics as plain values.
pub open spec fn pack_diags_view(ds: Seq<PackDiagnostic>) -> Seq<(Seq<char>, Severity, Seq<char>, PackCode)> {
    ds.map_values(|d: PackDiagnostic| pack_diag_view(d))
}

/// An invalid-artifact error.
pub open spec fn pack_err(path: Seq<char>, message: Seq<char>) -> (Seq<char>, Severity, Seq<char>, PackCode) {
    (path, Severity::Error, message, PackCode::ArtifactInvalid)
}

fn push_pack_diag(out: &mut Vec<PackDiagnostic>, d: PackDiagnostic)
    ensures
        pack_diags_view(final(out)@) == pack_diags_view(old(out)@).push(pack_diag_view(d)),
{
    let ghost before = out@;
    out.push(d);
    proof {
        assert(pack_diags_view(out@) =~= pack_diags_view(before).push(pack_diag_view(d)));
    }
}

// ---------------------------------------------------------------- pages

/// The home page comes first: `pages/home/home` and `pages/index/index`
/// rank 0, every other page 1.
pub open spec fn page_rank(stem: Seq<char>) -> int {
    if stem == "pages/home/home"@ || stem == "pages/index/index"@ {
        0
    } else {
        1
    }
}

/// Pages ordered by rank, then by text.
pub open spec fn page_lt() -> spec_fn(Seq<char>, Seq<char>) -> bool {
    |a: Seq<char>, b: Seq<char>| page_rank(a) < page_rank(b) || (page_rank(a) == page_rank(b) && lex_lt(a, b))
}

/// `s` without elements equal to the one just before them.
pub open spec fn dedup_adjacent(s: Seq<Seq<char>>) -> Seq<Seq<char>>
    decreases s.len(),
{
    if s.len() == 0 {
        Seq::empty()
    } else {
        let d = dedup_adjacent(s.drop_last());
        if s.len() > 1 && s[s.len() - 2] == s.last() {
            d
        } else {
            d.push(s.last())
        }
    }
}

/// The `app.json` page order: sorted by rank then text, each page once.
pub open spec fn ordered_pages(stems: Seq<Seq<char>>) -> Seq<Seq<char>> {
    dedup_adjacent(stable_sort(stems, page_lt()))
}

fn text_eq(a: &str, b: &str) -> (r: bool)
    ensures
        r == (a@ == b@),
{
    let x = to_chars(a);
    let y = to_chars(b);
    chars_eq(x.as_slice(), y.as_slice())
}

fn page_rank_exec(stem: &String) -> (r: u8)
    ensures
        r == page_rank(stem@),
{
    if text_eq(stem.as_str(), "pages/home/home") || text_eq(stem.as_str(), "pages/index/index") {
        0
    } else {
        1
    }
}

fn page_before(a: &String, b: &String) -> (r: bool)
    ensures
        r == (page_lt())(a@, b@),
{
    let ra = page_rank_exec(a);
    let rb = page_rank_exec(b);
    ra < rb || (ra == rb && text_order(a, b) < 0)
}

fn insert_page(v: &mut Vec<String>, x: String)
    ensures
        texts(final(v)@) == ins_sorted(texts(old(v)@), x@, page_lt()),
{
    let ghost t = texts(v@);
    let mut p: usize = 0;
    while p < v.len() && !page_before(&x, &v[p])
        invariant
            p <= v.len(),
            t == texts(v@),
            forall|j: int| 0 <= j < p ==> !(page_lt())(x@, #[trigger] t[j]),
        decreases v.len() - p,
    {
        p = p + 1;
    }
    proof {
        lemma_ins_sorted_at(t, x@, page_lt(), p as int);
    }
    let ghost xv = x@;
    v.insert(p, x);
    proof {
        assert(texts(v@) =~= t.take(p as int) + seq![xv] + t.skip(p as int));
    }
}

fn sort_pages(stems: &[String]) -> (r: Vec<String>)
    ensures
        texts(r@) == stable_sort(texts(stems@), page_lt()),
{
    let mut out: Vec<String> = Vec::new();
    let mut i: usize = 0;
    while i < stems.len()
        invariant
            i <= stems.len(),
            texts(out@) == stable_sort(texts(stems@.take(i as int)), page_lt()),
        decreases stems.len() - i,
    {
        proof {
            assert(texts(stems@.take(i + 1)) =~= texts(stems@.take(i as int)).push(stems@[i as int]@));
            lemma_stable_sort_push(texts(stems@.take(i as int)), stems@[i as int]@, page_lt());
        }
        insert_page(&mut out, stems[i].clone());
        i = i + 1;
    }
    proof {
        assert(stems@.take(stems@.len() as int) =~= stems@);
    }
    out
}

fn dedup_adjacent_exec(s: &[String]) -> (r: Vec<String>)
    ensures
        texts(r@) == dedup_adjacent(texts(s@)),
{
    let ghost t = texts(s@);
    let mut out: Vec<String> = Vec::new();
    let mut i: usize = 0;
    while i < s.len()
        invariant
            i <= s.len(),
            t == texts(s@),
            texts(out@) == dedup_adjacent(t.take(i as int)),
        decreases s.len() - i,
    {
        proof {
            assert(t.take(i + 1).drop_last() =~= t.take(i as int));
        }
        let dup = i > 0 && text_eq(s[i - 1].as_str(), s[i].as_str());
        if !dup {
            let ghost before = texts(out@);
            out.push(s[i].clone());
            proof {
                assert(texts(out@) =~= before.push(t[i as int]));
            }
        }
        i = i + 1;
    }
    proof {
        assert(t.take(t.len() as int) =~= t);
    }
    out
}

/// The `app.json` page order of the packed page stems: home first, then by
/// text, each page once.
pub fn order_app_pages(stems: &[String]) -> (r: Vec<String>)
    ensures
        texts(r@) == ordered_pages(texts(stems@)),
{
    let sorted = sort_pages(stems);
    dedup_adjacent_exec(sorted.as_slice())
}

// ---------------------------------------------------------------- tabs

/// A `<router>.tab` page: its order, page stem, label and icons.
#[derive(Debug, Clone)]
pub struct PackTab {
    pub order: u32,
    pub stem: String,
    pub label: String,
    pub icon: String,
    pub selected_icon: Option<String>,
}

/// A tab as plain values.
pub open spec fn tab_view(t: PackTab) -> (u32, Seq<char>, Seq<char>, Seq<char>, Option<Seq<char>>) {
    (t.order, t.stem@, t.label@, t.icon@, opt_view(t.selected_icon))
}

/// Tabs as plain values.
pub open spec fn tab_views(s: Seq<PackTab>) -> Seq<(u32, Seq<char>, Seq<char>, Seq<char>, Option<Seq<char>>)> {
    s.map_values(|t: PackTab| tab_view(t))
}

/// Tabs ordered by order, then by page stem.
pub open spec fn tab_lt() -> spec_fn(
    (u32, Seq<char>, Seq<char>, Seq<char>, Option<Seq<char>>),
    (u32, Seq<char>, Seq<char>, Seq<char>, Option<Seq<char>>),
) -> bool {
    |a: (u32, Seq<char>, Seq<char>, Seq<char>, Option<Seq<char>>), b: (u32, Seq<char>, Seq<char>, Seq<char>, Option<Seq<char>>)|
        a.0 < b.0 || (a.0 == b.0 && lex_lt(a.1, b.1))
}

/// Some tab before `i` has the order of tab `i`.
pub open spec fn order_seen(st: Seq<(u32, Seq<char>, Seq<char>, Seq<char>, Option<Seq<char>>)>, i: int) -> bool {
    exists|j: int| 0 <= j < i && #[trigger] st[j].0 == st[i].0
}

/// One error per tab (in sorted order) whose order an earlier tab already has.
pub open spec fn duplicate_order_diags(st: Seq<(u32, Seq<char>, Seq<char>, Seq<char>, Option<Seq<char>>)>, n: int) -> Seq<
    (Seq<char>, Severity, Seq<char>, PackCode),
>
    decreases n,
{
    if n <= 0 {
        Seq::empty()
    } else {
        let p = duplicate_order_diags(st, n - 1);
        if order_seen(st, n - 1) {
            p.push(pack_err(st[n - 1].1, "duplicate `<router>.tab.order` "@ + decimal(st[n - 1].0 as nat)))
        } else {
            p
        }
    }
}

/// The error on the number of tabs: one tab, or more than five.
pub open spec fn tab_count_diags(st: Seq<(u32, Seq<char>, Seq<char>, Seq<char>, Option<Seq<char>>)>) -> Seq<
    (Seq<char>, Severity, Seq<char>, PackCode),
> {
    if st.len() == 1 {
        seq![pack_err(st[0].1, "WeChat custom tabBar requires 2-5 `<router>.tab` pages"@)]
    } else if st.len() > 5 {
        seq![pack_err(
            Seq::empty(),
            "WeChat custom tabBar allows at most 5 `<router>.tab` pages (got "@ + decimal(st.len()) + ")"@,
        )]
    } else {
        Seq::empty()
    }
}

/// The sorted tabs pass: distinct orders, and not exactly one nor more than five.
pub open spec fn tabs_ok(st: Seq<(u32, Seq<char>, Seq<char>, Seq<char>, Option<Seq<char>>)>) -> bool {
    &&& forall|i: int| 0 <= i < st.len() ==> !order_seen(st, i)
    &&& st.len() != 1
    &&& st.len() <= 5
}

/// The tabs sorted by order and stem, whether they may form a tab bar, and
/// the errors found.
#[derive(Debug, Clone)]
pub struct TabCheck {
    pub tabs: Vec<PackTab>,
    pub ok: bool,
    pub diagnostics: Vec<PackDiagnostic>,
}

fn tab_before(a: &PackTab, b: &PackTab) -> (r: bool)
    ensures
        r == (tab_lt())(tab_view(*a), tab_view(*b)),
{
    a.order < b.order || (a.order == b.order && text_order(&a.stem, &b.stem) < 0)
}

fn insert_tab(v: &mut Vec<PackTab>, x: PackTab)
    ensures
        tab_views(final(v)@) == ins_sorted(tab_views(old(v)@), tab_view(x), tab_lt()),
{
    let ghost t = tab_views(v@);
    let ghost xv = tab_view(x);
    let mut p: usize = 0;
    while p < v.len() && !tab_before(&x, &v[p])
        invariant
            p <= v.len(),
            t == tab_views(v@),
            xv == tab_view(x),
            forall|j: int| 0 <= j < p ==> !(tab_lt())(xv, #[trigger] t[j]),
        decreases v.len() - p,
    {
        p = p + 1;
    }
    proof {
        lemma_ins_sorted_at(t, xv, tab_lt(), p as int);
    }
    v.insert(p, x);
    proof {
        assert(tab_views(v@) =~= t.take(p as int) + seq![xv] + t.skip(p as int));
    }
}

fn order_seen_exec(st: &[PackTab], i: usize) -> (r: bool)
    requires
        i < st.len(),
    ensures
        r == order_seen(tab_views(st@), i as int),
{
    let ghost t = tab_views(st@);
    let mut j: usize = 0;
    while j < i
        invariant
            j <= i < st.len(),
            t == tab_views(st@),
            forall|q: int| 0 <= q < j ==> #[trigger] t[q].0 != t[i as int].0,
        decreases i - j,
    {
        if st[j].order == st[i].order {
            proof {
                assert(t[j as int].0 == t[i as int].0);
            }
            return true;
        }
        j = j + 1;
    }
    false
}

/// Sort the `<router>.tab` pages by order then stem and check them: each
/// order once, and between two and five tabs (or none).
pub fn check_tabs(tabs: Vec<PackTab>) -> (r: TabCheck)
    ensures
        tab_views(r.tabs@) == stable_sort(tab_views(tabs@), tab_lt()),
        r.ok == tabs_ok(tab_views(r.tabs@)),
        pack_diags_view(r.diagnostics@) == duplicate_order_diags(tab_views(r.tabs@), r.tabs@.len() as int)
            + tab_count_diags(tab_views(r.tabs@)),
{
    let mut sorted: Vec<PackTab> = Vec::new();
    let mut i: usize = 0;
    while i < tabs.len()
        invariant
            i <= tabs.len(),
            tab_views(sorted@) == stable_sort(tab_views(tabs@.take(i as int)), tab_lt()),
        decreases tabs.len() - i,
    {
        proof {
            assert(tab_views(tabs@.take(i + 1)) =~= tab_views(tabs@.take(i as int)).push(tab_view(tabs@[i as int])));
            lemma_stable_sort_push(tab_views(tabs@.take(i as int)), tab_view(tabs@[i as int]), tab_lt());
        }
        insert_tab(&mut sorted, tabs[i].clone_tab());
        i = i + 1;
    }
    proof {
        assert(tabs@.take(tabs@.len() as int) =~= tabs@);
    }
    let ghost st = tab_views(sorted@);
    let mut diagnostics: Vec<PackDiagnostic> = Vec::new();
    let mut ok = true;
    let mut k: usize = 0;
    while k < sorted.len()
        invariant
            k <= sorted.len(),
            st == tab_views(sorted@),
            pack_diags_view(diagnostics@) == duplicate_order_diags(st, k as int),
            ok == (forall|q: int| 0 <= q < k ==> !order_seen(st, q)),
        decreases sorted.len() - k,
    {
        let seen = order_seen_exec(sorted.as_slice(), k);
        let ghost ok0 = ok;
        if seen {
            let mut m = to_chars("duplicate `<router>.tab.order` ");
            let digits = decimal_exec(sorted[k].order as u64);
            push_all(&mut m, digits.as_slice());
            let d = PackDiagnostic {
                path: sorted[k].stem.clone(),
                severity: Severity::Error,
                message: from_chars(m.as_slice()),
                code: PackCode::ArtifactInvalid,
            };
            push_pack_diag(&mut diagnostics, d);
            ok = false;
        }
        proof {
            if seen {
                assert(0 <= k < k + 1 && order_seen(st, k as int));
            } else if ok0 {
                assert forall|q: int| 0 <= q < k + 1 implies !order_seen(st, q) by {
                    if q < k {
                    }
                }
            } else {
                let q0 = choose|q: int| 0 <= q < k && order_seen(st, q);
                assert(0 <= q0 < k + 1 && order_seen(st, q0));
            }
        }
        k = k + 1;
    }
    let ghost before = pack_diags_view(diagnostics@);
    if sorted.len() == 1 {
        let d = PackDiagnostic {
            path: sorted[0].stem.clone(),
            severity: Severity::Error,
            message: String::from_str("WeChat custom tabBar requires 2-5 `<router>.tab` pages"),
            code: PackCode::ArtifactInvalid,
        };
        push_pack_diag(&mut diagnostics, d);
        ok = false;
    } else if sorted.len() > 5 {
        let mut m = to_chars("WeChat custom tabBar allows at most 5 `<router>.tab` pages (got ");
        let digits = decimal_exec(sorted.len() as u64);
        push_all(&mut m, digits.as_slice());
        push_str(&mut m, ")");
        let d = PackDiagnostic {
            path: String::new(),
            severity: Severity::Error,
            message: from_chars(m.as_slice()),
            code: PackCode::ArtifactInvalid,
        };
        push_pack_diag(&mut diagnostics, d);
        ok = false;
    }
    proof {
        assert(pack_diags_view(diagnostics@) =~= before + tab_count_diags(st));
    }
    TabCheck { tabs: sorted, ok, diagnostics }
}

impl PackTab {
    /// A copy of this tab.
    pub fn clone_tab(&self) -> (r: PackTab)
        ensures
            tab_view(r) == tab_view(*self),
    {
        PackTab {
            order: self.order,
            stem: self.stem.clone(),
            label: self.label.clone(),
            icon: self.icon.clone(),
            selected_icon: match &self.selected_icon {
                Some(s) => Some(s.clone()),
                None => None,
            },
        }
    }
}

// ---------------------------------------------------------------- tab bar

/// What rendering one tab's icons gave: the icon and selected-icon paths,
/// or an error; for the raised centre tab, also its white icon.
#[derive(Debug)]
pub struct IconOutcome {
    pub icons: Result<(String, String), String>,
    pub center_white: Option<Result<String, String>>,
}

/// One item of the custom tab bar.
#[derive(Debug, Clone)]
pub struct TabItem {
    pub page_path: String,
    pub text: String,
    pub icon_path: String,
    pub selected_icon_path: String,
    pub center: bool,
}

/// An item as plain values.
pub open spec fn item_view(t: TabItem) -> (Seq<char>, Seq<char>, Seq<char>, Seq<char>, bool) {
    (t.page_path@, t.text@, t.icon_path@, t.selected_icon_path@, t.center)
}

/// Items as plain values.
pub open spec fn item_views(s: Seq<TabItem>) -> Seq<(Seq<char>, Seq<char>, Seq<char>, Seq<char>, bool)> {
    s.map_values(|t: TabItem| item_view(t))
}

/// Tab `i` of `n` is the raised centre one: the third of five.
pub open spec fn center_tab(n: int, i: int) -> bool {
    n == 5 && i == 2
}

/// The item of tab `i`, when its icons were rendered.
pub open spec fn tab_item(st: Seq<PackTab>, outs: Seq<IconOutcome>, i: int) -> Option<
    (Seq<char>, Seq<char>, Seq<char>, Seq<char>, bool),
> {
    match outs[i].icons {
        Ok(p) => Some((st[i].stem@, st[i].label@, p.0@, p.1@, center_tab(st.len() as int, i))),
        Err(_) => None,
    }
}

/// The errors of tab `i`: its icons failed, or it is the centre tab and its
/// white icon failed.
pub open spec fn tab_item_diags(st: Seq<PackTab>, outs: Seq<IconOutcome>, i: int) -> Seq<
    (Seq<char>, Severity, Seq<char>, PackCode),
> {
    match outs[i].icons {
        Ok(_) => if center_tab(st.len() as int, i) {
            match outs[i].center_white {
                Some(Err(e)) => seq![pack_err(st[i].stem@, e@)],
                _ => Seq::empty(),
            }
        } else {
            Seq::empty()
        },
        Err(e) => seq![pack_err(st[i].stem@, e@)],
    }
}

/// The items of the first `n` tabs.
pub open spec fn tab_items(st: Seq<PackTab>, outs: Seq<IconOutcome>, n: int) -> Seq<
    (Seq<char>, Seq<char>, Seq<char>, Seq<char>, bool),
>
    decreases n,
{
    if n <= 0 {
        Seq::empty()
    } else {
        match tab_item(st, outs, n - 1) {
            Some(it) => tab_items(st, outs, n - 1).push(it),
            None => tab_items(st, outs, n - 1),
        }
    }
}

/// The errors of the first `n` tabs.
pub open spec fn tab_items_diags(st: Seq<PackTab>, outs: Seq<IconOutcome>, n: int) -> Seq<
    (Seq<char>, Severity, Seq<char>, PackCode),
>
    decreases n,
{
    if n <= 0 {
        Seq::empty()
    } else {
        tab_items_diags(st, outs, n - 1) + tab_item_diags(st, outs, n - 1)
    }
}

/// The centre tab's white icon, when it was rendered.
pub open spec fn center_white_of(st: Seq<PackTab>, outs: Seq<IconOutcome>, n: int) -> Option<Seq<char>>
    decreases n,
{
    if n <= 0 {
        None
    } else {
        let i = n - 1;
        let here = match outs[i].icons {
            Ok(_) => if center_tab(st.len() as int, i) {
                match outs[i].center_white {
                    Some(Ok(w)) => Some(w@),
                    _ => None,
                }
            } else {
                None
            },
            Err(_) => None,
        };
        match here {
            Some(w) => Some(w),
            None => center_white_of(st, outs, n - 1),
        }
    }
}

/// The custom tab bar items, whether every icon was rendered, the centre
/// tab's white icon, and the icon errors.
#[derive(Debug, Clone)]
pub struct TabItems {
    pub items: Vec<TabItem>,
    pub ok: bool,
    pub center_white: Option<String>,
    pub diagnostics: Vec<PackDiagnostic>,
}

/// The custom tab bar items of the checked, sorted tabs, from the outcome
/// of rendering each tab's icons (`outcomes[i]` for `tabs[i]`): a tab whose
/// icons failed gets no item and an error; the centre tab's white icon
/// failing is an error too.
pub fn plan_tab_items(tabs: &[PackTab], outcomes: &[IconOutcome]) -> (r: TabItems)
    requires
        outcomes.len() == tabs.len(),
    ensures
        item_views(r.items@) == tab_items(tabs@, outcomes@, tabs@.len() as int),
        pack_diags_view(r.diagnostics@) == tab_items_diags(tabs@, outcomes@, tabs@.len() as int),
        r.ok == (tab_items_diags(tabs@, outcomes@, tabs@.len() as int).len() == 0),
        opt_view(r.center_white) == center_white_of(tabs@, outcomes@, tabs@.len() as int),
{
    let n = tabs.len();
    let mut items: Vec<TabItem> = Vec::new();
    let mut diagnostics: Vec<PackDiagnostic> = Vec::new();
    let mut center_white: Option<String> = None;
    let mut i: usize = 0;
    while i < n
        invariant
            i <= n == tabs.len() == outcomes.len(),
            item_views(items@) == tab_items(tabs@, outcomes@, i as int),
            pack_diags_view(diagnostics@) == tab_items_diags(tabs@, outcomes@, i as int),
            opt_view(center_white) == center_white_of(tabs@, outcomes@, i as int),
        decreases n - i,
    {
        let t = &tabs[i];
        let o = &outcomes[i];
        let ghost before = pack_diags_view(diagnostics@);
        match &o.icons {
            Ok(p) => {
                let center = n == 5 && i == 2;
                if center {
                    match &o.center_white {
                        Some(Ok(w)) => {
                            center_white = Some(w.clone());
                        },
                        Some(Err(e)) => {
                            let d = PackDiagnostic {
                                path: t.stem.clone(),
                                severity: Severity::Error,
                                message: e.clone(),
                                code: PackCode::ArtifactInvalid,
                            };
                            push_pack_diag(&mut diagnostics, d);
                        },
                        None => {},
                    }
                }
                let it = TabItem {
                    page_path: t.stem.clone(),
                    text: t.label.clone(),
                    icon_path: p.0.clone(),
                    selected_icon_path: p.1.clone(),
                    center,
                };
                let ghost ib = items@;
                items.push(it);
                proof {
                    assert(item_views(items@) =~= item_views(ib).push(item_view(it)));
                }
            },
            Err(e) => {
                let d = PackDiagnostic {
                    path: t.stem.clone(),
                    severity: Severity::Error,
                    message: e.clone(),
                    code: PackCode::ArtifactInvalid,
                };
                push_pack_diag(&mut diagnostics, d);
            },
        }
        proof {
            assert(pack_diags_view(diagnostics@) =~= before + tab_item_diags(tabs@, outcomes@, i as int));
        }
        i = i + 1;
    }
    let ok = diagnostics.len() == 0;
    TabItems { items, ok, center_white, diagnostics }
}

/// The tab bar goes ahead: the tabs passed their check, every icon was
/// rendered, and there are at least two items.
pub open spec fn tabs_ready(check_ok: bool, items_ok: bool, n_items: int) -> bool {
    check_ok && items_ok && n_items >= 2
}

/// The pages of `pages` that are no tab page, in order.
pub open spec fn non_tab_pages(pages: Seq<Seq<char>>, tab_stems: Seq<Seq<char>>) -> Seq<Seq<char>>
    decreases pages.len(),
{
    if pages.len() == 0 {
        Seq::empty()
    } else {
        let p = non_tab_pages(pages.drop_last(), tab_stems);
        if tab_stems.contains(pages.last()) {
            p
        } else {
            p.push(pages.last())
        }
    }
}

/// The page order with a tab bar: the tab pages in tab order, then the
/// other pages by rank and text, without adjacent repeats.
pub open spec fn pages_with_tabs(pages: Seq<Seq<char>>, tab_stems: Seq<Seq<char>>) -> Seq<Seq<char>> {
    dedup_adjacent(tab_stems + stable_sort(non_tab_pages(pages, tab_stems), page_lt()))
}

/// The `app.json` page order once the tab bar goes ahead: tab pages first,
/// in tab order, then the other pages.
pub fn order_pages_with_tabs(pages: &[String], tab_stems: &Vec<String>) -> (r: Vec<String>)
    ensures
        texts(r@) == pages_with_tabs(texts(pages@), texts(tab_stems@)),
{
    let ghost ts = texts(tab_stems@);
    let mut rest: Vec<String> = Vec::new();
    let mut i: usize = 0;
    while i < pages.len()
        invariant
            i <= pages.len(),
            ts == texts(tab_stems@),
            texts(rest@) == non_tab_pages(texts(pages@.take(i as int)), ts),
        decreases pages.len() - i,
    {
        proof {
            assert(texts(pages@.take(i + 1)) =~= texts(pages@.take(i as int)).push(pages@[i as int]@));
            assert(texts(pages@.take(i + 1)).drop_last() =~= texts(pages@.take(i as int)));
        }
        let c = to_chars(pages[i].as_str());
        if !crate::order::texts_contain(tab_stems, c.as_slice()) {
            let ghost before = texts(rest@);
            rest.push(pages[i].clone());
            proof {
                assert(texts(rest@) =~= before.push(pages@[i as int]@));
            }
        }
        i = i + 1;
    }
    proof {
        assert(pages@.take(pages@.len() as int) =~= pages@);
    }
    let sorted = sort_pages(rest.as_slice());
    let mut all: Vec<String> = Vec::new();
    let mut k: usize = 0;
    while k < tab_stems.len()
        invariant
            k <= tab_stems.len(),
            texts(all@) == texts(tab_stems@).take(k as int),
        decreases tab_stems.len() - k,
    {
        let ghost before = all@;
        all.push(tab_stems[k].clone());
        proof {
            assert(texts(all@) =~= texts(before).push(tab_stems@[k as int]@));
            assert(texts(all@) =~= texts(tab_stems@).take(k + 1));
        }
        k = k + 1;
    }
    let mut m: usize = 0;
    while m < sorted.len()
        invariant
            m <= sorted.len(),
            texts(all@) == texts(tab_stems@) + texts(sorted@).take(m as int),
        decreases sorted.len() - m,
    {
        let ghost before = all@;
        all.push(sorted[m].clone());
        proof {
            assert(texts(all@) =~= texts(before).push(sorted@[m as int]@));
            assert(texts(all@) =~= texts(tab_stems@) + texts(sorted@).take(m + 1));
        }
        m = m + 1;
    }
    proof {
        assert(texts(sorted@).take(sorted@.len() as int) =~= texts(sorted@));
        assert(texts(tab_stems@).take(tab_stems@.len() as int) =~= texts(tab_stems@));
    }
    dedup_adjacent_exec(all.as_slice())
}

/// The selected-tab index of page `stem`: the last tab position with that stem.
pub open spec fn tab_selected(tab_stems: Seq<Seq<char>>, stem: Seq<char>) -> Option<int>
    decreases tab_stems.len(),
{
    if tab_stems.len() == 0 {
        None
    } else if tab_stems.last() == stem {
        Some(tab_stems.len() - 1)
    } else {
        tab_selected(tab_stems.drop_last(), stem)
    }
}

/// The tab a page selects when shown, if it is a tab page.
pub fn selected_tab(tab_stems: &[String], stem: &String) -> (r: Option<u32>)
    requires
        tab_stems.len() <= u32::MAX,
    ensures
        match r {
            Some(i) => tab_selected(texts(tab_stems@), stem@) == Some(i as int),
            None => tab_selected(texts(tab_stems@), stem@) is None,
        },
{
    let ghost t = texts(tab_stems@);
    let mut j: usize = tab_stems.len();
    proof {
        assert(t.take(t.len() as int) =~= t);
    }
    while j > 0
        invariant
            j <= tab_stems.len() <= u32::MAX,
            t == texts(tab_stems@),
            tab_selected(t, stem@) == tab_selected(t.take(j as int), stem@),
        decreases j,
    {
        proof {
            assert(t.take(j as int).drop_last() =~= t.take(j - 1));
        }
        if text_eq(tab_stems[j - 1].as_str(), stem.as_str()) {
            return Some((j - 1) as u32);
        }
        j = j - 1;
    }
    None
}

// ---------------------------------------------------------------- app.json

/// A text as a JSON string.
pub open spec fn jstr(s: Seq<char>) -> Json {
    Json::Str(s)
}

/// One tab bar list entry.
pub open spec fn tab_item_json(it: (Seq<char>, Seq<char>, Seq<char>, Seq<char>, bool)) -> Json {
    obj(seq![
        ("pagePath"@, jstr(it.0)),
        ("text"@, jstr(it.1)),
        ("iconPath"@, jstr(it.2)),
        ("selectedIconPath"@, jstr(it.3)),
    ])
}

/// The list entries of the tab bar items.
pub open spec fn tab_list_json(items: Seq<(Seq<char>, Seq<char>, Seq<char>, Seq<char>, bool)>) -> Seq<Json> {
    items.map_values(|it: (Seq<char>, Seq<char>, Seq<char>, Seq<char>, bool)| tab_item_json(it))
}

/// The `app.json` custom `tabBar`.
pub open spec fn tab_bar_json(items: Seq<(Seq<char>, Seq<char>, Seq<char>, Seq<char>, bool)>) -> Json {
    obj(seq![
        ("custom"@, Json::Bool(true)),
        ("color"@, jstr(TAB_COLOR@)),
        ("selectedColor"@, jstr(TAB_SELECTED_COLOR@)),
        ("backgroundColor"@, jstr(TAB_BG@)),
        ("borderStyle"@, jstr("white"@)),
        ("list"@, Json::Array(tab_list_json(items))),
    ])
}

/// Texts as JSON strings.
pub open spec fn str_list_json(s: Seq<Seq<char>>) -> Seq<Json> {
    s.map_values(|t: Seq<char>| jstr(t))
}

/// The `app.json` document: pages, window chrome with the title, the
/// sitemap, and the custom `tabBar` when the tab bar goes ahead.
pub open spec fn app_json(
    pages: Seq<Seq<char>>,
    title: Seq<char>,
    tab_bar: Option<Seq<(Seq<char>, Seq<char>, Seq<char>, Seq<char>, bool)>>,
) -> Json {
    obj(seq![
        ("pages"@, Json::Array(str_list_json(pages))),
        ("window"@, obj(seq![
            ("navigationBarTitleText"@, jstr(title)),
            ("navigationBarBackgroundColor"@, jstr(WINDOW_NAV_BG@)),
            ("navigationBarTextStyle"@, jstr(WINDOW_NAV_TEXT@)),
            ("backgroundColor"@, jstr(WINDOW_BG@)),
        ])),
        ("sitemapLocation"@, jstr("sitemap.json"@)),
    ] + match tab_bar {
        Some(items) => seq![("tabBar"@, tab_bar_json(items))],
        None => Seq::empty(),
    })
}

fn jstring(s: &str) -> (r: JsonValue)
    ensures
        r@ == jstr(s@),
{
    JsonValue::Str(String::from_str(s))
}

fn entry(k: &str, v: JsonValue) -> (r: (String, JsonValue))
    ensures
        r.0@ == k@,
        r.1 == v,
{
    (String::from_str(k), v)
}

fn tab_item_value(it: &TabItem) -> (r: JsonValue)
    ensures
        r@ == tab_item_json(item_view(*it)),
{
    let v = vec![
        entry("pagePath", jstring(it.page_path.as_str())),
        entry("text", jstring(it.text.as_str())),
        entry("iconPath", jstring(it.icon_path.as_str())),
        entry("selectedIconPath", jstring(it.selected_icon_path.as_str())),
    ];
    proof {
        lemma_member_views(v@);
        assert(member_views(v@) =~= seq![
            ("pagePath"@, jstr(it.page_path@)),
            ("text"@, jstr(it.text@)),
            ("iconPath"@, jstr(it.icon_path@)),
            ("selectedIconPath"@, jstr(it.selected_icon_path@)),
        ]);
    }
    json_obj(v)
}

/// The `app.json` custom `tabBar` of the items.
pub fn tab_bar_value(items: &[TabItem]) -> (r: JsonValue)
    ensures
        r@ == tab_bar_json(item_views(items@)),
{
    let mut list: Vec<JsonValue> = Vec::new();
    let mut i: usize = 0;
    while i < items.len()
        invariant
            i <= items.len(),
            json_views(list@) == tab_list_json(item_views(items@)).take(i as int),
        decreases items.len() - i,
    {
        let x = tab_item_value(&items[i]);
        let ghost before = list@;
        list.push(x);
        proof {
            assert(list@.drop_last() =~= before);
            assert(json_views(list@) =~= tab_list_json(item_views(items@)).take(i + 1));
        }
        i = i + 1;
    }
    proof {
        assert(tab_list_json(item_views(items@)).take(items@.len() as int) =~= tab_list_json(item_views(items@)));
    }
    let ghost lv = json_views(list@);
    let v = vec![
        entry("custom", JsonValue::Bool(true)),
        entry("color", jstring(TAB_COLOR)),
        entry("selectedColor", jstring(TAB_SELECTED_COLOR)),
        entry("backgroundColor", jstring(TAB_BG)),
        entry("borderStyle", jstring("white")),
        entry("list", JsonValue::Array(list)),
    ];
    proof {
        lemma_member_views(v@);
        assert(member_views(v@) =~= seq![
            ("custom"@, Json::Bool(true)),
            ("color"@, jstr(TAB_COLOR@)),
            ("selectedColor"@, jstr(TAB_SELECTED_COLOR@)),
            ("backgroundColor"@, jstr(TAB_BG@)),
            ("borderStyle"@, jstr("white"@)),
            ("list"@, Json::Array(lv)),
        ]);
    }
    json_obj(v)
}

/// The `app.json` document of the ordered pages, the title and, when the
/// tab bar goes ahead, its items.
pub fn app_json_value(pages: &[String], title: &str, tab_bar: Option<&[TabItem]>) -> (r: JsonValue)
    ensures
        r@ == app_json(
            texts(pages@),
            title@,
            match tab_bar {
                Some(items) => Some(item_views(items@)),
                None => None,
            },
        ),
{
    let mut list: Vec<JsonValue> = Vec::new();
    let mut i: usize = 0;
    while i < pages.len()
        invariant
            i <= pages.len(),
            json_views(list@) == str_list_json(texts(pages@)).take(i as int),
        decreases pages.len() - i,
    {
        let x = jstring(pages[i].as_str());
        let ghost before = list@;
        list.push(x);
        proof {
            assert(list@.drop_last() =~= before);
            assert(json_views(list@) =~= str_list_json(texts(pages@)).take(i + 1));
        }
        i = i + 1;
    }
    proof {
        assert(str_list_json(texts(pages@)).take(pages@.len() as int) =~= str_list_json(texts(pages@)));
    }
    let ghost lv = json_views(list@);
    let wv = vec![
        entry("navigationBarTitleText", jstring(title)),
        entry("navigationBarBackgroundColor", jstring(WINDOW_NAV_BG)),
        entry("navigationBarTextStyle", jstring(WINDOW_NAV_TEXT)),
        entry("backgroundColor", jstring(WINDOW_BG)),
    ];
    proof {
        lemma_member_views(wv@);
        assert(member_views(wv@) =~= seq![
            ("navigationBarTitleText"@, jstr(title@)),
            ("navigationBarBackgroundColor"@, jstr(WINDOW_NAV_BG@)),
            ("navigationBarTextStyle"@, jstr(WINDOW_NAV_TEXT@)),
            ("backgroundColor"@, jstr(WINDOW_BG@)),
        ]);
    }
    let window = json_obj(wv);
    let ghost wj = window@;
    let mut v = vec![
        entry("pages", JsonValue::Array(list)),
        entry("window", window),
        entry("sitemapLocation", jstring("sitemap.json")),
    ];
    let ghost tb: Option<Json> = None;
    match tab_bar {
        Some(items) => {
            let b = tab_bar_value(items);
            proof {
                tb = Some(b@);
            }
            v.push(entry("tabBar", b));
        },
        None => {},
    }
    proof {
        lemma_member_views(v@);
        let base = seq![("pages"@, Json::Array(lv)), ("window"@, wj), ("sitemapLocation"@, jstr("sitemap.json"@))];
        match tb {
            Some(b) => {
                assert(member_views(v@) =~= base + seq![("tabBar"@, b)]);
            },
            None => {
                assert(member_views(v@) =~= base + Seq::<(Seq<char>, Json)>::empty());
            },
        }
    }
    json_obj(v)
}

// ---------------------------------------------------------------- status

/// How a packaging run ended.
#[derive(Debug, Clone, Copy, PartialEq, Eq, Structural)]
pub enum PackStatus {
    Ready,
    Incomplete,
    Failed,
}

/// Some diagnostic is an error.
pub open spec fn has_error(ds: Seq<(Seq<char>, Severity, Seq<char>, PackCode)>) -> bool {
    exists|i: int| 0 <= i < ds.len() && #[trigger] ds[i].1 == Severity::Error
}

/// The status of a pack: failed on any error, else incomplete without a
/// written page, else ready.
pub open spec fn pack_status_of(ds: Seq<(Seq<char>, Severity, Seq<char>, PackCode)>, pages: int) -> PackStatus {
    if has_error(ds) {
        PackStatus::Failed
    } else if pages == 0 {
        PackStatus::Incomplete
    } else {
        PackStatus::Ready
    }
}

/// The status of a pack from its diagnostics and the number of pages written.
pub fn pack_status(diagnostics: &[PackDiagnostic], pages_written: usize) -> (r: PackStatus)
    ensures
        r == pack_status_of(pack_diags_view(diagnostics@), pages_written as int),
        r == PackStatus::Failed <==> has_error(pack_diags_view(diagnostics@)),
        r == PackStatus::Incomplete <==> !has_error(pack_diags_view(diagnostics@)) && pages_written == 0,
{
    let ghost dv = pack_diags_view(diagnostics@);
    let mut i: usize = 0;
    while i < diagnostics.len()
        invariant
            i <= diagnostics.len(),
            dv == pack_diags_view(diagnostics@),
            forall|j: int| 0 <= j < i ==> #[trigger] dv[j].1 != Severity::Error,
        decreases diagnostics.len() - i,
    {
        if diagnostics[i].severity == Severity::Error {
            proof {
                assert(dv[i as int].1 == Severity::Error);
            }
            return PackStatus::Failed;
        }
        i = i + 1;
    }
    if pages_written == 0 {
        PackStatus::Incomplete
    } else {
        PackStatus::Ready
    }
}

/// The advice given when there is nothing to pack.
pub const CATALOG_ONLY_MESSAGE: &'static str = "no *.program.json \u{2014} build workspace before wechat packaging";

/// The check made before packing: with no program document there is
/// nothing to pack, and the pack ends incomplete with one catalog-only
/// advice (no path); otherwise packing goes ahead (`None`).
pub fn catalog_only_check(program_count: usize) -> (r: Option<PackDiagnostic>)
    ensures
        r is Some <==> program_count == 0,
        r matches Some(d) ==> pack_diag_view(d) == (""@, Severity::Advice, CATALOG_ONLY_MESSAGE@, PackCode::CatalogOnly),
        r matches Some(d) ==> pack_status_of(seq![pack_diag_view(d)], 0) == PackStatus::Incomplete,
{
    if program_count == 0 {
        let d = PackDiagnostic {
            path: from_chars(Vec::<char>::new().as_slice()),
            severity: Severity::Advice,
            message: from_chars(to_chars(CATALOG_ONLY_MESSAGE).as_slice()),
            code: PackCode::CatalogOnly,
        };
        proof {
            assert(d.path@ =~= ""@) by {
                reveal_strlit("");
            }
            let ds = seq![pack_diag_view(d)];
            assert(!has_error(ds)) by {
                if has_error(ds) {
                    let i = choose|i: int| 0 <= i < ds.len() && #[trigger] ds[i].1 == Severity::Error;
                    assert(ds[i] == pack_diag_view(d));
                }
            }
        }
        Some(d)
    } else {
        None
    }
}

/// The schema of a WeChat packaging report.
pub const MINI_WECHAT_PACK_REPORT_SCHEMA: &'static str = "vmz.target.mini_wechat_pack.v0";

/// The pack's root, relative to the workspace.
pub const WECHAT_PACK_ROOT: &'static str = "dist/wechat";

/// The printer crate the pack's files come from.
pub const PACK_PRINTER: &'static str = "vmz-generator";

/// The diagnostic code of the catalog-only advice.
pub const CATALOG_ONLY_CODE: &'static str = "vmz::target::mini_wechat_pack_catalog_only";

/// The files written for one page.
#[derive(Debug, Clone)]
pub struct WechatPackFile {
    pub chunk_id: String,
    pub unit_name: String,
    pub stem: String,
    pub files: Vec<String>,
}

/// The report of a packaging run.
#[derive(Debug, Clone)]
pub struct MiniWechatPackReport {
    pub schema: String,
    pub status: PackStatus,
    pub pack_root: String,
    pub printer: String,
    pub pages: Vec<WechatPackFile>,
    pub diagnostics: Vec<PackDiagnostic>,
}

fn text_of(s: &str) -> (r: String)
    ensures
        r@ == s@,
{
    from_chars(to_chars(s).as_slice())
}

/// The report of a packaging run that wrote `pages` and found
/// `diagnostics`: the pack schema, root and printer, and the status those
/// give (failed on an error, else incomplete without a page, else ready).
pub fn pack_report(pages: Vec<WechatPackFile>, diagnostics: Vec<PackDiagnostic>) -> (r: MiniWechatPackReport)
    ensures
        r.schema@ == MINI_WECHAT_PACK_REPORT_SCHEMA@,
        r.pack_root@ == WECHAT_PACK_ROOT@,
        r.printer@ == PACK_PRINTER@,
        r.pages@ == pages@,
        r.diagnostics@ == diagnostics@,
        r.status == pack_status_of(pack_diags_view(diagnostics@), pages@.len() as int),
{
    let status = pack_status(diagnostics.as_slice(), pages.len());
    MiniWechatPackReport {
        schema: text_of(MINI_WECHAT_PACK_REPORT_SCHEMA),
        status,
        pack_root: text_of(WECHAT_PACK_ROOT),
        printer: text_of(PACK_PRINTER),
        pages,
        diagnostics,
    }
}

/// The report when the workspace holds no program document: incomplete, no
/// page, and the one catalog-only advice (no path).
pub fn catalog_only_report() -> (r: MiniWechatPackReport)
    ensures
        r.schema@ == MINI_WECHAT_PACK_REPORT_SCHEMA@,
        r.pack_root@ == WECHAT_PACK_ROOT@,
        r.printer@ == PACK_PRINTER@,
        r.status == PackStatus::Incomplete,
        r.pages@.len() == 0,
        pack_diags_view(r.diagnostics@) == seq![(""@, Severity::Advice, CATALOG_ONLY_MESSAGE@, PackCode::CatalogOnly)],
{
    let mut diagnostics: Vec<PackDiagnostic> = Vec::new();
    match catalog_only_check(0) {
        Some(d) => {
            push_pack_diag(&mut diagnostics, d);
        },
        None => {},
    }
    proof {
        assert(pack_diags_view(diagnostics@) =~= seq![(""@, Severity::Advice, CATALOG_ONLY_MESSAGE@, PackCode::CatalogOnly)]);
    }
    let r = pack_report(Vec::new(), diagnostics);
    proof {
        assert(!has_error(pack_diags_view(r.diagnostics@))) by {
            if has_error(pack_diags_view(r.diagnostics@)) {
                let i = choose|i: int| 0 <= i < pack_diags_view(r.diagnostics@).len() && #[trigger] pack_diags_view(r.diagnostics@)[i].1 == Severity::Error;
                assert(pack_diags_view(r.diagnostics@)[i] == (""@, Severity::Advice, CATALOG_ONLY_MESSAGE@, PackCode::CatalogOnly));
            }
        }
    }
    r
}

/// A tab icon's SVG text in one colour: every `currentColor` replaced by
/// `color`.
pub fn recolor_svg(svg: &str, color: &str) -> (r: String)
    ensures
        r@ == crate::text::replace_all(svg@, "currentColor"@, color@),
{
    let p = to_chars("currentColor");
    proof {
        reveal_strlit("currentColor");
    }
    let out = crate::text::replace_text(to_chars(svg).as_slice(), p.as_slice(), to_chars(color).as_slice());
    from_chars(out.as_slice())
}


// ---------------------------------------------------------------- plan

/// The page stems of tabs.
pub open spec fn tab_stems_of(st: Seq<(u32, Seq<char>, Seq<char>, Seq<char>, Option<Seq<char>>)>) -> Seq<Seq<char>> {
    st.map_values(|t: (u32, Seq<char>, Seq<char>, Seq<char>, Option<Seq<char>>)| t.1)
}

/// The tabs that pass their check and can hold a tab bar (two or more).
pub open spec fn tabs_usable(st: Seq<(u32, Seq<char>, Seq<char>, Seq<char>, Option<Seq<char>>)>) -> bool {
    tabs_ok(st) && st.len() >= 2
}

/// The packaging plan before the pack is written: the page order, the
/// sorted tabs and their stems, the tab bar items, whether the tab bar goes
/// ahead, the centre tab's white icon and the errors found.
#[derive(Debug, Clone)]
pub struct WechatPackPlan {
    pub pages: Vec<String>,
    pub tabs: Vec<PackTab>,
    pub tab_stems: Vec<String>,
    pub items: Vec<TabItem>,
    pub ready: bool,
    pub center_white: Option<String>,
    pub diagnostics: Vec<PackDiagnostic>,
}

proof fn lemma_dup_diags_error(st: Seq<(u32, Seq<char>, Seq<char>, Seq<char>, Option<Seq<char>>)>, n: int, i: int)
    requires
        0 <= i < n,
        order_seen(st, i),
    ensures
        has_error(duplicate_order_diags(st, n)),
    decreases n,
{
    let d = duplicate_order_diags(st, n);
    if i == n - 1 {
        assert(d[d.len() - 1].1 == Severity::Error);
    } else {
        lemma_dup_diags_error(st, n - 1, i);
        let p = duplicate_order_diags(st, n - 1);
        let j = choose|j: int| 0 <= j < p.len() && #[trigger] p[j].1 == Severity::Error;
        assert(d[j] == p[j]);
    }
}

/// Tabs that fail their check (a repeated order, one tab, more than five)
/// always give an error.
pub proof fn lemma_bad_tabs_refused(st: Seq<(u32, Seq<char>, Seq<char>, Seq<char>, Option<Seq<char>>)>)
    requires
        !tabs_ok(st),
    ensures
        has_error(duplicate_order_diags(st, st.len() as int) + tab_count_diags(st)),
{
    let d = duplicate_order_diags(st, st.len() as int);
    let all = d + tab_count_diags(st);
    if st.len() == 1 || st.len() > 5 {
        assert(all[d.len() as int].1 == Severity::Error);
    } else {
        let i = choose|i: int| 0 <= i < st.len() && order_seen(st, i);
        lemma_dup_diags_error(st, st.len() as int, i);
        let j = choose|j: int| 0 <= j < d.len() && #[trigger] d[j].1 == Severity::Error;
        assert(all[j] == d[j]);
    }
}

/// Plan a WeChat pack from the packed page stems, the `<router>.tab` pages
/// and the outcome of rendering each sorted tab's icons (`icons[i]` for the
/// `i`-th tab by order then stem; read only when the tabs pass their check
/// and there are at least two). Tabs that fail their check give an error
/// and no tab bar; with a tab bar the tab pages come first in `app.json`.
pub fn plan_wechat_pack(pages: &[String], tabs: Vec<PackTab>, icons: &[IconOutcome]) -> (r: WechatPackPlan)
    requires
        tabs_usable(stable_sort(tab_views(tabs@), tab_lt())) ==> icons.len() == tabs.len(),
        tabs.len() <= u32::MAX,
    ensures
        tab_views(r.tabs@) == stable_sort(tab_views(tabs@), tab_lt()),
        texts(r.tab_stems@) == tab_stems_of(tab_views(r.tabs@)),
        item_views(r.items@) == (if tabs_usable(tab_views(r.tabs@)) {
            tab_items(r.tabs@, icons@, r.tabs@.len() as int)
        } else {
            Seq::empty()
        }),
        r.ready == (tabs_usable(tab_views(r.tabs@)) && tab_items_diags(r.tabs@, icons@, r.tabs@.len() as int).len() == 0
            && tab_items(r.tabs@, icons@, r.tabs@.len() as int).len() >= 2),
        opt_view(r.center_white) == (if tabs_usable(tab_views(r.tabs@)) {
            center_white_of(r.tabs@, icons@, r.tabs@.len() as int)
        } else {
            None
        }),
        texts(r.pages@) == (if r.ready {
            pages_with_tabs(ordered_pages(texts(pages@)), texts(r.tab_stems@))
        } else {
            ordered_pages(texts(pages@))
        }),
        pack_diags_view(r.diagnostics@) == duplicate_order_diags(tab_views(r.tabs@), r.tabs@.len() as int)
            + tab_count_diags(tab_views(r.tabs@)) + (if tabs_usable(tab_views(r.tabs@)) {
            tab_items_diags(r.tabs@, icons@, r.tabs@.len() as int)
        } else {
            Seq::empty()
        }),
        !tabs_ok(tab_views(r.tabs@)) ==> !r.ready && has_error(pack_diags_view(r.diagnostics@)),
{
    let ghost tv = tab_views(tabs@);
    let ghost n0 = tabs@.len();
    let check = check_tabs(tabs);
    let sorted = check.tabs;
    proof {
        crate::order::lemma_stable_sort_elems(tv, tab_lt());
    }
    let mut diagnostics = check.diagnostics;
    let ghost st = tab_views(sorted@);
    let mut tab_stems: Vec<String> = Vec::new();
    let mut k: usize = 0;
    while k < sorted.len()
        invariant
            k <= sorted.len(),
            st == tab_views(sorted@),
            texts(tab_stems@) == tab_stems_of(st).take(k as int),
        decreases sorted.len() - k,
    {
        let ghost before = tab_stems@;
        tab_stems.push(sorted[k].stem.clone());
        proof {
            assert(texts(tab_stems@) =~= texts(before).push(sorted@[k as int].stem@));
            assert(texts(tab_stems@) =~= tab_stems_of(st).take(k + 1));
        }
        k = k + 1;
    }
    proof {
        assert(tab_stems_of(st).take(st.len() as int) =~= tab_stems_of(st));
    }
    let ordered = order_app_pages(pages);
    let usable = check.ok && sorted.len() >= 2;
    if usable {
        let planned = plan_tab_items(sorted.as_slice(), icons);
        let ghost before = pack_diags_view(diagnostics@);
        let mut extra = planned.diagnostics;
        let ghost ev = pack_diags_view(extra@);
        diagnostics.append(&mut extra);
        proof {
            assert(pack_diags_view(diagnostics@) =~= before + ev);
        }
        let ready = planned.ok && planned.items.len() >= 2;
        let page_order = if ready {
            order_pages_with_tabs(ordered.as_slice(), &tab_stems)
        } else {
            ordered
        };
        proof {
            if !tabs_ok(st) {
                lemma_bad_tabs_refused(st);
            }
        }
        WechatPackPlan {
            pages: page_order,
            tabs: sorted,
            tab_stems,
            items: planned.items,
            ready,
            center_white: planned.center_white,
            diagnostics,
        }
    } else {
        proof {
            if !tabs_ok(st) {
                lemma_bad_tabs_refused(st);
            }
            assert(pack_diags_view(diagnostics@) =~= pack_diags_view(diagnostics@) + Seq::<(Seq<char>, Severity, Seq<char>, PackCode)>::empty());
        }
        WechatPackPlan {
            pages: ordered,
            tabs: sorted,
            tab_stems,
            items: Vec::new(),
            ready: false,
            center_white: None,
            diagnostics,
        }
    }
}

/// The trimmed text, or `default` when that is empty.
pub open spec fn trimmed_or(s: Seq<char>, default: Seq<char>) -> Seq<char> {
    if crate::text::trim(s).len() == 0 {
        default
    } else {
        crate::text::trim(s)
    }
}

/// The pack title: the trimmed configured title, or `VMZ`.
pub fn pack_title(title: &str) -> (r: String)
    ensures
        r@ == trimmed_or(title@, "VMZ"@),
{
    let c = to_chars(title);
    let t = crate::text::trim_chars(c.as_slice());
    if t.len() == 0 {
        String::from_str("VMZ")
    } else {
        from_chars(t.as_slice())
    }
}

/// The pack's WeChat app id: the trimmed configured id, or `touristappid`.
pub fn pack_app_id(app_id: &str) -> (r: String)
    ensures
        r@ == trimmed_or(app_id@, "touristappid"@),
{
    let c = to_chars(app_id);
    let t = crate::text::trim_chars(c.as_slice());
    if t.len() == 0 {
        String::from_str("touristappid")
    } else {
        from_chars(t.as_slice())
    }
}


proof fn lemma_page_lt_weak()
    ensures
        crate::order::weak_order(page_lt()),
{
    assert forall|x: Seq<char>| !#[trigger] (page_lt())(x, x) by {
        crate::order::lemma_lex_irrefl(x);
    }
    assert forall|x: Seq<char>, y: Seq<char>, z: Seq<char>|
        #![trigger (page_lt())(x, y), (page_lt())(y, z)]
        (page_lt())(x, y) && (page_lt())(y, z) implies (page_lt())(x, z) by {
        if page_rank(x) == page_rank(y) && page_rank(y) == page_rank(z) {
            crate::order::lemma_lex_trans(x, y, z);
        }
    }
    assert forall|x: Seq<char>, y: Seq<char>, z: Seq<char>|
        #![trigger (page_lt())(x, y), (page_lt())(y, z), (page_lt())(x, z)]
        !(page_lt())(x, y) && !(page_lt())(y, z) implies !(page_lt())(x, z) by {
        crate::order::lemma_lex_total(x, y);
        crate::order::lemma_lex_total(y, z);
        if page_rank(x) == page_rank(y) && page_rank(y) == page_rank(z) && lex_lt(x, z) {
            if x == y {
            } else if lex_lt(y, x) {
                if y == z {
                } else {
                    crate::order::lemma_lex_trans(z, y, x);
                    crate::order::lemma_lex_irrefl(x);
                    crate::order::lemma_lex_trans(x, z, x);
                }
            }
        }
    }
}

proof fn lemma_dedup_first(s: Seq<Seq<char>>)
    requires
        s.len() > 0,
    ensures
        dedup_adjacent(s).len() > 0,
        dedup_adjacent(s)[0] == s[0],
    decreases s.len(),
{
    if s.len() > 1 {
        lemma_dedup_first(s.drop_last());
        let d = dedup_adjacent(s.drop_last());
        assert(s.drop_last()[0] == s[0]);
        if !(s[s.len() - 2] == s.last()) {
            assert(d.push(s.last())[0] == d[0]);
        }
    } else {
        assert(dedup_adjacent(s.drop_last()) =~= Seq::<Seq<char>>::empty());
        assert(dedup_adjacent(s) =~= seq![s.last()]);
    }
}

/// Page order law: when the packed pages include a home page
/// (`pages/index/index` or `pages/home/home`), the `app.json` page list
/// starts with a home page, so the mini-program launches on it.
pub proof fn lemma_home_page_first(stems: Seq<Seq<char>>)
    requires
        stems.contains("pages/index/index"@) || stems.contains("pages/home/home"@),
    ensures
        ordered_pages(stems).len() > 0,
        ordered_pages(stems)[0] == "pages/index/index"@ || ordered_pages(stems)[0] == "pages/home/home"@,
{
    let x = if stems.contains("pages/index/index"@) { "pages/index/index"@ } else { "pages/home/home"@ };
    let s = stable_sort(stems, page_lt());
    lemma_page_lt_weak();
    crate::order::lemma_stable_sort_sorted(stems, page_lt());
    crate::order::lemma_stable_sort_multiset(stems, page_lt());
    broadcast use vstd::seq_lib::group_to_multiset_ensures;
    assert(stems.to_multiset().count(x) > 0);
    assert(s.to_multiset().count(x) > 0);
    assert(s.contains(x));
    let j = choose|j: int| 0 <= j < s.len() && s[j] == x;
    assert(page_rank(x) == 0);
    if j > 0 {
        assert(!(page_lt())(s[j], s[0]));
    }
    assert(page_rank(s[0]) == 0);
    lemma_dedup_first(s);
}

} // verus!
