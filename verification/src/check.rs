//! Project checks on templates: the `each` key rules.

use vstd::prelude::*;
use crate::diagnostic::{ReportedDiagnostic, Severity};
use crate::template::{first_attr, find_attr, AttrValue, TemplateAttr, TemplateIr, TemplateNode};
use crate::text::{
    chars_eq, from_chars, is_ascii_digit, lower, lower_exec, push_all, push_str, to_chars, trim,
    trim_chars,
};

verus! {

/// Options of a check run.
#[derive(Debug, Clone, Copy)]
pub struct CheckOptions {
    /// Warnings fail the run too.
    pub deny_warnings: bool,
}

/// Diagnostics of a check run and how many files it read.
#[derive(Debug, Clone)]
pub struct CheckReport {
    pub diagnostics: Vec<ReportedDiagnostic>,
    pub files_checked: usize,
}

/// Some diagnostic has severity `sev`.
pub open spec fn has_severity(ds: Seq<ReportedDiagnostic>, sev: Severity) -> bool {
    exists|i: int| 0 <= i < ds.len() && (#[trigger] ds[i]).severity == sev
}

fn any_severity(ds: &Vec<ReportedDiagnostic>, sev: Severity) -> (r: bool)
    ensures
        r == has_severity(ds@, sev),
{
    let mut i: usize = 0;
    while i < ds.len()
        invariant
            i <= ds.len(),
            forall|k: int| 0 <= k < i ==> (#[trigger] ds@[k]).severity != sev,
        decreases ds.len() - i,
    {
        if ds[i].severity == sev {
            return true;
        }
        i = i + 1;
    }
    false
}

impl CheckReport {
    /// An empty report.
    pub fn new() -> (r: CheckReport)
        ensures
            r.diagnostics@.len() == 0,
            r.files_checked == 0,
    {
        CheckReport { diagnostics: Vec::new(), files_checked: 0 }
    }

    /// Whether some diagnostic is an error.
    pub fn has_errors(&self) -> (r: bool)
        ensures
            r == has_severity(self.diagnostics@, Severity::Error),
    {
        any_severity(&self.diagnostics, Severity::Error)
    }

    /// Whether the run fails: an error, or a warning under `deny_warnings`.
    pub fn failed(&self, options: &CheckOptions) -> (r: bool)
        ensures
            r == (has_severity(self.diagnostics@, Severity::Error) || (options.deny_warnings && has_severity(
                self.diagnostics@,
                Severity::Warning,
            ))),
    {
        if self.has_errors() {
            return true;
        }
        options.deny_warnings && any_severity(&self.diagnostics, Severity::Warning)
    }
}

/// Only ASCII digits.
pub open spec fn all_digits(s: Seq<char>) -> bool {
    forall|i: int| 0 <= i < s.len() ==> is_ascii_digit(#[trigger] s[i])
}

/// Digits with at most one `.`, and at least one digit
/// (`Digit+ | Digit+ '.' Digit* | Digit* '.' Digit+`).
pub open spec fn mantissa_ok(m: Seq<char>) -> bool {
    &&& forall|i: int| 0 <= i < m.len() ==> is_ascii_digit(#[trigger] m[i]) || m[i] == '.'
    &&& forall|i: int, j: int| 0 <= i < j < m.len() && #[trigger] m[i] == '.' ==> #[trigger] m[j] != '.'
    &&& exists|i: int| 0 <= i < m.len() && is_ascii_digit(#[trigger] m[i])
}

/// `Sign? Digit+`.
pub open spec fn exponent_ok(x: Seq<char>) -> bool {
    if x.len() > 0 && (x[0] == '+' || x[0] == '-') {
        x.len() > 1 && all_digits(x.skip(1))
    } else {
        x.len() > 0 && all_digits(x)
    }
}

/// A decimal number: a mantissa, then optionally `e` and an exponent.
pub open spec fn number_ok(s: Seq<char>) -> bool {
    if s.contains('e') {
        let i = choose|i: int| 0 <= i < s.len() && s[i] == 'e' && forall|k: int| 0 <= k < i ==> s[k] != 'e';
        mantissa_ok(s.take(i)) && exponent_ok(s.skip(i + 1))
    } else {
        mantissa_ok(s)
    }
}

/// Text that `str::parse::<f64>` accepts: the grammar of `f64::from_str`
/// (`Sign? ('inf' | 'infinity' | 'nan' | Number)`) on the lowercased text.
pub open spec fn float_text(s: Seq<char>) -> bool {
    let l = lower(s);
    let body = if l.len() > 0 && (l[0] == '+' || l[0] == '-') {
        l.skip(1)
    } else {
        l
    };
    body == "inf"@ || body == "infinity"@ || body == "nan"@ || number_ok(body)
}

fn mantissa_ok_exec(m: &[char]) -> (r: bool)
    ensures
        r == mantissa_ok(m@),
{
    let mut dots: usize = 0;
    let mut digits = false;
    let mut i: usize = 0;
    while i < m.len()
        invariant
            i <= m.len(),
            dots <= 1,
            forall|k: int| 0 <= k < i ==> is_ascii_digit(#[trigger] m@[k]) || m@[k] == '.',
            dots == 0 ==> forall|k: int| 0 <= k < i ==> #[trigger] m@[k] != '.',
            dots == 1 ==> exists|k: int| 0 <= k < i && m@[k] == '.',
            forall|a: int, b: int| 0 <= a < b < i && #[trigger] m@[a] == '.' ==> #[trigger] m@[b] != '.',
            digits == exists|k: int| 0 <= k < i && is_ascii_digit(#[trigger] m@[k]),
        decreases m.len() - i,
    {
        let c = m[i];
        if c == '.' {
            if dots == 1 {
                proof {
                    let k = choose|k: int| 0 <= k < i && m@[k] == '.';
                    assert(m@[k] == '.' && m@[i as int] == '.');
                }
                return false;
            }
            dots = 1;
        } else if '0' <= c && c <= '9' {
            digits = true;
        } else {
            return false;
        }
        i = i + 1;
    }
    digits
}

fn all_digits_exec(s: &[char]) -> (r: bool)
    ensures
        r == all_digits(s@),
{
    let mut i: usize = 0;
    while i < s.len()
        invariant
            i <= s.len(),
            forall|k: int| 0 <= k < i ==> is_ascii_digit(#[trigger] s@[k]),
        decreases s.len() - i,
    {
        if !('0' <= s[i] && s[i] <= '9') {
            return false;
        }
        i = i + 1;
    }
    true
}

fn tail(s: &[char], from: usize) -> (r: Vec<char>)
    requires
        from <= s.len(),
    ensures
        r@ == s@.skip(from as int),
{
    let mut r: Vec<char> = Vec::new();
    let mut i = from;
    while i < s.len()
        invariant
            from <= i <= s.len(),
            r@ == s@.subrange(from as int, i as int),
        decreases s.len() - i,
    {
        r.push(s[i]);
        proof {
            assert(s@.subrange(from as int, i + 1) =~= s@.subrange(from as int, i as int).push(s@[i as int]));
        }
        i = i + 1;
    }
    r
}

fn head(s: &[char], to: usize) -> (r: Vec<char>)
    requires
        to <= s.len(),
    ensures
        r@ == s@.take(to as int),
{
    let mut r: Vec<char> = Vec::new();
    let mut i: usize = 0;
    while i < to
        invariant
            i <= to <= s.len(),
            r@ == s@.take(i as int),
        decreases to - i,
    {
        r.push(s[i]);
        proof {
            assert(s@.take(i + 1) =~= s@.take(i as int).push(s@[i as int]));
        }
        i = i + 1;
    }
    r
}

fn exponent_ok_exec(x: &[char]) -> (r: bool)
    ensures
        r == exponent_ok(x@),
{
    if x.len() > 0 && (x[0] == '+' || x[0] == '-') {
        let rest = tail(x, 1);
        x.len() > 1 && all_digits_exec(rest.as_slice())
    } else {
        x.len() > 0 && all_digits_exec(x)
    }
}

fn number_ok_exec(s: &[char]) -> (r: bool)
    ensures
        r == number_ok(s@),
{
    let mut i: usize = 0;
    while i < s.len() && s[i] != 'e'
        invariant
            i <= s.len(),
            forall|k: int| 0 <= k < i ==> s@[k] != 'e',
        decreases s.len() - i,
    {
        i = i + 1;
    }
    if i < s.len() {
        proof {
            assert(s@.contains('e'));
            let c = choose|c: int| 0 <= c < s@.len() && s@[c] == 'e' && forall|k: int| 0 <= k < c ==> s@[k] != 'e';
            assert(0 <= i < s@.len() && s@[i as int] == 'e' && forall|k: int| 0 <= k < i ==> s@[k] != 'e');
            if c < i {
                assert(s@[c] != 'e');
            } else if c > i {
                assert(s@[i as int] != 'e');
            }
        }
        let m = head(s, i);
        let x = tail(s, i + 1);
        mantissa_ok_exec(m.as_slice()) && exponent_ok_exec(x.as_slice())
    } else {
        proof {
            if s@.contains('e') {
                let c = choose|c: int| 0 <= c < s@.len() && s@[c] == 'e';
                assert(s@[c] != 'e');
            }
        }
        mantissa_ok_exec(s)
    }
}

/// Whether `s` parses as a float literal (`f64::from_str` accepts it).
pub fn is_float_text(s: &[char]) -> (r: bool)
    ensures
        r == float_text(s@),
{
    let l = lower_exec(s);
    let body = if l.len() > 0 && (l[0] == '+' || l[0] == '-') {
        tail(l.as_slice(), 1)
    } else {
        tail(l.as_slice(), 0)
    };
    proof {
        assert(l@.skip(0) =~= l@);
    }
    let inf = to_chars("inf");
    let infinity = to_chars("infinity");
    let nan = to_chars("nan");
    chars_eq(body.as_slice(), inf.as_slice()) || chars_eq(body.as_slice(), infinity.as_slice()) || chars_eq(
        body.as_slice(),
        nan.as_slice(),
    ) || number_ok_exec(body.as_slice())
}

/// A key expression that is the same for every item: a quoted string, a
/// number, or `true`/`false`/`null`/`undefined`/`NaN`.
pub open spec fn literal_key(expr: Seq<char>) -> bool {
    let e = trim(expr);
    &&& e.len() > 0
    &&& {
        ||| (e[0] == '"' && e.last() == '"')
        ||| (e[0] == '\'' && e.last() == '\'')
        ||| float_text(e)
        ||| e == "true"@
        ||| e == "false"@
        ||| e == "null"@
        ||| e == "undefined"@
        ||| e == "NaN"@
    }
}

fn eq_lit(v: &[char], lit: &str) -> (r: bool)
    ensures
        r == (v@ == lit@),
{
    let l = to_chars(lit);
    chars_eq(v, l.as_slice())
}

/// Whether a key expression is a constant.
pub fn is_literal_key(expr: &str) -> (r: bool)
    ensures
        r == literal_key(expr@),
{
    let raw = to_chars(expr);
    let e = trim_chars(raw.as_slice());
    if e.len() == 0 {
        return false;
    }
    let n = e.len();
    if (e[0] == '"' && e[n - 1] == '"') || (e[0] == '\'' && e[n - 1] == '\'') {
        return true;
    }
    if is_float_text(e.as_slice()) {
        return true;
    }
    eq_lit(e.as_slice(), "true") || eq_lit(e.as_slice(), "false") || eq_lit(e.as_slice(), "null") || eq_lit(
        e.as_slice(),
        "undefined",
    ) || eq_lit(e.as_slice(), "NaN")
}


/// `s` without leading and trailing quote characters (`"` and `'`).
pub open spec fn trim_quotes(s: Seq<char>) -> Seq<char>
    decreases s.len(),
{
    if s.len() > 0 && (s[0] == '"' || s[0] == '\'') {
        trim_quotes(s.drop_first())
    } else if s.len() > 0 && (s.last() == '"' || s.last() == '\'') {
        trim_quotes(s.drop_last())
    } else {
        s
    }
}

/// The item name of an `each` element: the first `as` attribute, static and
/// non-empty, or interpolated (trimmed, quotes dropped).
pub open spec fn as_name(attrs: Seq<TemplateAttr>) -> Option<Seq<char>> {
    match first_attr(attrs, "as"@) {
        Some(i) => match attrs[i].value {
            AttrValue::Static(s) => if s@.len() > 0 {
                Some(s@)
            } else {
                None
            },
            AttrValue::Interp(e) => Some(trim_quotes(trim(e@))),
        },
        None => None,
    }
}

/// The `each` key diagnostic of one element, if any.
#[verifier::opaque]
pub open spec fn each_key_diag(tag: Seq<char>, attrs: Seq<TemplateAttr>) -> Option<(Severity, Seq<char>)> {
    if first_attr(attrs, "each"@) is None {
        None
    } else {
        match first_attr(attrs, "key"@) {
            None => Some((
                Severity::Warning,
                "<"@ + tag + " each={}> has no `key` ?index identity is unstable on insert/reorder"@,
            )),
            Some(k) => match attrs[k].value {
                AttrValue::Static(s) => Some((
                    Severity::Error,
                    "<"@ + tag + " each> `key=\""@ + s@
                        + "\"` is identical for every item ?use a per-item expression like `key={item.id}`"@,
                )),
                AttrValue::Interp(expr) => {
                    let e = trim(expr@);
                    if literal_key(e) {
                        Some((Severity::Error, "<"@ + tag + " each> `key={"@ + e + "}` is a constant ?duplicate keys for every item"@))
                    } else if as_name(attrs) is Some && e == as_name(attrs)->0 {
                        let a = as_name(attrs)->0;
                        Some((
                            Severity::Warning,
                            "<"@ + tag + " each> `key={"@ + a + "}` uses the item itself ?prefer a primitive field (e.g. `"@ + a
                                + ".id`); object keys are unstable"@,
                        ))
                    } else {
                        None
                    }
                },
            },
        }
    }
}

/// The `each` key diagnostics of a node and its descendants, in document order.
pub open spec fn node_key_diags(n: TemplateNode) -> Seq<(Severity, Seq<char>)>
    decreases n, 1int,
{
    match n {
        TemplateNode::Element { tag, attrs, children } => {
            let own = match each_key_diag(tag@, attrs@) {
                Some(d) => seq![d],
                None => Seq::empty(),
            };
            own + nodes_key_diags(children@)
        },
        _ => Seq::empty(),
    }
}

/// The `each` key diagnostics of a node list, in document order.
pub open spec fn nodes_key_diags(nodes: Seq<TemplateNode>) -> Seq<(Severity, Seq<char>)>
    decreases nodes, 0int,
{
    if nodes.len() == 0 {
        Seq::empty()
    } else {
        nodes_key_diags(nodes.subrange(0, nodes.len() - 1)) + node_key_diags(nodes[nodes.len() - 1])
    }
}


/// A diagnostic as (severity, message).
pub open spec fn sev_msg(d: ReportedDiagnostic) -> (Severity, Seq<char>) {
    (d.severity, d.message@)
}

/// `after` is `before` followed by `added`, every added diagnostic about `path`.
pub open spec fn appended_diags(
    before: Seq<ReportedDiagnostic>,
    after: Seq<ReportedDiagnostic>,
    path: Seq<char>,
    added: Seq<(Severity, Seq<char>)>,
) -> bool {
    &&& after.len() == before.len() + added.len()
    &&& forall|k: int| 0 <= k < before.len() ==> #[trigger] after[k] == before[k]
    &&& forall|k: int|
        0 <= k < added.len() ==> sev_msg(#[trigger] after[before.len() + k]) == added[k] && after[before.len()
            + k].path@ == path
}

/// Appending twice appends the concatenation.
pub proof fn lemma_appended_trans(
    a: Seq<ReportedDiagnostic>,
    b: Seq<ReportedDiagnostic>,
    c: Seq<ReportedDiagnostic>,
    path: Seq<char>,
    x: Seq<(Severity, Seq<char>)>,
    y: Seq<(Severity, Seq<char>)>,
)
    requires
        appended_diags(a, b, path, x),
        appended_diags(b, c, path, y),
    ensures
        appended_diags(a, c, path, x + y),
{
    assert forall|k: int| 0 <= k < a.len() implies #[trigger] c[k] == a[k] by {
        assert(c[k] == b[k]);
    }
    assert forall|k: int| 0 <= k < (x + y).len() implies sev_msg(#[trigger] c[a.len() + k]) == (x + y)[k] && c[a.len()
        + k].path@ == path by {
        if k < x.len() {
            assert(c[a.len() + k] == b[a.len() + k]);
        } else {
            assert(c[b.len() + (k - x.len())] == c[a.len() + k]);
        }
    }
}

fn trim_quotes_exec(s: &[char]) -> (r: Vec<char>)
    ensures
        r@ == trim_quotes(s@),
{
    let mut a: usize = 0;
    let mut b: usize = s.len();
    proof {
        assert(s@.subrange(0, s.len() as int) =~= s@);
    }
    while a < b && (s[a] == '"' || s[a] == '\'' || s[b - 1] == '"' || s[b - 1] == '\'')
        invariant
            a <= b <= s.len(),
            trim_quotes(s@) == trim_quotes(s@.subrange(a as int, b as int)),
        decreases b - a,
    {
        let ghost t = s@.subrange(a as int, b as int);
        if s[a] == '"' || s[a] == '\'' {
            proof {
                assert(t.drop_first() =~= s@.subrange(a + 1, b as int));
            }
            a = a + 1;
        } else {
            proof {
                assert(t.drop_last() =~= s@.subrange(a as int, b - 1));
            }
            b = b - 1;
        }
    }
    let mut r: Vec<char> = Vec::new();
    let mut i = a;
    while i < b
        invariant
            a <= i <= b <= s.len(),
            r@ == s@.subrange(a as int, i as int),
        decreases b - i,
    {
        r.push(s[i]);
        proof {
            assert(s@.subrange(a as int, i + 1) =~= s@.subrange(a as int, i as int).push(s@[i as int]));
        }
        i = i + 1;
    }
    r
}

fn as_name_exec(attrs: &[TemplateAttr]) -> (r: Option<Vec<char>>)
    ensures
        match r {
            Some(v) => as_name(attrs@) == Some(v@),
            None => as_name(attrs@) is None,
        },
{
    let key = to_chars("as");
    match find_attr(attrs, key.as_slice()) {
        Some(i) => match &attrs[i].value {
            AttrValue::Static(s) => {
                if s.as_str().is_empty() {
                    None
                } else {
                    Some(to_chars(s.as_str()))
                }
            },
            AttrValue::Interp(e) => {
                let v = to_chars(e.as_str());
                let t = trim_chars(v.as_slice());
                Some(trim_quotes_exec(t.as_slice()))
            },
        },
        None => None,
    }
}

fn each_key_check(tag: &String, attrs: &[TemplateAttr]) -> (r: Option<(Severity, Vec<char>)>)
    ensures
        match r {
            Some((sev, m)) => each_key_diag(tag@, attrs@) == Some((sev, m@)),
            None => each_key_diag(tag@, attrs@) is None,
        },
{
    proof {
        reveal(each_key_diag);
    }
    let each = to_chars("each");
    if find_attr(attrs, each.as_slice()).is_none() {
        return None;
    }
    let keyname = to_chars("key");
    let as_n = as_name_exec(attrs);
    match find_attr(attrs, keyname.as_slice()) {
        None => {
            let mut m = to_chars("<");
            push_str(&mut m, tag.as_str());
            push_str(&mut m, " each={}> has no `key` ?index identity is unstable on insert/reorder");
            Some((Severity::Warning, m))
        },
        Some(k) => match &attrs[k].value {
            AttrValue::Static(s) => {
                let mut m = to_chars("<");
                push_str(&mut m, tag.as_str());
                push_str(&mut m, " each> `key=\"");
                push_str(&mut m, s.as_str());
                push_str(&mut m, "\"` is identical for every item ?use a per-item expression like `key={item.id}`");
                Some((Severity::Error, m))
            },
            AttrValue::Interp(expr) => {
                let raw = to_chars(expr.as_str());
                let e = trim_chars(raw.as_slice());
                let es = from_chars(e.as_slice());
                if is_literal_key(es.as_str()) {
                    proof {
                        crate::text::lemma_trim_idempotent(raw@);
                    }
                    let mut m = to_chars("<");
                    push_str(&mut m, tag.as_str());
                    push_str(&mut m, " each> `key={");
                    push_all(&mut m, e.as_slice());
                    push_str(&mut m, "}` is a constant ?duplicate keys for every item");
                    return Some((Severity::Error, m));
                }
                proof {
                    crate::text::lemma_trim_idempotent(raw@);
                }
                match as_n {
                    Some(a) => {
                        if chars_eq(e.as_slice(), a.as_slice()) {
                            let mut m = to_chars("<");
                            push_str(&mut m, tag.as_str());
                            push_str(&mut m, " each> `key={");
                            push_all(&mut m, a.as_slice());
                            push_str(&mut m, "}` uses the item itself ?prefer a primitive field (e.g. `");
                            push_all(&mut m, a.as_slice());
                            push_str(&mut m, ".id`); object keys are unstable");
                            Some((Severity::Warning, m))
                        } else {
                            None
                        }
                    },
                    None => None,
                }
            },
        },
    }
}

/// Apply the `each` key rules to `nodes` and their descendants, in
/// document order: a missing key warns, a static or constant key is an
/// error, and a key that is the item itself warns.
pub fn walk_each_keys(path: &str, nodes: &[TemplateNode], report: &mut CheckReport)
    ensures
        appended_diags(old(report).diagnostics@, final(report).diagnostics@, path@, nodes_key_diags(nodes@)),
        final(report).files_checked == old(report).files_checked,
    decreases nodes@,
{
    let mut i: usize = 0;
    proof {
        assert(nodes@.subrange(0, 0) =~= Seq::<TemplateNode>::empty());
    }
    while i < nodes.len()
        invariant
            i <= nodes.len(),
            appended_diags(old(report).diagnostics@, report.diagnostics@, path@, nodes_key_diags(nodes@.subrange(0, i as int))),
            report.files_checked == old(report).files_checked,
        decreases nodes.len() - i,
    {
        let ghost before = report.diagnostics@;
        let ghost done = nodes_key_diags(nodes@.subrange(0, i as int));
        proof {
            assert(nodes@.subrange(0, i + 1).subrange(0, i as int) =~= nodes@.subrange(0, i as int));
            assert(nodes@.subrange(0, i + 1)[i as int] == nodes@[i as int]);
        }
        match &nodes[i] {
            TemplateNode::Element { tag, attrs, children } => {
                let ghost own = match each_key_diag(tag@, attrs@) {
                    Some(d) => seq![d],
                    None => Seq::<(Severity, Seq<char>)>::empty(),
                };
                match each_key_check(tag, attrs.as_slice()) {
                    Some((sev, m)) => {
                        report.diagnostics.push(ReportedDiagnostic { path: String::from_str(path), severity: sev, message: from_chars(m.as_slice()) });
                    },
                    None => {},
                }
                let ghost mid = report.diagnostics@;
                proof {
                    assert(appended_diags(before, mid, path@, own));
                    assert(decreases_to!(nodes@ => nodes@[i as int]));
                }
                walk_each_keys(path, children.as_slice(), report);
                proof {
                    lemma_appended_trans(before, mid, report.diagnostics@, path@, own, nodes_key_diags(children@));
                    lemma_appended_trans(old(report).diagnostics@, before, report.diagnostics@, path@, done, own + nodes_key_diags(children@));
                    let s1 = nodes@.subrange(0, i + 1);
                    assert(node_key_diags(nodes@[i as int]) == own + nodes_key_diags(children@));
                    assert(nodes_key_diags(s1) == nodes_key_diags(s1.subrange(0, i as int)) + node_key_diags(s1[i as int]));
                    assert(nodes_key_diags(s1) =~= done + (own + nodes_key_diags(children@)));
                }
            },
            _ => {
                proof {
                    let s1 = nodes@.subrange(0, i + 1);
                    assert(node_key_diags(nodes@[i as int]) =~= Seq::<(Severity, Seq<char>)>::empty());
                    assert(nodes_key_diags(s1) == nodes_key_diags(s1.subrange(0, i as int)) + node_key_diags(s1[i as int]));
                    assert(nodes_key_diags(s1) =~= done);
                }
            },
        }
        i = i + 1;
    }
    proof {
        assert(nodes@.subrange(0, nodes.len() as int) =~= nodes@);
    }
}

/// Apply the `each` key rules to a whole template.
pub fn check_each_keys(path: &str, ir: &TemplateIr, report: &mut CheckReport)
    ensures
        appended_diags(old(report).diagnostics@, final(report).diagnostics@, path@, nodes_key_diags(ir.roots@)),
        final(report).files_checked == old(report).files_checked,
{
    walk_each_keys(path, ir.roots.as_slice(), report);
}

} // verus!
