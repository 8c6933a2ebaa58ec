//! Effect summaries of component methods composed across sibling calls: a
//! method that calls a sibling also reads and writes what the sibling does,
//! transitively; a method that (transitively) calls what cannot be resolved
//! reads and writes every field.

use vstd::prelude::*;
use vstd::set_lib::{lemma_int_range, lemma_len_subset, set_int_range};
use crate::order::texts;
use crate::text::{from_chars, push_str};

verus! {

/// A component method as its effect summary reads it.
#[derive(Debug, Clone, PartialEq, Eq)]
pub struct MethodDecl {
    /// Method name (`#load` for a private one).
    pub name: String,
    /// State paths read (`user.name`, `count.*`).
    pub reads: Vec<String>,
    /// State paths written.
    pub writes: Vec<String>,
    /// Sibling methods called, by name.
    pub calls: Vec<String>,
    /// Calls a method that cannot be resolved statically.
    pub opaque_callee: bool,
    /// Fields widened to `field.*`, each with its reason.
    pub star_reasons: Vec<(String, String)>,
}

/// Index of the last method named `name`.
pub open spec fn method_index(ms: Seq<MethodDecl>, name: Seq<char>) -> Option<int>
    decreases ms.len(),
{
    if ms.len() == 0 {
        None
    } else if ms.last().name@ == name {
        Some(ms.len() - 1)
    } else {
        method_index(ms.drop_last(), name)
    }
}

/// Method `i` calls sibling `j` (another method).
pub open spec fn edge(g: Seq<MethodDecl>, i: int, j: int) -> bool {
    &&& 0 <= i < g.len()
    &&& i != j
    &&& exists|c: int| 0 <= c < g[i].calls.len() && method_index(g, #[trigger] g[i].calls@[c]@) == Some(j)
}

/// The methods reachable from `i` in at most `k` calls.
pub open spec fn within(g: Seq<MethodDecl>, i: int, k: nat) -> Set<int>
    decreases k,
{
    if k == 0 {
        set![i]
    } else {
        let r = within(g, i, (k - 1) as nat);
        r.union(Set::new(|m: int| exists|x: int| r.contains(x) && #[trigger] edge(g, x, m)))
    }
}

/// The methods reachable from `i` (itself included).
pub open spec fn reach(g: Seq<MethodDecl>, i: int) -> Set<int> {
    within(g, i, (g.len() - 1) as nat)
}

/// What a summary states of a method.
pub enum Fact {
    Read(Seq<char>),
    Write(Seq<char>),
    Star(Seq<char>),
    Opaque,
}

/// The field names of (field, reason) pairs.
pub open spec fn pair_names(v: Seq<(String, String)>) -> Seq<Seq<char>> {
    v.map_values(|p: (String, String)| p.0@)
}

/// The names of a method's widened fields.
pub open spec fn reason_names(m: MethodDecl) -> Seq<Seq<char>> {
    pair_names(m.star_reasons@)
}

/// The facts of a method's summary.
pub open spec fn facts(m: MethodDecl) -> Set<Fact> {
    Set::new(
        |f: Fact|
            match f {
                Fact::Read(s) => texts(m.reads@).contains(s),
                Fact::Write(s) => texts(m.writes@).contains(s),
                Fact::Star(n) => reason_names(m).contains(n),
                Fact::Opaque => m.opaque_callee,
            },
    )
}

/// The facts of the methods `xs`.
pub open spec fn facts_of(g: Seq<MethodDecl>, xs: Set<int>) -> Set<Fact> {
    Set::new(|f: Fact| exists|k: int| xs.contains(k) && #[trigger] facts(g[k]).contains(f))
}

proof fn lemma_index_range(g: Seq<MethodDecl>, name: Seq<char>)
    ensures
        method_index(g, name) matches Some(k) ==> 0 <= k < g.len() && g[k].name@ == name,
    decreases g.len(),
{
    if g.len() > 0 && g.last().name@ != name {
        lemma_index_range(g.drop_last(), name);
    }
}

proof fn lemma_edge_range(g: Seq<MethodDecl>, i: int, j: int)
    requires
        edge(g, i, j),
    ensures
        0 <= j < g.len(),
{
    let c = choose|c: int| 0 <= c < g[i].calls.len() && method_index(g, #[trigger] g[i].calls@[c]@) == Some(j);
    lemma_index_range(g, g[i].calls@[c]@);
}

proof fn lemma_within_range(g: Seq<MethodDecl>, i: int, k: nat)
    requires
        0 <= i < g.len(),
    ensures
        within(g, i, k).subset_of(set_int_range(0, g.len() as int)),
    decreases k,
{
    if k > 0 {
        lemma_within_range(g, i, (k - 1) as nat);
        assert forall|m: int| within(g, i, k).contains(m) implies set_int_range(0, g.len() as int).contains(m) by {
            if !within(g, i, (k - 1) as nat).contains(m) {
                let x = choose|x: int| within(g, i, (k - 1) as nat).contains(x) && #[trigger] edge(g, x, m);
                lemma_edge_range(g, x, m);
            }
        }
    }
}

proof fn lemma_within_mono(g: Seq<MethodDecl>, i: int, a: nat, b: nat)
    requires
        a <= b,
    ensures
        within(g, i, a).subset_of(within(g, i, b)),
    decreases b,
{
    if a < b {
        lemma_within_mono(g, i, a, (b - 1) as nat);
    }
}

proof fn lemma_within_stays(g: Seq<MethodDecl>, i: int, k: nat, k2: nat)
    requires
        within(g, i, k + 1) == within(g, i, k),
        k <= k2,
    ensures
        within(g, i, k2) == within(g, i, k),
    decreases k2,
{
    if k2 > k + 1 {
        lemma_within_stays(g, i, k, (k2 - 1) as nat);
        assert(within(g, i, k2) =~= within(g, i, k + 1));
    }
}

proof fn lemma_within_grows(g: Seq<MethodDecl>, i: int, k: nat)
    requires
        0 <= i < g.len(),
        forall|j: nat| j < k ==> #[trigger] within(g, i, j + 1) != within(g, i, j),
    ensures
        within(g, i, k).len() >= k + 1,
        within(g, i, k).finite(),
    decreases k,
{
    lemma_within_range(g, i, k);
    lemma_int_range(0, g.len() as int);
    lemma_len_subset(within(g, i, k), set_int_range(0, g.len() as int));
    if k == 0 {
        assert(within(g, i, 0) =~= set![i]);
    } else {
        let p = (k - 1) as nat;
        lemma_within_grows(g, i, p);
        lemma_within_mono(g, i, p, k);
        assert(within(g, i, p + 1) != within(g, i, p));
        let extra = within(g, i, k).difference(within(g, i, p));
        if extra.len() == 0 {
            assert(within(g, i, k) =~= within(g, i, p)) by {
                assert forall|m: int| within(g, i, k).contains(m) implies within(g, i, p).contains(m) by {
                    if !within(g, i, p).contains(m) {
                        assert(extra.contains(m));
                    }
                }
            }
        }
        vstd::set_lib::lemma_len_union(within(g, i, p), extra);
        assert(within(g, i, p).union(extra) =~= within(g, i, k));
        assert(within(g, i, p).disjoint(extra));
        vstd::set_lib::lemma_set_disjoint_lens(within(g, i, p), extra);
    }
}

/// At most `n - 1` calls reach every reachable method.
proof fn lemma_within_full(g: Seq<MethodDecl>, i: int, k: nat)
    requires
        0 <= i < g.len(),
        k >= g.len() - 1,
    ensures
        within(g, i, k) == reach(g, i),
{
    let n = g.len();
    if forall|j: nat| j < n ==> #[trigger] within(g, i, j + 1) != within(g, i, j) {
        lemma_within_grows(g, i, n);
        lemma_within_range(g, i, n);
        lemma_int_range(0, n as int);
        lemma_len_subset(within(g, i, n), set_int_range(0, n as int));
        assert(false);
    } else {
        let j0 = choose|j: nat| j < n && !(#[trigger] within(g, i, j + 1) != within(g, i, j));
        lemma_within_stays(g, i, j0, k);
        lemma_within_stays(g, i, j0, (n - 1) as nat);
    }
}

proof fn lemma_within_pull(g: Seq<MethodDecl>, i: int, p: nat)
    ensures
        forall|m: int| #[trigger] within(g, i, p + 1).contains(m) ==> m == i || exists|j: int| edge(g, i, j) && #[trigger] within(g, j, p).contains(m),
    decreases p,
{
    if p == 0 {
        assert forall|m: int| #[trigger] within(g, i, 1).contains(m) implies m == i || exists|j: int| edge(g, i, j) && #[trigger] within(g, j, 0).contains(m) by {
            if m != i {
                assert(within(g, i, 0) =~= set![i]);
                assert(within(g, m, 0).contains(m));
            }
        }
    } else {
        let q = (p - 1) as nat;
        lemma_within_pull(g, i, q);
        assert(q + 1 == p);
        assert forall|m: int| #[trigger] within(g, i, p + 1).contains(m) implies m == i || exists|j: int| edge(g, i, j) && #[trigger] within(g, j, p).contains(m) by {
            if within(g, i, p).contains(m) {
                assert(within(g, i, q + 1).contains(m));
                if m != i {
                    let j = choose|j: int| edge(g, i, j) && #[trigger] within(g, j, q).contains(m);
                    lemma_within_mono(g, j, q, p);
                }
            } else {
                let x = choose|x: int| within(g, i, p).contains(x) && #[trigger] edge(g, x, m);
                if x == i {
                    lemma_within_mono(g, m, 0, p);
                    assert(within(g, m, 0).contains(m));
                } else {
                    assert(within(g, i, q + 1).contains(x));
                    let j = choose|j: int| edge(g, i, j) && #[trigger] within(g, j, q).contains(x);
                    assert(within(g, j, q + 1).contains(m));
                }
            }
        }
    }
}

proof fn lemma_within_compose(g: Seq<MethodDecl>, i: int, j: int, p: nat)
    requires
        edge(g, i, j),
    ensures
        within(g, j, p).subset_of(within(g, i, p + 1)),
    decreases p,
{
    if p == 0 {
        assert(within(g, i, 0).contains(i));
    } else {
        let q = (p - 1) as nat;
        lemma_within_compose(g, i, j, q);
        assert forall|m: int| within(g, j, p).contains(m) implies within(g, i, p + 1).contains(m) by {
            if !within(g, j, q).contains(m) {
                let x = choose|x: int| within(g, j, q).contains(x) && #[trigger] edge(g, x, m);
                assert(within(g, i, p).contains(x));
            }
        }
    }
}

/// A callee reaches no more than its caller.
proof fn lemma_reach_edge(g: Seq<MethodDecl>, i: int, j: int)
    requires
        edge(g, i, j),
    ensures
        reach(g, j).subset_of(reach(g, i)),
{
    lemma_edge_range(g, i, j);
    let n = g.len();
    lemma_within_compose(g, i, j, (n - 1) as nat);
    lemma_within_full(g, i, n as nat);
}

/// `new` is `old` followed by texts, each new one absent from all before it.
pub open spec fn grows_texts(old: Seq<Seq<char>>, new: Seq<Seq<char>>) -> bool {
    &&& old.len() <= new.len()
    &&& new.take(old.len() as int) == old
    &&& forall|k: int| old.len() <= k < new.len() ==> !new.take(k).contains(#[trigger] new[k])
}

/// `b` is `a` with entries added as the composition adds them: same name and
/// calls, each list extended by entries it did not hold, opacity kept.
pub open spec fn grows(a: MethodDecl, b: MethodDecl) -> bool {
    &&& a.name@ == b.name@
    &&& a.calls@ == b.calls@
    &&& grows_texts(texts(a.reads@), texts(b.reads@))
    &&& grows_texts(texts(a.writes@), texts(b.writes@))
    &&& grows_texts(reason_names(a), reason_names(b))
    &&& b.star_reasons@.take(a.star_reasons@.len() as int) == a.star_reasons@
    &&& (a.opaque_callee ==> b.opaque_callee)
}

proof fn lemma_grows_texts_trans(a: Seq<Seq<char>>, b: Seq<Seq<char>>, c: Seq<Seq<char>>)
    requires
        grows_texts(a, b),
        grows_texts(b, c),
    ensures
        grows_texts(a, c),
{
    assert(c.take(a.len() as int) =~= c.take(b.len() as int).take(a.len() as int));
    assert forall|k: int| a.len() <= k < c.len() implies !c.take(k).contains(#[trigger] c[k]) by {
        if k < b.len() {
            assert(c.take(k) =~= b.take(k));
            assert(c[k] == c.take(b.len() as int)[k]);
        }
    }
}

proof fn lemma_grows_trans(a: MethodDecl, b: MethodDecl, c: MethodDecl)
    requires
        grows(a, b),
        grows(b, c),
    ensures
        grows(a, c),
{
    lemma_grows_texts_trans(texts(a.reads@), texts(b.reads@), texts(c.reads@));
    lemma_grows_texts_trans(texts(a.writes@), texts(b.writes@), texts(c.writes@));
    lemma_grows_texts_trans(reason_names(a), reason_names(b), reason_names(c));
    assert(c.star_reasons@.take(a.star_reasons@.len() as int) =~= c.star_reasons@.take(b.star_reasons@.len() as int).take(
        a.star_reasons@.len() as int,
    ));
}

proof fn lemma_grows_refl(a: MethodDecl)
    ensures
        grows(a, a),
{
    assert(texts(a.reads@).take(texts(a.reads@).len() as int) =~= texts(a.reads@));
    assert(texts(a.writes@).take(texts(a.writes@).len() as int) =~= texts(a.writes@));
    assert(reason_names(a).take(reason_names(a).len() as int) =~= reason_names(a));
    assert(a.star_reasons@.take(a.star_reasons@.len() as int) =~= a.star_reasons@);
}

fn copy_strings(v: &Vec<String>) -> (r: Vec<String>)
    ensures
        r@ == v@,
{
    let mut r: Vec<String> = Vec::new();
    let mut i: usize = 0;
    while i < v.len()
        invariant
            i <= v.len(),
            r@ == v@.take(i as int),
        decreases v.len() - i,
    {
        r.push(v[i].clone());
        proof {
            assert(v@.take(i + 1) =~= v@.take(i as int).push(v@[i as int]));
        }
        i = i + 1;
    }
    proof {
        assert(v@.take(v@.len() as int) =~= v@);
    }
    r
}

fn copy_pairs(v: &Vec<(String, String)>) -> (r: Vec<(String, String)>)
    ensures
        r@ == v@,
{
    let mut r: Vec<(String, String)> = Vec::new();
    let mut i: usize = 0;
    while i < v.len()
        invariant
            i <= v.len(),
            r@ == v@.take(i as int),
        decreases v.len() - i,
    {
        r.push((v[i].0.clone(), v[i].1.clone()));
        proof {
            assert(v@.take(i + 1) =~= v@.take(i as int).push(v@[i as int]));
        }
        i = i + 1;
    }
    proof {
        assert(v@.take(v@.len() as int) =~= v@);
    }
    r
}

/// A method as plain values.
pub open spec fn method_view(m: MethodDecl) -> (
    Seq<char>,
    Seq<Seq<char>>,
    Seq<Seq<char>>,
    Seq<Seq<char>>,
    bool,
    Seq<(String, String)>,
) {
    (m.name@, texts(m.reads@), texts(m.writes@), texts(m.calls@), m.opaque_callee, m.star_reasons@)
}

/// Methods as plain values.
pub open spec fn method_views(ms: Seq<MethodDecl>) -> Seq<
    (Seq<char>, Seq<Seq<char>>, Seq<Seq<char>>, Seq<Seq<char>>, bool, Seq<(String, String)>),
> {
    ms.map_values(|m: MethodDecl| method_view(m))
}

fn copy_method(m: &MethodDecl) -> (r: MethodDecl)
    ensures
        r.name@ == m.name@,
        r.reads@ == m.reads@,
        r.writes@ == m.writes@,
        r.calls@ == m.calls@,
        r.opaque_callee == m.opaque_callee,
        r.star_reasons@ == m.star_reasons@,
{
    MethodDecl {
        name: m.name.clone(),
        reads: copy_strings(&m.reads),
        writes: copy_strings(&m.writes),
        calls: copy_strings(&m.calls),
        opaque_callee: m.opaque_callee,
        star_reasons: copy_pairs(&m.star_reasons),
    }
}

fn holds_text(v: &Vec<String>, x: &String) -> (r: bool)
    ensures
        r == texts(v@).contains(x@),
{
    let xc = crate::order::string_chars(x);
    let mut i: usize = 0;
    while i < v.len()
        invariant
            i <= v.len(),
            xc@ == x@,
            forall|k: int| 0 <= k < i ==> v@[k]@ != x@,
        decreases v.len() - i,
    {
        let c = crate::order::string_chars(&v[i]);
        if crate::text::chars_eq(c.as_slice(), xc.as_slice()) {
            proof {
                assert(texts(v@)[i as int] == x@);
            }
            return true;
        }
        i = i + 1;
    }
    proof {
        if texts(v@).contains(x@) {
            let k = choose|k: int| 0 <= k < texts(v@).len() && texts(v@)[k] == x@;
            assert(v@[k]@ == x@);
        }
    }
    false
}

fn holds_name(v: &Vec<(String, String)>, x: &String) -> (r: bool)
    ensures
        r == pair_names(v@).contains(x@),
{
    let ghost names = pair_names(v@);
    let xc = crate::order::string_chars(x);
    let mut i: usize = 0;
    while i < v.len()
        invariant
            i <= v.len(),
            xc@ == x@,
            names == pair_names(v@),
            forall|k: int| 0 <= k < i ==> v@[k].0@ != x@,
        decreases v.len() - i,
    {
        let c = crate::order::string_chars(&v[i].0);
        if crate::text::chars_eq(c.as_slice(), xc.as_slice()) {
            proof {
                assert(names[i as int] == x@);
            }
            return true;
        }
        i = i + 1;
    }
    proof {
        if names.contains(x@) {
            let k = choose|k: int| 0 <= k < names.len() && names[k] == x@;
            assert(v@[k].0@ == x@);
        }
    }
    false
}

/// Push `x` unless `v` holds it; whether it was pushed.
fn push_new_text(v: &mut Vec<String>, x: String) -> (pushed: bool)
    ensures
        grows_texts(texts(old(v)@), texts(final(v)@)),
        forall|y: Seq<char>| #[trigger] texts(final(v)@).contains(y) <==> texts(old(v)@).contains(y) || y == x@,
        pushed == !texts(old(v)@).contains(x@),
        !pushed ==> final(v)@ == old(v)@,
{
    let ghost t = texts(v@);
    if holds_text(v, &x) {
        proof {
            assert(t.take(t.len() as int) =~= t);
        }
        false
    } else {
        let ghost xv = x@;
        v.push(x);
        proof {
            assert(texts(v@) =~= t.push(xv));
            assert(texts(v@).take(t.len() as int) =~= t);
            assert(texts(v@).take(t.len() as int) == t);
            crate::order::lemma_push_contains(t, xv);
            assert forall|y: Seq<char>| #[trigger] texts(v@).contains(y) implies t.contains(y) || y == xv by {
                let k = choose|k: int| 0 <= k < texts(v@).len() && texts(v@)[k] == y;
                if k < t.len() {
                    assert(t[k] == y);
                }
            }
        }
        true
    }
}

/// Add each text of `src` that `dst` lacks, in order; whether any was added.
fn merge_texts(dst: &mut Vec<String>, src: &Vec<String>) -> (changed: bool)
    ensures
        grows_texts(texts(old(dst)@), texts(final(dst)@)),
        forall|y: Seq<char>| #[trigger] texts(final(dst)@).contains(y) <==> texts(old(dst)@).contains(y) || texts(src@).contains(y),
        changed <==> exists|y: Seq<char>| texts(src@).contains(y) && !texts(old(dst)@).contains(y),
        !changed ==> final(dst)@ == old(dst)@,
{
    let ghost o = texts(dst@);
    let ghost sv = texts(src@);
    let mut changed = false;
    let mut k: usize = 0;
    proof {
        assert(o.take(o.len() as int) =~= o);
    }
    while k < src.len()
        invariant
            k <= src.len(),
            o == texts(old(dst)@),
            sv == texts(src@),
            grows_texts(o, texts(dst@)),
            forall|y: Seq<char>| #[trigger] texts(dst@).contains(y) <==> o.contains(y) || sv.take(k as int).contains(y),
            changed <==> exists|y: Seq<char>| sv.take(k as int).contains(y) && !o.contains(y),
            !changed ==> dst@ == old(dst)@,
        decreases src.len() - k,
    {
        let ghost before = texts(dst@);
        let ghost bv = dst@;
        let x = src[k].clone();
        let pushed = push_new_text(dst, x);
        proof {
            lemma_grows_texts_trans(o, before, texts(dst@));
            let y0 = sv[k as int];
            assert(sv.take(k + 1) =~= sv.take(k as int).push(y0));
            crate::order::lemma_push_contains(sv.take(k as int), y0);
            assert forall|y: Seq<char>| sv.take(k + 1).contains(y) implies sv.take(k as int).contains(y) || y == y0 by {
                let t = choose|t: int| 0 <= t < k + 1 && #[trigger] sv.take(k + 1)[t] == y;
                if t < k {
                    assert(sv.take(k as int)[t] == y);
                }
            }
            if pushed {
                assert(!o.contains(y0));
            }
            if !o.contains(y0) && !pushed {
                assert(before.contains(y0));
                assert(sv.take(k as int).contains(y0));
            }
        }
        if pushed {
            changed = true;
        }
        k = k + 1;
    }
    proof {
        assert(sv.take(src@.len() as int) =~= sv);
    }
    changed
}

/// Add each (field, reason) of `src` whose field `dst` lacks, in order;
/// whether any was added.
fn merge_reasons(dst: &mut Vec<(String, String)>, src: &Vec<(String, String)>) -> (changed: bool)
    ensures
        grows_texts(
            pair_names(old(dst)@),
            pair_names(final(dst)@),
        ),
        final(dst)@.take(old(dst)@.len() as int) == old(dst)@,
        forall|y: Seq<char>| #[trigger] pair_names(final(dst)@).contains(y) <==> pair_names(old(dst)@).contains(y) || pair_names(src@).contains(y),
        changed <==> exists|y: Seq<char>| pair_names(src@).contains(y) && !pair_names(old(dst)@).contains(y),
        !changed ==> final(dst)@ == old(dst)@,
{
    let ghost o = pair_names(dst@);
    let ghost sv = pair_names(src@);
    let ghost od = dst@;
    let mut changed = false;
    let mut k: usize = 0;
    proof {
        assert(o.take(o.len() as int) =~= o);
        assert(od.take(od.len() as int) =~= od);
    }
    while k < src.len()
        invariant
            k <= src.len(),
            od == old(dst)@,
            o == pair_names(old(dst)@),
            sv == pair_names(src@),
            grows_texts(o, pair_names(dst@)),
            dst@.take(od.len() as int) == od,
            forall|y: Seq<char>| #[trigger] pair_names(dst@).contains(y) <==> o.contains(y)
                || sv.take(k as int).contains(y),
            changed <==> exists|y: Seq<char>| sv.take(k as int).contains(y) && !o.contains(y),
            !changed ==> dst@ == old(dst)@,
        decreases src.len() - k,
    {
        let ghost before = pair_names(dst@);
        let ghost bd = dst@;
        let ghost y0 = sv[k as int];
        proof {
            assert(sv.take(k + 1) =~= sv.take(k as int).push(y0));
            crate::order::lemma_push_contains(sv.take(k as int), y0);
            assert forall|y: Seq<char>| sv.take(k + 1).contains(y) implies sv.take(k as int).contains(y) || y == y0 by {
                let t = choose|t: int| 0 <= t < k + 1 && #[trigger] sv.take(k + 1)[t] == y;
                if t < k {
                    assert(sv.take(k as int)[t] == y);
                }
            }
        }
        if !holds_name(dst, &src[k].0) {
            let pair = (src[k].0.clone(), src[k].1.clone());
            dst.push(pair);
            proof {
                let after = pair_names(dst@);
                assert(after =~= before.push(y0));
                assert(after.take(before.len() as int) =~= before);
                lemma_grows_texts_trans(o, before, after);
                assert(dst@.take(od.len() as int) =~= bd.take(od.len() as int));
                crate::order::lemma_push_contains(before, y0);
                assert forall|y: Seq<char>| #[trigger] after.contains(y) implies before.contains(y) || y == y0 by {
                    let t = choose|t: int| 0 <= t < after.len() && #[trigger] after[t] == y;
                    if t < before.len() {
                        assert(before[t] == y);
                    }
                }
                assert(!o.contains(y0));
            }
            changed = true;
        } else {
            proof {
                if !o.contains(y0) {
                    assert(sv.take(k as int).contains(y0));
                }
            }
        }
        k = k + 1;
    }
    proof {
        assert(sv.take(src@.len() as int) =~= sv);
    }
    changed
}

/// Merge what `callee` reads, writes and widens, and its opacity, into
/// `caller`; whether anything was added.
fn merge_into(caller: &mut MethodDecl, callee: &MethodDecl) -> (changed: bool)
    ensures
        grows(*old(caller), *final(caller)),
        facts(*final(caller)) == facts(*old(caller)).union(facts(*callee)),
        changed <==> !facts(*callee).subset_of(facts(*old(caller))),
        !changed ==> method_view(*final(caller)) == method_view(*old(caller)),
{
    let ghost o = *caller;
    let mut changed = false;
    if callee.opaque_callee && !caller.opaque_callee {
        caller.opaque_callee = true;
        changed = true;
    }
    let a = merge_texts(&mut caller.reads, &callee.reads);
    let b = merge_texts(&mut caller.writes, &callee.writes);
    let c = merge_reasons(&mut caller.star_reasons, &callee.star_reasons);
    proof {
        assert(facts(*caller) =~= facts(o).union(facts(*callee))) by {
            assert forall|f: Fact| #[trigger] facts(*caller).contains(f) <==> facts(o).union(facts(*callee)).contains(f) by {
                match f {
                    Fact::Read(x) => {},
                    Fact::Write(x) => {},
                    Fact::Star(x) => {},
                    Fact::Opaque => {},
                }
            }
        }
        if a {
            let y = choose|y: Seq<char>| texts(callee.reads@).contains(y) && !texts(o.reads@).contains(y);
            assert(facts(*callee).contains(Fact::Read(y)) && !facts(o).contains(Fact::Read(y)));
        }
        if b {
            let y = choose|y: Seq<char>| texts(callee.writes@).contains(y) && !texts(o.writes@).contains(y);
            assert(facts(*callee).contains(Fact::Write(y)) && !facts(o).contains(Fact::Write(y)));
        }
        if c {
            let y = choose|y: Seq<char>| pair_names(callee.star_reasons@).contains(y) && !pair_names(o.star_reasons@).contains(y);
            assert(facts(*callee).contains(Fact::Star(y)) && !facts(o).contains(Fact::Star(y)));
        }
        if changed {
            assert(facts(*callee).contains(Fact::Opaque) && !facts(o).contains(Fact::Opaque));
        }
        if !(changed || a || b || c) {
            assert forall|f: Fact| facts(*callee).contains(f) implies facts(o).contains(f) by {
                match f {
                    Fact::Read(x) => {},
                    Fact::Write(x) => {},
                    Fact::Star(x) => {},
                    Fact::Opaque => {},
                }
            }
        }
    }
    changed || a || b || c
}

/// Method `i` names method `k` among its calls.
pub open spec fn callee_of(g: Seq<MethodDecl>, i: int, k: int) -> bool {
    exists|c: int| 0 <= c < g[i].calls.len() && method_index(g, #[trigger] g[i].calls@[c]@) == Some(k)
}

/// `cs` lists exactly the methods that method `i` names among its calls.
pub open spec fn callee_list(g: Seq<MethodDecl>, i: int, cs: Seq<usize>) -> bool {
    &&& forall|t: int| 0 <= t < cs.len() ==> callee_of(g, i, #[trigger] cs[t] as int) && cs[t] < g.len()
    &&& forall|k: int| callee_of(g, i, k) ==> exists|t: int| 0 <= t < cs.len() && #[trigger] cs[t] == k
}

proof fn lemma_view_facts(a: MethodDecl, b: MethodDecl)
    requires
        method_view(a) == method_view(b),
    ensures
        facts(a) == facts(b),
{
    assert(facts(a) =~= facts(b));
}

fn find_method(ms: &Vec<MethodDecl>, name: &String) -> (r: Option<usize>)
    ensures
        match r {
            Some(k) => method_index(ms@, name@) == Some(k as int),
            None => method_index(ms@, name@) is None,
        },
{
    let nc = crate::order::string_chars(name);
    let mut k = ms.len();
    proof {
        assert(ms@.take(k as int) =~= ms@);
    }
    while k > 0
        invariant
            k <= ms.len(),
            nc@ == name@,
            method_index(ms@, name@) == method_index(ms@.take(k as int), name@),
        decreases k,
    {
        let c = crate::order::string_chars(&ms[k - 1].name);
        if crate::text::chars_eq(c.as_slice(), nc.as_slice()) {
            return Some(k - 1);
        }
        proof {
            assert(ms@.take(k as int).drop_last() =~= ms@.take(k - 1));
        }
        k = k - 1;
    }
    None
}

fn callees_of(ms: &Vec<MethodDecl>, i: usize) -> (r: Vec<usize>)
    requires
        i < ms.len(),
    ensures
        callee_list(ms@, i as int, r@),
{
    let calls = &ms[i].calls;
    let mut r: Vec<usize> = Vec::new();
    let mut c: usize = 0;
    while c < calls.len()
        invariant
            i < ms.len(),
            *calls == ms@[i as int].calls,
            c <= calls.len(),
            forall|t: int| 0 <= t < r.len() ==> callee_of(ms@, i as int, #[trigger] r@[t] as int) && r@[t] < ms@.len(),
            forall|d: int|
                0 <= d < c ==> (method_index(ms@, #[trigger] calls@[d]@) matches Some(k) ==> exists|t: int|
                    0 <= t < r.len() && r@[t] == k),
        decreases calls.len() - c,
    {
        let ghost before = r@;
        match find_method(ms, &calls[c]) {
            Some(k) => {
                proof {
                    lemma_index_range(ms@, calls@[c as int]@);
                    assert(callee_of(ms@, i as int, k as int));
                }
                r.push(k);
                proof {
                    assert(r@[r.len() - 1] == k);
                    assert forall|d: int|
                        0 <= d < c + 1 implies (method_index(ms@, #[trigger] calls@[d]@) matches Some(k2) ==> exists|t: int|
                        0 <= t < r.len() && r@[t] == k2) by {
                        if d < c {
                            if let Some(k2) = method_index(ms@, calls@[d]@) {
                                let t = choose|t: int| 0 <= t < before.len() && before[t] == k2;
                                assert(r@[t] == k2);
                            }
                        }
                    }
                }
            },
            None => {
                proof {
                    assert forall|d: int|
                        0 <= d < c + 1 implies (method_index(ms@, #[trigger] calls@[d]@) matches Some(k2) ==> exists|t: int|
                        0 <= t < r.len() && r@[t] == k2) by {
                        if d < c {
                            if let Some(k2) = method_index(ms@, calls@[d]@) {
                                let t = choose|t: int| 0 <= t < before.len() && before[t] == k2;
                                assert(r@[t] == k2);
                            }
                        }
                    }
                }
            },
        }
        c = c + 1;
    }
    r
}

/// The caller `i` after merging each of its callees in turn; whether anything
/// was added.
fn compose_caller(ms: &Vec<MethodDecl>, i: usize, cs: &Vec<usize>) -> (r: (MethodDecl, bool))
    requires
        i < ms.len(),
        forall|t: int| 0 <= t < cs.len() ==> #[trigger] cs@[t] < ms.len(),
    ensures
        grows(ms@[i as int], r.0),
        facts(ms@[i as int]).subset_of(facts(r.0)),
        forall|t: int| 0 <= t < cs.len() && cs@[t] != i ==> facts(ms@[#[trigger] cs@[t] as int]).subset_of(facts(r.0)),
        forall|f: Fact| #[trigger] facts(r.0).contains(f) ==> facts(ms@[i as int]).contains(f) || exists|t: int|
            0 <= t < cs.len() && cs@[t] != i && facts(ms@[#[trigger] cs@[t] as int]).contains(f),
        (forall|t: int| 0 <= t < cs.len() && cs@[t] != i ==> facts(ms@[#[trigger] cs@[t] as int]).subset_of(facts(ms@[i as int])))
            ==> !r.1,
        !r.1 ==> method_view(r.0) == method_view(ms@[i as int]),
{
    let ghost mi = ms@[i as int];
    let mut caller = copy_method(&ms[i]);
    proof {
        lemma_view_facts(caller, mi);
        lemma_grows_refl(mi);
    }
    let mut changed = false;
    let mut t: usize = 0;
    while t < cs.len()
        invariant
            i < ms.len(),
            mi == ms@[i as int],
            forall|u: int| 0 <= u < cs.len() ==> #[trigger] cs@[u] < ms.len(),
            t <= cs.len(),
            grows(mi, caller),
            facts(mi).subset_of(facts(caller)),
            forall|u: int| 0 <= u < t && cs@[u] != i ==> facts(ms@[#[trigger] cs@[u] as int]).subset_of(facts(caller)),
            forall|f: Fact| #[trigger] facts(caller).contains(f) ==> facts(mi).contains(f) || exists|u: int|
                0 <= u < t && cs@[u] != i && facts(ms@[#[trigger] cs@[u] as int]).contains(f),
            (forall|u: int| 0 <= u < cs.len() && cs@[u] != i ==> facts(ms@[#[trigger] cs@[u] as int]).subset_of(facts(mi)))
                ==> !changed,
            !changed ==> method_view(caller) == method_view(mi),
        decreases cs.len() - t,
    {
        let j = cs[t];
        if j != i {
            let ghost before = caller;
            let ch = merge_into(&mut caller, &ms[j]);
            proof {
                lemma_grows_trans(mi, before, caller);
                if !changed {
                    lemma_view_facts(before, mi);
                }
                assert forall|f: Fact| #[trigger] facts(caller).contains(f) implies facts(mi).contains(f) || exists|u: int|
                    0 <= u < t + 1 && cs@[u] != i && facts(ms@[#[trigger] cs@[u] as int]).contains(f) by {
                    if !facts(before).contains(f) {
                        assert(facts(ms@[cs@[t as int] as int]).contains(f));
                    }
                }
            }
            if ch {
                changed = true;
            }
        }
        t = t + 1;
    }
    (caller, changed)
}

/// Every callee's facts are also its caller's.
pub open spec fn closed_edges(g: Seq<MethodDecl>, ms: Seq<MethodDecl>) -> bool {
    forall|i: int, j: int| #[trigger] edge(g, i, j) ==> facts(ms[j]).subset_of(facts(ms[i]))
}

proof fn lemma_facts_of_mono(g: Seq<MethodDecl>, x: Set<int>, y: Set<int>)
    requires
        x.subset_of(y),
    ensures
        facts_of(g, x).subset_of(facts_of(g, y)),
{
}

/// One more call's reach: what `i` and its callees hold at level `p`.
proof fn lemma_level_step(g: Seq<MethodDecl>, i: int, p: nat, f: Set<Fact>)
    requires
        facts_of(g, within(g, i, p)).subset_of(f),
        forall|j: int| #[trigger] edge(g, i, j) ==> facts_of(g, within(g, j, p)).subset_of(f),
    ensures
        facts_of(g, within(g, i, p + 1)).subset_of(f),
{
    lemma_within_pull(g, i, p);
    lemma_within_mono(g, i, 0, p);
    assert forall|x: Fact| facts_of(g, within(g, i, p + 1)).contains(x) implies f.contains(x) by {
        let k = choose|k: int| within(g, i, p + 1).contains(k) && #[trigger] facts(g[k]).contains(x);
        if k == i {
            assert(within(g, i, 0).contains(i));
            assert(facts_of(g, within(g, i, p)).contains(x));
        } else {
            let j = choose|j: int| edge(g, i, j) && #[trigger] within(g, j, p).contains(k);
            assert(facts_of(g, within(g, j, p)).contains(x));
        }
    }
}

/// What a caller gathers from its callees stays within what it reaches.
proof fn lemma_up_step(g: Seq<MethodDecl>, ms: Seq<MethodDecl>, i: int, cs: Seq<usize>, f: Set<Fact>)
    requires
        0 <= i < g.len(),
        ms.len() == g.len(),
        callee_list(g, i, cs),
        forall|k: int| 0 <= k < g.len() ==> facts(#[trigger] ms[k]).subset_of(facts_of(g, reach(g, k))),
        forall|x: Fact| #[trigger] f.contains(x) ==> facts(ms[i]).contains(x) || exists|t: int|
            0 <= t < cs.len() && cs[t] != i && facts(ms[#[trigger] cs[t] as int]).contains(x),
    ensures
        f.subset_of(facts_of(g, reach(g, i))),
{
    assert forall|x: Fact| f.contains(x) implies facts_of(g, reach(g, i)).contains(x) by {
        if !facts(ms[i]).contains(x) {
            let t = choose|t: int| 0 <= t < cs.len() && cs[t] != i && facts(ms[#[trigger] cs[t] as int]).contains(x);
            let j = cs[t] as int;
            assert(callee_of(g, i, j));
            assert(edge(g, i, j));
            lemma_reach_edge(g, i, j);
            lemma_facts_of_mono(g, reach(g, j), reach(g, i));
            assert(facts(ms[j]).subset_of(facts_of(g, reach(g, j))));
        }
    }
}

/// Once every summary holds all it reaches, callees add nothing to callers.
proof fn lemma_complete_closed(g: Seq<MethodDecl>, ms: Seq<MethodDecl>, p: nat)
    requires
        g.len() > 0,
        ms.len() == g.len(),
        p + 1 >= g.len(),
        forall|k: int| 0 <= k < g.len() ==> facts(#[trigger] ms[k]).subset_of(facts_of(g, reach(g, k))),
        forall|k: int| 0 <= k < g.len() ==> facts_of(g, within(g, k, p)).subset_of(facts(#[trigger] ms[k])),
    ensures
        closed_edges(g, ms),
{
    assert forall|i: int, j: int| #[trigger] edge(g, i, j) implies facts(ms[j]).subset_of(facts(ms[i])) by {
        lemma_edge_range(g, i, j);
        lemma_within_full(g, i, p);
        lemma_reach_edge(g, i, j);
        lemma_facts_of_mono(g, reach(g, j), reach(g, i));
        assert(facts(ms[j]).subset_of(facts_of(g, reach(g, j))));
        assert(facts_of(g, within(g, i, p)).subset_of(facts(ms[i])));
    }
}

/// One pass over the methods, each caller merging its callees as they stand.
fn compose_pass(
    ms: &mut Vec<MethodDecl>,
    cv: &Vec<Vec<usize>>,
    Ghost(g): Ghost<Seq<MethodDecl>>,
    Ghost(p): Ghost<nat>,
) -> (changed: bool)
    requires
        old(ms)@.len() == g.len(),
        g.len() > 0,
        cv@.len() == g.len(),
        forall|i: int| 0 <= i < g.len() ==> callee_list(g, i, #[trigger] cv@[i]@),
        forall|k: int| 0 <= k < g.len() ==> grows(g[k], #[trigger] old(ms)@[k]),
        forall|k: int| 0 <= k < g.len() ==> facts(#[trigger] old(ms)@[k]).subset_of(facts_of(g, reach(g, k))),
        forall|k: int| 0 <= k < g.len() ==> facts_of(g, within(g, k, p)).subset_of(facts(#[trigger] old(ms)@[k])),
    ensures
        final(ms)@.len() == g.len(),
        forall|k: int| 0 <= k < g.len() ==> grows(g[k], #[trigger] final(ms)@[k]),
        forall|k: int| 0 <= k < g.len() ==> facts(#[trigger] final(ms)@[k]).subset_of(facts_of(g, reach(g, k))),
        forall|k: int| 0 <= k < g.len() ==> facts_of(g, within(g, k, p + 1)).subset_of(facts(#[trigger] final(ms)@[k])),
        !changed ==> method_views(final(ms)@) == method_views(old(ms)@) && closed_edges(g, final(ms)@),
        p + 1 >= g.len() ==> !changed,
        closed_edges(g, old(ms)@) ==> !changed,
{
    let ghost start = ms@;
    let ghost n = g.len();
    proof {
        if p + 1 >= n {
            lemma_complete_closed(g, start, p);
        }
    }
    let mut changed = false;
    let mut i: usize = 0;
    while i < ms.len()
        invariant
            ms@.len() == n,
            n == g.len(),
            start == old(ms)@,
            cv@.len() == n,
            i <= n,
            forall|q: int| 0 <= q < n ==> callee_list(g, q, #[trigger] cv@[q]@),
            forall|k: int| 0 <= k < n ==> grows(g[k], #[trigger] ms@[k]),
            forall|k: int| 0 <= k < n ==> facts(#[trigger] ms@[k]).subset_of(facts_of(g, reach(g, k))),
            forall|k: int| 0 <= k < n ==> facts(#[trigger] start[k]).subset_of(facts(ms@[k])),
            forall|k: int| 0 <= k < i ==> facts_of(g, within(g, k, p + 1)).subset_of(facts(#[trigger] ms@[k])),
            forall|k: int| i <= k < n ==> facts_of(g, within(g, k, p)).subset_of(facts(#[trigger] ms@[k])),
            forall|k: int| i <= k < n ==> #[trigger] ms@[k] == start[k],
            !changed ==> method_views(ms@) == method_views(start),
            !changed ==> forall|a: int, b: int| 0 <= a < i && #[trigger] edge(g, a, b) ==> facts(ms@[b]).subset_of(facts(ms@[a])),
            p + 1 >= n ==> closed_edges(g, start),
            closed_edges(g, start) ==> !changed,
        decreases n - i,
    {
        let ghost before = ms@;
        let ghost cs = cv@[i as int]@;
        proof {
            assert(callee_list(g, i as int, cs));
        }
        let (r, ch) = compose_caller(ms, i, &cv[i]);
        proof {
            let ii = i as int;
            assert(forall|t: int| 0 <= t < cs.len() && cs[t] != i ==> #[trigger] edge(g, ii, cs[t] as int));
            // level p + 1 for the caller
            assert forall|j: int| #[trigger] edge(g, ii, j) implies facts_of(g, within(g, j, p)).subset_of(facts(r)) by {
                assert(callee_of(g, ii, j));
                let t = choose|t: int| 0 <= t < cs.len() && #[trigger] cs[t] == j;
                assert(cs[t] == j && j != ii && 0 <= t < cs.len());
                lemma_edge_range(g, ii, j);
                if j < ii {
                    lemma_within_mono(g, j, p, p + 1);
                    lemma_facts_of_mono(g, within(g, j, p), within(g, j, p + 1));
                }
                assert(facts(before[cs[t] as int]).subset_of(facts(r)));
            }
            lemma_level_step(g, ii, p, facts(r));
            lemma_up_step(g, before, ii, cs, facts(r));
            lemma_grows_trans(g[ii], before[ii], r);
            if closed_edges(g, start) && !changed {
                lemma_view_facts(before[ii], start[ii]);
                assert forall|t: int| 0 <= t < cs.len() && cs[t] != i implies facts(before[#[trigger] cs[t] as int]).subset_of(
                    facts(before[ii]),
                ) by {
                    let j = cs[t] as int;
                    assert(edge(g, ii, j));
                    lemma_edge_range(g, ii, j);
                    assert(method_views(before)[j] == method_views(start)[j]);
                    lemma_view_facts(before[j], start[j]);
                }
            }
        }
        ms.set(i, r);
        proof {
            let ii = i as int;
            if !changed && !ch {
                lemma_view_facts(r, before[ii]);
                assert(method_views(ms@) =~= method_views(start)) by {
                    assert forall|k: int| 0 <= k < n implies #[trigger] method_views(ms@)[k] == method_views(start)[k] by {
                        if k == ii {
                            assert(method_views(before)[k] == method_views(start)[k]);
                        } else {
                            assert(method_views(before)[k] == method_views(start)[k]);
                        }
                    }
                }
                assert forall|a: int, b: int| 0 <= a < i + 1 && #[trigger] edge(g, a, b) implies facts(ms@[b]).subset_of(
                    facts(ms@[a]),
                ) by {
                    lemma_edge_range(g, a, b);
                    if b == ii {
                        assert(facts(ms@[b]) == facts(before[b]));
                    }
                    if a == ii {
                        assert(callee_of(g, ii, b));
                        let t = choose|t: int| 0 <= t < cs.len() && #[trigger] cs[t] == b;
                        assert(cs[t] == b && b != ii && 0 <= t < cs.len());
                        assert(facts(before[cs[t] as int]).subset_of(facts(r)));
                    }
                }
            }
        }
        if ch {
            changed = true;
        }
        i = i + 1;
    }
    proof {
        if !changed {
            assert(closed_edges(g, ms@));
        }
    }
    changed
}

/// The path that stands for every part of field `f`: `f.*`.
pub open spec fn star_path(f: Seq<char>) -> Seq<char> {
    f + ".*"@
}

/// What widening to every field adds: `f.*` read and written, and `f`
/// widened, for each field `f`.
pub open spec fn widen_facts(fields: Seq<String>) -> Set<Fact> {
    Set::new(
        |x: Fact|
            match x {
                Fact::Read(s) => exists|k: int| 0 <= k < fields.len() && s == star_path(#[trigger] fields[k]@),
                Fact::Write(s) => exists|k: int| 0 <= k < fields.len() && s == star_path(#[trigger] fields[k]@),
                Fact::Star(n) => exists|k: int| 0 <= k < fields.len() && n == #[trigger] fields[k]@,
                Fact::Opaque => false,
            },
    )
}

proof fn lemma_grows_facts(a: MethodDecl, b: MethodDecl)
    requires
        grows(a, b),
    ensures
        facts(a).subset_of(facts(b)),
{
    assert forall|x: Fact| facts(a).contains(x) implies facts(b).contains(x) by {
        match x {
            Fact::Read(s) => {
                let k = choose|k: int| 0 <= k < texts(a.reads@).len() && texts(a.reads@)[k] == s;
                assert(texts(b.reads@).take(texts(a.reads@).len() as int)[k] == s);
            },
            Fact::Write(s) => {
                let k = choose|k: int| 0 <= k < texts(a.writes@).len() && texts(a.writes@)[k] == s;
                assert(texts(b.writes@).take(texts(a.writes@).len() as int)[k] == s);
            },
            Fact::Star(s) => {
                let k = choose|k: int| 0 <= k < reason_names(a).len() && reason_names(a)[k] == s;
                assert(reason_names(b).take(reason_names(a).len() as int)[k] == s);
            },
            Fact::Opaque => {},
        }
    }
}

/// Widen `m` to every field: `f.*` read and written and `f` given the reason
/// `opaque_callee`, where it lacks them.
fn widen_all_field_stars(m: &mut MethodDecl, fields: &[String])
    ensures
        grows(*old(m), *final(m)),
        facts(*final(m)) == facts(*old(m)).union(widen_facts(fields@)),
        widen_facts(fields@).subset_of(facts(*old(m))) ==> method_view(*final(m)) == method_view(*old(m)),
{
    let ghost o = *m;
    proof {
        lemma_grows_refl(o);
    }
    let mut k: usize = 0;
    while k < fields.len()
        invariant
            k <= fields.len(),
            grows(o, *m),
            forall|x: Fact| #[trigger] facts(*m).contains(x) <==> facts(o).contains(x) || widen_facts(fields@.take(k as int)).contains(x),
            widen_facts(fields@).subset_of(facts(o)) ==> method_view(*m) == method_view(o),
        decreases fields.len() - k,
    {
        let ghost before = *m;
        let f = &fields[k];
        let mut sc = crate::order::string_chars(f);
        push_str(&mut sc, ".*");
        let star = from_chars(sc.as_slice());
        let ghost fk = f@;
        proof {
            assert(fields@.take(k + 1)[k as int] == fields@[k as int]);
        }
        let a = push_new_text(&mut m.reads, star.clone());
        let b = push_new_text(&mut m.writes, star);
        let named = holds_name(&m.star_reasons, f);
        if !named {
            m.star_reasons.push((f.clone(), String::from_str("opaque_callee")));
        }
        proof {
            let sr = before.star_reasons@;
            if !named {
                assert(pair_names(m.star_reasons@) =~= pair_names(sr).push(fk));
                assert(pair_names(m.star_reasons@).take(pair_names(sr).len() as int) =~= pair_names(sr));
                assert(m.star_reasons@.take(sr.len() as int) =~= sr);
                crate::order::lemma_push_contains(pair_names(sr), fk);
            } else {
                assert(pair_names(m.star_reasons@).take(pair_names(sr).len() as int) =~= pair_names(sr));
                assert(m.star_reasons@.take(sr.len() as int) =~= sr);
            }
            assert(grows(before, *m));
            lemma_grows_trans(o, before, *m);
            let w0 = widen_facts(fields@.take(k as int));
            let w1 = widen_facts(fields@.take(k + 1));
            assert forall|x: Fact| #[trigger] facts(*m).contains(x) <==> facts(o).contains(x) || w1.contains(x) by {
                match x {
                    Fact::Read(s) => {
                        if w1.contains(x) && !w0.contains(x) {
                            let q = choose|q: int| 0 <= q < k + 1 && s == star_path(#[trigger] fields@.take(k + 1)[q]@);
                            if q < k {
                                assert(fields@.take(k as int)[q] == fields@.take(k + 1)[q]);
                            }
                        }
                        if w0.contains(x) {
                            let q = choose|q: int| 0 <= q < k && s == star_path(#[trigger] fields@.take(k as int)[q]@);
                            assert(fields@.take(k as int)[q] == fields@.take(k + 1)[q]);
                        }
                        if s == star_path(fk) {
                            assert(fields@.take(k + 1)[k as int]@ == fk);
                        }
                        assert(facts(*m).contains(x) == texts(m.reads@).contains(s));
                        assert(facts(before).contains(x) == texts(before.reads@).contains(s));
                        assert(w1.contains(x) == (w0.contains(x) || s == star_path(fk)));
                        assert(facts(*m).contains(x) == (facts(o).contains(x) || w1.contains(x)));
                    },
                    Fact::Write(s) => {
                        if w1.contains(x) && !w0.contains(x) {
                            let q = choose|q: int| 0 <= q < k + 1 && s == star_path(#[trigger] fields@.take(k + 1)[q]@);
                            if q < k {
                                assert(fields@.take(k as int)[q] == fields@.take(k + 1)[q]);
                            }
                        }
                        if w0.contains(x) {
                            let q = choose|q: int| 0 <= q < k && s == star_path(#[trigger] fields@.take(k as int)[q]@);
                            assert(fields@.take(k as int)[q] == fields@.take(k + 1)[q]);
                        }
                        if s == star_path(fk) {
                            assert(fields@.take(k + 1)[k as int]@ == fk);
                        }
                        assert(facts(*m).contains(x) == texts(m.writes@).contains(s));
                        assert(facts(before).contains(x) == texts(before.writes@).contains(s));
                        assert(w1.contains(x) == (w0.contains(x) || s == star_path(fk)));
                        assert(facts(*m).contains(x) == (facts(o).contains(x) || w1.contains(x)));
                    },
                    Fact::Star(s) => {
                        if w1.contains(x) && !w0.contains(x) {
                            let q = choose|q: int| 0 <= q < k + 1 && s == #[trigger] fields@.take(k + 1)[q]@;
                            if q < k {
                                assert(fields@.take(k as int)[q] == fields@.take(k + 1)[q]);
                            }
                        }
                        if w0.contains(x) {
                            let q = choose|q: int| 0 <= q < k && s == #[trigger] fields@.take(k as int)[q]@;
                            assert(fields@.take(k as int)[q] == fields@.take(k + 1)[q]);
                        }
                        if s == fk {
                            assert(fields@.take(k + 1)[k as int]@ == fk);
                        }
                        if !named {
                            assert(pair_names(m.star_reasons@).contains(s) <==> pair_names(before.star_reasons@).contains(s) || s == fk) by {
                                if pair_names(m.star_reasons@).contains(s) && s != fk {
                                    let q = choose|q: int| 0 <= q < pair_names(m.star_reasons@).len() && #[trigger] pair_names(m.star_reasons@)[q] == s;
                                    assert(pair_names(before.star_reasons@)[q] == s);
                                }
                            }
                        } else {
                            assert(m.star_reasons@ == before.star_reasons@);
                            assert(pair_names(before.star_reasons@).contains(fk));
                        }
                        assert(facts(*m).contains(x) == pair_names(m.star_reasons@).contains(s));
                        assert(facts(before).contains(x) == pair_names(before.star_reasons@).contains(s));
                        assert(w1.contains(x) == (w0.contains(x) || s == fk));
                        assert(facts(before).contains(x) == (facts(o).contains(x) || w0.contains(x)));
                    },
                    Fact::Opaque => {
                        assert(facts(*m).contains(x) == m.opaque_callee);
                        assert(facts(before).contains(x) == (facts(o).contains(x) || w0.contains(x)));
                        assert(!w0.contains(x) && !w1.contains(x));
                        assert(m.opaque_callee == before.opaque_callee);
                    },
                }
            }
            if widen_facts(fields@).subset_of(facts(o)) {
                assert(widen_facts(fields@).contains(Fact::Read(star_path(fk)))) by {
                    assert(fields@[k as int]@ == fk);
                }
                assert(widen_facts(fields@).contains(Fact::Write(star_path(fk)))) by {
                    assert(fields@[k as int]@ == fk);
                }
                assert(widen_facts(fields@).contains(Fact::Star(fk))) by {
                    assert(fields@[k as int]@ == fk);
                }
                lemma_view_facts(before, o);
                assert(!a && !b && named);
            }
        }
        k = k + 1;
    }
    proof {
        assert(fields@.take(fields@.len() as int) =~= fields@);
        assert(facts(*m) =~= facts(o).union(widen_facts(fields@)));
    }
}

/// The facts of method `k` once composed: all that it reaches, widened to
/// every field when that includes an opaque callee.
pub open spec fn composed_facts(g: Seq<MethodDecl>, k: int, fields: Seq<String>) -> Set<Fact> {
    let base = facts_of(g, reach(g, k));
    if base.contains(Fact::Opaque) {
        base.union(widen_facts(fields))
    } else {
        base
    }
}

/// Methods that composition leaves as they are: each caller holds what its
/// callees hold, and each opaque method is widened to every field.
pub open spec fn composed(ms: Seq<MethodDecl>, fields: Seq<String>) -> bool {
    &&& closed_edges(ms, ms)
    &&& forall|i: int| 0 <= i < ms.len() && (#[trigger] ms[i]).opaque_callee ==> widen_facts(fields).subset_of(facts(ms[i]))
}

proof fn lemma_same_index(g: Seq<MethodDecl>, ms: Seq<MethodDecl>, name: Seq<char>)
    requires
        ms.len() == g.len(),
        forall|k: int| 0 <= k < g.len() ==> (#[trigger] ms[k]).name@ == g[k].name@,
    ensures
        method_index(ms, name) == method_index(g, name),
    decreases g.len(),
{
    if g.len() > 0 {
        assert(ms.last().name@ == g.last().name@);
        lemma_same_index(g.drop_last(), ms.drop_last(), name);
    }
}

/// Methods with the same names and calls call each other alike.
proof fn lemma_same_graph(g: Seq<MethodDecl>, ms: Seq<MethodDecl>)
    requires
        ms.len() == g.len(),
        forall|k: int| 0 <= k < g.len() ==> grows(g[k], #[trigger] ms[k]),
    ensures
        forall|i: int, j: int| #[trigger] edge(ms, i, j) == edge(g, i, j),
{
    assert forall|k: int| 0 <= k < g.len() implies (#[trigger] ms[k]).name@ == g[k].name@ by {
        assert(grows(g[k], ms[k]));
    }
    assert forall|i: int, j: int| #[trigger] edge(ms, i, j) == edge(g, i, j) by {
        if 0 <= i < g.len() {
            assert(grows(g[i], ms[i]));
            assert(ms[i].calls@ == g[i].calls@);
            if edge(ms, i, j) {
                let c = choose|c: int| 0 <= c < ms[i].calls.len() && method_index(ms, #[trigger] ms[i].calls@[c]@) == Some(j);
                lemma_same_index(g, ms, ms[i].calls@[c]@);
                assert(method_index(g, g[i].calls@[c]@) == Some(j));
            }
            if edge(g, i, j) {
                let c = choose|c: int| 0 <= c < g[i].calls.len() && method_index(g, #[trigger] g[i].calls@[c]@) == Some(j);
                lemma_same_index(g, ms, g[i].calls@[c]@);
                assert(method_index(ms, ms[i].calls@[c]@) == Some(j));
            }
        }
    }
}

/// In a closed state a method holds the facts of all it reaches.
proof fn lemma_closed_within(g: Seq<MethodDecl>, ms: Seq<MethodDecl>, i: int, k: nat)
    requires
        0 <= i < g.len(),
        ms.len() == g.len(),
        closed_edges(g, ms),
    ensures
        forall|x: int| #[trigger] within(g, i, k).contains(x) ==> facts(ms[x]).subset_of(facts(ms[i])),
    decreases k,
{
    if k > 0 {
        let q = (k - 1) as nat;
        lemma_closed_within(g, ms, i, q);
        assert forall|x: int| #[trigger] within(g, i, k).contains(x) implies facts(ms[x]).subset_of(facts(ms[i])) by {
            if !within(g, i, q).contains(x) {
                let y = choose|y: int| within(g, i, q).contains(y) && #[trigger] edge(g, y, x);
                assert(facts(ms[x]).subset_of(facts(ms[y])));
            }
        }
    }
}

/// A callee's composed facts are its caller's.
proof fn lemma_composed_edge(g: Seq<MethodDecl>, i: int, j: int, fields: Seq<String>)
    requires
        edge(g, i, j),
    ensures
        composed_facts(g, j, fields).subset_of(composed_facts(g, i, fields)),
{
    lemma_reach_edge(g, i, j);
    lemma_facts_of_mono(g, reach(g, j), reach(g, i));
}

/// Compose the effect summaries of sibling methods: each method also reads,
/// writes and widens what the methods it calls (by name, transitively) do,
/// and is opaque when any of them is; then every opaque method is widened to
/// `field.*` on every field. Passes repeat until one adds nothing (at most
/// twice the number of methods). Calls to unknown names and to the method
/// itself add nothing.
pub fn compose_cross_method_rw(methods: &mut Vec<MethodDecl>, fields: &[String])
    ensures
        final(methods)@.len() == old(methods)@.len(),
        forall|k: int| 0 <= k < old(methods)@.len() ==> grows(old(methods)@[k], #[trigger] final(methods)@[k]),
        forall|k: int|
            0 <= k < old(methods)@.len() ==> facts(#[trigger] final(methods)@[k]) == composed_facts(
                old(methods)@,
                k,
                fields@,
            ),
        composed(final(methods)@, fields@),
        composed(old(methods)@, fields@) ==> method_views(final(methods)@) == method_views(old(methods)@),
{
    if methods.len() == 0 {
        return;
    }
    let ghost g = methods@;
    let n = methods.len();
    let mut cv: Vec<Vec<usize>> = Vec::new();
    let mut i: usize = 0;
    while i < n
        invariant
            methods@ == g,
            n == g.len(),
            i <= n,
            cv@.len() == i,
            forall|q: int| 0 <= q < i ==> callee_list(g, q, #[trigger] cv@[q]@),
        decreases n - i,
    {
        let c = callees_of(methods, i);
        cv.push(c);
        proof {
            assert(cv@[i as int]@ == c@);
        }
        i = i + 1;
    }
    let max_iters: usize = if n <= usize::MAX / 2 {
        n * 2
    } else {
        usize::MAX
    };
    proof {
        assert forall|k: int| 0 <= k < n implies grows(g[k], #[trigger] methods@[k]) by {
            lemma_grows_refl(g[k]);
        }
        assert forall|k: int| 0 <= k < n implies facts(#[trigger] methods@[k]).subset_of(facts_of(g, reach(g, k))) by {
            lemma_within_mono(g, k, 0, (n - 1) as nat);
            assert(within(g, k, 0).contains(k));
        }
        assert forall|k: int| 0 <= k < n implies facts_of(g, within(g, k, 0)).subset_of(facts(#[trigger] methods@[k])) by {
            assert(within(g, k, 0) =~= set![k]);
        }
    }
    let mut pass: usize = 0;
    let mut stable = false;
    while !stable && pass < max_iters
        invariant
            methods@.len() == n,
            n == g.len(),
            n > 0,
            max_iters >= n,
            cv@.len() == n,
            forall|q: int| 0 <= q < n ==> callee_list(g, q, #[trigger] cv@[q]@),
            forall|k: int| 0 <= k < n ==> grows(g[k], #[trigger] methods@[k]),
            forall|k: int| 0 <= k < n ==> facts(#[trigger] methods@[k]).subset_of(facts_of(g, reach(g, k))),
            forall|k: int| 0 <= k < n ==> facts_of(g, within(g, k, pass as nat)).subset_of(facts(#[trigger] methods@[k])),
            stable ==> closed_edges(g, methods@),
            pass >= n ==> stable,
            closed_edges(g, g) ==> method_views(methods@) == method_views(g),
        decreases max_iters - pass,
    {
        proof {
            if closed_edges(g, g) {
                assert forall|i2: int, j2: int| #[trigger] edge(g, i2, j2) implies facts(methods@[j2]).subset_of(facts(methods@[i2])) by {
                    lemma_edge_range(g, i2, j2);
                    assert(method_views(methods@)[i2] == method_views(g)[i2]);
                    assert(method_views(methods@)[j2] == method_views(g)[j2]);
                    lemma_view_facts(methods@[i2], g[i2]);
                    lemma_view_facts(methods@[j2], g[j2]);
                }
            }
        }
        let ch = compose_pass(methods, &cv, Ghost(g), Ghost(pass as nat));
        stable = !ch;
        pass = pass + 1;
    }
    let ghost fp = methods@;
    proof {
        assert forall|k: int| 0 <= k < n implies #[trigger] facts(fp[k]) == facts_of(g, reach(g, k)) by {
            lemma_closed_within(g, fp, k, (n - 1) as nat);
            assert forall|x: Fact| facts_of(g, reach(g, k)).contains(x) implies facts(fp[k]).contains(x) by {
                let y = choose|y: int| reach(g, k).contains(y) && #[trigger] facts(g[y]).contains(x);
                lemma_within_range(g, k, (n - 1) as nat);
                assert(set_int_range(0, n as int).contains(y));
                assert(grows(g[y], fp[y]));
                lemma_grows_facts(g[y], fp[y]);
            }
            assert(facts(fp[k]) =~= facts_of(g, reach(g, k)));
        }
    }
    let mut k: usize = 0;
    while k < n
        invariant
            methods@.len() == n,
            fp.len() == n,
            n == g.len(),
            k <= n,
            forall|j: int| 0 <= j < n ==> grows(g[j], #[trigger] methods@[j]),
            forall|j: int| 0 <= j < n ==> #[trigger] facts(fp[j]) == facts_of(g, reach(g, j)),
            forall|j: int| 0 <= j < k ==> #[trigger] facts(methods@[j]) == composed_facts(g, j, fields@),
            forall|j: int| k <= j < n ==> #[trigger] methods@[j] == fp[j],
            closed_edges(g, g) ==> method_views(fp) == method_views(g),
            composed(g, fields@) ==> method_views(methods@) == method_views(g),
        decreases n - k,
    {
        let ghost before = methods@;
        proof {
            assert(methods@[k as int] == fp[k as int]);
            assert(facts(fp[k as int]) == facts_of(g, reach(g, k as int)));
        }
        if methods[k].opaque_callee {
            let mut m = copy_method(&methods[k]);
            proof {
                lemma_view_facts(m, before[k as int]);
                if composed(g, fields@) {
                    assert(method_views(before)[k as int] == method_views(g)[k as int]);
                    lemma_view_facts(before[k as int], g[k as int]);
                    assert(g[k as int].opaque_callee);
                }
            }
            let ghost mb = m;
            widen_all_field_stars(&mut m, fields);
            proof {
                lemma_grows_trans(g[k as int], mb, m);
                assert(facts(mb).contains(Fact::Opaque));
            }
            methods.set(k, m);
            proof {
                if composed(g, fields@) {
                    assert(method_views(methods@) =~= method_views(before));
                }
            }
        } else {
            proof {
                assert(!facts(before[k as int]).contains(Fact::Opaque));
            }
        }
        k = k + 1;
    }
    proof {
        let fin = methods@;
        lemma_same_graph(g, fin);
        assert forall|i2: int, j2: int| #[trigger] edge(fin, i2, j2) implies facts(fin[j2]).subset_of(facts(fin[i2])) by {
            assert(edge(g, i2, j2));
            lemma_edge_range(g, i2, j2);
            lemma_composed_edge(g, i2, j2, fields@);
        }
        assert forall|i2: int| 0 <= i2 < n && (#[trigger] fin[i2]).opaque_callee implies widen_facts(fields@).subset_of(facts(fin[i2])) by {
            assert(facts(fin[i2]).contains(Fact::Opaque));
            assert(!widen_facts(fields@).contains(Fact::Opaque));
        }
    }
}

} // verus!
