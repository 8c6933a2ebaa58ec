//! Component dependency graph from PascalCase template tags: a component
//! depends on the `.vmz` whose file stem is the tag; importers are found by
//! walking reverse edges.

use vstd::prelude::*;
use crate::order::{insert_sorted_unique, strictly_sorted, texts};
use crate::text::{chars_eq, to_chars};

verus! {

/// The last edge list whose node is `id`.
pub open spec fn last_edge(units: Seq<(String, Vec<String>)>, id: Seq<char>) -> Option<int> {
    if exists|i: int| 0 <= i < units.len() && units[i].0@ == id {
        Some(choose|i: int| 0 <= i < units.len() && units[i].0@ == id && forall|k: int|
            i < k < units.len() ==> (#[trigger] units[k]).0@ != id)
    } else {
        None
    }
}

/// `set` holds the targets of every member that has an edge list.
pub open spec fn closed_under_edges(units: Seq<(String, Vec<String>)>, set: Set<Seq<char>>) -> bool {
    forall|x: Seq<char>, k: int| #![trigger set.contains(x), last_edge(units, x), units[k]]
        set.contains(x) && last_edge(units, x) == Some(k) ==> forall|d: int|
            0 <= d < units[k].1.len() ==> set.contains(#[trigger] units[k].1@[d]@)
}

/// Two edge lists that agree on the text of every node and target.
pub open spec fn same_edge_texts(a: Seq<(String, Vec<String>)>, b: Seq<(String, Vec<String>)>) -> bool {
    &&& a.len() == b.len()
    &&& forall|k: int| 0 <= k < a.len() ==> (#[trigger] a[k]).0@ == b[k].0@ && a[k].1@ == b[k].1@
}

/// A node that has an edge list has a last one.
proof fn lemma_last_edge_exists(a: Seq<(String, Vec<String>)>, x: Seq<char>, i: int)
    requires
        0 <= i < a.len(),
        a[i].0@ == x,
    ensures
        exists|j: int| #![trigger a[j]]
            0 <= j < a.len() && a[j].0@ == x && forall|k: int| j < k < a.len() ==> (#[trigger] a[k]).0@ != x,
    decreases a.len() - i,
{
    if exists|k: int| i < k < a.len() && (#[trigger] a[k]).0@ == x {
        let k = choose|k: int| i < k < a.len() && (#[trigger] a[k]).0@ == x;
        lemma_last_edge_exists(a, x, k);
    } else {
        assert(forall|k: int| i < k < a.len() ==> (#[trigger] a[k]).0@ != x);
    }
}

/// Edge lists that agree on texts pick the same last edge list for a node.
proof fn lemma_last_edge_same(a: Seq<(String, Vec<String>)>, b: Seq<(String, Vec<String>)>, x: Seq<char>)
    requires
        same_edge_texts(a, b),
    ensures
        last_edge(a, x) == last_edge(b, x),
{
    if exists|i: int| 0 <= i < a.len() && a[i].0@ == x {
        let i = choose|i: int| 0 <= i < a.len() && a[i].0@ == x;
        let _ = a[i];
        assert(b[i].0@ == x);
        lemma_last_edge_exists(a, x, i);
        lemma_last_edge_exists(b, x, i);
        let ia = last_edge(a, x)->0;
        let ib = last_edge(b, x)->0;
        let _ = a[ia];
        let _ = a[ib];
        if ia < ib {
            assert(a[ib].0@ == x);
        } else if ib < ia {
            assert(b[ia].0@ == x);
        }
    } else {
        assert forall|i: int| 0 <= i < b.len() implies b[i].0@ != x by {
            let _ = a[i];
        }
    }
}

/// Closedness under edge lists depends on their texts alone.
pub(crate) proof fn lemma_closed_same_texts(a: Seq<(String, Vec<String>)>, b: Seq<(String, Vec<String>)>, s: Set<Seq<char>>)
    requires
        same_edge_texts(a, b),
    ensures
        closed_under_edges(a, s) <==> closed_under_edges(b, s),
{
    assert forall|x: Seq<char>| last_edge(a, x) == last_edge(b, x) by {
        lemma_last_edge_same(a, b, x);
    }
    if closed_under_edges(a, s) {
        assert forall|x: Seq<char>, k: int| #![trigger s.contains(x), last_edge(b, x), b[k]]
            s.contains(x) && last_edge(b, x) == Some(k) implies forall|d: int|
                0 <= d < b[k].1.len() ==> s.contains(#[trigger] b[k].1@[d]@) by {
            assert(last_edge(a, x) == Some(k));
            if 0 <= k < a.len() {
                let _ = a[k];
                assert forall|d: int| 0 <= d < b[k].1.len() implies s.contains(#[trigger] b[k].1@[d]@) by {
                    assert(a[k].1@[d] == b[k].1@[d]);
                }
            } else {
                lemma_last_edge_range(b, x);
            }
        }
    }
    if closed_under_edges(b, s) {
        assert forall|x: Seq<char>, k: int| #![trigger s.contains(x), last_edge(a, x), a[k]]
            s.contains(x) && last_edge(a, x) == Some(k) implies forall|d: int|
                0 <= d < a[k].1.len() ==> s.contains(#[trigger] a[k].1@[d]@) by {
            assert(last_edge(b, x) == Some(k));
            if 0 <= k < a.len() {
                let _ = b[k];
                let _ = a[k];
                assert forall|d: int| 0 <= d < a[k].1.len() implies s.contains(#[trigger] a[k].1@[d]@) by {
                    assert(a[k].1@[d] == b[k].1@[d]);
                }
            } else {
                lemma_last_edge_range(a, x);
            }
        }
    }
}

/// The last edge list of a node, when there is one, is an index of the
/// list holding that node.
pub(crate) proof fn lemma_last_edge_range(a: Seq<(String, Vec<String>)>, x: Seq<char>)
    ensures
        last_edge(a, x) matches Some(k) ==> 0 <= k < a.len() && a[k].0@ == x,
{
    if exists|i: int| 0 <= i < a.len() && a[i].0@ == x {
        let i = choose|i: int| 0 <= i < a.len() && a[i].0@ == x;
        lemma_last_edge_exists(a, x, i);
    }
}

/// The seeds as a set of texts.
pub open spec fn seed_set(roots: Seq<String>) -> Set<Seq<char>> {
    Set::new(|x: Seq<char>| exists|i: int| 0 <= i < roots.len() && #[trigger] roots[i]@ == x)
}

pub(crate) fn index_of_last_edge(units: &Vec<(String, Vec<String>)>, id: &[char]) -> (r: Option<usize>)
    ensures
        match r {
            Some(i) => last_edge(units@, id@) == Some(i as int) && i < units.len(),
            None => last_edge(units@, id@) is None,
        },
{
    let mut k = units.len();
    while k > 0
        invariant
            k <= units.len(),
            forall|m: int| k <= m < units.len() ==> (#[trigger] units@[m]).0@ != id@,
        decreases k,
    {
        let c = to_chars(units[k - 1].0.as_str());
        if chars_eq(c.as_slice(), id) {
            proof {
                let i = (k - 1) as int;
                assert(exists|j: int| 0 <= j < units@.len() && units@[j].0@ == id@);
                let c2 = choose|j: int| 0 <= j < units@.len() && units@[j].0@ == id@ && forall|m: int|
                    j < m < units@.len() ==> (#[trigger] units@[m]).0@ != id@;
                assert(0 <= i < units@.len() && units@[i].0@ == id@ && forall|m: int|
                    i < m < units@.len() ==> (#[trigger] units@[m]).0@ != id@);
                if c2 < i {
                    assert(units@[i].0@ != id@);
                } else if c2 > i {
                    assert(units@[c2].0@ != id@);
                }
            }
            return Some(k - 1);
        }
        k = k - 1;
    }
    None
}

fn list_contains(v: &Vec<String>, x: &[char]) -> (r: bool)
    ensures
        r == texts(v@).contains(x@),
{
    let mut i: usize = 0;
    while i < v.len()
        invariant
            i <= v.len(),
            forall|j: int| 0 <= j < i ==> texts(v@)[j] != x@,
        decreases v.len() - i,
    {
        let c = to_chars(v[i].as_str());
        if chars_eq(c.as_slice(), x) {
            proof {
                assert(texts(v@)[i as int] == x@);
            }
            return true;
        }
        i = i + 1;
    }
    false
}

/// The texts of a sequence of character vectors.
pub open spec fn vec_texts(c: Seq<Vec<char>>) -> Seq<Seq<char>> {
    c.map_values(|v: Vec<char>| v@)
}

/// Every node that can become a member of a closure: the seeds and every
/// edge target.
pub(crate) fn candidate_nodes(edges: &Vec<(String, Vec<String>)>, roots: &[String]) -> (c: Vec<Vec<char>>)
    ensures
        forall|j: int| 0 <= j < roots.len() ==> #[trigger] vec_texts(c@).contains(roots@[j]@),
        forall|k: int, d: int|
            0 <= k < edges.len() && 0 <= d < edges@[k].1.len() ==> vec_texts(c@).contains(
                #[trigger] edges@[k].1@[d]@,
            ),
{
    broadcast use vstd::seq_lib::group_seq_properties;
    let mut c: Vec<Vec<char>> = Vec::new();
    let mut i: usize = 0;
    while i < roots.len()
        invariant
            i <= roots.len(),
            forall|j: int| 0 <= j < i ==> #[trigger] vec_texts(c@).contains(roots@[j]@),
        decreases roots.len() - i,
    {
        let v = to_chars(roots[i].as_str());
        let n = v;
        let ghost before = vec_texts(c@);
        c.push(n);
        proof {
            assert(vec_texts(c@) =~= before.push(roots@[i as int]@));
            crate::order::lemma_push_contains(before, roots@[i as int]@);
        }
        i = i + 1;
    }
    let mut k: usize = 0;
    while k < edges.len()
        invariant
            k <= edges.len(),
            forall|j: int| 0 <= j < roots.len() ==> #[trigger] vec_texts(c@).contains(roots@[j]@),
            forall|k2: int, d: int|
                0 <= k2 < k && 0 <= d < edges@[k2].1.len() ==> vec_texts(c@).contains(
                    #[trigger] edges@[k2].1@[d]@,
                ),
        decreases edges.len() - k,
    {
        let deps = &edges[k].1;
        let mut d: usize = 0;
        while d < deps.len()
            invariant
                k < edges.len(),
                deps == edges@[k as int].1,
                d <= deps.len(),
                forall|j: int| 0 <= j < roots.len() ==> #[trigger] vec_texts(c@).contains(roots@[j]@),
                forall|k2: int, d2: int|
                    0 <= k2 < k && 0 <= d2 < edges@[k2].1.len() ==> vec_texts(c@).contains(
                        #[trigger] edges@[k2].1@[d2]@,
                    ),
                forall|d2: int| 0 <= d2 < d ==> vec_texts(c@).contains(#[trigger] deps@[d2]@),
            decreases deps.len() - d,
        {
            let v = to_chars(deps[d].as_str());
            let n = v;
            let ghost before = vec_texts(c@);
            c.push(n);
            proof {
                assert(vec_texts(c@) =~= before.push(deps@[d as int]@));
                crate::order::lemma_push_contains(before, deps@[d as int]@);
            }
            d = d + 1;
        }
        k = k + 1;
    }
    c
}

/// Appends `n` unless its text is already there.
fn push_node_if_absent(out: &mut Vec<String>, n: String)
    ensures
        texts(final(out)@) == if texts(old(out)@).contains(n@) {
            texts(old(out)@)
        } else {
            texts(old(out)@).push(n@)
        },
        texts(final(out)@).contains(n@),
        forall|x: Seq<char>| texts(old(out)@).contains(x) ==> #[trigger] texts(final(out)@).contains(x),
        texts(old(out)@).no_duplicates() ==> texts(final(out)@).no_duplicates(),
{
    proof {
        crate::order::lemma_push_contains(texts(out@), n@);
    }
    let nv = to_chars(n.as_str());
    if !list_contains(out, nv.as_slice()) {
        let ghost before = texts(out@);
        out.push(n);
        proof {
            assert(texts(out@) =~= before.push(nv@));
        }
    }
}

/// One step of the closure: adding the dependencies of a member keeps the
/// members inside every closed set that holds the roots.
proof fn lemma_edge_in_closed_sets(
    units: Seq<(String, Vec<String>)>,
    roots: Seq<String>,
    x: Seq<char>,
    k: int,
    d: int,
    s: Set<Seq<char>>,
)
    requires
        seed_set(roots).subset_of(s),
        closed_under_edges(units, s),
        s.contains(x),
        last_edge(units, x) == Some(k),
        0 <= k < units.len(),
        0 <= d < units[k].1.len(),
    ensures
        s.contains(units[k].1@[d]@),
{
    assert(s.contains(x) && last_edge(units, x) == Some(k));
    let _ = units[k];
}

/// Appends the targets that are not there yet, in order.
fn add_edges(out: &mut Vec<String>, deps: &Vec<String>)
    requires
        texts(old(out)@).no_duplicates(),
    ensures
        texts(final(out)@).no_duplicates(),
        texts(old(out)@).len() <= texts(final(out)@).len(),
        texts(old(out)@) == texts(final(out)@).take(texts(old(out)@).len() as int),
        forall|j: int| texts(old(out)@).len() <= j < texts(final(out)@).len() ==> texts(deps@).contains(#[trigger] texts(final(out)@)[j]),
        forall|d: int| 0 <= d < deps.len() ==> texts(final(out)@).contains(#[trigger] deps@[d]@),
{
    let ghost start = texts(out@);
    let mut d: usize = 0;
    while d < deps.len()
        invariant
            d <= deps.len(),
            start == texts(old(out)@),
            texts(out@).no_duplicates(),
            start.len() <= texts(out@).len(),
            start == texts(out@).take(start.len() as int),
            forall|j: int| start.len() <= j < texts(out@).len() ==> texts(deps@).contains(#[trigger] texts(out@)[j]),
            forall|d2: int| 0 <= d2 < d ==> texts(out@).contains(#[trigger] deps@[d2]@),
        decreases deps.len() - d,
    {
        let n = deps[d].clone();
        let ghost before = texts(out@);
        push_node_if_absent(out, n);
        proof {
            assert(texts(out@).take(start.len() as int) =~= before.take(start.len() as int));
            assert forall|j: int| start.len() <= j < texts(out@).len() implies texts(deps@).contains(#[trigger] texts(out@)[j]) by {
                if j < before.len() {
                    assert(texts(out@)[j] == before[j]);
                } else {
                    assert(texts(out@)[j] == deps@[d as int]@);
                    assert(texts(deps@)[d as int] == deps@[d as int]@);
                }
            }
        }
        d = d + 1;
    }
    assert(d == deps.len());
}

/// Members added from the dependencies of a member of every closed set
/// holding the roots stay inside every such set.
proof fn lemma_added_edges_in_closed_sets(
    units: Seq<(String, Vec<String>)>,
    roots: Seq<String>,
    before: Seq<Seq<char>>,
    after: Seq<Seq<char>>,
    cursor: int,
    k: int,
)
    requires
        0 <= cursor < before.len(),
        0 <= k < units.len(),
        last_edge(units, before[cursor]) == Some(k),
        before.len() <= after.len(),
        before == after.take(before.len() as int),
        forall|j: int| before.len() <= j < after.len() ==> texts(units[k].1@).contains(#[trigger] after[j]),
        forall|s: Set<Seq<char>>|
            seed_set(roots).subset_of(s) && closed_under_edges(units, s) ==> #[trigger] before.to_set().subset_of(s),
    ensures
        forall|s: Set<Seq<char>>|
            seed_set(roots).subset_of(s) && closed_under_edges(units, s) ==> #[trigger] after.to_set().subset_of(s),
{
    let x = before[cursor];
    assert forall|s: Set<Seq<char>>|
        seed_set(roots).subset_of(s) && closed_under_edges(units, s) implies #[trigger] after.to_set().subset_of(s) by {
        assert(before.to_set().subset_of(s));
        assert(before.to_set().contains(x));
        assert forall|y: Seq<char>| after.to_set().contains(y) implies s.contains(y) by {
            let w = choose|w: int| 0 <= w < after.len() && after[w] == y;
            if w < before.len() {
                assert(before[w] == y);
                assert(before.to_set().contains(y));
            } else {
                assert(texts(units[k].1@).contains(after[w]));
                let d2 = choose|d2: int| 0 <= d2 < units[k].1.len() && texts(units[k].1@)[d2] == after[w];
                lemma_edge_in_closed_sets(units, roots, x, k, d2, s);
            }
        }
    }
}

/// Once the dependencies of member `cursor` are in, every member up to it
/// has its dependencies in.
proof fn lemma_edge_prefix_closed(
    units: Seq<(String, Vec<String>)>,
    before: Seq<Seq<char>>,
    after: Seq<Seq<char>>,
    cursor: int,
    k: Option<int>,
)
    requires
        0 <= cursor < before.len(),
        last_edge(units, before[cursor]) == k,
        k is Some ==> 0 <= k->0 < units.len(),
        before.len() <= after.len(),
        before == after.take(before.len() as int),
        k is Some ==> forall|d: int|
            0 <= d < units[k->0].1.len() ==> after.contains(#[trigger] units[k->0].1@[d]@),
        forall|j: int, k2: int, d: int|
            #![trigger before[j], units[k2].1@[d]]
            0 <= j < cursor && last_edge(units, before[j]) == Some(k2) && 0 <= d < units[k2].1.len()
                ==> before.contains(units[k2].1@[d]@),
    ensures
        forall|j: int, k2: int, d: int|
            #![trigger after[j], units[k2].1@[d]]
            0 <= j < cursor + 1 && last_edge(units, after[j]) == Some(k2) && 0 <= d < units[k2].1.len()
                ==> after.contains(units[k2].1@[d]@),
{
    assert forall|j: int, k2: int, d: int|
        #![trigger after[j], units[k2].1@[d]]
        0 <= j < cursor + 1 && last_edge(units, after[j]) == Some(k2) && 0 <= d < units[k2].1.len()
            implies after.contains(units[k2].1@[d]@) by {
        assert(after[j] == before[j]);
        if j < cursor {
            assert(before.contains(units[k2].1@[d]@));
            let w = choose|w: int| 0 <= w < before.len() && before[w] == units[k2].1@[d]@;
            assert(after[w] == before[w]);
        } else {
            assert(after.contains(units[k2].1@[d]@));
        }
    }
}

/// Closure of `roots` along `edges`: the least set holding the roots and the
/// targets of each member that has an edge list; sorted, each node once.
pub fn edge_closure(edges: &Vec<(String, Vec<String>)>, roots: &[String]) -> (r: Vec<String>)
    ensures
        strictly_sorted(texts(r@)),
        seed_set(roots@).subset_of(texts(r@).to_set()),
        closed_under_edges(edges@, texts(r@).to_set()),
        forall|s: Set<Seq<char>>|
            seed_set(roots@).subset_of(s) && closed_under_edges(edges@, s) ==> #[trigger] texts(r@).to_set().subset_of(s),
{
    broadcast use vstd::seq_lib::group_seq_properties;
    let units = edges;
    let cand = candidate_nodes(edges, roots);
    let ghost cset = vec_texts(cand@).to_set();
    proof {
        vstd::seq_lib::seq_to_set_is_finite(vec_texts(cand@));
    }
    let mut out: Vec<String> = Vec::new();
    let mut i: usize = 0;
    while i < roots.len()
        invariant
            i <= roots.len(),
            cset == vec_texts(cand@).to_set(),
            forall|j: int| 0 <= j < roots.len() ==> #[trigger] vec_texts(cand@).contains(roots@[j]@),
            texts(out@).no_duplicates(),
            forall|j: int| 0 <= j < out.len() ==> cset.contains(#[trigger] texts(out@)[j]),
            forall|j: int| 0 <= j < out.len() ==> seed_set(roots@).contains(#[trigger] texts(out@)[j]),
            forall|j: int| 0 <= j < i ==> texts(out@).contains(#[trigger] roots@[j]@),
        decreases roots.len() - i,
    {
        let n = roots[i].clone();
        let ghost nv = n@;
        push_node_if_absent(&mut out, n);
        proof {
            assert(vec_texts(cand@).contains(roots@[i as int]@));
            assert(seed_set(roots@).contains(nv));
        }
        i = i + 1;
    }
    proof {
        assert forall|x: Seq<char>| seed_set(roots@).contains(x) implies texts(out@).contains(x) by {
            let j = choose|j: int| 0 <= j < roots@.len() && #[trigger] roots@[j]@ == x;
        }
        assert forall|s: Set<Seq<char>>|
            seed_set(roots@).subset_of(s) && closed_under_edges(units@, s) implies #[trigger] texts(out@).to_set().subset_of(s) by {
            assert forall|y: Seq<char>| texts(out@).to_set().contains(y) implies s.contains(y) by {
                let w = choose|w: int| 0 <= w < texts(out@).len() && texts(out@)[w] == y;
                assert(seed_set(roots@).contains(texts(out@)[w]));
            }
        }
    }
    let mut cursor: usize = 0;
    while cursor < out.len()
        invariant
            cursor <= out.len(),
            cset.finite(),
            cset == vec_texts(cand@).to_set(),
            forall|k: int, d: int|
                0 <= k < units.len() && 0 <= d < units@[k].1.len() ==> vec_texts(cand@).contains(
                    #[trigger] units@[k].1@[d]@,
                ),
            texts(out@).no_duplicates(),
            forall|j: int| 0 <= j < out.len() ==> cset.contains(#[trigger] texts(out@)[j]),
            forall|x: Seq<char>| seed_set(roots@).contains(x) ==> #[trigger] texts(out@).contains(x),
            forall|j: int, k: int, d: int|
                #![trigger texts(out@)[j], units@[k].1@[d]]
                0 <= j < cursor && last_edge(units@, texts(out@)[j]) == Some(k) && 0 <= d < units@[k].1.len()
                    ==> texts(out@).contains(units@[k].1@[d]@),
            forall|s: Set<Seq<char>>|
                seed_set(roots@).subset_of(s) && closed_under_edges(units@, s) ==> #[trigger] texts(out@).to_set().subset_of(s),
        decreases cset.len() - cursor,
    {
        proof {
            texts(out@).unique_seq_to_set();
            assert(texts(out@).to_set().subset_of(cset));
            vstd::set_lib::lemma_len_subset(texts(out@).to_set(), cset);
        }
        let x = to_chars(out[cursor].as_str());
        let ghost at_start = texts(out@);
        let found = index_of_last_edge(units, x.as_slice());
        match found {
            Some(k) => {
                add_edges(&mut out, &units[k].1);
                proof {
                    lemma_added_edges_in_closed_sets(units@, roots@, at_start, texts(out@), cursor as int, k as int);
                    assert forall|j: int| 0 <= j < out.len() implies cset.contains(#[trigger] texts(out@)[j]) by {
                        if j >= at_start.len() {
                            assert(texts(units@[k as int].1@).contains(texts(out@)[j]));
                            let d2 = choose|d2: int| 0 <= d2 < units@[k as int].1.len() && texts(units@[k as int].1@)[d2] == texts(out@)[j];
                            assert(vec_texts(cand@).contains(units@[k as int].1@[d2]@));
                        } else {
                            assert(texts(out@)[j] == at_start[j]);
                        }
                    }
                }
            },
            None => {},
        }
        proof {
            if found is None {
                assert(at_start =~= texts(out@).take(at_start.len() as int));
            }
            let kk = match found {
                Some(k) => Some(k as int),
                None => None,
            };
            lemma_edge_prefix_closed(units@, at_start, texts(out@), cursor as int, kk);
            assert forall|x2: Seq<char>| seed_set(roots@).contains(x2) implies #[trigger] texts(out@).contains(x2) by {
                assert(at_start.contains(x2));
                let w = choose|w: int| 0 <= w < at_start.len() && at_start[w] == x2;
                assert(texts(out@)[w] == x2);
            }
        }
        cursor = cursor + 1;
    }
    proof {
        assert forall|x: Seq<char>, k: int| #![trigger texts(out@).to_set().contains(x), last_edge(units@, x), units@[k]]
            texts(out@).to_set().contains(x) && last_edge(units@, x) == Some(k) implies forall|d: int|
                0 <= d < units@[k].1.len() ==> texts(out@).to_set().contains(#[trigger] units@[k].1@[d]@) by {
            let j = choose|j: int| 0 <= j < texts(out@).len() && texts(out@)[j] == x;
            assert forall|d: int| 0 <= d < units@[k].1.len() implies texts(out@).to_set().contains(
                #[trigger] units@[k].1@[d]@,
            ) by {
                assert(texts(out@)[j] == x);
                let _ = units@[k].1@[d];
            }
        }
    }
    let mut r: Vec<String> = Vec::new();
    let mut j: usize = 0;
    while j < out.len()
        invariant
            j <= out.len(),
            strictly_sorted(texts(r@)),
            texts(r@).to_set() == texts(out@).take(j as int).to_set(),
        decreases out.len() - j,
    {
        insert_sorted_unique(&mut r, out[j].clone());
        proof {
            assert(texts(out@).take(j + 1) =~= texts(out@).take(j as int) + seq![texts(out@)[j as int]]);
            Seq::lemma_to_set_insert_commutes(texts(out@).take(j as int), texts(out@)[j as int]);
        }
        j = j + 1;
    }
    proof {
        assert(texts(out@).take(out.len() as int) =~= texts(out@));
    }
    r
}



/// Component dependency graph of a project.
#[derive(Debug, Clone)]
pub struct ComponentGraph {
    /// chunk id -> child component chunk ids referenced in its template.
    pub deps: Vec<(String, Vec<String>)>,
    /// chunk id -> parents that reference it (each chunk once, parents
    /// sorted and each once; `build` states it as `reverse_ok`).
    pub reverse: Vec<(String, Vec<String>)>,
    /// component tag name -> chunk id (each tag once; `build` states it).
    pub by_tag: Vec<(String, String)>,
}

impl ComponentGraph {
    /// Expand seed chunk ids through reverse edges (importers): the least set
    /// holding the seeds and every importer of a member; sorted, each once.
    pub fn expand_importers(&self, seeds: Vec<String>) -> (r: Vec<String>)
        ensures
            strictly_sorted(texts(r@)),
            seed_set(seeds@).subset_of(texts(r@).to_set()),
            closed_under_edges(self.reverse@, texts(r@).to_set()),
            forall|s: Set<Seq<char>>|
                seed_set(seeds@).subset_of(s) && closed_under_edges(self.reverse@, s) ==> #[trigger] texts(
                    r@,
                ).to_set().subset_of(s),
    {
        edge_closure(&self.reverse, seeds.as_slice())
    }
}

/// Unicode `Uppercase` property of a character.
pub uninterp spec fn char_is_uppercase(c: char) -> bool;

/// `char::is_uppercase`: whether `c` has the Unicode `Uppercase` property.
/// The contract names that property and states its ASCII part (`A`-`Z` are
/// uppercase, `a`-`z` and digits are not); the rest of the Unicode table is
/// not stated.
#[verifier::external_body]
fn is_uppercase(c: char) -> (r: bool)
    ensures
        r == char_is_uppercase(c),
        'A' <= c <= 'Z' ==> r,
        'a' <= c <= 'z' ==> !r,
        '0' <= c <= '9' ==> !r,
{
    c.is_uppercase()
}

/// A tag names a component: its first character is uppercase.
pub open spec fn component_tag(tag: Seq<char>) -> bool {
    tag.len() > 0 && char_is_uppercase(tag[0])
}

/// Whether a tag names a component.
pub fn is_component_tag(tag: &str) -> (r: bool)
    ensures
        r == component_tag(tag@),
{
    let v = to_chars(tag);
    v.len() > 0 && is_uppercase(v[0])
}

/// Component tags of a node and its descendants, in document order (repeats kept).
pub open spec fn node_tags(n: crate::template::TemplateNode) -> Seq<Seq<char>>
    decreases n, 1int,
{
    match n {
        crate::template::TemplateNode::Element { tag, attrs, children } => (if component_tag(tag@) {
            seq![tag@]
        } else {
            Seq::empty()
        }) + nodes_tags(children@),
        _ => Seq::empty(),
    }
}

/// Component tags of a node list, in document order (repeats kept).
pub open spec fn nodes_tags(nodes: Seq<crate::template::TemplateNode>) -> Seq<Seq<char>>
    decreases nodes, 0int,
{
    if nodes.len() == 0 {
        Seq::empty()
    } else {
        nodes_tags(nodes.subrange(0, nodes.len() - 1)) + node_tags(nodes[nodes.len() - 1])
    }
}

fn walk_tags(nodes: &[crate::template::TemplateNode], out: &mut Vec<String>)
    ensures
        texts(final(out)@) == dedup_of_append(texts(old(out)@), nodes_tags(nodes@)),
    decreases nodes@,
{
    let mut i: usize = 0;
    proof {
        assert(nodes@.subrange(0, 0) =~= Seq::<crate::template::TemplateNode>::empty());
        assert(dedup_of_append(texts(out@), Seq::empty()) =~= texts(out@));
    }
    while i < nodes.len()
        invariant
            i <= nodes.len(),
            texts(out@) == dedup_of_append(texts(old(out)@), nodes_tags(nodes@.subrange(0, i as int))),
        decreases nodes.len() - i,
    {
        let ghost before = texts(out@);
        let ghost done = nodes_tags(nodes@.subrange(0, i as int));
        match &nodes[i] {
            crate::template::TemplateNode::Element { tag, attrs, children } => {
                let ghost own: Seq<Seq<char>> = if component_tag(tag@) {
                    seq![tag@]
                } else {
                    Seq::empty()
                };
                if is_component_tag(tag.as_str()) {
                    let t = to_chars(tag.as_str());
                    let mut found = false;
                    let mut k: usize = 0;
                    while k < out.len()
                        invariant
                            k <= out.len(),
                            texts(out@) == before,
                            t@ == tag@,
                            found == texts(out@).take(k as int).contains(tag@),
                        decreases out.len() - k,
                    {
                        let o = to_chars(out[k].as_str());
                        if chars_eq(o.as_slice(), t.as_slice()) {
                            found = true;
                        }
                        proof {
                            assert(texts(out@).take(k + 1) =~= texts(out@).take(k as int).push(texts(out@)[k as int]));
                            crate::order::lemma_push_contains(texts(out@).take(k as int), texts(out@)[k as int]);
                            let tk = texts(out@).take(k + 1);
                            if tk.contains(tag@) && !texts(out@).take(k as int).contains(tag@) {
                                let w = choose|w: int| 0 <= w < tk.len() && #[trigger] tk[w] == tag@;
                                if w < k {
                                    assert(texts(out@).take(k as int)[w] == tag@);
                                }
                            }
                        }
                        k = k + 1;
                    }
                    proof {
                        assert(texts(out@).take(out.len() as int) =~= texts(out@));
                    }
                    if !found {
                        out.push(tag.clone());
                    }
                    proof {
                        lemma_dedup_append_one(before, tag@);
                    }
                }
                let ghost mid = texts(out@);
                proof {
                    assert(mid == dedup_of_append(before, own)) by {
                        if !component_tag(tag@) {
                            assert(dedup_of_append(before, own) =~= before);
                        }
                    }
                    assert(decreases_to!(nodes@ => nodes@[i as int]));
                }
                walk_tags(children.as_slice(), out);
                proof {
                    lemma_dedup_append_concat(texts(old(out)@), done, own);
                    lemma_dedup_append_concat(texts(old(out)@), done + own, nodes_tags(children@));
                    let s1 = nodes@.subrange(0, i + 1);
                    assert(s1.subrange(0, i as int) =~= nodes@.subrange(0, i as int));
                    assert(node_tags(nodes@[i as int]) == own + nodes_tags(children@));
                    assert(nodes_tags(s1) == nodes_tags(s1.subrange(0, i as int)) + node_tags(s1[i as int]));
                    assert(nodes_tags(s1) =~= done + own + nodes_tags(children@));
                }
            },
            _ => {
                proof {
                    let s1 = nodes@.subrange(0, i + 1);
                    assert(s1.subrange(0, i as int) =~= nodes@.subrange(0, i as int));
                    assert(node_tags(nodes@[i as int]) =~= Seq::<Seq<char>>::empty());
                    assert(nodes_tags(s1) == nodes_tags(s1.subrange(0, i as int)) + node_tags(s1[i as int]));
                    assert(nodes_tags(s1) =~= done);
                }
            },
        }
        i = i + 1;
    }
    proof {
        assert(nodes@.subrange(0, nodes.len() as int) =~= nodes@);
    }
}

/// `base` followed by the elements of `s` that are not there yet (first
/// occurrences, in order).
pub open spec fn dedup_of_append(base: Seq<Seq<char>>, s: Seq<Seq<char>>) -> Seq<Seq<char>>
    decreases s.len(),
{
    if s.len() == 0 {
        base
    } else {
        let prev = dedup_of_append(base, s.drop_last());
        if prev.contains(s.last()) {
            prev
        } else {
            prev.push(s.last())
        }
    }
}

proof fn lemma_dedup_append_one(base: Seq<Seq<char>>, x: Seq<char>)
    ensures
        dedup_of_append(base, seq![x]) == if base.contains(x) {
            base
        } else {
            base.push(x)
        },
{
    assert(seq![x].drop_last() =~= Seq::<Seq<char>>::empty());
    assert(dedup_of_append(base, Seq::<Seq<char>>::empty()) == base);
    assert(seq![x].last() == x);
}

proof fn lemma_dedup_append_concat(base: Seq<Seq<char>>, a: Seq<Seq<char>>, b: Seq<Seq<char>>)
    ensures
        dedup_of_append(dedup_of_append(base, a), b) == dedup_of_append(base, a + b),
    decreases b.len(),
{
    if b.len() == 0 {
        assert(a + b =~= a);
    } else {
        lemma_dedup_append_concat(base, a, b.drop_last());
        assert((a + b).drop_last() =~= a + b.drop_last());
        assert((a + b).last() == b.last());
    }
}

/// Component tags of a template, first occurrences in document order.
pub fn component_tags(ir: &crate::template::TemplateIr) -> (r: Vec<String>)
    ensures
        texts(r@) == dedup_of_append(Seq::empty(), nodes_tags(ir.roots@)),
{
    let mut out: Vec<String> = Vec::new();
    proof {
        assert(texts(out@) =~= Seq::<Seq<char>>::empty());
    }
    walk_tags(ir.roots.as_slice(), &mut out);
    out
}
/// The file stem of a path (`Path::file_stem`), when it has one.
pub uninterp spec fn path_file_stem(p: Seq<char>) -> Option<Seq<char>>;

/// `Path::file_stem` of `p`, as text. The contract names the result; how
/// the standard library splits off the extension is not stated.
#[verifier::external_body]
fn file_stem(p: &str) -> (r: Option<String>)
    ensures
        match r {
            Some(n) => path_file_stem(p@) == Some(n@),
            None => path_file_stem(p@) is None,
        },
{
    std::path::Path::new(p).file_stem().map(|n| n.to_string_lossy().into_owned())
}

/// The component tag a unit file answers to: its file stem (empty without one).
pub open spec fn unit_stem(path: Seq<char>) -> Seq<char> {
    match path_file_stem(path) {
        Some(s) => s,
        None => Seq::empty(),
    }
}

/// A unit file under a `components/` directory.
pub open spec fn under_components(path: Seq<char>) -> bool {
    crate::text::contains_seq(crate::text::posix(path), "/components/"@)
}

/// The first index of key `k` among the first `n` pairs.
pub open spec fn key_index(pairs: Seq<(Seq<char>, Seq<char>)>, k: Seq<char>, n: int) -> Option<int>
    decreases n,
{
    if n <= 0 {
        None
    } else {
        match key_index(pairs, k, n - 1) {
            Some(j) => Some(j),
            None => if pairs[n - 1].0 == k {
                Some(n - 1)
            } else {
                None
            },
        }
    }
}

/// The tag -> chunk pairs of the first `n` units: a stem is taken by the
/// first unit with it, and taken over by a later unit under `components/`.
pub open spec fn tag_pairs(units: Seq<(Seq<char>, Seq<char>)>, n: int) -> Seq<(Seq<char>, Seq<char>)>
    decreases n,
{
    if n <= 0 {
        Seq::empty()
    } else {
        let p = tag_pairs(units, n - 1);
        let stem = unit_stem(units[n - 1].0);
        let chunk = units[n - 1].1;
        if stem.len() == 0 {
            p
        } else {
            match key_index(p, stem, p.len() as int) {
                Some(j) => if under_components(units[n - 1].0) {
                    p.update(j, (stem, chunk))
                } else {
                    p
                },
                None => p.push((stem, chunk)),
            }
        }
    }
}

/// No key occurs twice among the pairs.
pub open spec fn distinct_keys(pairs: Seq<(Seq<char>, Seq<char>)>) -> bool {
    forall|a: int, b: int| 0 <= a < b < pairs.len() ==> pairs[a].0 != pairs[b].0
}

proof fn lemma_key_index_found(pairs: Seq<(Seq<char>, Seq<char>)>, k: Seq<char>, n: int)
    requires
        0 <= n <= pairs.len(),
    ensures
        match key_index(pairs, k, n) {
            Some(j) => 0 <= j < n && pairs[j].0 == k,
            None => forall|j: int| 0 <= j < n ==> #[trigger] pairs[j].0 != k,
        },
    decreases n,
{
    if n > 0 {
        lemma_key_index_found(pairs, k, n - 1);
    }
}

/// Each tag is taken by one unit: the tag pairs have distinct tags.
pub proof fn lemma_tag_pairs_distinct(units: Seq<(Seq<char>, Seq<char>)>, n: int)
    requires
        n <= units.len(),
    ensures
        distinct_keys(tag_pairs(units, n)),
    decreases n,
{
    if n > 0 {
        lemma_tag_pairs_distinct(units, n - 1);
        let p = tag_pairs(units, n - 1);
        let stem = unit_stem(units[n - 1].0);
        if stem.len() > 0 {
            lemma_key_index_found(p, stem, p.len() as int);
            match key_index(p, stem, p.len() as int) {
                Some(j) => {
                    if under_components(units[n - 1].0) {
                        let q = p.update(j, (stem, units[n - 1].1));
                        assert forall|a: int, b: int| 0 <= a < b < q.len() implies q[a].0 != q[b].0 by {
                            assert(q[a].0 == p[a].0 && q[b].0 == p[b].0);
                        }
                    }
                },
                None => {
                    let q = p.push((stem, units[n - 1].1));
                    assert forall|a: int, b: int| 0 <= a < b < q.len() implies q[a].0 != q[b].0 by {
                        if b == p.len() {
                            assert(p[a].0 != stem);
                        }
                    }
                },
            }
        }
    }
}

/// The chunk a tag resolves to.
pub open spec fn tag_chunk(pairs: Seq<(Seq<char>, Seq<char>)>, tag: Seq<char>) -> Option<Seq<char>> {
    match key_index(pairs, tag, pairs.len() as int) {
        Some(j) => Some(pairs[j].1),
        None => None,
    }
}

/// The child chunks of a unit from its first `n` tags: each tag's chunk,
/// other than the unit's own, in order and each once.
pub open spec fn child_chunks(pairs: Seq<(Seq<char>, Seq<char>)>, chunk: Seq<char>, tags: Seq<Seq<char>>, n: int) -> Seq<Seq<char>>
    decreases n,
{
    if n <= 0 {
        Seq::empty()
    } else {
        let p = child_chunks(pairs, chunk, tags, n - 1);
        match tag_chunk(pairs, tags[n - 1]) {
            Some(c) => if c == chunk || p.contains(c) {
                p
            } else {
                p.push(c)
            },
            None => p,
        }
    }
}

/// The component tags of a unit's template, in order and each once (none
/// when it could not be read).
pub open spec fn unit_tags(t: Option<crate::template::TemplateIr>) -> Seq<Seq<char>> {
    match t {
        Some(ir) => dedup_of_append(Seq::empty(), nodes_tags(ir.roots@)),
        None => Seq::empty(),
    }
}

/// The children of unit `i`.
pub open spec fn unit_children(
    units: Seq<(Seq<char>, Seq<char>)>,
    templates: Seq<Option<crate::template::TemplateIr>>,
    i: int,
) -> Seq<Seq<char>> {
    let tags = unit_tags(templates[i]);
    child_chunks(tag_pairs(units, units.len() as int), units[i].1, tags, tags.len() as int)
}

/// The dependency entries of the first `n` units: one per unit with children.
pub open spec fn dep_entries(
    units: Seq<(Seq<char>, Seq<char>)>,
    templates: Seq<Option<crate::template::TemplateIr>>,
    n: int,
) -> Seq<(Seq<char>, Seq<Seq<char>>)>
    decreases n,
{
    if n <= 0 {
        Seq::empty()
    } else {
        let p = dep_entries(units, templates, n - 1);
        let c = unit_children(units, templates, n - 1);
        if c.len() > 0 {
            p.push((units[n - 1].1, c))
        } else {
            p
        }
    }
}

/// The units among the first `n` that reference chunk `c`.
pub open spec fn importers(
    units: Seq<(Seq<char>, Seq<char>)>,
    templates: Seq<Option<crate::template::TemplateIr>>,
    c: Seq<char>,
    n: int,
) -> Set<Seq<char>> {
    Set::new(|p: Seq<char>| exists|i: int| 0 <= i < n && units[i].1 == p && #[trigger] unit_children(units, templates, i).contains(c))
}

/// Edge lists as plain values.
pub open spec fn edge_views(e: Seq<(String, Vec<String>)>) -> Seq<(Seq<char>, Seq<Seq<char>>)> {
    e.map_values(|x: (String, Vec<String>)| (x.0@, texts(x.1@)))
}

/// Pairs as plain values.
pub open spec fn pair_views(e: Seq<(String, String)>) -> Seq<(Seq<char>, Seq<char>)> {
    e.map_values(|x: (String, String)| (x.0@, x.1@))
}

/// The units as plain values.
pub open spec fn unit_views_of(u: Seq<(String, String)>) -> Seq<(Seq<char>, Seq<char>)> {
    pair_views(u)
}

proof fn lemma_key_index_stable(pairs: Seq<(Seq<char>, Seq<char>)>, k: Seq<char>, m: int, n: int)
    requires
        0 <= m <= n,
        key_index(pairs, k, m) is Some,
    ensures
        key_index(pairs, k, n) == key_index(pairs, k, m),
    decreases n,
{
    if n > m {
        lemma_key_index_stable(pairs, k, m, n - 1);
    }
}

fn str_eq(a: &String, b: &String) -> (r: bool)
    ensures
        r == (a@ == b@),
{
    let x = to_chars(a.as_str());
    let y = to_chars(b.as_str());
    chars_eq(x.as_slice(), y.as_slice())
}

fn key_index_exec(pairs: &Vec<(String, String)>, k: &String) -> (r: Option<usize>)
    ensures
        match r {
            Some(j) => key_index(pair_views(pairs@), k@, pairs@.len() as int) == Some(j as int) && j < pairs@.len(),
            None => key_index(pair_views(pairs@), k@, pairs@.len() as int) is None,
        },
{
    let ghost pv = pair_views(pairs@);
    let mut i: usize = 0;
    while i < pairs.len()
        invariant
            i <= pairs.len(),
            pv == pair_views(pairs@),
            key_index(pv, k@, i as int) is None,
        decreases pairs.len() - i,
    {
        if str_eq(&pairs[i].0, k) {
            proof {
                assert(pv[i as int].0 == k@);
                lemma_key_index_stable(pv, k@, i + 1, pv.len() as int);
            }
            return Some(i);
        }
        i = i + 1;
    }
    None
}

fn under_components_exec(path: &String) -> (r: bool)
    ensures
        r == under_components(path@),
{
    let c = to_chars(path.as_str());
    let p = crate::text::replace_char_exec(c.as_slice(), '\\', '/');
    let n = to_chars("/components/");
    crate::text::contains(p.as_slice(), n.as_slice())
}

fn build_tag_pairs(units: &[(String, String)]) -> (r: Vec<(String, String)>)
    ensures
        pair_views(r@) == tag_pairs(pair_views(units@), units@.len() as int),
{
    let ghost uv = pair_views(units@);
    let mut pairs: Vec<(String, String)> = Vec::new();
    let mut i: usize = 0;
    while i < units.len()
        invariant
            i <= units.len(),
            uv == pair_views(units@),
            pair_views(pairs@) == tag_pairs(uv, i as int),
        decreases units.len() - i,
    {
        let stem = match file_stem(units[i].0.as_str()) {
            Some(st) => st,
            None => String::new(),
        };
        proof {
            assert(stem@ == unit_stem(uv[i as int].0));
        }
        let sc = to_chars(stem.as_str());
        if sc.len() > 0 {
            match key_index_exec(&pairs, &stem) {
                Some(j) => {
                    if under_components_exec(&units[i].0) {
                        let ghost before = pairs@;
                        pairs.set(j, (stem, units[i].1.clone()));
                        proof {
                            assert(pair_views(pairs@) =~= pair_views(before).update(j as int, (sc@, uv[i as int].1)));
                        }
                    }
                },
                None => {
                    let ghost before = pairs@;
                    pairs.push((stem, units[i].1.clone()));
                    proof {
                        assert(pair_views(pairs@) =~= pair_views(before).push((sc@, uv[i as int].1)));
                    }
                },
            }
        }
        i = i + 1;
    }
    pairs
}

fn children_exec(pairs: &Vec<(String, String)>, chunk: &String, tags: &Vec<String>) -> (r: Vec<String>)
    ensures
        texts(r@) == child_chunks(pair_views(pairs@), chunk@, texts(tags@), tags@.len() as int),
{
    let ghost pv = pair_views(pairs@);
    let ghost tv = texts(tags@);
    let mut out: Vec<String> = Vec::new();
    let mut j: usize = 0;
    while j < tags.len()
        invariant
            j <= tags.len(),
            pv == pair_views(pairs@),
            tv == texts(tags@),
            texts(out@) == child_chunks(pv, chunk@, tv, j as int),
        decreases tags.len() - j,
    {
        match key_index_exec(pairs, &tags[j]) {
            Some(k) => {
                let c = &pairs[k].1;
                proof {
                    assert(tag_chunk(pv, tv[j as int]) == Some(c@));
                }
                let cc = to_chars(c.as_str());
                if !str_eq(c, chunk) && !crate::order::texts_contain(&out, cc.as_slice()) {
                    let ghost before = out@;
                    out.push(c.clone());
                    proof {
                        assert(texts(out@) =~= texts(before).push(c@));
                    }
                }
            },
            None => {},
        }
        j = j + 1;
    }
    out
}

/// Unit `i`'s children reference `c`: the importers grow by its chunk.
proof fn lemma_importers_step(
    units: Seq<(Seq<char>, Seq<char>)>,
    templates: Seq<Option<crate::template::TemplateIr>>,
    c: Seq<char>,
    i: int,
)
    requires
        0 <= i,
    ensures
        importers(units, templates, c, i + 1) == importers(units, templates, c, i).union(
            if unit_children(units, templates, i).contains(c) {
                set![units[i].1]
            } else {
                Set::empty()
            },
        ),
{
    let a = importers(units, templates, c, i + 1);
    let b = importers(units, templates, c, i).union(
        if unit_children(units, templates, i).contains(c) {
            set![units[i].1]
        } else {
            Set::empty()
        },
    );
    assert forall|p: Seq<char>| a.contains(p) <==> b.contains(p) by {
        if a.contains(p) {
            let k = choose|k: int| 0 <= k < i + 1 && units[k].1 == p && #[trigger] unit_children(units, templates, k).contains(c);
            if k < i {
                assert(importers(units, templates, c, i).contains(p));
            }
        }
        if importers(units, templates, c, i).contains(p) {
            let k = choose|k: int| 0 <= k < i && units[k].1 == p && #[trigger] unit_children(units, templates, k).contains(c);
            assert(0 <= k < i + 1);
        }
    }
    assert(a =~= b);
}

/// Some entry has key `c`.
pub open spec fn has_key(ev: Seq<(Seq<char>, Seq<Seq<char>>)>, c: Seq<char>) -> bool {
    exists|a: int| 0 <= a < ev.len() && #[trigger] ev[a].0 == c
}

/// The reverse-edge entries hold, for every chunk some unit references,
/// the sorted, distinct chunks of the units that reference it.
pub open spec fn reverse_ok(
    units: Seq<(Seq<char>, Seq<char>)>,
    templates: Seq<Option<crate::template::TemplateIr>>,
    ev: Seq<(Seq<char>, Seq<Seq<char>>)>,
    n: int,
) -> bool {
    &&& forall|a: int, b: int| 0 <= a < b < ev.len() ==> ev[a].0 != ev[b].0
    &&& forall|a: int| 0 <= a < ev.len() ==> strictly_sorted(#[trigger] ev[a].1) && ev[a].1.len() > 0
        && ev[a].1.to_set() == importers(units, templates, ev[a].0, n)
    &&& forall|k: int, d: int| 0 <= k < n && 0 <= d < unit_children(units, templates, k).len() ==> has_key(
        ev,
        #[trigger] unit_children(units, templates, k)[d],
    )
}

impl ComponentGraph {
    /// Well-formed: each tag maps to one chunk, each chunk has one reverse
    /// entry, and every importer list is non-empty, sorted and free of
    /// repeats. `build` gives well-formed graphs.
    pub open spec fn wf(&self) -> bool {
        let ev = edge_views(self.reverse@);
        &&& distinct_keys(pair_views(self.by_tag@))
        &&& forall|a: int, b: int| 0 <= a < b < ev.len() ==> ev[a].0 != ev[b].0
        &&& forall|a: int| 0 <= a < ev.len() ==> strictly_sorted(#[trigger] ev[a].1) && ev[a].1.len() > 0
    }

    /// The component graph of the units `(path, chunk id)` from their parsed
    /// templates (`templates[i]` for unit `i`; `None` when it could not be
    /// read): tags resolve to the unit whose file stem they are (a unit
    /// under `components/` taking over a stem), each unit depends on its
    /// tags' chunks other than its own, and each referenced chunk lists its
    /// importers, sorted and each once.
    pub fn build(units: &[(String, String)], templates: &[Option<crate::template::TemplateIr>]) -> (g: ComponentGraph)
        requires
            templates.len() == units.len(),
        ensures
            pair_views(g.by_tag@) == tag_pairs(pair_views(units@), units@.len() as int),
            distinct_keys(pair_views(g.by_tag@)),
            edge_views(g.deps@) == dep_entries(pair_views(units@), templates@, units@.len() as int),
            reverse_ok(pair_views(units@), templates@, edge_views(g.reverse@), units@.len() as int),
            g.wf(),
    {
        let ghost uv = pair_views(units@);
        let by_tag = build_tag_pairs(units);
        proof {
            lemma_tag_pairs_distinct(uv, uv.len() as int);
        }
        let mut deps: Vec<(String, Vec<String>)> = Vec::new();
        let mut reverse: Vec<(String, Vec<String>)> = Vec::new();
        let mut i: usize = 0;
        while i < units.len()
            invariant
                i <= units.len() == templates.len(),
                uv == pair_views(units@),
                pair_views(by_tag@) == tag_pairs(uv, uv.len() as int),
                edge_views(deps@) == dep_entries(uv, templates@, i as int),
                reverse_ok(uv, templates@, edge_views(reverse@), i as int),
            decreases units.len() - i,
        {
            let tags: Vec<String> = match &templates[i] {
                Some(ir) => component_tags(ir),
                None => Vec::new(),
            };
            proof {
                assert(texts(tags@) == unit_tags(templates@[i as int]));
            }
            let chunk = &units[i].1;
            let ch = children_exec(&by_tag, chunk, &tags);
            let ghost chv = texts(ch@);
            proof {
                assert(chv == unit_children(uv, templates@, i as int));
                let ev = edge_views(reverse@);
                assert forall|a: int| 0 <= a < ev.len() implies strictly_sorted(#[trigger] ev[a].1) && ev[a].1.len() > 0
                    && ev[a].1.to_set() == importers(uv, templates@, ev[a].0, i as int).union(
                    if chv.take(0).contains(ev[a].0) {
                        set![uv[i as int].1]
                    } else {
                        Set::empty()
                    },
                ) by {
                    assert(!chv.take(0).contains(ev[a].0));
                    assert(importers(uv, templates@, ev[a].0, i as int).union(Set::empty()) =~= importers(uv, templates@, ev[a].0, i as int));
                }
            }
            let mut j: usize = 0;
            while j < ch.len()
                invariant
                    i < units.len() == templates.len(),
                    j <= ch.len(),
                    uv == pair_views(units@),
                    chv == texts(ch@),
                    chv == unit_children(uv, templates@, i as int),
                    chunk@ == uv[i as int].1,
                    forall|a: int, b: int| 0 <= a < b < edge_views(reverse@).len() ==> edge_views(reverse@)[a].0 != edge_views(reverse@)[b].0,
                    forall|a: int| 0 <= a < edge_views(reverse@).len() ==> strictly_sorted(#[trigger] edge_views(reverse@)[a].1)
                        && edge_views(reverse@)[a].1.len() > 0 && edge_views(reverse@)[a].1.to_set() == importers(
                        uv,
                        templates@,
                        edge_views(reverse@)[a].0,
                        i as int,
                    ).union(if chv.take(j as int).contains(edge_views(reverse@)[a].0) {
                        set![uv[i as int].1]
                    } else {
                        Set::empty()
                    }),
                    forall|k: int, d: int| 0 <= k < i && 0 <= d < unit_children(uv, templates@, k).len() ==> has_key(
                        edge_views(reverse@),
                        #[trigger] unit_children(uv, templates@, k)[d],
                    ),
                    forall|d: int| 0 <= d < j ==> has_key(edge_views(reverse@), #[trigger] chv[d]),
                decreases ch.len() - j,
            {
                let c = &ch[j];
                let ghost ev0 = edge_views(reverse@);
                let mut a: usize = 0;
                while a < reverse.len() && !str_eq(&reverse[a].0, c)
                    invariant
                        a <= reverse.len(),
                        ev0 == edge_views(reverse@),
                        forall|q: int| 0 <= q < a ==> #[trigger] ev0[q].0 != c@,
                    decreases reverse.len() - a,
                {
                    a = a + 1;
                }
                proof {
                    assert(chv.take(j + 1) =~= chv.take(j as int).push(chv[j as int]));
                }
                if a < reverse.len() {
                    proof {
                        assert(ev0[a as int].0 == c@);
                        assert(strictly_sorted(ev0[a as int].1));
                        assert(ev0[a as int].1 == texts(reverse@[a as int].1@));
                    }
                    let mut list = crate::designs::clone_strings(reverse[a].1.as_slice());
                    insert_sorted_unique(&mut list, chunk.clone());
                    let key = reverse[a].0.clone();
                    reverse.set(a, (key, list));
                    proof {
                        let ev = edge_views(reverse@);
                        assert forall|q: int| 0 <= q < ev.len() implies strictly_sorted(#[trigger] ev[q].1) && ev[q].1.len() > 0
                            && ev[q].1.to_set() == importers(uv, templates@, ev[q].0, i as int).union(
                            if chv.take(j + 1).contains(ev[q].0) {
                                set![uv[i as int].1]
                            } else {
                                Set::empty()
                            },
                        ) by {
                            if q == a {
                                assert(chv.take(j + 1).contains(c@)) by {
                                    assert(chv.take(j + 1)[j as int] == c@);
                                }
                                assert(ev[q].1.to_set() == ev0[q].1.to_set().insert(chunk@));
                                assert(ev[q].1.to_set() =~= importers(uv, templates@, ev[q].0, i as int).union(set![uv[i as int].1]));
                                assert(ev[q].1.len() > 0) by {
                                    assert(ev[q].1.to_set().contains(chunk@));
                                }
                            } else {
                                assert(ev[q] == ev0[q]);
                                assert(chv.take(j + 1).contains(ev[q].0) == chv.take(j as int).contains(ev[q].0)) by {
                                    if chv.take(j + 1).contains(ev[q].0) {
                                        let w = choose|w: int| 0 <= w < j + 1 && #[trigger] chv.take(j + 1)[w] == ev[q].0;
                                        if w == j {
                                            assert(ev0[a as int].0 == c@);
                                        } else {
                                            assert(chv.take(j as int)[w] == ev[q].0);
                                        }
                                    }
                                    if chv.take(j as int).contains(ev[q].0) {
                                        let w = choose|w: int| 0 <= w < j && #[trigger] chv.take(j as int)[w] == ev[q].0;
                                        assert(chv.take(j + 1)[w] == ev[q].0);
                                    }
                                }
                            }
                        }
                        assert forall|x: int, y: int| 0 <= x < y < ev.len() implies ev[x].0 != ev[y].0 by {
                            assert(ev[x].0 == ev0[x].0 && ev[y].0 == ev0[y].0);
                        }
                        assert forall|k: int, d: int| 0 <= k < i && 0 <= d < unit_children(uv, templates@, k).len() implies has_key(
                            ev,
                            #[trigger] unit_children(uv, templates@, k)[d],
                        ) by {
                            let q = choose|q: int| 0 <= q < ev0.len() && #[trigger] ev0[q].0 == unit_children(uv, templates@, k)[d];
                            assert(ev[q].0 == ev0[q].0);
                        }
                        assert forall|d: int| 0 <= d < j + 1 implies has_key(ev, #[trigger] chv[d]) by {
                            if d == j {
                                assert(ev[a as int].0 == chv[d]);
                            } else {
                                let q = choose|q: int| 0 <= q < ev0.len() && #[trigger] ev0[q].0 == chv[d];
                                assert(ev[q].0 == ev0[q].0);
                            }
                        }
                    }
                } else {
                    let mut list: Vec<String> = Vec::new();
                    insert_sorted_unique(&mut list, chunk.clone());
                    let ghost lv = texts(list@);
                    reverse.push((c.clone(), list));
                    proof {
                        let ev = edge_views(reverse@);
                        assert(ev =~= ev0.push((c@, lv)));
                        assert(lv.to_set() =~= set![chunk@]);
                        assert(lv.len() > 0) by {
                            assert(lv.to_set().contains(chunk@));
                        }
                        assert(importers(uv, templates@, c@, i as int) =~= Set::empty()) by {
                            assert forall|p: Seq<char>| !importers(uv, templates@, c@, i as int).contains(p) by {
                                if importers(uv, templates@, c@, i as int).contains(p) {
                                    let k = choose|k: int| 0 <= k < i && uv[k].1 == p && #[trigger] unit_children(uv, templates@, k).contains(c@);
                                    let d = choose|d: int| 0 <= d < unit_children(uv, templates@, k).len() && unit_children(uv, templates@, k)[d] == c@;
                                    assert(has_key(ev0, unit_children(uv, templates@, k)[d]));
                                    let q = choose|q: int| 0 <= q < ev0.len() && #[trigger] ev0[q].0 == unit_children(uv, templates@, k)[d];
                                    assert(ev0[q].0 != c@);
                                }
                            }
                        }
                        assert(!chv.take(j as int).contains(c@)) by {
                            if chv.take(j as int).contains(c@) {
                                let w = choose|w: int| 0 <= w < j && #[trigger] chv.take(j as int)[w] == c@;
                                assert(chv[w] == c@);
                                assert(has_key(ev0, chv[w]));
                                let q = choose|q: int| 0 <= q < ev0.len() && #[trigger] ev0[q].0 == chv[w];
                                assert(ev0[q].0 != c@);
                            }
                        }
                        assert(chv.take(j + 1).contains(c@)) by {
                            assert(chv.take(j + 1)[j as int] == c@);
                        }
                        assert forall|q: int| 0 <= q < ev.len() implies strictly_sorted(#[trigger] ev[q].1) && ev[q].1.len() > 0
                            && ev[q].1.to_set() == importers(uv, templates@, ev[q].0, i as int).union(
                            if chv.take(j + 1).contains(ev[q].0) {
                                set![uv[i as int].1]
                            } else {
                                Set::empty()
                            },
                        ) by {
                            if q == ev0.len() {
                                assert(ev[q].1.to_set() =~= importers(uv, templates@, ev[q].0, i as int).union(set![uv[i as int].1]));
                            } else {
                                assert(ev[q] == ev0[q]);
                                assert(ev0[q].0 != c@);
                                assert(chv.take(j + 1).contains(ev[q].0) == chv.take(j as int).contains(ev[q].0)) by {
                                    if chv.take(j + 1).contains(ev[q].0) {
                                        let w = choose|w: int| 0 <= w < j + 1 && #[trigger] chv.take(j + 1)[w] == ev[q].0;
                                        if w < j {
                                            assert(chv.take(j as int)[w] == ev[q].0);
                                        }
                                    }
                                    if chv.take(j as int).contains(ev[q].0) {
                                        let w = choose|w: int| 0 <= w < j && #[trigger] chv.take(j as int)[w] == ev[q].0;
                                        assert(chv.take(j + 1)[w] == ev[q].0);
                                    }
                                }
                            }
                        }
                        assert forall|x: int, y: int| 0 <= x < y < ev.len() implies ev[x].0 != ev[y].0 by {
                            if y == ev0.len() {
                                assert(ev0[x].0 != c@);
                            }
                        }
                        assert forall|k: int, d: int| 0 <= k < i && 0 <= d < unit_children(uv, templates@, k).len() implies has_key(
                            ev,
                            #[trigger] unit_children(uv, templates@, k)[d],
                        ) by {
                            let q = choose|q: int| 0 <= q < ev0.len() && #[trigger] ev0[q].0 == unit_children(uv, templates@, k)[d];
                            assert(ev[q].0 == ev0[q].0);
                        }
                        assert forall|d: int| 0 <= d < j + 1 implies has_key(ev, #[trigger] chv[d]) by {
                            if d == j {
                                assert(ev[ev0.len() as int].0 == chv[d]);
                            } else {
                                let q = choose|q: int| 0 <= q < ev0.len() && #[trigger] ev0[q].0 == chv[d];
                                assert(ev[q].0 == ev0[q].0);
                            }
                        }
                    }
                }
                j = j + 1;
            }
            proof {
                let ev = edge_views(reverse@);
                assert(chv.len() == ch@.len());
                assert(chv.take(chv.len() as int) =~= chv);
                assert forall|q: int| 0 <= q < ev.len() implies strictly_sorted(#[trigger] ev[q].1) && ev[q].1.len() > 0
                    && ev[q].1.to_set() == importers(uv, templates@, ev[q].0, i + 1) by {
                    lemma_importers_step(uv, templates@, ev[q].0, i as int);
                }
                assert forall|k: int, d: int| 0 <= k < i + 1 && 0 <= d < unit_children(uv, templates@, k).len() implies has_key(
                    ev,
                    #[trigger] unit_children(uv, templates@, k)[d],
                ) by {
                    if k == i {
                        assert(chv[d] == unit_children(uv, templates@, k)[d]);
                    }
                }
            }
            if ch.len() > 0 {
                let ghost before = deps@;
                deps.push((chunk.clone(), ch));
                proof {
                    assert(edge_views(deps@) =~= edge_views(before).push((uv[i as int].1, chv)));
                }
            }
            i = i + 1;
        }
        ComponentGraph { deps, reverse, by_tag }
    }
}

} // verus!
