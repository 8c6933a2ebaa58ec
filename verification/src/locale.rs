//! Locale policy: LocaleId form (lowercase BCP 47) and fallback chains,
//! which must not loop.

use vstd::prelude::*;
use crate::dep_graph::{candidate_nodes, index_of_last_edge, last_edge, lemma_last_edge_range, vec_texts};
use crate::order::{texts, texts_contain};
use crate::text::to_chars;
use crate::json::{json_string, json_string_of};

verus! {

/// `y` is one of the fallbacks of `x`.
pub open spec fn edge(f: Seq<(String, Vec<String>)>, x: Seq<char>, y: Seq<char>) -> bool {
    match last_edge(f, x) {
        Some(k) => texts(f[k].1@).contains(y),
        None => false,
    }
}

/// Each locale of `c` falls back to the next.
pub open spec fn is_walk(f: Seq<(String, Vec<String>)>, c: Seq<Seq<char>>) -> bool {
    forall|i: int| 0 <= i < c.len() - 1 ==> #[trigger] edge(f, c[i], c[i + 1])
}

/// The fallback chains loop: some locale falls back, through others, to
/// itself.
pub open spec fn has_cycle(f: Seq<(String, Vec<String>)>) -> bool {
    exists|c: Seq<Seq<char>>| c.len() >= 2 && c[0] == c.last() && #[trigger] is_walk(f, c)
}

/// A walk that ends at a locale it already passed.
pub open spec fn is_lasso(f: Seq<(String, Vec<String>)>, c: Seq<Seq<char>>) -> bool {
    c.len() >= 2 && is_walk(f, c) && c.drop_last().contains(c.last())
}

/// Every finished locale falls back only to locales finished before it.
pub open spec fn ranked(f: Seq<(String, Vec<String>)>, fin: Seq<Seq<char>>) -> bool {
    forall|a: int, y: Seq<char>|
        0 <= a < fin.len() && #[trigger] edge(f, fin[a], y) ==> exists|b: int| 0 <= b < a && fin[b] == y
}

/// No loop of fallbacks starts (and ends) at `x`.
pub open spec fn no_cycle_at(f: Seq<(String, Vec<String>)>, x: Seq<char>) -> bool {
    forall|c: Seq<Seq<char>>| c.len() >= 2 && c[0] == x && c.last() == x ==> !#[trigger] is_walk(f, c)
}

/// A walk that returns to a locale it passed holds a loop.
proof fn lemma_lasso_cycle(f: Seq<(String, Vec<String>)>, c: Seq<Seq<char>>)
    requires
        is_lasso(f, c),
    ensures
        has_cycle(f),
{
    let j = choose|j: int| 0 <= j < c.drop_last().len() && c.drop_last()[j] == c.last();
    let d = c.subrange(j, c.len() as int);
    assert forall|i: int| 0 <= i < d.len() - 1 implies #[trigger] edge(f, d[i], d[i + 1]) by {
        assert(d[i] == c[j + i]);
        assert(d[i + 1] == c[j + i + 1]);
        assert(edge(f, c[j + i], c[j + i + 1]));
    }
    assert(d[0] == d.last());
    assert(is_walk(f, d));
}

/// Along a walk from a finished locale, each step goes to a locale finished
/// strictly earlier.
proof fn lemma_descend(f: Seq<(String, Vec<String>)>, fin: Seq<Seq<char>>, c: Seq<Seq<char>>, a0: int, i: int)
    requires
        ranked(f, fin),
        0 <= a0 < fin.len(),
        fin[a0] == c[0],
        is_walk(f, c),
        0 <= i < c.len(),
    ensures
        exists|a: int| 0 <= a && a + i <= a0 && fin[a] == c[i],
    decreases i,
{
    if i > 0 {
        lemma_descend(f, fin, c, a0, i - 1);
        let a = choose|a: int| 0 <= a && a + (i - 1) <= a0 && fin[a] == c[i - 1];
        assert(edge(f, c[i - 1], c[(i - 1) + 1]));
        assert(edge(f, fin[a], c[i]));
        let b = choose|b: int| 0 <= b < a && fin[b] == c[i];
        assert(0 <= b && b + i <= a0 && fin[b] == c[i]);
    } else {
        assert(0 <= a0 && a0 + 0 <= a0 && fin[a0] == c[0]);
    }
}

/// No loop starts at a finished locale.
proof fn lemma_ranked_no_cycle(f: Seq<(String, Vec<String>)>, fin: Seq<Seq<char>>, x: Seq<char>)
    requires
        ranked(f, fin),
        fin.no_duplicates(),
        fin.contains(x),
    ensures
        no_cycle_at(f, x),
{
    let a0 = choose|a: int| 0 <= a < fin.len() && fin[a] == x;
    assert forall|c: Seq<Seq<char>>| c.len() >= 2 && c[0] == x && c.last() == x implies !#[trigger] is_walk(f, c) by {
        if is_walk(f, c) {
            lemma_descend(f, fin, c, a0, c.len() - 1);
            let a = choose|a: int| 0 <= a && a + (c.len() - 1) <= a0 && fin[a] == c[c.len() - 1];
            assert(fin[a] == fin[a0]);
        }
    }
}

/// Some walk from `x` ends at a locale it already passed.
#[verifier::opaque]
pub open spec fn lasso_from(f: Seq<(String, Vec<String>)>, x: Seq<char>) -> bool {
    exists|c: Seq<Seq<char>>| #[trigger] is_lasso(f, c) && c[0] == x
}

/// No key before index `k` starts a walk that loops back.
pub open spec fn no_lasso_before(f: Seq<(String, Vec<String>)>, k: int) -> bool {
    forall|j: int| 0 <= j < k ==> !lasso_from(f, #[trigger] f[j].0@)
}

/// `x` is the first key, in key order, from which a walk loops back.
pub open spec fn first_lasso_key(f: Seq<(String, Vec<String>)>, x: Seq<char>) -> bool {
    exists|k: int| 0 <= k < f.len() && #[trigger] f[k].0@ == x && no_lasso_before(f, k)
}

proof fn lemma_descend_strict(f: Seq<(String, Vec<String>)>, fin: Seq<Seq<char>>, c: Seq<Seq<char>>, a: int, i: int, k: int)
    requires
        ranked(f, fin),
        0 <= a < fin.len(),
        fin[a] == c[i],
        is_walk(f, c),
        0 <= i < k < c.len(),
    ensures
        exists|b: int| 0 <= b < a && fin[b] == c[k],
    decreases k - i,
{
    assert(edge(f, c[i], c[i + 1]));
    let b1 = choose|b: int| 0 <= b < a && fin[b] == c[i + 1];
    if k > i + 1 {
        lemma_descend_strict(f, fin, c, b1, i + 1, k);
    }
}

/// No walk from a finished locale loops back.
proof fn lemma_ranked_no_lasso(f: Seq<(String, Vec<String>)>, fin: Seq<Seq<char>>, x: Seq<char>)
    requires
        ranked(f, fin),
        fin.no_duplicates(),
        fin.contains(x),
    ensures
        !lasso_from(f, x),
{
    let a0 = choose|a: int| 0 <= a < fin.len() && fin[a] == x;
    reveal(lasso_from);
    if lasso_from(f, x) {
        let c = choose|c: Seq<Seq<char>>| #[trigger] is_lasso(f, c) && c[0] == x;
        let j = choose|j: int| 0 <= j < c.drop_last().len() && c.drop_last()[j] == c.last();
        lemma_descend(f, fin, c, a0, j);
        let aj = choose|a: int| 0 <= a && a + j <= a0 && fin[a] == c[j];
        lemma_descend_strict(f, fin, c, aj, j, c.len() - 1);
        let b = choose|b: int| 0 <= b < aj && fin[b] == c[c.len() - 1];
        assert(fin[b] == fin[aj]);
    }
}

/// Removing a member of a finite set from the part not yet visited shrinks it.
proof fn lemma_shrink(uni: Set<Seq<char>>, a: Set<Seq<char>>, b: Set<Seq<char>>, x: Seq<char>)
    requires
        uni.finite(),
        a.subset_of(b),
        b.contains(x),
        !a.contains(x),
        uni.contains(x),
    ensures
        uni.difference(b).len() < uni.difference(a).len(),
{
    let da = uni.difference(a);
    let db = uni.difference(b);
    assert(db.subset_of(da.remove(x)));
    vstd::set_lib::lemma_len_subset(db, da.remove(x));
    assert(da.contains(x));
}

/// Pushing adds exactly the pushed element to the set of a sequence.
proof fn lemma_push_set(s: Seq<Seq<char>>, x: Seq<char>)
    ensures
        s.push(x).to_set() == s.to_set().insert(x),
{
    assert forall|y: Seq<char>| s.push(x).to_set().contains(y) <==> s.to_set().insert(x).contains(y) by {
        if s.push(x).to_set().contains(y) && y != x {
            let i = choose|i: int| 0 <= i < s.push(x).len() && s.push(x)[i] == y;
            assert(i < s.len());
            assert(s[i] == y);
        }
        if s.to_set().contains(y) {
            let i = choose|i: int| 0 <= i < s.len() && s[i] == y;
            assert(s.push(x)[i] == y);
        }
        if y == x {
            assert(s.push(x)[s.len() as int] == x);
        }
    }
    assert(s.push(x).to_set() =~= s.to_set().insert(x));
}

/// The state of a search from one key: the visited locales, the current
/// path, and the finished ones in finishing order.
pub open spec fn search_state(
    f: Seq<(String, Vec<String>)>,
    uni: Set<Seq<char>>,
    visited: Set<Seq<char>>,
    path: Seq<Seq<char>>,
    fin: Seq<Seq<char>>,
) -> bool {
    &&& uni.finite()
    &&& visited.subset_of(uni)
    &&& forall|x: Seq<char>, y: Seq<char>| #[trigger] edge(f, x, y) ==> uni.contains(y)
    &&& path.no_duplicates()
    &&& path.to_set().subset_of(visited)
    &&& fin.no_duplicates()
    &&& fin.to_set() == visited.difference(path.to_set())
    &&& ranked(f, fin)
    &&& is_walk(f, path)
}

fn clone_path(path: &Vec<String>) -> (r: Vec<String>)
    ensures
        texts(r@) == texts(path@),
{
    let r = crate::designs::clone_strings(path.as_slice());
    r
}

/// How many locales of `uni` are not visited yet.
pub open spec fn unvisited(uni: Set<Seq<char>>, visiting: Seq<String>) -> nat {
    uni.difference(texts(visiting).to_set()).len()
}

/// Depth-first search for a loop from `node`, reached along `path`.
#[verifier::loop_isolation(false)]
fn walk(
    node: &String,
    f: &Vec<(String, Vec<String>)>,
    visiting: Vec<String>,
    path: Vec<String>,
    fin: Ghost<Seq<Seq<char>>>,
    uni: Ghost<Set<Seq<char>>>,
) -> (r: (Option<Vec<String>>, Vec<String>, Vec<String>, Ghost<Seq<Seq<char>>>))
    requires
        search_state(f@, uni@, texts(visiting@).to_set(), texts(path@), fin@),
        uni@.contains(node@),
        path.len() > 0 ==> edge(f@, texts(path@).last(), node@),
    ensures
        match r.0 {
            Some(c) => is_lasso(f@, texts(c@)) && texts(c@)[0] == if path.len() > 0 {
                texts(path@)[0]
            } else {
                node@
            },
            None => {
                &&& texts(r.2@) == texts(path@)
                &&& texts(visiting@).to_set().subset_of(texts(r.1@).to_set())
                &&& search_state(f@, uni@, texts(r.1@).to_set(), texts(r.2@), r.3@)
                &&& r.3@.take(fin@.len() as int) == fin@
                &&& fin@.len() <= r.3@.len()
                &&& r.3@.contains(node@)
            },
        },
    decreases unvisited(uni@, visiting@),
{
    let plen = path.len();
    let ghost v0 = texts(visiting@).to_set();
    let ghost p0 = texts(path@);
    let nv = to_chars(node.as_str());
    if texts_contain(&path, nv.as_slice()) {
        let mut c = clone_path(&path);
        let ghost before = texts(c@);
        c.push(node.clone());
        proof {
            assert(texts(c@) =~= before.push(node@));
            assert(texts(c@).drop_last() =~= p0);
            assert forall|i: int| 0 <= i < texts(c@).len() - 1 implies #[trigger] edge(f@, texts(c@)[i], texts(c@)[i + 1]) by {
                if i < p0.len() - 1 {
                    assert(edge(f@, p0[i], p0[i + 1]));
                } else {
                    assert(texts(c@)[i] == p0.last());
                }
            }
        }
        return (Some(c), visiting, path, fin);
    }
    if texts_contain(&visiting, nv.as_slice()) {
        proof {
            assert(fin@.to_set().contains(node@));
            assert(fin@.take(fin@.len() as int) =~= fin@);
        }
        return (None, visiting, path, fin);
    }
    let ghost vs0 = texts(visiting@);
    let mut visiting = visiting;
    let mut path = path;
    let ghost mut fin = fin@;
    let ghost fin0 = fin;
    visiting.push(node.clone());
    path.push(node.clone());
    proof {
        assert(texts(visiting@) =~= vs0.push(node@));
        assert(texts(path@) =~= p0.push(node@));
        lemma_push_set(vs0, node@);
        lemma_push_set(p0, node@);
        assert(texts(visiting@).to_set() =~= v0.insert(node@));
        assert(texts(path@).to_set() =~= p0.to_set().insert(node@));
        assert(!p0.contains(node@));
        assert(!v0.contains(node@));
        assert forall|i: int| 0 <= i < texts(path@).len() - 1 implies #[trigger] edge(f@, texts(path@)[i], texts(path@)[i + 1]) by {
            if i < p0.len() - 1 {
                assert(edge(f@, p0[i], p0[i + 1]));
            }
        }
        assert(fin.to_set() =~= texts(visiting@).to_set().difference(texts(path@).to_set()));
    }
    let found = index_of_last_edge(f, nv.as_slice());
    match found {
        Some(k) => {
            let nexts = &f[k].1;
            let mut j: usize = 0;
            while j < nexts.len()
                invariant
                    j <= nexts.len(),
                    nexts == f@[k as int].1,
                    last_edge(f@, node@) == Some(k as int),
                    k < f.len(),
                    texts(path@) == p0.push(node@),
                    v0.insert(node@).subset_of(texts(visiting@).to_set()),
                    search_state(f@, uni@, texts(visiting@).to_set(), texts(path@), fin),
                    fin.take(fin0.len() as int) == fin0,
                    fin0.len() <= fin.len(),
                    forall|d: int| 0 <= d < j ==> fin.contains(#[trigger] nexts@[d]@),
                    uni@.contains(node@),
                    !v0.contains(node@),
                    path.len() > 0,
                decreases nexts.len() - j,
            {
                let next = &nexts[j];
                proof {
                    assert(texts(nexts@)[j as int] == next@);
                    assert(edge(f@, node@, next@));
                    assert(texts(path@).last() == node@);
                    assert(v0.subset_of(v0.insert(node@)));
                    assert(v0.subset_of(texts(visiting@).to_set()));
                    assert(texts(visiting@).to_set().contains(node@));
                    lemma_shrink(uni@, v0, texts(visiting@).to_set(), node@);
                    assert(unvisited(uni@, visiting@) < uni@.difference(v0).len());
                }
                let ghost fin_before = fin;
                let ghost pcall = texts(path@);
                let (res, v2, p2, fin2) = walk(next, f, visiting, path, Ghost(fin), uni);
                match res {
                    Some(c) => {
                        proof {
                            assert(pcall.len() > 0);
                            assert(plen == p0.len());
                            assert(texts(c@)[0] == pcall[0]);
                            assert(pcall[0] == if p0.len() > 0 { p0[0] } else { node@ });
                        }
                        return (Some(c), v2, p2, fin2);
                    },
                    None => {},
                }
                visiting = v2;
                path = p2;
                proof {
                    fin = fin2@;
                    assert forall|d: int| 0 <= d < j + 1 implies fin.contains(#[trigger] nexts@[d]@) by {
                        if d < j {
                            assert(fin_before.contains(nexts@[d]@));
                            let w = choose|w: int| 0 <= w < fin_before.len() && fin_before[w] == nexts@[d]@;
                            assert(fin[w] == fin_before[w]);
                        }
                    }
                    assert(fin.take(fin0.len() as int) =~= fin_before.take(fin0.len() as int));
                }
                j = j + 1;
            }
        },
        None => {
            proof {
                assert(fin.take(fin0.len() as int) =~= fin0);
            }
        },
    }
    let ghost fin_loop = fin;
    let ghost vis = texts(visiting@).to_set();
    let ghost before_pop = path@;
    let popped = path.pop();
    proof {
        assert(path@ =~= before_pop.drop_last());
        assert(texts(path@) =~= texts(before_pop).drop_last());
        assert(texts(path@) =~= p0);
        lemma_push_set(p0, node@);
        assert(texts(before_pop).to_set().contains(node@));
        assert(search_state(f@, uni@, vis, texts(before_pop), fin_loop));
        assert(fin_loop.to_set() == vis.difference(texts(before_pop).to_set()));
        assert(!fin_loop.to_set().contains(node@));
        lemma_push_set(fin_loop, node@);
        assert(vis.contains(node@));
        fin = fin.push(node@);
        assert(!fin_loop.contains(node@));
        assert forall|a: int, y: Seq<char>| 0 <= a < fin.len() && #[trigger] edge(f@, fin[a], y) implies exists|b: int|
            0 <= b < a && fin[b] == y by {
            if a < fin_loop.len() {
                assert(fin[a] == fin_loop[a]);
                assert(edge(f@, fin_loop[a], y));
                let b = choose|b: int| 0 <= b < a && fin_loop[b] == y;
                assert(fin[b] == y);
            } else {
                assert(fin[a] == node@);
                match found {
                    Some(k) => {
                        assert(texts(f@[k as int].1@).contains(y));
                        let d = choose|d: int| 0 <= d < texts(f@[k as int].1@).len() && texts(f@[k as int].1@)[d] == y;
                        assert(fin_loop.contains(f@[k as int].1@[d]@));
                        let b = choose|b: int| 0 <= b < fin_loop.len() && fin_loop[b] == y;
                        assert(fin[b] == y);
                    },
                    None => {},
                }
            }
        }
        assert(fin.to_set() =~= vis.difference(p0.to_set()));
        assert(fin.take(fin0.len() as int) =~= fin_loop.take(fin0.len() as int));
        assert(fin[fin.len() - 1] == node@);
    }
    (None, visiting, path, Ghost(fin))
}

/// The first loop of fallbacks met by a depth-first search from each key in
/// order (the visited set cleared per key): the path from the key to the
/// locale that closes the loop, that locale repeated at the end. Some
/// exactly when some locale falls back, through others, to itself.
pub fn detect_fallback_cycle(fallback: &Vec<(String, Vec<String>)>) -> (r: Option<Vec<String>>)
    ensures
        r is Some <==> has_cycle(fallback@),
        r matches Some(c) ==> is_lasso(fallback@, texts(c@)) && first_lasso_key(fallback@, texts(c@)[0]),
{
    let mut keys: Vec<String> = Vec::new();
    let mut i: usize = 0;
    while i < fallback.len()
        invariant
            i <= fallback.len(),
            keys.len() == i,
            forall|j: int| 0 <= j < i ==> (#[trigger] keys@[j])@ == fallback@[j].0@,
        decreases fallback.len() - i,
    {
        keys.push(fallback[i].0.clone());
        i = i + 1;
    }
    let cand = candidate_nodes(fallback, keys.as_slice());
    let ghost uni = vec_texts(cand@).to_set();
    proof {
        vstd::seq_lib::seq_to_set_is_finite(vec_texts(cand@));
        assert forall|x: Seq<char>, y: Seq<char>| #[trigger] edge(fallback@, x, y) implies uni.contains(y) by {
            lemma_last_edge_range(fallback@, x);
            let k = last_edge(fallback@, x)->0;
            let d = choose|d: int| 0 <= d < texts(fallback@[k].1@).len() && texts(fallback@[k].1@)[d] == y;
            assert(vec_texts(cand@).contains(fallback@[k].1@[d]@));
        }
    }
    let mut i: usize = 0;
    while i < fallback.len()
        invariant
            i <= fallback.len(),
            keys.len() == fallback.len(),
            forall|j: int| 0 <= j < fallback.len() ==> (#[trigger] keys@[j])@ == fallback@[j].0@,
            forall|j: int| 0 <= j < fallback.len() ==> #[trigger] vec_texts(cand@).contains(keys@[j]@),
            uni == vec_texts(cand@).to_set(),
            uni.finite(),
            forall|x: Seq<char>, y: Seq<char>| #[trigger] edge(fallback@, x, y) ==> uni.contains(y),
            forall|j: int| 0 <= j < i ==> no_cycle_at(fallback@, #[trigger] fallback@[j].0@),
            no_lasso_before(fallback@, i as int),
        decreases fallback.len() - i,
    {
        let key = &fallback[i].0;
        let no_visits: Vec<String> = Vec::new();
        let no_path: Vec<String> = Vec::new();
        proof {
            assert(vec_texts(cand@).contains(keys@[i as int]@));
            assert(texts(no_visits@) =~= Seq::<Seq<char>>::empty());
            assert(texts(no_path@) =~= Seq::<Seq<char>>::empty());
            assert(texts(no_visits@).to_set() =~= Set::<Seq<char>>::empty());
            assert(Seq::<Seq<char>>::empty().to_set() =~= Set::<Seq<char>>::empty().difference(Set::<Seq<char>>::empty()));
            assert(search_state(fallback@, uni, texts(no_visits@).to_set(), texts(no_path@), Seq::empty()));
        }
        let (res, _v, _p, fin) = walk(key, fallback, no_visits, no_path, Ghost(Seq::empty()), Ghost(uni));
        match res {
            Some(c) => {
                proof {
                    lemma_lasso_cycle(fallback@, texts(c@));
                    assert(fallback@[i as int].0@ == texts(c@)[0]);
                }
                return Some(c);
            },
            None => {
                proof {
                    lemma_ranked_no_cycle(fallback@, fin@, key@);
                    lemma_ranked_no_lasso(fallback@, fin@, key@);
                }
            },
        }
        i = i + 1;
    }
    proof {
        if has_cycle(fallback@) {
            let c = choose|c: Seq<Seq<char>>| c.len() >= 2 && c[0] == c.last() && #[trigger] is_walk(fallback@, c);
            assert(edge(fallback@, c[0int], c[0int + 1]));
            lemma_last_edge_range(fallback@, c[0]);
            let k = last_edge(fallback@, c[0])->0;
            assert(no_cycle_at(fallback@, fallback@[k].0@));
        }
    }
    None
}

/// The `-`-separated parts of a text (`str::split('-')`).
pub open spec fn split_dash(s: Seq<char>) -> Seq<Seq<char>>
    decreases s.len(),
{
    if s.len() == 0 {
        seq![Seq::empty()]
    } else {
        let p = split_dash(s.drop_last());
        if s.last() == '-' {
            p.push(Seq::empty())
        } else {
            p.update(p.len() - 1, p.last().push(s.last()))
        }
    }
}

proof fn lemma_split_nonempty(s: Seq<char>)
    ensures
        split_dash(s).len() >= 1,
    decreases s.len(),
{
    if s.len() > 0 {
        lemma_split_nonempty(s.drop_last());
    }
}

/// A language subtag: two or three ASCII lowercase letters.
pub open spec fn lang_ok(p: Seq<char>) -> bool {
    2 <= p.len() <= 3 && forall|i: int| 0 <= i < p.len() ==> crate::text::is_ascii_lower(#[trigger] p[i])
}

/// A later subtag: two to eight ASCII lowercase letters or digits.
pub open spec fn subtag_ok(p: Seq<char>) -> bool {
    2 <= p.len() <= 8 && forall|i: int|
        0 <= i < p.len() ==> crate::text::is_ascii_lower(#[trigger] p[i]) || crate::text::is_ascii_digit(p[i])
}

/// Lowercase BCP 47 form: a language subtag, then `-`-separated subtags.
pub open spec fn bcp47_form(s: Seq<char>) -> bool {
    let parts = split_dash(s);
    lang_ok(parts[0]) && forall|i: int| 1 <= i < parts.len() ==> subtag_ok(#[trigger] parts[i])
}

/// `Debug` of a `str`: the text quoted, with escapes.
pub uninterp spec fn str_debug(s: Seq<char>) -> Seq<char>;

/// Printable ASCII other than quotes and backslash: characters that `Debug`
/// leaves as they are.
pub open spec fn plain_ascii(s: Seq<char>) -> bool {
    forall|i: int|
        0 <= i < s.len() ==> ' ' <= #[trigger] s[i] <= '~' && s[i] != '"' && s[i] != '\\' && s[i] != '\''
}

/// `format!("{s:?}")` for a `str`: its `Debug` form. The contract names that
/// form and states the case of plain printable ASCII (the text between
/// double quotes); the escapes of other characters are not stated.
#[verifier::external_body]
pub(crate) fn debug_str(s: &str) -> (r: String)
    ensures
        r@ == str_debug(s@),
        plain_ascii(s@) ==> r@ == seq!['"'] + s@ + seq!['"'],
{
    format!("{s:?}")
}

/// Why a LocaleId is refused: `None` when it is valid.
pub open spec fn locale_id_error(name: Seq<char>) -> Option<Seq<char>> {
    let d = str_debug(name);
    if name.len() == 0 {
        Some("empty LocaleId"@)
    } else if name.contains('_') {
        Some("LocaleId must use '-' not '_': "@ + d)
    } else if name != crate::text::lower(name) {
        Some("LocaleId must be lowercase ASCII (got "@ + d + ")"@)
    } else if !bcp47_form(name) {
        Some("LocaleId is not lowercase BCP 47 form: "@ + d)
    } else {
        None
    }
}

fn all_lower(p: &Vec<char>) -> (r: bool)
    ensures
        r == forall|i: int| 0 <= i < p@.len() ==> crate::text::is_ascii_lower(#[trigger] p@[i]),
{
    let mut i: usize = 0;
    while i < p.len()
        invariant
            i <= p.len(),
            forall|j: int| 0 <= j < i ==> crate::text::is_ascii_lower(#[trigger] p@[j]),
        decreases p.len() - i,
    {
        if !('a' <= p[i] && p[i] <= 'z') {
            return false;
        }
        i = i + 1;
    }
    true
}

fn all_lower_or_digit(p: &Vec<char>) -> (r: bool)
    ensures
        r == forall|i: int|
            0 <= i < p@.len() ==> crate::text::is_ascii_lower(#[trigger] p@[i]) || crate::text::is_ascii_digit(p@[i]),
{
    let mut i: usize = 0;
    while i < p.len()
        invariant
            i <= p.len(),
            forall|j: int| 0 <= j < i ==> crate::text::is_ascii_lower(#[trigger] p@[j]) || crate::text::is_ascii_digit(p@[j]),
        decreases p.len() - i,
    {
        if !(('a' <= p[i] && p[i] <= 'z') || ('0' <= p[i] && p[i] <= '9')) {
            return false;
        }
        i = i + 1;
    }
    true
}

fn split_dash_exec(s: &Vec<char>) -> (r: Vec<Vec<char>>)
    ensures
        r@.map_values(|v: Vec<char>| v@) == split_dash(s@),
{
    let mut parts: Vec<Vec<char>> = Vec::new();
    parts.push(Vec::new());
    let mut i: usize = 0;
    proof {
        assert(s@.take(0) =~= Seq::<char>::empty());
        assert(parts@.map_values(|v: Vec<char>| v@) =~= split_dash(s@.take(0)));
    }
    while i < s.len()
        invariant
            i <= s.len(),
            parts@.map_values(|v: Vec<char>| v@) == split_dash(s@.take(i as int)),
            parts.len() >= 1,
        decreases s.len() - i,
    {
        proof {
            assert(s@.take(i + 1).drop_last() =~= s@.take(i as int));
            assert(s@.take(i + 1).last() == s@[i as int]);
        }
        let ghost before = parts@.map_values(|v: Vec<char>| v@);
        if s[i] == '-' {
            parts.push(Vec::new());
            proof {
                assert(parts@.map_values(|v: Vec<char>| v@) =~= before.push(Seq::empty()));
            }
        } else {
            let last = parts.len() - 1;
            let mut cur = parts.pop().unwrap();
            let ghost cv = cur@;
            cur.push(s[i]);
            parts.push(cur);
            proof {
                assert(cv == before.last());
                assert(parts@.map_values(|v: Vec<char>| v@) =~= before.update(before.len() - 1, before.last().push(s@[i as int])));
            }
        }
        i = i + 1;
    }
    proof {
        assert(s@.take(s.len() as int) =~= s@);
    }
    parts
}

fn bcp47_form_exec(s: &Vec<char>) -> (r: bool)
    ensures
        r == bcp47_form(s@),
{
    let parts = split_dash_exec(s);
    proof {
        lemma_split_nonempty(s@);
    }
    let ghost pv = parts@.map_values(|v: Vec<char>| v@);
    let lang = &parts[0];
    proof {
        assert(pv[0] == lang@);
    }
    if !(2 <= lang.len() && lang.len() <= 3 && all_lower(lang)) {
        return false;
    }
    let mut i: usize = 1;
    while i < parts.len()
        invariant
            1 <= i <= parts.len(),
            pv == parts@.map_values(|v: Vec<char>| v@),
            pv == split_dash(s@),
            forall|j: int| 1 <= j < i ==> subtag_ok(#[trigger] pv[j]),
        decreases parts.len() - i,
    {
        let p = &parts[i];
        proof {
            assert(pv[i as int] == p@);
        }
        if !(2 <= p.len() && p.len() <= 8 && all_lower_or_digit(p)) {
            proof {
                assert(!subtag_ok(pv[i as int]));
                assert(split_dash(s@) == pv);
            }
            return false;
        }
        i = i + 1;
    }
    true
}

/// Check the form of a LocaleId: non-empty, `-` rather than `_`, lowercase
/// ASCII, and lowercase BCP 47 (a language subtag of 2-3 letters, then
/// subtags of 2-8 letters or digits). The error says which rule failed.
pub fn validate_locale_id(name: &str) -> (r: Result<(), String>)
    ensures
        match r {
            Ok(()) => locale_id_error(name@) is None,
            Err(m) => locale_id_error(name@) == Some(m@),
        },
{
    let v = to_chars(name);
    if v.len() == 0 {
        return Err(String::from_str("empty LocaleId"));
    }
    if crate::text::has_char(v.as_slice(), '_') {
        let mut m = to_chars("LocaleId must use '-' not '_': ");
        crate::text::push_str(&mut m, debug_str(name).as_str());
        return Err(crate::text::from_chars(m.as_slice()));
    }
    let low = crate::text::lower_exec(v.as_slice());
    if !crate::text::chars_eq(v.as_slice(), low.as_slice()) {
        let mut m = to_chars("LocaleId must be lowercase ASCII (got ");
        crate::text::push_str(&mut m, debug_str(name).as_str());
        crate::text::push_str(&mut m, ")");
        return Err(crate::text::from_chars(m.as_slice()));
    }
    if !bcp47_form_exec(&v) {
        let mut m = to_chars("LocaleId is not lowercase BCP 47 form: ");
        crate::text::push_str(&mut m, debug_str(name).as_str());
        return Err(crate::text::from_chars(m.as_slice()));
    }
    Ok(())
}

/// What a locale diagnostic is about.
#[derive(Debug, Clone, Copy, PartialEq, Eq, Structural)]
pub enum LocaleDiagCode {
    IdInvalid,
    IdCollision,
    DefaultMissing,
    FallbackUnknown,
    FallbackCycle,
    /// The manifest could not be read or parsed.
    CatalogParse,
}

/// An error about the locale manifest at `path`, with its detail.
#[derive(Debug, Clone)]
pub struct LocaleDiagnostic {
    pub path: String,
    pub code: LocaleDiagCode,
    pub detail: String,
}

/// A declared locale.
#[derive(Debug, Clone)]
pub struct LocaleEntry {
    pub id: String,
    pub label: String,
    /// `ltr` when the author left it empty.
    pub direction: String,
}

/// How locales appear in routes.
#[derive(Debug, Clone)]
pub struct LocaleRoutingPolicy {
    pub strategy: String,
    pub default_prefix: String,
}

/// The author's locale manifest.
#[derive(Debug, Clone)]
pub struct LocaleManifestFile {
    pub locales: Vec<LocaleEntry>,
    pub default_locale: String,
    /// Fallback chains by locale, keys ascending and each once (as a map
    /// holds them).
    pub fallback: Vec<(String, Vec<String>)>,
    pub routing: Option<LocaleRoutingPolicy>,
    pub missing: String,
}

/// The normalized locale policy.
#[derive(Debug, Clone)]
pub struct LocalePlan {
    pub source_path: Option<String>,
    pub default_locale: String,
    pub locales: Vec<LocaleEntry>,
    pub fallback: Vec<(String, Vec<String>)>,
    pub routing: LocaleRoutingPolicy,
    pub missing: String,
    pub diagnostics: Vec<LocaleDiagnostic>,
}

/// A diagnostic as plain values: (path, code, detail).
pub open spec fn ldiag_view(d: LocaleDiagnostic) -> (Seq<char>, LocaleDiagCode, Seq<char>) {
    (d.path@, d.code, d.detail@)
}

/// An entry as plain values: (id, label, direction).
pub open spec fn entry_view(e: LocaleEntry) -> (Seq<char>, Seq<char>, Seq<char>) {
    (e.id@, e.label@, e.direction@)
}

/// The declared locales taken in order: those with a valid id seen for the
/// first time are kept (direction `ltr` when empty); the others give an
/// error. Returns the kept entries, the errors and the ids kept.
pub open spec fn take_locales(es: Seq<LocaleEntry>, path: Seq<char>) -> (
    Seq<(Seq<char>, Seq<char>, Seq<char>)>,
    Seq<(Seq<char>, LocaleDiagCode, Seq<char>)>,
    Set<Seq<char>>,
)
    decreases es.len(),
{
    if es.len() == 0 {
        (Seq::empty(), Seq::empty(), Set::empty())
    } else {
        let (kept, diags, seen) = take_locales(es.drop_last(), path);
        let e = es.last();
        let id = e.id@;
        match locale_id_error(id) {
            Some(m) => (kept, diags.push((path, LocaleDiagCode::IdInvalid, m)), seen),
            None => if seen.contains(id) {
                (kept, diags.push((path, LocaleDiagCode::IdCollision, "duplicate LocaleId "@ + id + " in locales[]"@)), seen)
            } else {
                (
                    kept.push((id, e.label@, if e.direction@.len() == 0 { "ltr"@ } else { e.direction@ })),
                    diags,
                    seen.insert(id),
                )
            },
        }
    }
}

/// The error for a default locale that is not declared.
pub open spec fn default_diags(default_locale: Seq<char>, seen: Set<Seq<char>>, path: Seq<char>) -> Seq<
    (Seq<char>, LocaleDiagCode, Seq<char>),
> {
    if default_locale.len() == 0 || !seen.contains(default_locale) {
        let q = json_string_of(default_locale);
        seq![(path, LocaleDiagCode::DefaultMissing, "defaultLocale "@ + q + " missing from locales[]"@)]
    } else {
        Seq::empty()
    }
}

/// One chain cleaned: its declared locales kept, one error per other.
pub open spec fn clean_chain(from: Seq<char>, chain: Seq<String>, seen: Set<Seq<char>>, path: Seq<char>) -> (
    Seq<Seq<char>>,
    Seq<(Seq<char>, LocaleDiagCode, Seq<char>)>,
)
    decreases chain.len(),
{
    if chain.len() == 0 {
        (Seq::empty(), Seq::empty())
    } else {
        let (kept, diags) = clean_chain(from, chain.drop_last(), seen, path);
        let next = chain.last()@;
        if seen.contains(next) {
            (kept.push(next), diags)
        } else {
            (kept, diags.push((path, LocaleDiagCode::FallbackUnknown, "fallback "@ + from + " → unknown LocaleId "@ + next)))
        }
    }
}

/// The fallback chains taken in order: a chain of an undeclared locale is
/// dropped with an error, the others are cleaned.
pub open spec fn take_fallback(fb: Seq<(String, Vec<String>)>, seen: Set<Seq<char>>, path: Seq<char>) -> (
    Seq<(Seq<char>, Seq<Seq<char>>)>,
    Seq<(Seq<char>, LocaleDiagCode, Seq<char>)>,
)
    decreases fb.len(),
{
    if fb.len() == 0 {
        (Seq::empty(), Seq::empty())
    } else {
        let (kept, diags) = take_fallback(fb.drop_last(), seen, path);
        let from = fb.last().0@;
        if !seen.contains(from) {
            (kept, diags.push((path, LocaleDiagCode::FallbackUnknown, "fallback key "@ + from + " is not a declared LocaleId"@)))
        } else {
            let (chain, cd) = clean_chain(from, fb.last().1@, seen, path);
            (kept.push((from, chain)), diags + cd)
        }
    }
}

/// A fallback map as plain values.
pub open spec fn fallback_view(fb: Seq<(String, Vec<String>)>) -> Seq<(Seq<char>, Seq<Seq<char>>)> {
    fb.map_values(|e: (String, Vec<String>)| (e.0@, texts(e.1@)))
}

/// The diagnostics before the cycle check, in order.
pub open spec fn plan_diags(file: LocaleManifestFile, path: Seq<char>) -> Seq<(Seq<char>, LocaleDiagCode, Seq<char>)> {
    let (_, d1, seen) = take_locales(file.locales@, path);
    d1 + default_diags(file.default_locale@, seen, path) + take_fallback(file.fallback@, seen, path).1
}

/// The keys of a fallback map.
pub open spec fn fallback_keys(fb: Seq<(String, Vec<String>)>) -> Seq<Seq<char>> {
    fb.map_values(|e: (String, Vec<String>)| e.0@)
}

fn push_diag(out: &mut Vec<LocaleDiagnostic>, path: &String, code: LocaleDiagCode, detail: String)
    ensures
        final(out)@.map_values(|d: LocaleDiagnostic| ldiag_view(d)) == old(out)@.map_values(|d: LocaleDiagnostic| ldiag_view(d)).push(
            (path@, code, detail@),
        ),
{
    let ghost before = out@.map_values(|d: LocaleDiagnostic| ldiag_view(d));
    let ghost dv = detail@;
    out.push(LocaleDiagnostic { path: path.clone(), code, detail });
    proof {
        assert(out@.map_values(|d: LocaleDiagnostic| ldiag_view(d)) =~= before.push((path@, code, dv)));
    }
}

fn cat3(a: &str, b: &str, c: &str) -> (r: String)
    ensures
        r@ == a@ + b@ + c@,
{
    let mut v = to_chars(a);
    crate::text::push_str(&mut v, b);
    crate::text::push_str(&mut v, c);
    crate::text::from_chars(v.as_slice())
}

fn cat4(a: &str, b: &str, c: &str, d: &str) -> (r: String)
    ensures
        r@ == a@ + b@ + c@ + d@,
{
    let mut v = to_chars(a);
    crate::text::push_str(&mut v, b);
    crate::text::push_str(&mut v, c);
    crate::text::push_str(&mut v, d);
    crate::text::from_chars(v.as_slice())
}

fn clean_chain_exec(
    from: &String,
    chain: &Vec<String>,
    seen: &Vec<String>,
    path: &String,
    diags: &mut Vec<LocaleDiagnostic>,
) -> (r: Vec<String>)
    ensures
        texts(r@) == clean_chain(from@, chain@, texts(seen@).to_set(), path@).0,
        final(diags)@.map_values(|d: LocaleDiagnostic| ldiag_view(d)) == old(diags)@.map_values(|d: LocaleDiagnostic| ldiag_view(d))
            + clean_chain(from@, chain@, texts(seen@).to_set(), path@).1,
{
    let ghost start = diags@.map_values(|d: LocaleDiagnostic| ldiag_view(d));
    let ghost seen_set = texts(seen@).to_set();
    let mut kept: Vec<String> = Vec::new();
    let mut i: usize = 0;
    proof {
        assert(chain@.take(0) =~= Seq::<String>::empty());
        assert(texts(kept@) =~= clean_chain(from@, chain@.take(0), seen_set, path@).0);
        assert(diags@.map_values(|d: LocaleDiagnostic| ldiag_view(d)) =~= start + clean_chain(from@, chain@.take(0), seen_set, path@).1);
    }
    while i < chain.len()
        invariant
            i <= chain.len(),
            seen_set == texts(seen@).to_set(),
            texts(kept@) == clean_chain(from@, chain@.take(i as int), seen_set, path@).0,
            diags@.map_values(|d: LocaleDiagnostic| ldiag_view(d)) == start + clean_chain(from@, chain@.take(i as int), seen_set, path@).1,
        decreases chain.len() - i,
    {
        let next = &chain[i];
        proof {
            assert(chain@.take(i + 1).drop_last() =~= chain@.take(i as int));
            assert(chain@.take(i + 1).last() == chain@[i as int]);
        }
        let nv = to_chars(next.as_str());
        let ghost before_kept = texts(kept@);
        let ghost before_diags = diags@.map_values(|d: LocaleDiagnostic| ldiag_view(d));
        if texts_contain(seen, nv.as_slice()) {
            kept.push(next.clone());
            proof {
                assert(texts(kept@) =~= before_kept.push(next@));
            }
        } else {
            push_diag(diags, path, LocaleDiagCode::FallbackUnknown, cat4("fallback ", from.as_str(), " → unknown LocaleId ", next.as_str()));
            proof {
                assert(diags@.map_values(|d: LocaleDiagnostic| ldiag_view(d)) =~= start + clean_chain(from@, chain@.take(i + 1), seen_set, path@).1);
            }
        }
        i = i + 1;
    }
    proof {
        assert(chain@.take(chain.len() as int) =~= chain@);
    }
    kept
}

/// Normalize an author locale manifest read from `source_path`: keep the
/// valid, first-declared locales (direction `ltr` when empty), check the
/// default locale, keep the fallback chains of declared locales with their
/// declared locales, report a loop of fallbacks, and default the routing
/// (`prefix` / `include`) and the missing-message policy (`error`).
pub fn normalize_locale_manifest(file: LocaleManifestFile, source_path: String) -> (r: LocalePlan)
    requires
        crate::order::strictly_sorted(fallback_keys(file.fallback@)),
    ensures
        r.source_path matches Some(p) && p@ == source_path@,
        r.default_locale@ == file.default_locale@,
        r.locales@.map_values(|e: LocaleEntry| entry_view(e)) == take_locales(file.locales@, source_path@).0,
        fallback_view(r.fallback@) == take_fallback(file.fallback@, take_locales(file.locales@, source_path@).2, source_path@).0,
        r.routing.strategy@ == match file.routing {
            Some(p) => p.strategy@,
            None => "prefix"@,
        },
        r.routing.default_prefix@ == match file.routing {
            Some(p) => p.default_prefix@,
            None => "include"@,
        },
        r.missing@ == if file.missing@.len() == 0 {
            "error"@
        } else {
            file.missing@
        },
        r.diagnostics.len() == plan_diags(file, source_path@).len() + if has_cycle(r.fallback@) {
            1int
        } else {
            0int
        },
        r.diagnostics@.map_values(|d: LocaleDiagnostic| ldiag_view(d)).take(plan_diags(file, source_path@).len() as int)
            == plan_diags(file, source_path@),
        has_cycle(r.fallback@) ==> exists|c: Seq<Seq<char>>|
            is_lasso(r.fallback@, c) && #[trigger] ldiag_view(r.diagnostics@.last()) == (
                source_path@,
                LocaleDiagCode::FallbackCycle,
                "fallback cycle: "@ + crate::text::join(c, " → "@),
            ),
{
    let path = source_path;
    let mut diagnostics: Vec<LocaleDiagnostic> = Vec::new();
    let mut locales: Vec<LocaleEntry> = Vec::new();
    let mut seen: Vec<String> = Vec::new();
    let mut i: usize = 0;
    proof {
        assert(file.locales@.take(0) =~= Seq::<LocaleEntry>::empty());
        assert(locales@.map_values(|e: LocaleEntry| entry_view(e)) =~= Seq::<(Seq<char>, Seq<char>, Seq<char>)>::empty());
        assert(diagnostics@.map_values(|d: LocaleDiagnostic| ldiag_view(d)) =~= Seq::<(Seq<char>, LocaleDiagCode, Seq<char>)>::empty());
        assert(texts(seen@).to_set() =~= Set::<Seq<char>>::empty());
    }
    while i < file.locales.len()
        invariant
            i <= file.locales.len(),
            locales@.map_values(|e: LocaleEntry| entry_view(e)) == take_locales(file.locales@.take(i as int), path@).0,
            diagnostics@.map_values(|d: LocaleDiagnostic| ldiag_view(d)) == take_locales(file.locales@.take(i as int), path@).1,
            texts(seen@).to_set() == take_locales(file.locales@.take(i as int), path@).2,
        decreases file.locales.len() - i,
    {
        let e = &file.locales[i];
        proof {
            assert(file.locales@.take(i + 1).drop_last() =~= file.locales@.take(i as int));
            assert(file.locales@.take(i + 1).last() == file.locales@[i as int]);
        }
        let ghost bl = locales@.map_values(|e: LocaleEntry| entry_view(e));
        let ghost bs = texts(seen@);
        match validate_locale_id(e.id.as_str()) {
            Err(m) => {
                push_diag(&mut diagnostics, &path, LocaleDiagCode::IdInvalid, m);
            },
            Ok(()) => {
                let idv = to_chars(e.id.as_str());
                if texts_contain(&seen, idv.as_slice()) {
                    push_diag(
                        &mut diagnostics,
                        &path,
                        LocaleDiagCode::IdCollision,
                        cat3("duplicate LocaleId ", e.id.as_str(), " in locales[]"),
                    );
                } else {
                    seen.push(e.id.clone());
                    let direction = if e.direction.as_str().is_empty() {
                        String::from_str("ltr")
                    } else {
                        e.direction.clone()
                    };
                    locales.push(LocaleEntry { id: e.id.clone(), label: e.label.clone(), direction });
                    proof {
                        lemma_push_set(bs, e.id@);
                        assert(texts(seen@) =~= bs.push(e.id@));
                        assert(locales@.map_values(|e: LocaleEntry| entry_view(e)) =~= take_locales(file.locales@.take(i + 1), path@).0);
                    }
                }
            },
        }
        i = i + 1;
    }
    proof {
        assert(file.locales@.take(file.locales.len() as int) =~= file.locales@);
    }
    let ghost seen_set = texts(seen@).to_set();
    let dv = to_chars(file.default_locale.as_str());
    if file.default_locale.as_str().is_empty() || !texts_contain(&seen, dv.as_slice()) {
        let q = json_string(file.default_locale.as_str());
        push_diag(&mut diagnostics, &path, LocaleDiagCode::DefaultMissing, cat3("defaultLocale ", q.as_str(), " missing from locales[]"));
    }
    let ghost after_default = diagnostics@.map_values(|d: LocaleDiagnostic| ldiag_view(d));
    proof {
        assert(after_default =~= take_locales(file.locales@, path@).1 + default_diags(file.default_locale@, seen_set, path@));
    }
    let mut fallback: Vec<(String, Vec<String>)> = Vec::new();
    let mut k: usize = 0;
    proof {
        assert(file.fallback@.take(0) =~= Seq::<(String, Vec<String>)>::empty());
        assert(fallback_view(fallback@) =~= take_fallback(file.fallback@.take(0), seen_set, path@).0);
        assert(diagnostics@.map_values(|d: LocaleDiagnostic| ldiag_view(d)) =~= after_default + take_fallback(file.fallback@.take(0), seen_set, path@).1);
    }
    while k < file.fallback.len()
        invariant
            k <= file.fallback.len(),
            seen_set == texts(seen@).to_set(),
            fallback_view(fallback@) == take_fallback(file.fallback@.take(k as int), seen_set, path@).0,
            diagnostics@.map_values(|d: LocaleDiagnostic| ldiag_view(d)) == after_default + take_fallback(
                file.fallback@.take(k as int),
                seen_set,
                path@,
            ).1,
        decreases file.fallback.len() - k,
    {
        let from = &file.fallback[k].0;
        let chain = &file.fallback[k].1;
        proof {
            assert(file.fallback@.take(k + 1).drop_last() =~= file.fallback@.take(k as int));
            assert(file.fallback@.take(k + 1).last() == file.fallback@[k as int]);
        }
        let fv = to_chars(from.as_str());
        let ghost bf = fallback_view(fallback@);
        let ghost bd = diagnostics@.map_values(|d: LocaleDiagnostic| ldiag_view(d));
        if !texts_contain(&seen, fv.as_slice()) {
            push_diag(&mut diagnostics, &path, LocaleDiagCode::FallbackUnknown, cat3("fallback key ", from.as_str(), " is not a declared LocaleId"));
            proof {
                assert(diagnostics@.map_values(|d: LocaleDiagnostic| ldiag_view(d)) =~= after_default + take_fallback(
                    file.fallback@.take(k + 1),
                    seen_set,
                    path@,
                ).1);
            }
        } else {
            let cleaned = clean_chain_exec(from, chain, &seen, &path, &mut diagnostics);
            let ghost cv = texts(cleaned@);
            fallback.push((from.clone(), cleaned));
            proof {
                assert(fallback_view(fallback@) =~= bf.push((from@, cv)));
                assert(diagnostics@.map_values(|d: LocaleDiagnostic| ldiag_view(d)) =~= after_default + take_fallback(
                    file.fallback@.take(k + 1),
                    seen_set,
                    path@,
                ).1);
            }
        }
        k = k + 1;
    }
    proof {
        assert(file.fallback@.take(file.fallback.len() as int) =~= file.fallback@);
        assert(diagnostics@.map_values(|d: LocaleDiagnostic| ldiag_view(d)) =~= plan_diags(file, path@));
    }
    let ghost pre = diagnostics@.map_values(|d: LocaleDiagnostic| ldiag_view(d));
    match detect_fallback_cycle(&fallback) {
        Some(c) => {
            let mut m = to_chars("fallback cycle: ");
            let arrow = to_chars(" → ");
            crate::text::push_join(&mut m, c.as_slice(), arrow.as_slice());
            push_diag(&mut diagnostics, &path, LocaleDiagCode::FallbackCycle, crate::text::from_chars(m.as_slice()));
            proof {
                let now = diagnostics@.map_values(|d: LocaleDiagnostic| ldiag_view(d));
                assert(now.take(pre.len() as int) =~= pre);
                assert(ldiag_view(diagnostics@.last()) == now.last());
                assert(is_lasso(fallback@, texts(c@)));
            }
        },
        None => {
            proof {
                assert(diagnostics@.map_values(|d: LocaleDiagnostic| ldiag_view(d)).take(pre.len() as int) =~= pre);
            }
        },
    }
    let routing = match &file.routing {
        Some(p) => LocaleRoutingPolicy { strategy: p.strategy.clone(), default_prefix: p.default_prefix.clone() },
        None => LocaleRoutingPolicy { strategy: String::from_str("prefix"), default_prefix: String::from_str("include") },
    };
    let missing = if file.missing.as_str().is_empty() {
        String::from_str("error")
    } else {
        file.missing.clone()
    };
    LocalePlan {
        source_path: Some(path),
        default_locale: file.default_locale.clone(),
        locales,
        fallback,
        routing,
        missing,
        diagnostics,
    }
}


/// Author JSON5 text degraded to canonical (compact) JSON text; a text that
/// is no JSON5 is refused with the parser's message.
pub fn author_json5_to_canonical_json(source: &str) -> (r: Result<String, String>)
    ensures
        match r {
            Ok(s) => crate::json::json5_of_text(source@) is Some && s@ == crate::json::compact(
                crate::json::json5_of_text(source@)->0,
            ),
            Err(e) => crate::json::json5_of_text(source@) is None && e@ == "JSON5 parse error: "@
                + crate::json::json5_error_of(source@),
        },
{
    match crate::json::parse_json5_text(source) {
        Ok(v) => Ok(crate::json::to_json_text(&v)),
        Err(e) => {
            let mut m = to_chars("JSON5 parse error: ");
            crate::text::push_str(&mut m, e.as_str());
            Err(crate::text::from_chars(m.as_slice()))
        },
    }
}

} // verus!
